//! Names filed character by character, so that a value can be found by its
//! full name or by any prefix of it.

use crate::text::chars_of;
use vstd::prelude::*;

verus! {

/// A trie from names to values: each node may hold the value for the name
/// spelled by the path to it, and has one child per next character.
pub struct NameTrie<T> {
    t: Option<T>,
    children: Vec<(char, NameTrie<T>)>,
}

/// `i` is the first child filed under `c`.
pub open spec fn is_first<T>(cs: Seq<(char, NameTrie<T>)>, c: char, i: int) -> bool {
    &&& 0 <= i < cs.len()
    &&& cs[i].0 == c
    &&& forall|j: int| 0 <= j < i ==> cs[j].0 != c
}

/// The index of the first child filed under `c`, or -1 when there is none.
pub open spec fn first_index<T>(cs: Seq<(char, NameTrie<T>)>, c: char) -> int {
    if exists|i: int| is_first(cs, c, i) {
        choose|i: int| is_first(cs, c, i)
    } else {
        -1
    }
}

proof fn lemma_first_index<T>(cs: Seq<(char, NameTrie<T>)>, c: char, i: int)
    requires
        is_first(cs, c, i),
    ensures
        first_index(cs, c) == i,
{
    let k = choose|k: int| is_first(cs, c, k);
    assert(is_first(cs, c, k));
    assert(!(k < i));
    assert(!(i < k));
}

proof fn lemma_first_index_none<T>(cs: Seq<(char, NameTrie<T>)>, c: char)
    requires
        forall|j: int| 0 <= j < cs.len() ==> cs[j].0 != c,
    ensures
        first_index(cs, c) == -1,
{
}

proof fn lemma_first_index_bounds<T>(cs: Seq<(char, NameTrie<T>)>, c: char)
    ensures
        first_index(cs, c) == -1 || is_first(cs, c, first_index(cs, c)),
{
}

proof fn lemma_map_ext<K, V>(a: Map<K, V>, b: Map<K, V>)
    requires
        forall|q: K| #[trigger] a.contains_key(q) == b.contains_key(q),
        forall|q: K| #[trigger] a.contains_key(q) ==> a[q] == b[q],
    ensures
        a == b,
{
    assert(a =~= b);
}

/// `first_index` reads only the children's characters.
proof fn lemma_first_index_same_chars<T>(a: Seq<(char, NameTrie<T>)>, b: Seq<(char, NameTrie<T>)>, c: char)
    requires
        a.len() == b.len(),
        forall|m: int| 0 <= m < a.len() ==> a[m].0 == b[m].0,
    ensures
        first_index(a, c) == first_index(b, c),
{
    lemma_first_index_bounds(a, c);
    lemma_first_index_bounds(b, c);
    if first_index(a, c) >= 0 {
        let f = first_index(a, c);
        assert(is_first(b, c, f));
        lemma_first_index(b, c, f);
    } else if first_index(b, c) >= 0 {
        let f = first_index(b, c);
        assert(is_first(a, c, f));
        lemma_first_index(a, c, f);
    }
}

/// A child appended under another character leaves `first_index` as it was.
proof fn lemma_first_index_push<T>(a: Seq<(char, NameTrie<T>)>, c: char, e: (char, NameTrie<T>))
    requires
        e.0 != c,
    ensures
        first_index(a.push(e), c) == first_index(a, c),
{
    let b = a.push(e);
    lemma_first_index_bounds(a, c);
    lemma_first_index_bounds(b, c);
    if first_index(a, c) >= 0 {
        let f = first_index(a, c);
        assert(is_first(b, c, f));
        lemma_first_index(b, c, f);
    } else if first_index(b, c) >= 0 {
        let f = first_index(b, c);
        assert(b[f].0 == c);
        assert(f != a.len());
        assert forall|j: int| 0 <= j < f implies a[j].0 != c by {
            assert(a[j] == b[j]);
        }
        assert(a[f] == b[f]);
        assert(is_first(a, c, f));
        lemma_first_index(a, c, f);
    }
}

/// A nonempty name has a value here when it has one below the child under
/// its first character, and the same value.
proof fn lemma_view_step<T>(n: NameTrie<T>, q: Seq<char>)
    requires
        q.len() > 0,
    ensures
        ({
            let f = first_index(n.children@, q[0]);
            &&& n@.contains_key(q) == (f >= 0 && n.children@[f].1@.contains_key(q.drop_first()))
            &&& n@.contains_key(q) ==> n@[q] == n.children@[f].1@[q.drop_first()]
        }),
{
}

impl<T> NameTrie<T> {
    /// The value held at this node itself.
    pub closed spec fn own(self) -> Option<T> {
        self.t
    }

    /// The node that the characters of `k` lead to from this one.
    pub closed spec fn node_at(self, k: Seq<char>) -> Option<NameTrie<T>>
        decreases k.len(),
    {
        if k.len() == 0 {
            Some(self)
        } else {
            let i = first_index(self.children@, k[0]);
            if i < 0 {
                None
            } else {
                self.children@[i].1.node_at(k.drop_first())
            }
        }
    }

    /// The values below this node, each with the rest of its name, in the
    /// order in which a walk of the trie meets them.
    pub closed spec fn items(self) -> Seq<(Seq<char>, T)>
        decreases self,
    {
        let own = match self.t {
            Some(t) => seq![(Seq::<char>::empty(), t)],
            None => Seq::empty(),
        };
        proof {
            assert(decreases_to!(self => self.children));
            assert(decreases_to!(self.children => self.children@));
        }
        own + children_items(self.children@)
    }

    /// Well-formed: no two children of a node are filed under one character.
    pub closed spec fn wf(self) -> bool
        decreases self,
    {
        &&& forall|i: int, j: int|
            0 <= i < j < self.children@.len() ==> self.children@[i].0 != self.children@[j].0
        &&& forall|i: int|
            0 <= i < self.children@.len() ==> {
                proof {
                    assert(decreases_to!(self => self.children));
                    assert(decreases_to!(self.children => self.children@));
                    assert(decreases_to!(self.children@ => self.children@[i]));
                }
                (#[trigger] self.children@[i]).1.wf()
            }
    }
}

/// The items below each child, in the children's order, each name led by
/// the child's character.
pub open spec fn children_items<T>(cs: Seq<(char, NameTrie<T>)>) -> Seq<(Seq<char>, T)>
    decreases cs,
{
    if cs.len() == 0 {
        Seq::empty()
    } else {
        let c = cs.last().0;
        proof {
            assert(decreases_to!(cs => cs[cs.len() - 1]));
            assert(decreases_to!(cs[cs.len() - 1] => cs[cs.len() - 1].1));
        }
        children_items(cs.drop_last()) + cs.last().1.items().map_values(
            |p: (Seq<char>, T)| (seq![c] + p.0, p.1),
        )
    }
}

impl<T> View for NameTrie<T> {
    type V = Map<Seq<char>, T>;

    /// Each name with the value filed under it.
    open spec fn view(&self) -> Map<Seq<char>, T> {
        Map::new(
            |k: Seq<char>| self.node_at(k) matches Some(n) && n.own() is Some,
            |k: Seq<char>| self.node_at(k)->0.own()->0,
        )
    }
}

/// Following `a` and then `b` is following `a + b`.
proof fn lemma_node_at_concat<T>(n: NameTrie<T>, a: Seq<char>, b: Seq<char>)
    ensures
        n.node_at(a + b) == match n.node_at(a) {
            Some(m) => m.node_at(b),
            None => None,
        },
    decreases a.len(),
{
    if a.len() == 0 {
        assert(a + b =~= b);
    } else {
        assert((a + b)[0] == a[0]);
        assert((a + b).drop_first() =~= a.drop_first() + b);
        let i = first_index(n.children@, a[0]);
        if i >= 0 {
            lemma_node_at_concat(n.children@[i].1, a.drop_first(), b);
        }
    }
}

impl<T> Default for NameTrie<T> {
    fn default() -> (r: Self)
        ensures
            r@ == Map::<Seq<char>, T>::empty(),
            r.wf(),
    {
        let r = NameTrie { t: None, children: Vec::new() };
        assert(r@ =~= Map::<Seq<char>, T>::empty()) by {
            assert forall|k: Seq<char>| !r@.contains_key(k) by {
                if k.len() > 0 {
                    lemma_first_index_none(r.children@, k[0]);
                }
            }
        }
        r
    }
}

impl<T> NameTrie<T> {
    /// The index of the first child under `c`, if any.
    fn find_child(&self, c: char) -> (r: Option<usize>)
        ensures
            match r {
                Some(i) => is_first(self.children@, c, i as int) && first_index(self.children@, c)
                    == i,
                None => first_index(self.children@, c) == -1 && forall|j: int|
                    0 <= j < self.children@.len() ==> self.children@[j].0 != c,
            },
    {
        let mut i: usize = 0;
        while i < self.children.len()
            invariant
                i <= self.children@.len(),
                forall|j: int| 0 <= j < i ==> self.children@[j].0 != c,
            decreases self.children@.len() - i,
        {
            if self.children[i].0 == c {
                proof {
                    lemma_first_index(self.children@, c, i as int);
                }
                return Some(i);
            }
            i = i + 1;
        }
        proof {
            lemma_first_index_none(self.children@, c);
        }
        None
    }

    /// Appends to `acc` every value below this node, in walk order.
    fn collect<'a>(&'a self, acc: &mut Vec<&'a T>)
        ensures
            final(acc)@.len() == old(acc)@.len() + self.items().len(),
            forall|j: int| 0 <= j < old(acc)@.len() ==> final(acc)@[j] == old(acc)@[j],
            forall|j: int|
                0 <= j < self.items().len() ==> *final(acc)@[old(acc)@.len() + j]
                    == (#[trigger] self.items()[j]).1,
        decreases self,
    {
        let ghost start = acc@.len();
        let ghost acc_in = acc@;
        let ghost own: Seq<(Seq<char>, T)> = if self.t is Some {
            seq![(Seq::<char>::empty(), self.t->0)]
        } else {
            Seq::empty()
        };
        if let Some(t) = &self.t {
            acc.push(t);
        }
        let ghost acc0 = acc@;
        let ghost cs = self.children@;
        let mut i: usize = 0;
        assert(cs.take(0) =~= Seq::<(char, NameTrie<T>)>::empty());
        while i < self.children.len()
            invariant
                cs == self.children@,
                i <= cs.len(),
                acc0.len() == start + own.len(),
                own.len() == 0 || own.len() == 1,
                acc_in.len() == start,
                forall|j: int| 0 <= j < start ==> acc0[j] == acc_in[j],
                own.len() == 1 ==> *acc0[start as int] == own[0].1,
                acc@.len() == acc0.len() + children_items(cs.take(i as int)).len(),
                forall|j: int| 0 <= j < acc0.len() ==> acc@[j] == acc0[j],
                forall|j: int|
                    0 <= j < children_items(cs.take(i as int)).len() ==> *acc@[acc0.len() + j]
                        == (#[trigger] children_items(cs.take(i as int))[j]).1,
            decreases cs.len() - i,
        {
            assert(decreases_to!(*self => self.children));
            assert(decreases_to!(self.children => self.children@));
            assert(decreases_to!(self.children@ => self.children@[i as int]));
            assert(decreases_to!(self.children@[i as int] => self.children@[i as int].1));
            let ghost before = acc@;
            self.children[i].1.collect(acc);
            proof {
                let c = cs[i as int].0;
                assert(cs.take(i + 1).drop_last() =~= cs.take(i as int));
                assert(cs.take(i + 1).last() == cs[i as int]);
                let prev = children_items(cs.take(i as int));
                let sub = cs[i as int].1.items();
                let added = sub.map_values(|p: (Seq<char>, T)| (seq![c] + p.0, p.1));
                assert(children_items(cs.take(i + 1)) == prev + added);
                assert forall|j: int|
                    0 <= j < children_items(cs.take(i + 1)).len() implies *acc@[acc0.len() + j]
                    == (#[trigger] children_items(cs.take(i + 1))[j]).1 by {
                    if j >= prev.len() {
                        assert(added[j - prev.len()].1 == sub[j - prev.len()].1);
                    }
                }
            }
            i = i + 1;
        }
        assert(cs.take(cs.len() as int) =~= cs);
        assert(self.items() == own + children_items(cs));
        assert forall|j: int|
            0 <= j < self.items().len() implies *acc@[start + j] == (#[trigger] self.items()[j]).1 by {
            if j < own.len() {
            } else {
                assert(self.items()[j] == children_items(cs)[j - own.len()]);
            }
        }
    }

    /// What a lookup by `name` finds: the value filed under `name` itself
    /// if there is one, else the values below the node `name` leads to.
    pub open spec fn lookup(self, name: Seq<char>) -> Seq<T> {
        match self.node_at(name) {
            None => Seq::empty(),
            Some(n) => match n.own() {
                Some(t) => seq![t],
                None => n.items().map_values(|p: (Seq<char>, T)| p.1),
            },
        }
    }

    /// Every value whose name begins with `name`; where `name` is itself a
    /// name with a value, that value alone, even if longer names match too.
    pub fn get(&self, name: &str) -> (r: Vec<&T>)
        ensures
            r@.len() == self.lookup(name@).len(),
            forall|j: int| 0 <= j < r@.len() ==> *r@[j] == #[trigger] self.lookup(name@)[j],
            match self.node_at(name@) {
                None => r@.len() == 0,
                Some(n) => match n.own() {
                    Some(t) => r@.len() == 1 && *r@[0] == t,
                    None => r@.len() == n.items().len() && forall|j: int|
                        0 <= j < r@.len() ==> *r@[j] == (#[trigger] n.items()[j]).1,
                },
            },
    {
        let cs = chars_of(name);
        let mut n = self;
        let mut i: usize = 0;
        assert(cs@.take(0) =~= Seq::<char>::empty());
        while i < cs.len()
            invariant
                cs@ == name@,
                i <= cs@.len(),
                self.node_at(cs@.take(i as int)) == Some(*n),
            decreases cs@.len() - i,
        {
            proof {
                lemma_node_at_concat(*self, cs@.take(i as int), seq![cs@[i as int]]);
                assert(cs@.take(i as int) + seq![cs@[i as int]] =~= cs@.take(i + 1));
                assert(seq![cs@[i as int]].drop_first() =~= Seq::<char>::empty());
            }
            let ghost prev = *n;
            match n.find_child(cs[i]) {
                None => {
                    proof {
                        lemma_node_at_concat(*self, cs@.take(i + 1), cs@.skip(i + 1));
                        assert(cs@.take(i + 1) + cs@.skip(i + 1) =~= cs@);
                    }
                    return Vec::new();
                },
                Some(j) => {
                    n = &n.children[j].1;
                    assert(n.node_at(Seq::empty()) == Some(*n));
                    assert(prev.node_at(seq![cs@[i as int]]) == Some(*n));
                },
            }
            i = i + 1;
        }
        assert(cs@.take(i as int) =~= cs@);
        if let Some(t) = &n.t {
            let mut r: Vec<&T> = Vec::new();
            r.push(t);
            return r;
        }
        let mut acc: Vec<&T> = Vec::new();
        n.collect(&mut acc);
        acc
    }

    /// The value filed under exactly `name`, if any.
    pub fn get_exact(&self, name: &str) -> (r: Option<&T>)
        ensures
            match r {
                Some(t) => self@.contains_key(name@) && *t == self@[name@],
                None => !self@.contains_key(name@),
            },
    {
        let cs = chars_of(name);
        let mut n = self;
        let mut i: usize = 0;
        assert(cs@.take(0) =~= Seq::<char>::empty());
        while i < cs.len()
            invariant
                cs@ == name@,
                i <= cs@.len(),
                self.node_at(cs@.take(i as int)) == Some(*n),
            decreases cs@.len() - i,
        {
            proof {
                lemma_node_at_concat(*self, cs@.take(i as int), seq![cs@[i as int]]);
                assert(cs@.take(i as int) + seq![cs@[i as int]] =~= cs@.take(i + 1));
                assert(seq![cs@[i as int]].drop_first() =~= Seq::<char>::empty());
            }
            let ghost prev = *n;
            match n.find_child(cs[i]) {
                None => {
                    proof {
                        lemma_node_at_concat(*self, cs@.take(i + 1), cs@.skip(i + 1));
                        assert(cs@.take(i + 1) + cs@.skip(i + 1) =~= cs@);
                    }
                    return None;
                },
                Some(j) => {
                    n = &n.children[j].1;
                    assert(n.node_at(Seq::empty()) == Some(*n));
                    assert(prev.node_at(seq![cs@[i as int]]) == Some(*n));
                },
            }
            i = i + 1;
        }
        assert(cs@.take(i as int) =~= cs@);
        match &n.t {
            Some(t) => Some(t),
            None => None,
        }
    }

    /// Whether `name` has a value filed under it.
    pub fn contains(&self, name: &str) -> (r: bool)
        ensures
            r == self@.contains_key(name@),
    {
        self.get_exact(name).is_some()
    }

    /// Files `t` under `k[i..]` below this node.
    fn insert_chars(&mut self, k: &Vec<char>, i: usize, t: T)
        requires
            i <= k@.len(),
            old(self).wf(),
            !old(self)@.contains_key(k@.skip(i as int)),
        ensures
            final(self)@ == old(self)@.insert(k@.skip(i as int), t),
            final(self).wf(),
        decreases k@.len() - i,
    {
        let ghost rest = k@.skip(i as int);
        let ghost old_self = *self;
        if i == k.len() {
            assert(rest =~= Seq::<char>::empty());
            self.t = Some(t);
            proof {
                let target = old_self@.insert(rest, t);
                assert forall|q: Seq<char>|
                    #[trigger] self@.contains_key(q) == target.contains_key(q) && (self@.contains_key(q)
                        ==> self@[q] == target[q]) by {
                    if q.len() == 0 {
                        assert(q =~= rest);
                    } else {
                        lemma_view_step(*self, q);
                        lemma_view_step(old_self, q);
                    }
                }
                lemma_map_ext(self@, target);
            }
            return;
        }
        let c = k[i];
        let ghost rest1 = k@.skip(i + 1);
        assert(rest.drop_first() =~= rest1);
        assert(rest[0] == c);
        let j: usize = match self.find_child(c) {
            Some(j) => j,
            None => {
                let ghost before = self.children@;
                self.children.push((c, NameTrie::default()));
                proof {
                    let e = self.children@.last();
                    assert(self.children@ == before.push(e));
                    lemma_first_index(self.children@, c, before.len() as int);
                    assert(e.1@ =~= Map::<Seq<char>, T>::empty());
                    assert forall|q: Seq<char>|
                        #[trigger] self@.contains_key(q) == old_self@.contains_key(q) && (
                        self@.contains_key(q) ==> self@[q] == old_self@[q]) by {
                        if q.len() > 0 {
                            lemma_view_step(*self, q);
                            lemma_view_step(old_self, q);
                            if q[0] != c {
                                lemma_first_index_push(before, q[0], e);
                            } else {
                                assert(!e.1@.contains_key(q.drop_first()));
                            }
                        }
                    }
                    lemma_map_ext(self@, old_self@);
                }
                self.children.len() - 1
            },
        };
        let ghost mid = *self;
        assert(mid@ =~= old_self@);
        assert(is_first(mid.children@, c, j as int));
        assert(first_index(mid.children@, c) == j);
        proof {
            lemma_view_step(mid, rest);
            assert(mid.wf());
        }
        let (c0, mut child) = self.children.remove(j);
        assert(c0 == c);
        assert(child == mid.children@[j as int].1);
        child.insert_chars(k, i + 1, t);
        self.children.insert(j, (c0, child));
        proof {
            assert(self.children@ =~= mid.children@.update(j as int, (c, child)));
            let target = mid@.insert(rest, t);
            assert forall|q: Seq<char>|
                #[trigger] self@.contains_key(q) == target.contains_key(q) && (self@.contains_key(q)
                    ==> self@[q] == target[q]) by {
                if q.len() > 0 {
                    lemma_view_step(*self, q);
                    lemma_view_step(mid, q);
                    lemma_first_index_same_chars(mid.children@, self.children@, q[0]);
                    if q[0] == c {
                        if q.drop_first() == rest1 {
                            assert(q =~= seq![c] + rest1);
                            assert(rest =~= seq![c] + rest1);
                        } else {
                            assert(q != rest);
                        }
                    } else {
                        lemma_first_index_bounds(mid.children@, q[0]);
                        assert(q != rest);
                    }
                } else {
                    assert(q != rest);
                }
            }
            lemma_map_ext(self@, target);
            assert forall|a: int, b: int|
                0 <= a < b < self.children@.len() implies self.children@[a].0
                != self.children@[b].0 by {
                assert(mid.children@[a].0 == self.children@[a].0);
                assert(mid.children@[b].0 == self.children@[b].0);
            }
            assert forall|a: int| 0 <= a < self.children@.len() implies (
            #[trigger] self.children@[a]).1.wf() by {
                if a != j {
                    assert(self.children@[a] == mid.children@[a]);
                }
            }
        }
    }

    /// Files `t` under `name`; the name must not have a value yet.
    pub fn insert(&mut self, name: &str, t: T)
        requires
            old(self).wf(),
            !old(self)@.contains_key(name@),
        ensures
            final(self)@ == old(self)@.insert(name@, t),
            final(self).wf(),
    {
        let cs = chars_of(name);
        assert(cs@.skip(0) =~= cs@);
        self.insert_chars(&cs, 0, t);
    }
}


/// Every item below `n` names a value of `n`, and every name with a value
/// is among the items.
pub closed spec fn items_exact<T>(n: NameTrie<T>) -> bool {
    &&& forall|j: int|
        0 <= j < n.items().len() ==> n@.contains_key(#[trigger] n.items()[j].0) && n@[n.items()[j].0]
            == n.items()[j].1
    &&& forall|k: Seq<char>|
        n@.contains_key(k) ==> exists|j: int| 0 <= j < n.items().len() && #[trigger] n.items()[j].0 == k
}

proof fn lemma_children_items_concat<T>(a: Seq<(char, NameTrie<T>)>, b: Seq<(char, NameTrie<T>)>)
    ensures
        children_items(a + b) == children_items(a) + children_items(b),
    decreases b.len(),
{
    if b.len() == 0 {
        assert(a + b =~= a);
        assert(children_items(a) + children_items(b) =~= children_items(a));
    } else {
        lemma_children_items_concat(a, b.drop_last());
        assert((a + b).drop_last() =~= a + b.drop_last());
        assert((a + b).last() == b.last());
        assert(children_items(a + b) =~= children_items(a) + children_items(b));
    }
}

/// Where the items of child `f` sit among the items of all children.
proof fn lemma_children_items_at<T>(cs: Seq<(char, NameTrie<T>)>, f: int, i: int)
    requires
        0 <= f < cs.len(),
        0 <= i < cs[f].1.items().len(),
    ensures
        ({
            let off = children_items(cs.take(f)).len();
            &&& off + i < children_items(cs).len()
            &&& children_items(cs)[off + i] == (seq![cs[f].0] + cs[f].1.items()[i].0, cs[f].1.items()[i].1)
        }),
{
    let head = cs.take(f);
    let one = seq![cs[f]];
    let tail = cs.skip(f + 1);
    assert(cs =~= head + one + tail);
    lemma_children_items_concat(head + one, tail);
    lemma_children_items_concat(head, one);
    assert(one.drop_last() =~= Seq::<(char, NameTrie<T>)>::empty());
    assert(children_items(Seq::<(char, NameTrie<T>)>::empty()) =~= Seq::empty());
    let mapped = cs[f].1.items().map_values(|p: (Seq<char>, T)| (seq![cs[f].0] + p.0, p.1));
    assert(children_items(one) =~= mapped);
    assert(children_items(cs) == children_items(head) + mapped + children_items(tail));
    assert(children_items(cs)[children_items(head).len() + i] == mapped[i]);
}

/// Each item of all the children comes from one child.
proof fn lemma_children_items_from<T>(cs: Seq<(char, NameTrie<T>)>, j: int)
    requires
        0 <= j < children_items(cs).len(),
    ensures
        exists|f: int, i: int|
            0 <= f < cs.len() && 0 <= i < cs[f].1.items().len() && children_items(cs)[j] == (
            seq![cs[f].0] + cs[f].1.items()[i].0, cs[f].1.items()[i].1),
    decreases cs.len(),
{
    let prev = children_items(cs.drop_last());
    if j < prev.len() {
        lemma_children_items_from(cs.drop_last(), j);
        let (f, i) = choose|f: int, i: int|
            0 <= f < cs.drop_last().len() && 0 <= i < cs.drop_last()[f].1.items().len()
                && prev[j] == (seq![cs.drop_last()[f].0] + cs.drop_last()[f].1.items()[i].0,
            cs.drop_last()[f].1.items()[i].1);
        assert(cs[f] == cs.drop_last()[f]);
    } else {
        let f = cs.len() - 1;
        let i = j - prev.len();
        assert(children_items(cs)[j] == (seq![cs[f].0] + cs[f].1.items()[i].0, cs[f].1.items()[i].1));
    }
}

proof fn lemma_items_exact<T>(n: NameTrie<T>)
    requires
        n.wf(),
    ensures
        items_exact(n),
    decreases n,
{
    let cs = n.children@;
    assert forall|m: int| 0 <= m < cs.len() implies items_exact(#[trigger] cs[m].1) by {
        assert(decreases_to!(n => n.children));
        assert(decreases_to!(n.children => n.children@));
        assert(decreases_to!(n.children@ => n.children@[m]));
        assert(cs[m].1.wf());
        lemma_items_exact(cs[m].1);
    }
    let own: Seq<(Seq<char>, T)> = if n.t is Some {
        seq![(Seq::<char>::empty(), n.t->0)]
    } else {
        Seq::empty()
    };
    assert(n.items() == own + children_items(cs));
    assert(n.node_at(Seq::empty()) == Some(n));
    assert forall|j: int| 0 <= j < n.items().len() implies n@.contains_key(#[trigger] n.items()[j].0)
        && n@[n.items()[j].0] == n.items()[j].1 by {
        if j >= own.len() {
            let jj = j - own.len();
            assert(n.items()[j] == children_items(cs)[jj]);
            lemma_children_items_from(cs, jj);
            let (f, i) = choose|f: int, i: int|
                0 <= f < cs.len() && 0 <= i < cs[f].1.items().len() && children_items(cs)[jj] == (
                seq![cs[f].0] + cs[f].1.items()[i].0, cs[f].1.items()[i].1);
            let k = seq![cs[f].0] + cs[f].1.items()[i].0;
            assert(k[0] == cs[f].0);
            assert(k.drop_first() =~= cs[f].1.items()[i].0);
            assert(is_first(cs, cs[f].0, f));
            lemma_first_index(cs, cs[f].0, f);
            lemma_view_step(n, k);
            assert(items_exact(cs[f].1));
            assert(cs[f].1@.contains_key(cs[f].1.items()[i].0));
        }
    }
    assert forall|k: Seq<char>| n@.contains_key(k) implies exists|j: int|
        0 <= j < n.items().len() && #[trigger] n.items()[j].0 == k by {
        if k.len() == 0 {
            assert(n.items()[0].0 == k);
        } else {
            lemma_view_step(n, k);
            let f = first_index(cs, k[0]);
            assert(items_exact(cs[f].1));
            let i = choose|i: int| 0 <= i < cs[f].1.items().len() && #[trigger] cs[f].1.items()[i].0
                == k.drop_first();
            lemma_children_items_at(cs, f, i);
            lemma_first_index_bounds(cs, k[0]);
            let off = children_items(cs.take(f)).len();
            assert(k =~= seq![cs[f].0] + cs[f].1.items()[i].0);
            assert(n.items()[own.len() + off + i].0 == k);
        }
    }
}

/// What a lookup by `name` answers, in terms of the names filed: when
/// `name` itself is filed, its value; otherwise the items below the node
/// `name` leads to are exactly the filed names that begin with `name`, each
/// with its value; when `name` leads nowhere, no filed name begins with it.
pub proof fn law_get_matches<T>(trie: NameTrie<T>, name: Seq<char>)
    requires
        trie.wf(),
    ensures
        match trie.node_at(name) {
            None => forall|k: Seq<char>| !#[trigger] trie@.contains_key(name + k),
            Some(n) => {
                &&& trie@.contains_key(name) ==> n.own() == Some(trie@[name])
                &&& forall|j: int|
                    0 <= j < n.items().len() ==> trie@.contains_key(name + #[trigger] n.items()[j].0)
                        && trie@[name + n.items()[j].0] == n.items()[j].1
                &&& forall|k: Seq<char>|
                    #[trigger] trie@.contains_key(name + k) ==> exists|j: int|
                        0 <= j < n.items().len() && #[trigger] n.items()[j].0 == k
            },
        },
{
    assert(name + Seq::<char>::empty() =~= name);
    assert forall|k: Seq<char>| #[trigger] trie.node_at(name + k) == match trie.node_at(name) {
        Some(m) => m.node_at(k),
        None => None,
    } by {
        lemma_node_at_concat(trie, name, k);
    }
    if let Some(n) = trie.node_at(name) {
        lemma_wf_node_at(trie, name);
        lemma_items_exact(n);
        assert(n.node_at(Seq::empty()) == Some(n));
        assert forall|j: int| 0 <= j < n.items().len() implies trie@.contains_key(
            name + #[trigger] n.items()[j].0) && trie@[name + n.items()[j].0] == n.items()[j].1 by {
            assert(n@.contains_key(n.items()[j].0));
        }
        assert forall|k: Seq<char>| #[trigger] trie@.contains_key(name + k) implies exists|j: int|
            0 <= j < n.items().len() && #[trigger] n.items()[j].0 == k by {
            assert(n@.contains_key(k));
        }
    }
}

/// No two items carry one name.
pub open spec fn names_distinct<T>(s: Seq<(Seq<char>, T)>) -> bool {
    forall|a: int, b: int| 0 <= a < b < s.len() ==> #[trigger] s[a].0 != #[trigger] s[b].0
}

proof fn lemma_children_names_distinct<T>(cs: Seq<(char, NameTrie<T>)>)
    requires
        forall|a: int, b: int| 0 <= a < b < cs.len() ==> cs[a].0 != cs[b].0,
        forall|m: int| 0 <= m < cs.len() ==> names_distinct(#[trigger] cs[m].1.items()),
    ensures
        names_distinct(children_items(cs)),
    decreases cs.len(),
{
    if cs.len() > 0 {
        let init = cs.drop_last();
        let c = cs.last().0;
        let sub = cs.last().1.items();
        assert forall|m: int| 0 <= m < init.len() implies names_distinct(#[trigger] init[m].1.items()) by {
            assert(init[m] == cs[m]);
        }
        lemma_children_names_distinct(init);
        let prev = children_items(init);
        let mapped = sub.map_values(|p: (Seq<char>, T)| (seq![c] + p.0, p.1));
        let all = children_items(cs);
        assert(all == prev + mapped);
        assert(names_distinct(sub));
        assert forall|a: int, b: int| 0 <= a < b < all.len() implies #[trigger] all[a].0 != #[trigger] all[b].0 by {
            if b < prev.len() {
                assert(all[a] == prev[a] && all[b] == prev[b]);
            } else if a >= prev.len() {
                let ia = a - prev.len();
                let ib = b - prev.len();
                assert(all[a].0 == seq![c] + sub[ia].0);
                assert(all[b].0 == seq![c] + sub[ib].0);
                if all[a].0 == all[b].0 {
                    assert(sub[ia].0 =~= all[a].0.drop_first());
                    assert(sub[ib].0 =~= all[b].0.drop_first());
                }
            } else {
                lemma_children_items_from(init, a);
                let (f, i) = choose|f: int, i: int|
                    0 <= f < init.len() && 0 <= i < init[f].1.items().len() && prev[a] == (
                    seq![init[f].0] + init[f].1.items()[i].0, init[f].1.items()[i].1);
                assert(all[a] == prev[a]);
                assert(all[a].0[0] == init[f].0);
                assert(all[b].0 == seq![c] + sub[b - prev.len()].0);
                assert(all[b].0[0] == c);
                assert(init[f] == cs[f]);
            }
        }
    }
}

proof fn lemma_items_distinct<T>(n: NameTrie<T>)
    requires
        n.wf(),
    ensures
        names_distinct(n.items()),
    decreases n,
{
    let cs = n.children@;
    assert forall|m: int| 0 <= m < cs.len() implies names_distinct(#[trigger] cs[m].1.items()) by {
        assert(decreases_to!(n => n.children));
        assert(decreases_to!(n.children => n.children@));
        assert(decreases_to!(n.children@ => n.children@[m]));
        assert(cs[m].1.wf());
        lemma_items_distinct(cs[m].1);
    }
    lemma_children_names_distinct(cs);
    let own: Seq<(Seq<char>, T)> = if n.t is Some {
        seq![(Seq::<char>::empty(), n.t->0)]
    } else {
        Seq::empty()
    };
    assert(n.items() == own + children_items(cs));
    assert forall|a: int, b: int| 0 <= a < b < n.items().len() implies #[trigger] n.items()[a].0
        != #[trigger] n.items()[b].0 by {
        if a < own.len() {
            let jb = b - own.len();
            lemma_children_items_from(cs, jb);
            let (f, i) = choose|f: int, i: int|
                0 <= f < cs.len() && 0 <= i < cs[f].1.items().len() && children_items(cs)[jb] == (
                seq![cs[f].0] + cs[f].1.items()[i].0, cs[f].1.items()[i].1);
            assert(n.items()[b].0.len() > 0);
        } else {
            assert(n.items()[a] == children_items(cs)[a - own.len()]);
            assert(n.items()[b] == children_items(cs)[b - own.len()]);
        }
    }
}

/// `ks` are, once each, the name endings under which `lookup(name)`
/// lists its values, and every filed name that begins with `name` ends in
/// one of them.
pub open spec fn lists_once<T>(trie: NameTrie<T>, name: Seq<char>, ks: Seq<Seq<char>>) -> bool {
    &&& ks.no_duplicates()
    &&& ks.len() == trie.lookup(name).len()
    &&& forall|j: int|
        0 <= j < ks.len() ==> trie@.contains_key(name + #[trigger] ks[j]) && trie.lookup(name)[j] == trie@[name
            + ks[j]]
    &&& forall|k: Seq<char>| #[trigger] trie@.contains_key(name + k) ==> ks.contains(k)
}

/// A lookup by `name` lists each match once: when `name` is not filed
/// itself, its answer holds, in some order and once each, the value of
/// every filed name that `name` begins, and nothing else.
pub proof fn law_lookup_each_once<T>(trie: NameTrie<T>, name: Seq<char>)
    requires
        trie.wf(),
        !trie@.contains_key(name),
    ensures
        exists|ks: Seq<Seq<char>>| #[trigger] lists_once(trie, name, ks),
{
    law_get_matches(trie, name);
    match trie.node_at(name) {
        None => {
            let ks: Seq<Seq<char>> = Seq::empty();
            assert forall|k: Seq<char>| #[trigger] trie@.contains_key(name + k) implies ks.contains(k) by {
            }
            assert(trie.lookup(name).len() == 0);
            assert(lists_once(trie, name, ks));
        },
        Some(n) => {
            lemma_wf_node_at(trie, name);
            lemma_items_distinct(n);
            assert(n.own() is None) by {
                lemma_items_exact(n);
                if n.own() is Some {
                    assert(n.node_at(Seq::empty()) == Some(n));
                    assert(name + Seq::<char>::empty() =~= name);
                    assert(trie.node_at(name + Seq::<char>::empty()) == Some(n)) by {
                        lemma_node_at_concat(trie, name, Seq::<char>::empty());
                    }
                }
            }
            let items = n.items();
            let ks = items.map_values(|p: (Seq<char>, T)| p.0);
            assert(trie.lookup(name) == items.map_values(|p: (Seq<char>, T)| p.1));
            assert forall|a: int, b: int| 0 <= a < ks.len() && 0 <= b < ks.len() && a != b implies ks[a]
                != ks[b] by {
                if a < b {
                    assert(items[a].0 != items[b].0);
                } else {
                    assert(items[b].0 != items[a].0);
                }
            }
            assert forall|k: Seq<char>| #[trigger] trie@.contains_key(name + k) implies ks.contains(k) by {
                let j = choose|j: int| 0 <= j < items.len() && #[trigger] items[j].0 == k;
                assert(ks[j] == k);
            }
            assert forall|j: int| 0 <= j < ks.len() implies trie@.contains_key(name + #[trigger] ks[j])
                && trie.lookup(name)[j] == trie@[name + ks[j]] by {
                assert(ks[j] == items[j].0);
            }
            assert(lists_once(trie, name, ks));
        },
    }
}

proof fn lemma_wf_node_at<T>(n: NameTrie<T>, k: Seq<char>)
    requires
        n.wf(),
        n.node_at(k) is Some,
    ensures
        n.node_at(k)->0.wf(),
    decreases k.len(),
{
    if k.len() > 0 {
        let i = first_index(n.children@, k[0]);
        lemma_first_index_bounds(n.children@, k[0]);
        assert(n.children@[i].1.wf());
        lemma_wf_node_at(n.children@[i].1, k.drop_first());
    }
}

} // verus!
