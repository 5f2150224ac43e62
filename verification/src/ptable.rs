//! Pivot tables: the header trees along each side, numbered so that each
//! leaf gets a column (or row) of its own.

use crate::json::{as_hash, or_null, path_get, pretty_spec, JsonView};
use crate::path::{path_of, path_text_valid};
use crate::text::{chars_eq, chars_of};
use crate::table::{dump_table, row_text, rows_view, Cell};
use crate::record::{entries_view, records_view, Record};
use vstd::prelude::*;

verus! {

/// The values heading the columns (or rows) of a pivot table, as a tree:
/// one level per key, children in the order first met. Each node carries a
/// tag, after numbering its first leaf's position.
pub struct HeaderTree {
    arr: Vec<(Record, HeaderTree)>,
    tag: usize,
}

/// `i` is the first child headed by `v`.
pub open spec fn is_first_v(arr: Seq<(Record, HeaderTree)>, v: JsonView, i: int) -> bool {
    &&& 0 <= i < arr.len()
    &&& arr[i].0@ == v
    &&& forall|j: int| 0 <= j < i ==> arr[j].0@ != v
}

/// The first child headed by `v`, or -1.
pub open spec fn first_v(arr: Seq<(Record, HeaderTree)>, v: JsonView) -> int {
    if exists|i: int| is_first_v(arr, v, i) {
        choose|i: int| is_first_v(arr, v, i)
    } else {
        -1
    }
}

proof fn lemma_first_v(arr: Seq<(Record, HeaderTree)>, v: JsonView, i: int)
    requires
        is_first_v(arr, v, i),
    ensures
        first_v(arr, v) == i,
{
    let k = choose|k: int| is_first_v(arr, v, k);
    assert(is_first_v(arr, v, k));
    assert(!(k < i));
    assert(!(i < k));
}

proof fn lemma_first_v_bounds(arr: Seq<(Record, HeaderTree)>, v: JsonView)
    ensures
        first_v(arr, v) == -1 || is_first_v(arr, v, first_v(arr, v)),
{
}

/// Two lists of children whose values sit at the same places have the same
/// first child for each value.
proof fn lemma_first_v_same(a: Seq<(Record, HeaderTree)>, b: Seq<(Record, HeaderTree)>, v: JsonView)
    requires
        a.len() == b.len(),
        forall|m: int| 0 <= m < a.len() ==> a[m].0@ == b[m].0@,
    ensures
        first_v(a, v) == first_v(b, v),
{
    lemma_first_v_bounds(a, v);
    lemma_first_v_bounds(b, v);
    if first_v(a, v) >= 0 {
        let f = first_v(a, v);
        assert(is_first_v(b, v, f));
        lemma_first_v(b, v, f);
    } else if first_v(b, v) >= 0 {
        let f = first_v(b, v);
        assert(is_first_v(a, v, f));
        lemma_first_v(a, v, f);
    }
}

/// The shape of a header tree: each node's children, in order, each as its
/// value and its own shape; the tags are left out.
pub enum Shape {
    Node(Seq<(JsonView, Shape)>),
}

pub open spec fn kids(s: Shape) -> Seq<(JsonView, Shape)> {
    match s {
        Shape::Node(c) => c,
    }
}

/// The first child headed by `v`, or -1.
pub open spec fn first_kid(cs: Seq<(JsonView, Shape)>, v: JsonView) -> int
    decreases cs.len(),
{
    if cs.len() == 0 {
        -1
    } else if first_kid(cs.drop_last(), v) >= 0 {
        first_kid(cs.drop_last(), v)
    } else if cs.last().0 == v {
        cs.len() - 1
    } else {
        -1
    }
}

proof fn lemma_first_kid(cs: Seq<(JsonView, Shape)>, v: JsonView)
    ensures
        first_kid(cs, v) == -1 ==> forall|i: int| 0 <= i < cs.len() ==> #[trigger] cs[i].0 != v,
        first_kid(cs, v) != -1 ==> {
            let f = first_kid(cs, v);
            &&& 0 <= f < cs.len()
            &&& cs[f].0 == v
            &&& forall|j: int| 0 <= j < f ==> #[trigger] cs[j].0 != v
        },
    decreases cs.len(),
{
    if cs.len() > 0 {
        lemma_first_kid(cs.drop_last(), v);
        assert forall|i: int| 0 <= i < cs.len() - 1 implies cs[i] == cs.drop_last()[i] by {}
    }
}

/// The shape after the path `p` is added: along the path each value leads
/// to the first child headed by it, or, where there is none, to a new
/// child added last.
pub open spec fn shape_insert(s: Shape, p: Seq<JsonView>) -> Shape
    decreases p.len(),
{
    if p.len() == 0 {
        s
    } else {
        let cs = kids(s);
        let i = first_kid(cs, p[0]);
        if i < 0 {
            Shape::Node(cs.push((p[0], shape_insert(Shape::Node(Seq::empty()), p.drop_first()))))
        } else {
            Shape::Node(cs.update(i, (p[0], shape_insert(cs[i].1, p.drop_first()))))
        }
    }
}

/// The shape the tuples give when added one after another: every node's
/// children in the order their values were first met.
pub open spec fn shape_of_tuples(tv: Seq<Seq<JsonView>>) -> Shape
    decreases tv.len(),
{
    if tv.len() == 0 {
        Shape::Node(Seq::empty())
    } else {
        shape_insert(shape_of_tuples(tv.drop_last()), tv.last())
    }
}

impl HeaderTree {
    /// This tree without its tags.
    #[verifier::opaque]
    pub closed spec fn shape(self) -> Shape
        decreases self,
    {
        Shape::Node(
            Seq::new(
                self.arr@.len(),
                |i: int|
                    if 0 <= i < self.arr@.len() {
                        proof {
                            assert(decreases_to!(self => self.arr));
                            assert(decreases_to!(self.arr => self.arr@));
                            assert(decreases_to!(self.arr@ => self.arr@[i]));
                        }
                        (self.arr@[i].0@, self.arr@[i].1.shape())
                    } else {
                        (JsonView::Null, Shape::Node(Seq::empty()))
                    },
            ),
        )
    }

    pub closed spec fn tag_of(self) -> usize {
        self.tag
    }

    /// The node the values `p` lead to.
    pub closed spec fn node_at(self, p: Seq<JsonView>) -> Option<HeaderTree>
        decreases p.len(),
    {
        if p.len() == 0 {
            Some(self)
        } else {
            let i = first_v(self.arr@, p[0]);
            if i < 0 {
                None
            } else {
                self.arr@[i].1.node_at(p.drop_first())
            }
        }
    }

    /// The number of leaves (nodes without children) of the tree.
    pub closed spec fn leaves(self) -> nat
        decreases self,
    {
        if self.arr@.len() == 0 {
            1
        } else {
            proof {
                assert(decreases_to!(self => self.arr));
                assert(decreases_to!(self.arr => self.arr@));
            }
            leaves_of(self.arr@)
        }
    }

    /// No path from the root has more than `k` steps.
    pub closed spec fn within(self, k: nat) -> bool
        decreases self,
    {
        self.arr@.len() == 0 || (k > 0 && forall|i: int|
            0 <= i < self.arr@.len() ==> {
                proof {
                    assert(decreases_to!(self => self.arr));
                    assert(decreases_to!(self.arr => self.arr@));
                    assert(decreases_to!(self.arr@ => self.arr@[i]));
                }
                (#[trigger] self.arr@[i]).1.within((k - 1) as nat)
            })
    }

    /// Each node's tag is the number of leaves before it, counting from
    /// `w0`.
    pub closed spec fn numbered(self, w0: nat) -> bool
        decreases self,
    {
        &&& self.tag == w0
        &&& forall|i: int|
            0 <= i < self.arr@.len() ==> {
                proof {
                    assert(decreases_to!(self => self.arr));
                    assert(decreases_to!(self.arr => self.arr@));
                    assert(decreases_to!(self.arr@ => self.arr@[i]));
                }
                (#[trigger] self.arr@[i]).1.numbered(w0 + leaves_of(self.arr@.take(i)))
            }
    }
}

/// The entries of `visit`, as tags, depths and values.
pub open spec fn visit_view(v: Seq<(usize, usize, Record)>) -> Seq<(usize, nat, JsonView)> {
    v.map_values(|e: (usize, usize, Record)| (e.0, e.1 as nat, e.2@))
}

/// The nodes below a list of children, each child before its own.
pub closed spec fn preorder_of(s: Seq<(Record, HeaderTree)>, depth: nat) -> Seq<(usize, nat, JsonView)>
    decreases s,
{
    if s.len() == 0 {
        Seq::empty()
    } else {
        proof {
            assert(decreases_to!(s => s[s.len() - 1]));
        }
        let c = s.last();
        preorder_of(s.drop_last(), depth) + seq![(c.1.tag, depth, c.0@)] + c.1.preorder(depth + 1)
    }
}

/// The leaves under a list of children.
pub closed spec fn leaves_of(s: Seq<(Record, HeaderTree)>) -> nat
    decreases s,
{
    if s.len() == 0 {
        0
    } else {
        proof {
            assert(decreases_to!(s => s[s.len() - 1]));
        }
        leaves_of(s.drop_last()) + s.last().1.leaves()
    }
}

/// Following `a` then `b` is following `a + b`.
/// A tree's shape lists its children's values and shapes.
proof fn lemma_shape_kids(t: HeaderTree)
    ensures
        kids(t.shape()).len() == t.arr@.len(),
        forall|m: int| 0 <= m < t.arr@.len() ==> #[trigger] kids(t.shape())[m] == (t.arr@[m].0@, t.arr@[m].1.shape()),
        forall|v: JsonView| #[trigger] first_kid(kids(t.shape()), v) == first_v(t.arr@, v),
{
    reveal(HeaderTree::shape);
    let cs = kids(t.shape());
    assert forall|v: JsonView| #[trigger] first_kid(kids(t.shape()), v) == first_v(t.arr@, v) by {
        lemma_first_kid(cs, v);
        lemma_first_v_bounds(t.arr@, v);
        let f = first_kid(cs, v);
        if f != -1 {
            assert forall|j: int| 0 <= j < f implies t.arr@[j].0@ != v by {
                assert(cs[j].0 != v);
            }
            assert(is_first_v(t.arr@, v, f));
            lemma_first_v(t.arr@, v, f);
        } else if first_v(t.arr@, v) >= 0 {
            let g = first_v(t.arr@, v);
            assert(cs[g].0 == v);
        }
    }
}

proof fn lemma_node_at_concat(n: HeaderTree, a: Seq<JsonView>, b: Seq<JsonView>)
    ensures
        n.node_at(a + b) == match n.node_at(a) {
            Some(m) => m.node_at(b),
            None => None,
        },
    decreases a.len(),
{
    if a.len() == 0 {
        assert(a + b =~= b);
    } else {
        assert((a + b)[0] == a[0]);
        assert((a + b).drop_first() =~= a.drop_first() + b);
        let i = first_v(n.arr@, a[0]);
        if i >= 0 {
            lemma_node_at_concat(n.arr@[i].1, a.drop_first(), b);
        }
    }
}

/// A nonempty path reaches a node here when it reaches one below the first
/// child headed by its first value.
proof fn lemma_node_at_step(n: HeaderTree, p: Seq<JsonView>)
    requires
        p.len() > 0,
    ensures
        n.node_at(p) == if first_v(n.arr@, p[0]) < 0 {
            None
        } else {
            n.arr@[first_v(n.arr@, p[0])].1.node_at(p.drop_first())
        },
{
}

proof fn lemma_first_v_push(a: Seq<(Record, HeaderTree)>, v: JsonView, e: (Record, HeaderTree))
    requires
        e.0@ != v,
    ensures
        first_v(a.push(e), v) == first_v(a, v),
{
    let b = a.push(e);
    lemma_first_v_bounds(a, v);
    lemma_first_v_bounds(b, v);
    if first_v(a, v) >= 0 {
        let f = first_v(a, v);
        assert(is_first_v(b, v, f));
        lemma_first_v(b, v, f);
    } else if first_v(b, v) >= 0 {
        let f = first_v(b, v);
        assert(b[f].0@ == v);
        assert(f != a.len());
        assert forall|m: int| 0 <= m < f implies a[m].0@ != v by {
            assert(a[m] == b[m]);
        }
        assert(a[f] == b[f]);
        assert(is_first_v(a, v, f));
        lemma_first_v(a, v, f);
    }
}

proof fn lemma_leaves_of_push(s: Seq<(Record, HeaderTree)>, e: (Record, HeaderTree))
    ensures
        leaves_of(s.push(e)) == leaves_of(s) + e.1.leaves(),
{
    assert(s.push(e).drop_last() =~= s);
}

proof fn lemma_leaves_pos(n: HeaderTree)
    ensures
        n.leaves() >= 1,
    decreases n,
{
    if n.arr@.len() > 0 {
        let s = n.arr@;
        assert(decreases_to!(n => n.arr));
        assert(decreases_to!(n.arr => n.arr@));
        assert(decreases_to!(n.arr@ => n.arr@[s.len() - 1]));
        lemma_leaves_pos(s.last().1);
        assert(leaves_of(s) >= s.last().1.leaves());
    }
}

/// Replacing one child by another with as many leaves keeps the count.
proof fn lemma_leaves_of_update(s: Seq<(Record, HeaderTree)>, i: int, e: (Record, HeaderTree))
    requires
        0 <= i < s.len(),
    ensures
        leaves_of(s.update(i, e)) == leaves_of(s) - s[i].1.leaves() + e.1.leaves(),
    decreases s.len(),
{
    if i < s.len() - 1 {
        lemma_leaves_of_update(s.drop_last(), i, e);
        assert(s.update(i, e).drop_last() =~= s.drop_last().update(i, e));
    } else {
        assert(s.update(i, e).drop_last() =~= s.drop_last());
    }
}

proof fn lemma_leaves_of_take(s: Seq<(Record, HeaderTree)>, k: int)
    requires
        0 < k <= s.len(),
    ensures
        leaves_of(s.take(k)) == leaves_of(s.take(k - 1)) + s[k - 1].1.leaves(),
{
    assert(s.take(k).drop_last() =~= s.take(k - 1));
}

proof fn lemma_leaves_of_prefix(s: Seq<(Record, HeaderTree)>, k: int)
    requires
        0 <= k <= s.len(),
    ensures
        leaves_of(s.take(k)) <= leaves_of(s),
    decreases s.len() - k,
{
    if k < s.len() {
        lemma_leaves_of_prefix(s, k + 1);
        lemma_leaves_of_take(s, k + 1);
    } else {
        assert(s.take(k) =~= s);
    }
}

proof fn lemma_leaves_of_pointwise(a: Seq<(Record, HeaderTree)>, b: Seq<(Record, HeaderTree)>)
    requires
        a.len() == b.len(),
        forall|m: int| 0 <= m < a.len() ==> (#[trigger] a[m]).1.leaves() == b[m].1.leaves(),
    ensures
        leaves_of(a) == leaves_of(b),
    decreases a.len(),
{
    if a.len() > 0 {
        lemma_leaves_of_pointwise(a.drop_last(), b.drop_last());
    }
}

/// A node whose children were each numbered in turn, keeping their shape,
/// is numbered and keeps its shape.
#[verifier::rlimit(60)]
proof fn lemma_number_parent(old_t: HeaderTree, new_t: HeaderTree, w0: nat)
    requires
        new_t.tag == w0,
        new_t.arr@.len() == old_t.arr@.len(),
        forall|m: int| 0 <= m < old_t.arr@.len() ==> (#[trigger] new_t.arr@[m]).0 == old_t.arr@[m].0,
        forall|m: int|
            0 <= m < old_t.arr@.len() ==> (#[trigger] new_t.arr@[m]).1.numbered(
                w0 + leaves_of(old_t.arr@.take(m)),
            ),
        forall|m: int|
            0 <= m < old_t.arr@.len() ==> (#[trigger] new_t.arr@[m]).1.leaves() == old_t.arr@[m].1.leaves(),
        forall|m: int, p: Seq<JsonView>|
            0 <= m < old_t.arr@.len() ==> (#[trigger] new_t.arr@[m].1.node_at(p) is Some <==> old_t.arr@[m].1.node_at(
                p,
            ) is Some),
        forall|m: int, d: nat|
            0 <= m < old_t.arr@.len() ==> (#[trigger] new_t.arr@[m].1.within(d) == old_t.arr@[m].1.within(d)),
    ensures
        new_t.numbered(w0),
        forall|p: Seq<JsonView>| #[trigger] new_t.node_at(p) is Some <==> old_t.node_at(p) is Some,
        new_t.leaves() == old_t.leaves(),
        forall|k: nat| #[trigger] new_t.within(k) == old_t.within(k),
{
    let oa = old_t.arr@;
    let na = new_t.arr@;
    assert forall|m: int| 0 <= m <= oa.len() implies #[trigger] leaves_of(na.take(m)) == leaves_of(oa.take(m)) by {
        lemma_leaves_of_pointwise(na.take(m), oa.take(m));
    }
    assert forall|m: int| 0 <= m < na.len() implies (#[trigger] na[m]).1.numbered(w0 + leaves_of(na.take(m))) by {
        assert(leaves_of(na.take(m)) == leaves_of(oa.take(m)));
    }
    lemma_leaves_of_pointwise(na, oa);
    assert forall|p: Seq<JsonView>| #[trigger] new_t.node_at(p) is Some <==> old_t.node_at(p) is Some by {
        if p.len() > 0 {
            lemma_node_at_step(new_t, p);
            lemma_node_at_step(old_t, p);
            lemma_first_v_same(oa, na, p[0]);
            lemma_first_v_bounds(oa, p[0]);
        }
    }
    assert forall|d: nat| #[trigger] new_t.within(d) == old_t.within(d) by {
        if na.len() > 0 && d > 0 {
            if new_t.within(d) {
                assert forall|m: int| 0 <= m < oa.len() implies (#[trigger] oa[m]).1.within((d - 1) as nat) by {
                    assert(na[m].1.within((d - 1) as nat));
                    assert(new_t.arr@[m].1.within((d - 1) as nat) == old_t.arr@[m].1.within((d - 1) as nat));
                }
            }
            if old_t.within(d) {
                assert forall|m: int| 0 <= m < na.len() implies (#[trigger] na[m]).1.within((d - 1) as nat) by {
                    assert(oa[m].1.within((d - 1) as nat));
                    assert(new_t.arr@[m].1.within((d - 1) as nat) == old_t.arr@[m].1.within((d - 1) as nat));
                }
            }
        }
    }
}

impl HeaderTree {
    /// A tree with no values yet.
    pub fn new() -> (t: HeaderTree)
        ensures
            t.is_leaf(),
            t.tag_of() == 0,
            t.shape() == Shape::Node(Seq::empty()),
            forall|p: Seq<JsonView>| #[trigger] t.node_at(p) is Some <==> p.len() == 0,
            t.leaves() == 1,
            forall|k: nat| #[trigger] t.within(k),
    {
        let t = HeaderTree { arr: Vec::new(), tag: 0 };
        proof {
            reveal(HeaderTree::shape);
            assert(kids(t.shape()) =~= Seq::<(JsonView, Shape)>::empty());
        }
        assert forall|p: Seq<JsonView>| #[trigger] t.node_at(p) is Some <==> p.len() == 0 by {
            if p.len() > 0 {
                lemma_node_at_step(t, p);
            }
        }
        t
    }

    /// The first child headed by `v`, if any.
    fn find_child(&self, v: &Record) -> (r: Option<usize>)
        ensures
            match r {
                Some(i) => is_first_v(self.arr@, v@, i as int) && first_v(self.arr@, v@) == i,
                None => first_v(self.arr@, v@) == -1 && forall|j: int|
                    0 <= j < self.arr@.len() ==> self.arr@[j].0@ != v@,
            },
    {
        let mut i: usize = 0;
        while i < self.arr.len()
            invariant
                i <= self.arr@.len(),
                forall|j: int| 0 <= j < i ==> self.arr@[j].0@ != v@,
            decreases self.arr@.len() - i,
        {
            if self.arr[i].0.equals(v) {
                proof {
                    lemma_first_v(self.arr@, v@, i as int);
                }
                return Some(i);
            }
            i = i + 1;
        }
        None
    }

    /// A node without children.
    pub closed spec fn is_leaf(self) -> bool {
        self.arr@.len() == 0
    }

    /// Adds the path `zs[i..]` below this node, new children going last.
    fn touch_from(&mut self, zs: &[Record], i: usize)
        requires
            i <= zs@.len(),
        ensures
            final(self).node_at(records_view(zs@).skip(i as int)) is Some,
            forall|p: Seq<JsonView>| old(self).node_at(p) is Some ==> #[trigger] final(self).node_at(p) is Some,
            forall|p: Seq<JsonView>|
                #[trigger] final(self).node_at(p) is Some ==> old(self).node_at(p) is Some || p.is_prefix_of(
                    records_view(zs@).skip(i as int),
                ),
            final(self).leaves() <= old(self).leaves() + if old(self).is_leaf() {
                0int
            } else {
                1int
            },
            forall|k: nat|
                old(self).within(k) && zs@.len() - i <= k ==> #[trigger] final(self).within(k),
            final(self).shape() == shape_insert(old(self).shape(), records_view(zs@).skip(i as int)),
        decreases zs@.len() - i,
    {
        let ghost rest = records_view(zs@).skip(i as int);
        let ghost old_self = *self;
        if i == zs.len() {
            assert(rest.len() == 0);
            return;
        }
        let ghost v = zs@[i as int]@;
        assert(rest[0] == v);
        assert(rest.drop_first() =~= records_view(zs@).skip(i + 1));
        let ghost mut pushed = false;
        let j: usize = match self.find_child(&zs[i]) {
            Some(j) => j,
            None => {
                let ghost before = self.arr@;
                let c = zs[i].duplicate();
                self.arr.push((c, HeaderTree { arr: Vec::new(), tag: 0 }));
                proof {
                    pushed = true;
                    assert(self.arr@ == before.push(self.arr@.last()));
                    lemma_first_v(self.arr@, v, before.len() as int);
                    assert forall|w: JsonView| w != v implies first_v(self.arr@, w) == first_v(before, w) by {
                        lemma_first_v_push(before, w, self.arr@.last());
                    }
                    lemma_leaves_of_push(before, self.arr@.last());
                }
                self.arr.len() - 1
            },
        };
        let ghost mid = *self;
        assert(is_first_v(mid.arr@, v, j as int));
        let (c0, mut child) = self.arr.remove(j);
        assert(c0@ == v);
        let ghost child0 = child;
        assert(child0 == mid.arr@[j as int].1);
        child.touch_from(zs, i + 1);
        self.arr.insert(j, (c0, child));
        proof {
            assert(self.arr@ =~= mid.arr@.update(j as int, (c0, child)));
            assert forall|w: JsonView| #[trigger] first_v(self.arr@, w) == first_v(mid.arr@, w) by {
                lemma_first_v_same(mid.arr@, self.arr@, w);
            }
            // the shape
            lemma_shape_kids(old_self);
            lemma_shape_kids(*self);
            lemma_shape_kids(child0);
            let oks = kids(old_self.shape());
            let want = shape_insert(old_self.shape(), rest);
            if pushed {
                assert(first_v(old_self.arr@, v) == -1);
                assert(child0.arr@.len() == 0);
                assert(kids(child0.shape()) =~= Seq::<(JsonView, Shape)>::empty());
                assert(child0.shape() == Shape::Node(Seq::empty()));
                assert(kids(self.shape()) =~= oks.push((v, child.shape())));
            } else {
                assert(mid == old_self);
                assert(first_kid(oks, v) == j);
                assert(kids(self.shape()) =~= oks.update(j as int, (v, child.shape())));
            }
            assert(self.shape() == Shape::Node(kids(self.shape())));
            assert(self.shape() == want);
            // the path is there
            lemma_node_at_step(*self, rest);
            // paths that were there still are
            assert forall|q: Seq<JsonView>| old_self.node_at(q) is Some implies #[trigger] self.node_at(q) is Some by {
                if q.len() > 0 {
                    lemma_node_at_step(old_self, q);
                    lemma_node_at_step(*self, q);
                    let f = first_v(old_self.arr@, q[0]);
                    lemma_first_v_bounds(old_self.arr@, q[0]);
                    if pushed {
                        if q[0] == v {
                            assert(false);
                        }
                        assert(mid.arr@[f] == old_self.arr@[f]);
                    } else {
                        assert(mid == old_self);
                    }
                    assert(first_v(self.arr@, q[0]) == f);
                    if f == j {
                        assert(child0.node_at(q.drop_first()) is Some);
                    } else {
                        assert(self.arr@[f] == mid.arr@[f]);
                    }
                }
            }
            // paths that are there now were there or lead along the new one
            assert forall|q: Seq<JsonView>| #[trigger] self.node_at(q) is Some implies old_self.node_at(q) is Some
                || q.is_prefix_of(rest) by {
                if q.len() > 0 {
                    lemma_node_at_step(old_self, q);
                    lemma_node_at_step(*self, q);
                    let f = first_v(self.arr@, q[0]);
                    lemma_first_v_bounds(self.arr@, q[0]);
                    lemma_first_v_bounds(old_self.arr@, q[0]);
                    let q1 = q.drop_first();
                    if q[0] == v {
                        assert(f == j);
                        assert(child.node_at(q1) is Some);
                        if q1.is_prefix_of(rest.drop_first()) {
                            assert forall|m: int| 0 <= m < q.len() implies q[m] == rest[m] by {
                                if m > 0 {
                                    assert(q[m] == q1[m - 1]);
                                    assert(q1[m - 1] == rest.drop_first()[m - 1]);
                                }
                            }
                            assert(q =~= rest.subrange(0, q.len() as int));
                        } else if pushed {
                            assert(child0.is_leaf());
                            assert(q1.len() == 0) by {
                                if q1.len() > 0 {
                                    lemma_node_at_step(child0, q1);
                                    lemma_first_v_bounds(child0.arr@, q1[0]);
                                }
                            }
                            assert(q =~= rest.subrange(0, 1));
                        } else {
                            assert(mid == old_self);
                        }
                    } else {
                        assert(f != j);
                        assert(self.arr@[f] == mid.arr@[f]);
                        if pushed {
                            assert(first_v(mid.arr@, q[0]) == first_v(old_self.arr@, q[0]));
                            assert(mid.arr@[f] == old_self.arr@[f]);
                        } else {
                            assert(mid == old_self);
                        }
                    }
                }
            }
            // leaves
            lemma_leaves_of_update(mid.arr@, j as int, (c0, child));
            lemma_leaves_pos(child);
            if pushed {
                assert(child0.is_leaf());
            } else {
                assert(mid == old_self);
            }
            // depth
            assert forall|k: nat| old_self.within(k) && zs@.len() - i <= k implies #[trigger] self.within(k) by {
                assert(k > 0);
                assert forall|m: int| 0 <= m < self.arr@.len() implies (#[trigger] self.arr@[m]).1.within(
                    (k - 1) as nat,
                ) by {
                    if m == j {
                        if !pushed {
                            assert(mid == old_self);
                            assert(old_self.arr@[m].1.within((k - 1) as nat));
                        }
                        assert(child0.within((k - 1) as nat));
                    } else {
                        assert(self.arr@[m] == mid.arr@[m]);
                        if pushed {
                            assert(mid.arr@[m] == old_self.arr@[m]);
                        } else {
                            assert(mid == old_self);
                        }
                        assert(old_self.arr@.len() > 0);
                    }
                }
            }
        }
    }

    /// Numbers the tree: each node's tag becomes the count of leaves met
    /// before it, starting at `width`, which ends up past the last leaf.
    #[verifier::rlimit(60)]
    fn number(&mut self, width: &mut usize)
        requires
            *old(width) + old(self).leaves() <= usize::MAX,
        ensures
            *final(width) == *old(width) + old(self).leaves(),
            final(self).numbered(*old(width) as nat),
            forall|p: Seq<JsonView>| #[trigger] final(self).node_at(p) is Some <==> old(self).node_at(p) is Some,
            final(self).leaves() == old(self).leaves(),
            forall|k: nat| #[trigger] final(self).within(k) == old(self).within(k),
            final(self).shape() == old(self).shape(),
        decreases *old(self),
    {
        let ghost old_self = *self;
        assert(old_self == *old(self));
        let ghost oa = self.arr@;
        let w0 = *width;
        proof {
            if oa.len() > 0 {
                lemma_leaves_of_take(oa, oa.len() as int);
            }
        }
        let mut k: usize = 0;
        while k < self.arr.len()
            invariant
                old_self == *old(self),
                oa == old_self.arr@,
                self.arr@.len() == oa.len(),
                k <= oa.len(),
                w0 + leaves_of(oa) <= usize::MAX || oa.len() == 0,
                *width == w0 + leaves_of(oa.take(k as int)),
                forall|m: int| 0 <= m < oa.len() ==> (#[trigger] self.arr@[m]).0 == oa[m].0,
                forall|m: int| k <= m < oa.len() ==> #[trigger] self.arr@[m] == oa[m],
                forall|m: int|
                    0 <= m < k ==> (#[trigger] self.arr@[m]).1.numbered((w0 + leaves_of(oa.take(m))) as nat),
                forall|m: int| 0 <= m < k ==> (#[trigger] self.arr@[m]).1.leaves() == oa[m].1.leaves(),
                forall|m: int, p: Seq<JsonView>|
                    0 <= m < k ==> (#[trigger] self.arr@[m].1.node_at(p) is Some <==> oa[m].1.node_at(p) is Some),
                forall|m: int, d: nat|
                    0 <= m < k ==> (#[trigger] self.arr@[m].1.within(d) == oa[m].1.within(d)),
                forall|m: int| 0 <= m < k ==> (#[trigger] self.arr@[m]).1.shape() == oa[m].1.shape(),
            decreases oa.len() - k,
        {
            proof {
                lemma_leaves_of_take(oa, k + 1);
                lemma_leaves_of_take(oa, oa.len() as int);
                lemma_leaves_of_prefix(oa, k + 1);
                assert(oa.take(k + 1).drop_last() =~= oa.take(k as int));
            }
            let ghost before = self.arr@;
            let (v, mut c) = self.arr.remove(k);
            assert(c == oa[k as int].1);
            proof {
                assert(decreases_to!(old_self => old_self.arr));
                assert(decreases_to!(old_self.arr => old_self.arr@));
                assert(decreases_to!(old_self.arr@ => old_self.arr@[k as int]));
                assert(decreases_to!(old_self.arr@[k as int] => old_self.arr@[k as int].1));
                assert(decreases_to!(old_self => c));
                assert(decreases_to!(*old(self) => c));
            }
            c.number(width);
            self.arr.insert(k, (v, c));
            proof {
                assert(self.arr@ =~= before.update(k as int, (v, c)));
            }
            k = k + 1;
        }
        assert(oa.take(oa.len() as int) =~= oa);
        if self.arr.len() == 0 {
            *width = *width + 1;
        }
        self.tag = w0;
        proof {
            lemma_number_parent(old_self, *self, w0 as nat);
            reveal(HeaderTree::shape);
            assert(kids(self.shape()) =~= kids(old_self.shape()));
        }
    }

    /// The tag of the node the values `zs` lead to; it must be there.
    pub fn tag(&self, zs: &[Record]) -> (t: usize)
        requires
            self.node_at(records_view(zs@)) is Some,
        ensures
            t == self.node_at(records_view(zs@))->0.tag_of(),
    {
        let ghost p = records_view(zs@);
        let mut n = self;
        let mut i: usize = 0;
        assert(p.take(0) =~= Seq::<JsonView>::empty());
        while i < zs.len()
            invariant
                p == records_view(zs@),
                i <= zs@.len(),
                self.node_at(p.take(i as int)) == Some(*n),
                self.node_at(p) is Some,
            decreases zs@.len() - i,
        {
            proof {
                lemma_node_at_concat(*self, p.take(i as int), p.skip(i as int));
                assert(p.take(i as int) + p.skip(i as int) =~= p);
                lemma_node_at_step(*n, p.skip(i as int));
                assert(p.skip(i as int)[0] == zs@[i as int]@);
                lemma_node_at_concat(*self, p.take(i as int), seq![p[i as int]]);
                assert(p.take(i as int) + seq![p[i as int]] =~= p.take(i + 1));
                lemma_node_at_step(*n, seq![p[i as int]]);
                assert(seq![p[i as int]].drop_first() =~= Seq::<JsonView>::empty());
            }
            let ghost prev = *n;
            match n.find_child(&zs[i]) {
                None => {
                    proof {
                        assert(false);
                    }
                    return 0;
                },
                Some(j) => {
                    n = &n.arr[j].1;
                    assert(n.node_at(Seq::empty()) == Some(*n));
                },
            }
            i = i + 1;
        }
        assert(p.take(i as int) =~= p);
        n.tag
    }

    /// The nodes below this one, parents before children, each as its tag,
    /// its depth (counting from `depth`) and its value.
    pub closed spec fn preorder(self, depth: nat) -> Seq<(usize, nat, JsonView)>
        decreases self,
    {
        proof {
            assert(decreases_to!(self => self.arr));
            assert(decreases_to!(self.arr => self.arr@));
        }
        preorder_of(self.arr@, depth)
    }

    /// Appends the nodes below this one to `out`, parents before children.
    pub(crate) fn visit(&self, depth: usize, k: Ghost<nat>, out: &mut Vec<(usize, usize, Record)>)
        requires
            self.within(k@),
            depth + k@ <= usize::MAX,
        ensures
            visit_view(final(out)@) == visit_view(old(out)@) + self.preorder(depth as nat),
        decreases *self,
    {
        let ghost start = visit_view(out@);
        let ghost a = self.arr@;
        let mut i: usize = 0;
        assert(a.take(0) =~= Seq::<(Record, HeaderTree)>::empty());
        assert(start + preorder_of(a.take(0), depth as nat) =~= start);
        while i < self.arr.len()
            invariant
                a == self.arr@,
                i <= a.len(),
                self.within(k@),
                depth + k@ <= usize::MAX,
                visit_view(out@) == start + preorder_of(a.take(i as int), depth as nat),
            decreases a.len() - i,
        {
            assert(k@ > 0);
            assert(a[i as int].1.within((k@ - 1) as nat));
            assert(decreases_to!(*self => self.arr));
            assert(decreases_to!(self.arr => self.arr@));
            assert(decreases_to!(self.arr@ => self.arr@[i as int]));
            assert(decreases_to!(self.arr@[i as int] => self.arr@[i as int].1));
            let ghost before = visit_view(out@);
            let v = self.arr[i].0.duplicate();
            out.push((self.arr[i].1.tag, depth, v));
            assert(visit_view(out@) =~= before.push((a[i as int].1.tag, depth as nat, a[i as int].0@)));
            self.arr[i].1.visit(depth + 1, Ghost((k@ - 1) as nat), out);
            proof {
                assert(a.take(i + 1).drop_last() =~= a.take(i as int));
                assert(a.take(i + 1).last() == a[i as int]);
                assert(visit_view(out@) =~= start + preorder_of(a.take(i + 1), depth as nat));
            }
            i = i + 1;
        }
        assert(a.take(a.len() as int) =~= a);
    }
}

/// A numbered tree's nodes have tags from `w0` up to, not including,
/// `w0` plus its leaf count.
proof fn lemma_tag_bounds(t: HeaderTree, w0: nat, p: Seq<JsonView>)
    requires
        t.numbered(w0),
        t.node_at(p) is Some,
    ensures
        w0 <= t.node_at(p)->0.tag_of() < w0 + t.leaves(),
    decreases p.len(),
{
    lemma_leaves_pos(t);
    if p.len() > 0 {
        lemma_node_at_step(t, p);
        let a = t.arr@;
        let f = first_v(a, p[0]);
        lemma_first_v_bounds(a, p[0]);
        let c = a[f].1;
        assert(c.numbered(w0 + leaves_of(a.take(f))));
        lemma_tag_bounds(c, w0 + leaves_of(a.take(f)), p.drop_first());
        lemma_leaves_of_take(a, f + 1);
        lemma_leaves_of_prefix(a, f + 1);
    }
}

#[verifier::spinoff_prover]
#[verifier::rlimit(40)]
proof fn lemma_preorder_of_bounds(s: Seq<(Record, HeaderTree)>, w0: nat, d: nat, k: nat)
    requires
        k > 0,
        forall|m: int| 0 <= m < s.len() ==> (#[trigger] s[m]).1.numbered(w0 + leaves_of(s.take(m))),
        forall|m: int| 0 <= m < s.len() ==> (#[trigger] s[m]).1.within((k - 1) as nat),
        forall|m: int, j: int|
            0 <= m < s.len() && 0 <= j < s[m].1.preorder(d + 1).len() ==> {
                let e = #[trigger] s[m].1.preorder(d + 1)[j];
                &&& w0 + leaves_of(s.take(m)) <= e.0 < w0 + leaves_of(s.take(m)) + s[m].1.leaves()
                &&& d + 1 <= e.1 < d + k
            },
    ensures
        forall|j: int|
            0 <= j < preorder_of(s, d).len() ==> {
                let e = #[trigger] preorder_of(s, d)[j];
                &&& w0 <= e.0 < w0 + leaves_of(s)
                &&& d <= e.1 < d + k
            },
    decreases s.len(),
{
    if s.len() > 0 {
        let n = s.len() - 1;
        let pre = s.drop_last();
        assert forall|m: int| 0 <= m < pre.len() implies #[trigger] pre.take(m) == s.take(m) by {
            assert(pre.take(m) =~= s.take(m));
        }
        assert forall|m: int| 0 <= m < pre.len() implies (#[trigger] pre[m]).1.numbered(w0 + leaves_of(pre.take(m))) by {
            assert(pre[m] == s[m]);
            assert(pre.take(m) == s.take(m));
        }
        assert forall|m: int| 0 <= m < pre.len() implies (#[trigger] pre[m]).1.within((k - 1) as nat) by {
            assert(pre[m] == s[m]);
        }
        assert forall|m: int, j: int| 0 <= m < pre.len() && 0 <= j < pre[m].1.preorder(d + 1).len() implies {
            let e = #[trigger] pre[m].1.preorder(d + 1)[j];
            &&& w0 + leaves_of(pre.take(m)) <= e.0 < w0 + leaves_of(pre.take(m)) + pre[m].1.leaves()
            &&& d + 1 <= e.1 < d + k
        } by {
            assert(pre[m] == s[m]);
            assert(pre.take(m) == s.take(m));
            let e = s[m].1.preorder(d + 1)[j];
        }
        lemma_preorder_of_bounds(pre, w0, d, k);
        let c = s[n];
        assert(s.take(n) =~= pre);
        lemma_leaves_of_take(s, n + 1);
        assert(s.take(n + 1) =~= s);
        lemma_leaves_pos(c.1);
        assert(c.1.tag_of() == w0 + leaves_of(pre)) by {
            assert(c.1.numbered(w0 + leaves_of(s.take(n))));
        }
        let tail = seq![(c.1.tag, d, c.0@)] + c.1.preorder(d + 1);
        assert(preorder_of(s, d) == preorder_of(pre, d) + tail);
        assert forall|j: int| 0 <= j < preorder_of(s, d).len() implies {
            let e = #[trigger] preorder_of(s, d)[j];
            &&& w0 <= e.0 < w0 + leaves_of(s)
            &&& d <= e.1 < d + k
        } by {
            let pl = preorder_of(pre, d).len();
            if j < pl {
                assert(preorder_of(s, d)[j] == preorder_of(pre, d)[j]);
            } else if j == pl {
            } else {
                assert(preorder_of(s, d)[j] == c.1.preorder(d + 1)[j - pl - 1]);
                let e = s[n].1.preorder(d + 1)[j - pl - 1];
            }
        }
    }
}

/// In a numbered tree no deeper than `k`, every node below the root has a
/// tag among the leaves' and a depth under `k` more than the start.
#[verifier::spinoff_prover]
#[verifier::rlimit(40)]
proof fn lemma_preorder_bounds(t: HeaderTree, w0: nat, d: nat, k: nat)
    requires
        t.numbered(w0),
        t.within(k),
    ensures
        forall|j: int|
            0 <= j < t.preorder(d).len() ==> {
                let e = #[trigger] t.preorder(d)[j];
                &&& w0 <= e.0 < w0 + t.leaves()
                &&& d <= e.1 < d + k
            },
    decreases t,
{
    let s = t.arr@;
    if s.len() > 0 {
        assert(k > 0);
        assert forall|m: int, j: int| 0 <= m < s.len() && 0 <= j < s[m].1.preorder(d + 1).len() implies {
            let e = #[trigger] s[m].1.preorder(d + 1)[j];
            &&& w0 + leaves_of(s.take(m)) <= e.0 < w0 + leaves_of(s.take(m)) + s[m].1.leaves()
            &&& d + 1 <= e.1 < d + k
        } by {
            assert(decreases_to!(t => t.arr));
            assert(decreases_to!(t.arr => t.arr@));
            assert(decreases_to!(t.arr@ => t.arr@[m]));
            assert(decreases_to!(t.arr@[m] => t.arr@[m].1));
            assert(s[m].1.numbered(w0 + leaves_of(s.take(m))));
            assert(s[m].1.within((k - 1) as nat));
            lemma_preorder_bounds(s[m].1, w0 + leaves_of(s.take(m)), d + 1, (k - 1) as nat);
            let e = s[m].1.preorder(d + 1)[j];
        }
        lemma_preorder_of_bounds(s, w0, d, k);
        assert(t.preorder(d) == preorder_of(s, d));
        assert(t.leaves() == leaves_of(s));
        assert(w0 + 0 == w0 + leaves_of(s.take(0))) by {
            assert(s.take(0) =~= Seq::<(Record, HeaderTree)>::empty());
        }
    } else {
        assert(preorder_of(s, d) =~= Seq::<(usize, nat, JsonView)>::empty());
    }
}

/// Builds the header tree of the tuples `zss`, touched in the order given,
/// each at most `k` long, and numbers it; gives the tree and its width (its
/// number of leaves).
/// The values of each tuple.
pub open spec fn tuples_view(zss: Seq<Vec<Record>>) -> Seq<Seq<JsonView>> {
    zss.map_values(|z: Vec<Record>| records_view(z@))
}

/// Every node of `t` but the root lies on the path of one of `tuples`.
pub open spec fn nodes_from(t: HeaderTree, tuples: Seq<Seq<JsonView>>) -> bool {
    forall|p: Seq<JsonView>|
        #[trigger] t.node_at(p) is Some ==> p.len() == 0 || exists|m: int|
            0 <= m < tuples.len() && p.is_prefix_of(#[trigger] tuples[m])
}

pub fn build_header_tree(zss: &Vec<Vec<Record>>, k: Ghost<nat>) -> (r: (HeaderTree, usize))
    requires
        zss@.len() < usize::MAX,
        forall|i: int| 0 <= i < zss@.len() ==> (#[trigger] zss@[i])@.len() <= k@,
    ensures
        r.0.numbered(0),
        r.0.within(k@),
        r.1 == r.0.leaves(),
        r.1 <= 1 + zss@.len(),
        forall|i: int| 0 <= i < zss@.len() ==> (#[trigger] r.0.node_at(records_view(zss@[i]@))) is Some,
        nodes_from(r.0, tuples_view(zss@)),
        r.0.shape() == shape_of_tuples(tuples_view(zss@)),
{
    let ghost tv = tuples_view(zss@);
    let mut t = HeaderTree::new();
    let mut i: usize = 0;
    while i < zss.len()
        invariant
            i <= zss@.len(),
            zss@.len() < usize::MAX,
            forall|m: int| 0 <= m < zss@.len() ==> (#[trigger] zss@[m])@.len() <= k@,
            t.within(k@),
            t.leaves() <= 1 + i,
            forall|m: int| 0 <= m < i ==> (#[trigger] t.node_at(records_view(zss@[m]@))) is Some,
            tv == tuples_view(zss@),
            nodes_from(t, tv.take(i as int)),
            t.shape() == shape_of_tuples(tv.take(i as int)),
        decreases zss@.len() - i,
    {
        let ghost before = t;
        t.touch_from(zss[i].as_slice(), 0);
        proof {
            assert(records_view(zss@[i as int]@).skip(0) =~= records_view(zss@[i as int]@));
            assert(tv.take(i + 1).drop_last() =~= tv.take(i as int));
            assert(tv.take(i + 1).last() == records_view(zss@[i as int]@));
            assert forall|m: int| 0 <= m < i + 1 implies (#[trigger] t.node_at(records_view(zss@[m]@))) is Some by {
                if m < i {
                    assert(before.node_at(records_view(zss@[m]@)) is Some);
                }
            }
            assert forall|p: Seq<JsonView>| #[trigger] t.node_at(p) is Some implies p.len() == 0 || exists|m: int|
                0 <= m < tv.take(i + 1).len() && p.is_prefix_of(#[trigger] tv.take(i + 1)[m]) by {
                if before.node_at(p) is Some {
                    if p.len() > 0 {
                        let m = choose|m: int| 0 <= m < tv.take(i as int).len() && p.is_prefix_of(#[trigger] tv.take(i as int)[m]);
                        assert(tv.take(i + 1)[m] == tv.take(i as int)[m]);
                    }
                } else {
                    assert(tv.take(i + 1)[i as int] == records_view(zss@[i as int]@));
                }
            }
        }
        i = i + 1;
    }
    assert(tv.take(i as int) =~= tv);
    let ghost unnumbered = t;
    let mut width: usize = 0;
    t.number(&mut width);
    assert forall|p: Seq<JsonView>| #[trigger] t.node_at(p) is Some implies p.len() == 0 || exists|m: int|
        0 <= m < tv.len() && p.is_prefix_of(#[trigger] tv[m]) by {
        assert(unnumbered.node_at(p) is Some);
    }
    (t, width)
}

/// Sets cell `(y, x)` of a grid.
pub open spec fn put(g: Seq<Seq<Cell>>, w: (int, int, Cell)) -> Seq<Seq<Cell>> {
    g.update(w.0, g[w.0].update(w.1, w.2))
}

/// Sets the cells in turn, later writes over earlier ones.
pub open spec fn put_all(g: Seq<Seq<Cell>>, ws: Seq<(int, int, Cell)>) -> Seq<Seq<Cell>>
    decreases ws.len(),
{
    if ws.len() == 0 {
        g
    } else {
        put(put_all(g, ws.drop_last()), ws.last())
    }
}

/// A grid of `h` rows of `w` empty cells.
pub open spec fn blank(h: nat, w: nat) -> Seq<Seq<Cell>> {
    Seq::new(h, |_y: int| Seq::new(w, |_x: int| (Seq::<char>::empty(), ' ')))
}

/// The key names: the column keys down the column before the row
/// headers' end, the row keys along the row before the column headers' end.
pub open spec fn label_writes(xk: Seq<Seq<char>>, yk: Seq<Seq<char>>) -> Seq<(int, int, Cell)> {
    Seq::new(xk.len(), |i: int| (i, yk.len() as int, (xk[i], ' '))) + Seq::new(
        yk.len(),
        |i: int| (xk.len() as int, i, (yk[i], ' ')),
    )
}

/// The column headers: each node at its depth's row, in its tag's column.
pub open spec fn xhead_writes(pre: Seq<(usize, nat, JsonView)>, off: int) -> Seq<(int, int, Cell)> {
    pre.map_values(|e: (usize, nat, JsonView)| (e.1 as int, off + e.0, (pretty_spec(e.2), ' ')))
}

/// The row headers: each node in its tag's row, at its depth's column.
pub open spec fn yhead_writes(pre: Seq<(usize, nat, JsonView)>, off: int) -> Seq<(int, int, Cell)> {
    pre.map_values(|e: (usize, nat, JsonView)| (off + e.0, e.1 as int, (pretty_spec(e.2), ' ')))
}

/// One cell of the table: its column values, its row values, its value.
pub type CellView = (Seq<JsonView>, Seq<JsonView>, JsonView);

pub open spec fn cells_view(cells: Seq<(Vec<Record>, Vec<Record>, Record)>) -> Seq<CellView> {
    cells.map_values(|c: (Vec<Record>, Vec<Record>, Record)| (records_view(c.0@), records_view(c.1@), c.2@))
}

/// The values: each in the row of its row values' leaf and the column of
/// its column values' leaf.
pub open spec fn data_writes(
    cells: Seq<CellView>,
    xh: HeaderTree,
    yh: HeaderTree,
    xoff: int,
    yoff: int,
) -> Seq<(int, int, Cell)> {
    cells.map_values(
        |c: CellView|
            (
                yoff + yh.node_at(c.1)->0.tag_of(),
                xoff + xh.node_at(c.0)->0.tag_of(),
                (pretty_spec(c.2), ' '),
            ),
    )
}

/// All writes of the table body, in order.
pub open spec fn body_writes(
    xk: Seq<Seq<char>>,
    yk: Seq<Seq<char>>,
    xh: HeaderTree,
    yh: HeaderTree,
    cells: Seq<CellView>,
) -> Seq<(int, int, Cell)> {
    label_writes(xk, yk) + xhead_writes(xh.preorder(0), yk.len() + 1int) + yhead_writes(
        yh.preorder(0),
        xk.len() + 1int,
    ) + data_writes(cells, xh, yh, yk.len() + 1int, xk.len() + 1int)
}

/// A grid with rules around every cell: `+` at the corners, a run of `-`
/// above and below, `|` on either side.
pub open spec fn ruled(g: Seq<Seq<Cell>>, h: nat, w: nat) -> Seq<Seq<Cell>> {
    Seq::new(
        2 * h + 1,
        |y: int|
            Seq::new(
                2 * w + 1,
                |x: int|
                    if y % 2 == 0 && x % 2 == 0 {
                        (seq!['+'], ' ')
                    } else if y % 2 == 0 {
                        (Seq::<char>::empty(), '-')
                    } else if x % 2 == 0 {
                        (seq!['|'], ' ')
                    } else {
                        g[(y - 1) / 2][(x - 1) / 2]
                    },
            ),
    )
}

/// Sets one cell of a grid.
fn put_cell(grid: &mut Vec<Vec<(String, char)>>, y: usize, x: usize, c: (String, char))
    requires
        y < old(grid)@.len(),
        x < old(grid)@[y as int]@.len(),
    ensures
        rows_view(final(grid)@) == put(rows_view(old(grid)@), (y as int, x as int, (c.0@, c.1))),
{
    let ghost g0 = rows_view(grid@);
    let mut row = grid.remove(y);
    let ghost r0 = row@;
    row.set(x, c);
    grid.insert(y, row);
    proof {
        assert(rows_view(grid@) =~= put(g0, (y as int, x as int, (c.0@, c.1)))) by {
            assert forall|i: int| 0 <= i < g0.len() implies #[trigger] rows_view(grid@)[i] =~= put(
                g0,
                (y as int, x as int, (c.0@, c.1)),
            )[i] by {
                if i == y {
                    assert(grid@[i]@ == r0.update(x as int, c));
                }
            }
        }
    }
}

/// Every row of `g` has `w` cells.
pub open spec fn dims(g: Seq<Seq<Cell>>, h: nat, w: nat) -> bool {
    g.len() == h && forall|y: int| 0 <= y < h ==> (#[trigger] g[y]).len() == w
}

proof fn lemma_put_dims(g: Seq<Seq<Cell>>, h: nat, w: nat, wr: (int, int, Cell))
    requires
        dims(g, h, w),
        0 <= wr.0 < h,
        0 <= wr.1 < w,
    ensures
        dims(put(g, wr), h, w),
{
    assert forall|y: int| 0 <= y < h implies (#[trigger] put(g, wr)[y]).len() == w by {
        if y == wr.0 {
        }
    }
}

/// One more write, when it lands inside the grid.
proof fn lemma_put_all_step(g: Seq<Seq<Cell>>, ws: Seq<(int, int, Cell)>, n: int)
    requires
        0 <= n < ws.len(),
    ensures
        put_all(g, ws.take(n + 1)) == put(put_all(g, ws.take(n)), ws[n]),
{
    assert(ws.take(n + 1).drop_last() =~= ws.take(n));
    assert(ws.take(n + 1).last() == ws[n]);
}

pub open spec fn names_view(v: Seq<String>) -> Seq<Seq<char>> {
    v.map_values(|s: String| s@)
}

/// The grid of a pivot table before its rules are drawn.
pub open spec fn pivot_grid(
    xk: Seq<Seq<char>>,
    yk: Seq<Seq<char>>,
    xh: HeaderTree,
    xw: nat,
    yh: HeaderTree,
    yw: nat,
    cells: Seq<CellView>,
) -> Seq<Seq<Cell>> {
    put_all(blank(xk.len() + 1 + yw, yk.len() + 1 + xw), body_writes(xk, yk, xh, yh, cells))
}

/// Concrete writes, seen as grid writes.
pub open spec fn writes_view(v: Seq<(usize, usize, (String, char))>) -> Seq<(int, int, Cell)> {
    v.map_values(|e: (usize, usize, (String, char))| (e.0 as int, e.1 as int, (e.2.0@, e.2.1)))
}

/// Every write lands inside an `h` by `w` grid.
pub open spec fn in_bounds(ws: Seq<(int, int, Cell)>, h: nat, w: nat) -> bool {
    forall|i: int| 0 <= i < ws.len() ==> 0 <= (#[trigger] ws[i]).0 < h && 0 <= ws[i].1 < w
}

/// A grid of `h` rows of `w` empty cells.
fn blank_grid(h: usize, w: usize) -> (g: Vec<Vec<(String, char)>>)
    ensures
        rows_view(g@) == blank(h as nat, w as nat),
{
    let ghost b0 = blank(h as nat, w as nat);
    let mut grid: Vec<Vec<(String, char)>> = Vec::new();
    let mut y: usize = 0;
    while y < h
        invariant
            y <= h,
            b0 == blank(h as nat, w as nat),
            rows_view(grid@) == b0.take(y as int),
        decreases h - y,
    {
        let mut row: Vec<(String, char)> = Vec::new();
        let mut x: usize = 0;
        while x < w
            invariant
                x <= w,
                row@.len() == x,
                forall|j: int| 0 <= j < x ==> (#[trigger] row@[j]).0@ == Seq::<char>::empty() && row@[j].1 == ' ',
            decreases w - x,
        {
            row.push((String::new(), ' '));
            x = x + 1;
        }
        let ghost before = grid@;
        grid.push(row);
        proof {
            assert(row@.map_values(|c: (String, char)| (c.0@, c.1)) =~= b0[y as int]);
            assert(grid@ == before.push(row));
            assert(rows_view(grid@) =~= rows_view(before).push(b0[y as int]));
            assert(b0.take(y + 1) =~= b0.take(y as int).push(b0[y as int]));
        }
        y = y + 1;
    }
    assert(b0.take(h as int) =~= b0);
    grid
}

/// Applies the writes in order.
fn put_cells(grid: &mut Vec<Vec<(String, char)>>, ws: Vec<(usize, usize, (String, char))>, h: Ghost<nat>, w: Ghost<nat>)
    requires
        dims(rows_view(old(grid)@), h@, w@),
        in_bounds(writes_view(ws@), h@, w@),
    ensures
        rows_view(final(grid)@) == put_all(rows_view(old(grid)@), writes_view(ws@)),
        dims(rows_view(final(grid)@), h@, w@),
{
    let ghost g0 = rows_view(grid@);
    let ghost wv = writes_view(ws@);
    let total = ws.len();
    let mut ws = ws;
    let mut rev: Vec<(usize, usize, (String, char))> = Vec::new();
    while ws.len() > 0
        invariant
            writes_view(ws@) + writes_view(rev@).reverse() == wv,
        decreases ws@.len(),
    {
        let ghost before = ws@;
        let e = ws.pop().unwrap();
        let ghost rb = rev@;
        rev.push(e);
        proof {
            assert(before == ws@.push(e));
            assert(writes_view(before) =~= writes_view(ws@).push((e.0 as int, e.1 as int, (e.2.0@, e.2.1))));
            assert(writes_view(rev@) =~= writes_view(rb).push((e.0 as int, e.1 as int, (e.2.0@, e.2.1))));
            assert(writes_view(rev@).reverse() =~= seq![(e.0 as int, e.1 as int, (e.2.0@, e.2.1))] + writes_view(rb).reverse());
            assert(writes_view(ws@) + writes_view(rev@).reverse() =~= writes_view(before) + writes_view(rb).reverse());
        }
    }
    assert(writes_view(ws@) =~= Seq::<(int, int, Cell)>::empty());
    assert(writes_view(rev@).reverse() =~= wv);
    let mut n: usize = 0;
    assert(wv.take(0) =~= Seq::<(int, int, Cell)>::empty());
    while rev.len() > 0
        invariant
            writes_view(rev@).reverse() == wv.skip(n as int),
            n <= wv.len(),
            wv.len() == total,
            rows_view(grid@) == put_all(g0, wv.take(n as int)),
            dims(rows_view(grid@), h@, w@),
            in_bounds(wv, h@, w@),
        decreases rev@.len(),
    {
        let ghost rb = rev@;
        let e = rev.pop().unwrap();
        proof {
            assert(rb == rev@.push(e));
            assert(writes_view(rb) =~= writes_view(rev@).push((e.0 as int, e.1 as int, (e.2.0@, e.2.1))));
            let x = (e.0 as int, e.1 as int, (e.2.0@, e.2.1));
            assert(writes_view(rb).reverse() =~= seq![x] + writes_view(rev@).reverse());
            assert(n < wv.len());
            assert(wv.skip(n as int) =~= seq![wv[n as int]] + wv.skip(n + 1));
            let lhs = writes_view(rb).reverse();
            assert(lhs == wv.skip(n as int));
            assert(lhs[0] == x);
            assert(lhs[0] == wv[n as int]);
            assert(writes_view(rev@).reverse() =~= lhs.skip(1));
            assert(wv.skip(n + 1) =~= wv.skip(n as int).skip(1));
            lemma_put_all_step(g0, wv, n as int);
            lemma_put_dims(rows_view(grid@), h@, w@, wv[n as int]);
            assert(0 <= wv[n as int].0 < h@);
            assert(rows_view(grid@)[e.0 as int].len() == w@);
        }
        put_cell(grid, e.0, e.1, e.2);
        n = n + 1;
    }
    assert(wv.skip(n as int).len() == 0);
    assert(wv.take(n as int) =~= wv);
}

/// The grid drawn with its rules.
fn ruled_grid(grid: &Vec<Vec<(String, char)>>, h: usize, w: usize) -> (out: Vec<Vec<(String, char)>>)
    requires
        dims(rows_view(grid@), h as nat, w as nat),
        2 * h + 1 <= usize::MAX,
        2 * w + 1 <= usize::MAX,
    ensures
        rows_view(out@) == ruled(rows_view(grid@), h as nat, w as nat),
{
    let ghost g = rows_view(grid@);
    let ghost rg = ruled(g, h as nat, w as nat);
    let mut out: Vec<Vec<(String, char)>> = Vec::new();
    let mut y: usize = 0;
    while y < 2 * h + 1
        invariant
            y <= 2 * h + 1,
            2 * h + 1 <= usize::MAX,
            2 * w + 1 <= usize::MAX,
            g == rows_view(grid@),
            dims(g, h as nat, w as nat),
            rg == ruled(g, h as nat, w as nat),
            rows_view(out@) == rg.take(y as int),
        decreases 2 * h + 1 - y,
    {
        let mut row: Vec<(String, char)> = Vec::new();
        let mut x: usize = 0;
        while x < 2 * w + 1
            invariant
                y < 2 * h + 1,
                x <= 2 * w + 1,
                2 * w + 1 <= usize::MAX,
                g == rows_view(grid@),
                dims(g, h as nat, w as nat),
                rg == ruled(g, h as nat, w as nat),
                row@.len() == x,
                forall|q: int| 0 <= q < x ==> ((#[trigger] row@[q]).0@, row@[q].1) == rg[y as int][q],
            decreases 2 * w + 1 - x,
        {
            let c: (String, char) = if y % 2 == 0 && x % 2 == 0 {
                let mut s = String::new();
                crate::text::push_char(&mut s, '+');
                assert(s@ =~= seq!['+']);
                (s, ' ')
            } else if y % 2 == 0 {
                (String::new(), '-')
            } else if x % 2 == 0 {
                let mut s = String::new();
                crate::text::push_char(&mut s, '|');
                assert(s@ =~= seq!['|']);
                (s, ' ')
            } else {
                let gy = (y - 1) / 2;
                let gx = (x - 1) / 2;
                assert(g[gy as int].len() == w);
                let cell = &grid[gy][gx];
                assert(g[gy as int][gx as int] == (cell.0@, cell.1));
                (cell.0.clone(), cell.1)
            };
            row.push(c);
            x = x + 1;
        }
        let ghost before = out@;
        out.push(row);
        proof {
            assert(row@.map_values(|c: (String, char)| (c.0@, c.1)) =~= rg[y as int]);
            assert(out@ == before.push(row));
            assert(rows_view(out@) =~= rows_view(before).push(rg[y as int]));
            assert(rg.take(y + 1) =~= rg.take(y as int).push(rg[y as int]));
        }
        y = y + 1;
    }
    assert(rg.take(y as int) =~= rg);
    out
}

/// The writes naming the keys.
fn label_cells(xk: &Vec<String>, yk: &Vec<String>) -> (ws: Vec<(usize, usize, (String, char))>)
    ensures
        writes_view(ws@) == label_writes(names_view(xk@), names_view(yk@)),
{
    let ghost want = label_writes(names_view(xk@), names_view(yk@));
    let mut ws: Vec<(usize, usize, (String, char))> = Vec::new();
    let mut i: usize = 0;
    while i < xk.len()
        invariant
            i <= xk@.len(),
            want == label_writes(names_view(xk@), names_view(yk@)),
            writes_view(ws@) == want.take(i as int),
        decreases xk@.len() - i,
    {
        let ghost before = ws@;
        let c = xk[i].clone();
        assert(c@ == xk@[i as int]@);
        ws.push((i, yk.len(), (c, ' ')));
        proof {
            assert(writes_view(ws@) =~= writes_view(before).push((i as int, yk@.len() as int, (xk@[i as int]@, ' '))));
            assert(want[i as int] == (i as int, yk@.len() as int, (xk@[i as int]@, ' ')));
            assert(want.take(i + 1) =~= want.take(i as int).push(want[i as int]));
        }
        i = i + 1;
    }
    let mut j: usize = 0;
    while j < yk.len()
        invariant
            j <= yk@.len(),
            want == label_writes(names_view(xk@), names_view(yk@)),
            writes_view(ws@) == want.take(xk@.len() + j),
        decreases yk@.len() - j,
    {
        let ghost before = ws@;
        let c = yk[j].clone();
        assert(c@ == yk@[j as int]@);
        ws.push((xk.len(), j, (c, ' ')));
        proof {
            let k = xk@.len() + j;
            assert(writes_view(ws@) =~= writes_view(before).push((xk@.len() as int, j as int, (yk@[j as int]@, ' '))));
            assert(want[k] == (xk@.len() as int, j as int, (yk@[j as int]@, ' ')));
            assert(want.take(k + 1) =~= want.take(k).push(want[k]));
        }
        j = j + 1;
    }
    assert(want.take((xk@.len() + yk@.len()) as int) =~= want);
    ws
}

/// The writes placing the column headers (`across`) or the row headers.
fn header_cells(v: &Vec<(usize, usize, Record)>, off: usize, across: bool, bound: Ghost<nat>) -> (ws: Vec<
    (usize, usize, (String, char)),
>)
    requires
        forall|q: int| 0 <= q < v@.len() ==> (#[trigger] v@[q]).0 < bound@,
        off + bound@ <= usize::MAX,
    ensures
        writes_view(ws@) == if across {
            xhead_writes(visit_view(v@), off as int)
        } else {
            yhead_writes(visit_view(v@), off as int)
        },
{
    let ghost want = if across {
        xhead_writes(visit_view(v@), off as int)
    } else {
        yhead_writes(visit_view(v@), off as int)
    };
    let mut ws: Vec<(usize, usize, (String, char))> = Vec::new();
    let mut i: usize = 0;
    while i < v.len()
        invariant
            i <= v@.len(),
            forall|q: int| 0 <= q < v@.len() ==> (#[trigger] v@[q]).0 < bound@,
            off + bound@ <= usize::MAX,
            want == if across {
                xhead_writes(visit_view(v@), off as int)
            } else {
                yhead_writes(visit_view(v@), off as int)
            },
            writes_view(ws@) == want.take(i as int),
        decreases v@.len() - i,
    {
        let e = &v[i];
        let t = e.2.pretty_string();
        let ghost before = ws@;
        assert(e.0 < bound@);
        if across {
            ws.push((e.1, off + e.0, (t, ' ')));
        } else {
            ws.push((off + e.0, e.1, (t, ' ')));
        }
        proof {
            assert(visit_view(v@)[i as int] == (e.0, e.1 as nat, e.2@));
            assert(writes_view(ws@) =~= writes_view(before).push(want[i as int]));
            assert(want.take(i + 1) =~= want.take(i as int).push(want[i as int]));
        }
        i = i + 1;
    }
    assert(want.take(v@.len() as int) =~= want);
    ws
}

/// The writes placing the values.
fn data_cells(
    cells: &Vec<(Vec<Record>, Vec<Record>, Record)>,
    xh: &HeaderTree,
    yh: &HeaderTree,
    xoff: usize,
    yoff: usize,
) -> (ws: Vec<(usize, usize, (String, char))>)
    requires
        xh.numbered(0),
        yh.numbered(0),
        forall|i: int|
            0 <= i < cells@.len() ==> (#[trigger] xh.node_at(records_view(cells@[i].0@))) is Some
                && yh.node_at(records_view(cells@[i].1@)) is Some,
        xoff + xh.leaves() <= usize::MAX,
        yoff + yh.leaves() <= usize::MAX,
    ensures
        writes_view(ws@) == data_writes(cells_view(cells@), *xh, *yh, xoff as int, yoff as int),
{
    let ghost want = data_writes(cells_view(cells@), *xh, *yh, xoff as int, yoff as int);
    let mut ws: Vec<(usize, usize, (String, char))> = Vec::new();
    let mut i: usize = 0;
    while i < cells.len()
        invariant
            i <= cells@.len(),
            xh.numbered(0),
            yh.numbered(0),
            forall|m: int|
                0 <= m < cells@.len() ==> (#[trigger] xh.node_at(records_view(cells@[m].0@))) is Some
                    && yh.node_at(records_view(cells@[m].1@)) is Some,
            xoff + xh.leaves() <= usize::MAX,
            yoff + yh.leaves() <= usize::MAX,
            want == data_writes(cells_view(cells@), *xh, *yh, xoff as int, yoff as int),
            writes_view(ws@) == want.take(i as int),
        decreases cells@.len() - i,
    {
        let c = &cells[i];
        assert(xh.node_at(records_view(cells@[i as int].0@)) is Some);
        let xt = xh.tag(c.0.as_slice());
        let yt = yh.tag(c.1.as_slice());
        proof {
            lemma_tag_bounds(*xh, 0, records_view(c.0@));
            lemma_tag_bounds(*yh, 0, records_view(c.1@));
        }
        let t = c.2.pretty_string();
        let ghost before = ws@;
        ws.push((yoff + yt, xoff + xt, (t, ' ')));
        proof {
            assert(cells_view(cells@)[i as int] == (records_view(c.0@), records_view(c.1@), c.2@));
            assert(writes_view(ws@) =~= writes_view(before).push(want[i as int]));
            assert(want.take(i + 1) =~= want.take(i as int).push(want[i as int]));
        }
        i = i + 1;
    }
    assert(want.take(cells@.len() as int) =~= want);
    ws
}

/// Lays out a pivot table: `xk` keys head the columns, `yk` keys the rows;
/// the header trees `xh` and `yh` (numbered, `xw` and `yw` leaves wide)
/// give each cell's column and row. Gives the table's lines with rules
/// around every cell.
pub fn pivot_lines(
    xk: &Vec<String>,
    yk: &Vec<String>,
    xh: &HeaderTree,
    xw: usize,
    yh: &HeaderTree,
    yw: usize,
    cells: &Vec<(Vec<Record>, Vec<Record>, Record)>,
) -> (lines: Vec<String>)
    requires
        xh.numbered(0),
        xh.within(xk@.len()),
        xw == xh.leaves(),
        yh.numbered(0),
        yh.within(yk@.len()),
        yw == yh.leaves(),
        forall|i: int|
            0 <= i < cells@.len() ==> (#[trigger] xh.node_at(records_view(cells@[i].0@))) is Some
                && yh.node_at(records_view(cells@[i].1@)) is Some,
        2 * (xk@.len() + 1 + yw) + 1 <= usize::MAX,
        2 * (yk@.len() + 1 + xw) + 1 <= usize::MAX,
    ensures
        ({
            let h = (xk@.len() + 1 + yw) as nat;
            let w = (yk@.len() + 1 + xw) as nat;
            let g = ruled(
                pivot_grid(names_view(xk@), names_view(yk@), *xh, xw as nat, *yh, yw as nat, cells_view(cells@)),
                h,
                w,
            );
            &&& lines@.len() == g.len()
            &&& forall|i: int| 0 <= i < g.len() ==> (#[trigger] lines@[i])@ == row_text(g[i], g)
        }),
{
    let h = xk.len() + 1 + yw;
    let w = yk.len() + 1 + xw;
    let ghost xkv = names_view(xk@);
    let ghost ykv = names_view(yk@);
    let ghost cv = cells_view(cells@);
    let mut grid = blank_grid(h, w);
    let mut ws = label_cells(xk, yk);
    let ghost lw = writes_view(ws@);
    let mut xv: Vec<(usize, usize, Record)> = Vec::new();
    xh.visit(0, Ghost(xk@.len() as nat), &mut xv);
    proof {
        assert(visit_view(xv@) =~= xh.preorder(0));
        lemma_preorder_bounds(*xh, 0, 0, xk@.len() as nat);
        assert forall|q: int| 0 <= q < xv@.len() implies (#[trigger] xv@[q]).0 < xh.leaves() by {
            assert(visit_view(xv@)[q] == xh.preorder(0)[q]);
        }
    }
    let mut a = header_cells(&xv, yk.len() + 1, true, Ghost(xh.leaves()));
    let ghost aw = writes_view(a@);
    ws.append(&mut a);
    let mut yv: Vec<(usize, usize, Record)> = Vec::new();
    yh.visit(0, Ghost(yk@.len() as nat), &mut yv);
    proof {
        assert(visit_view(yv@) =~= yh.preorder(0));
        lemma_preorder_bounds(*yh, 0, 0, yk@.len() as nat);
        assert forall|q: int| 0 <= q < yv@.len() implies (#[trigger] yv@[q]).0 < yh.leaves() by {
            assert(visit_view(yv@)[q] == yh.preorder(0)[q]);
        }
    }
    let mut b = header_cells(&yv, xk.len() + 1, false, Ghost(yh.leaves()));
    let ghost bw2 = writes_view(b@);
    ws.append(&mut b);
    let mut d = data_cells(cells, xh, yh, yk.len() + 1, xk.len() + 1);
    let ghost dw = writes_view(d@);
    ws.append(&mut d);
    proof {
        assert(writes_view(ws@) =~= lw + aw + bw2 + dw);
        assert(writes_view(ws@) == body_writes(xkv, ykv, *xh, *yh, cv));
        let all = writes_view(ws@);
        assert forall|i: int| 0 <= i < all.len() implies 0 <= (#[trigger] all[i]).0 < h && 0 <= all[i].1 < w by {
            let nl = lw.len() as int;
            let na = aw.len() as int;
            let nb = bw2.len() as int;
            if i < nl {
                assert(all[i] == lw[i]);
            } else if i < nl + na {
                assert(all[i] == aw[i - nl]);
                let e = xh.preorder(0)[i - nl];
            } else if i < nl + na + nb {
                assert(all[i] == bw2[i - nl - na]);
                let e = yh.preorder(0)[i - nl - na];
            } else {
                let k = i - nl - na - nb;
                assert(all[i] == dw[k]);
                lemma_tag_bounds(*xh, 0, cv[k].0);
                lemma_tag_bounds(*yh, 0, cv[k].1);
                assert(xh.node_at(records_view(cells@[k].0@)) is Some);
            }
        }
        assert(dims(blank(h as nat, w as nat), h as nat, w as nat));
    }
    put_cells(&mut grid, ws, Ghost(h as nat), Ghost(w as nat));
    let out = ruled_grid(&grid, h, w);
    dump_table(&out)
}

/// What a pivot table is built from: the keys along the columns and the
/// rows, the keys (and values) a record must have to count, and the keys
/// whose values fill the cells (when none are given: every key of the
/// record not used otherwise).
pub struct PivotOptions {
    pub xk: Vec<String>,
    pub yk: Vec<String>,
    pub pins: Vec<(String, String)>,
    pub vk: Vec<String>,
}

/// The text of the value at `k`: strings bare, other values as JSON.
pub open spec fn text_at(r: JsonView, k: Seq<char>) -> Seq<char> {
    pretty_spec(or_null(path_get(r, path_of(k))))
}

/// Every pin holds: the record's text at each pinned key is the pinned
/// text.
pub open spec fn pins_hold(pins: Seq<(String, String)>, r: JsonView) -> bool {
    forall|i: int| 0 <= i < pins.len() ==> text_at(r, (#[trigger] pins[i]).0@) == pins[i].1@
}

/// The name that stands for the value key itself among the column or row
/// keys.
pub open spec fn value_name() -> Seq<char> {
    seq!['V', 'A', 'L', 'U', 'E']
}

/// Whether `k` is one of the keys in use.
pub open spec fn used_key(o: PivotOptions, k: Seq<char>) -> bool {
    names_view(o.xk@).contains(k) || names_view(o.yk@).contains(k) || o.pins@.map_values(
        |p: (String, String)| p.0@,
    ).contains(k)
}

/// The value keys for a record.
pub open spec fn value_keys(o: PivotOptions, r: JsonView) -> Seq<Seq<char>> {
    if o.vk@.len() > 0 {
        names_view(o.vk@)
    } else {
        as_hash(r).map_values(|e: (Seq<char>, JsonView)| e.0).filter(|k: Seq<char>| !used_key(o, k))
    }
}

/// With no value keys given, the value keys of a record are exactly its
/// own keys that are neither column keys, row keys nor pinned keys.
pub proof fn law_default_value_keys(o: PivotOptions, r: JsonView, k: Seq<char>)
    requires
        o.vk@.len() == 0,
    ensures
        value_keys(o, r).contains(k) <==> {
            &&& exists|i: int| 0 <= i < as_hash(r).len() && as_hash(r)[i].0 == k
            &&& !names_view(o.xk@).contains(k)
            &&& !names_view(o.yk@).contains(k)
            &&& forall|i: int| 0 <= i < o.pins@.len() ==> (#[trigger] o.pins@[i]).0@ != k
        },
{
    let keys = as_hash(r).map_values(|e: (Seq<char>, JsonView)| e.0);
    let pred = |x: Seq<char>| !used_key(o, x);
    let pk = o.pins@.map_values(|p: (String, String)| p.0@);
    assert(value_keys(o, r) == keys.filter(pred));
    if keys.filter(pred).contains(k) {
        keys.lemma_filter_contains_rev(pred, k);
        let i = choose|i: int| 0 <= i < keys.len() && keys[i] == k;
        assert(as_hash(r)[i].0 == k);
        let j = choose|j: int| 0 <= j < keys.filter(pred).len() && keys.filter(pred)[j] == k;
        keys.lemma_filter_pred(pred, j);
        assert(!used_key(o, k));
        assert forall|i2: int| 0 <= i2 < o.pins@.len() implies (#[trigger] o.pins@[i2]).0@ != k by {
            if o.pins@[i2].0@ == k {
                assert(pk[i2] == k);
                assert(pk.contains(k));
            }
        }
    }
    if (exists|i: int| 0 <= i < as_hash(r).len() && as_hash(r)[i].0 == k) && !names_view(o.xk@).contains(k)
        && !names_view(o.yk@).contains(k) && (forall|i: int| 0 <= i < o.pins@.len() ==> (#[trigger] o.pins@[i]).0@ != k) {
        let i = choose|i: int| 0 <= i < as_hash(r).len() && as_hash(r)[i].0 == k;
        assert(keys[i] == k);
        if pk.contains(k) {
            let m = choose|m: int| 0 <= m < pk.len() && pk[m] == k;
            assert(o.pins@[m].0@ == k);
        }
        assert(pred(keys[i]));
        keys.lemma_filter_contains(pred, i);
    }
}

/// The values heading a cell along one side.
pub open spec fn side_values(keys: Seq<Seq<char>>, r: JsonView, vk: Seq<char>) -> Seq<JsonView> {
    keys.map_values(
        |k: Seq<char>|
            if k == value_name() {
                JsonView::Str(vk)
            } else {
                or_null(path_get(r, path_of(k)))
            },
    )
}

/// The cells a record gives: none unless every pin holds; else one for
/// each value key.
pub open spec fn record_cells_spec(o: PivotOptions, r: JsonView) -> Seq<CellView> {
    if !pins_hold(o.pins@, r) {
        Seq::empty()
    } else {
        value_keys(o, r).map_values(
            |vk: Seq<char>|
                (
                    side_values(names_view(o.xk@), r, vk),
                    side_values(names_view(o.yk@), r, vk),
                    or_null(path_get(r, path_of(vk))),
                ),
        )
    }
}

/// Every key path given is a usable path.
pub open spec fn options_ok(o: PivotOptions) -> bool {
    &&& forall|i: int| 0 <= i < o.xk@.len() ==> path_text_valid(#[trigger] o.xk@[i]@)
    &&& forall|i: int| 0 <= i < o.yk@.len() ==> path_text_valid(#[trigger] o.yk@[i]@)
    &&& forall|i: int| 0 <= i < o.vk@.len() ==> path_text_valid(#[trigger] o.vk@[i]@)
    &&& forall|i: int| 0 <= i < o.pins@.len() ==> path_text_valid(#[trigger] o.pins@[i].0@)
}

/// A record the options can read: when no value keys are given it must be
/// a hash whose keys are usable paths.
pub open spec fn record_ok(o: PivotOptions, r: JsonView) -> bool {
    o.vk@.len() == 0 ==> (r is Hash && forall|i: int|
        0 <= i < as_hash(r).len() ==> path_text_valid(#[trigger] as_hash(r)[i].0))
}

fn is_value_name(k: &str) -> (b: bool)
    ensures
        b == (k@ == value_name()),
{
    let mut v: Vec<char> = Vec::new();
    v.push('V');
    v.push('A');
    v.push('L');
    v.push('U');
    v.push('E');
    assert(v@ =~= value_name());
    let kc = chars_of(k);
    chars_eq(kc.as_slice(), v.as_slice())
}

fn contains_name(v: &Vec<String>, k: &str) -> (b: bool)
    ensures
        b == names_view(v@).contains(k@),
{
    let kc = chars_of(k);
    let mut i: usize = 0;
    while i < v.len()
        invariant
            kc@ == k@,
            i <= v@.len(),
            forall|j: int| 0 <= j < i ==> v@[j]@ != k@,
        decreases v@.len() - i,
    {
        let c = chars_of(v[i].as_str());
        if chars_eq(c.as_slice(), kc.as_slice()) {
            assert(names_view(v@)[i as int] == k@);
            return true;
        }
        i = i + 1;
    }
    assert forall|j: int| 0 <= j < names_view(v@).len() implies names_view(v@)[j] != k@ by {
        assert(names_view(v@)[j] == v@[j]@);
    }
    false
}

fn pinned(pins: &Vec<(String, String)>, k: &str) -> (b: bool)
    ensures
        b == pins@.map_values(|p: (String, String)| p.0@).contains(k@),
{
    let ghost ks = pins@.map_values(|p: (String, String)| p.0@);
    let kc = chars_of(k);
    let mut i: usize = 0;
    while i < pins.len()
        invariant
            kc@ == k@,
            i <= pins@.len(),
            ks == pins@.map_values(|p: (String, String)| p.0@),
            forall|j: int| 0 <= j < i ==> pins@[j].0@ != k@,
        decreases pins@.len() - i,
    {
        let c = chars_of(pins[i].0.as_str());
        if chars_eq(c.as_slice(), kc.as_slice()) {
            assert(ks[i as int] == k@);
            return true;
        }
        i = i + 1;
    }
    assert forall|j: int| 0 <= j < ks.len() implies ks[j] != k@ by {
        assert(ks[j] == pins@[j].0@);
    }
    false
}

/// The values heading a cell along one side.
fn side(keys: &Vec<String>, r: &Record, vk: &str) -> (v: Vec<Record>)
    requires
        forall|i: int| 0 <= i < keys@.len() ==> path_text_valid(#[trigger] keys@[i]@),
    ensures
        records_view(v@) == side_values(names_view(keys@), r@, vk@),
{
    let ghost want = side_values(names_view(keys@), r@, vk@);
    let mut v: Vec<Record> = Vec::new();
    let mut i: usize = 0;
    while i < keys.len()
        invariant
            i <= keys@.len(),
            forall|m: int| 0 <= m < keys@.len() ==> path_text_valid(#[trigger] keys@[m]@),
            want == side_values(names_view(keys@), r@, vk@),
            records_view(v@) == want.take(i as int),
        decreases keys@.len() - i,
    {
        let x = if is_value_name(keys[i].as_str()) {
            Record::from_str(vk)
        } else {
            assert(path_text_valid(keys@[i as int]@));
            r.get_path(keys[i].as_str())
        };
        let ghost before = v@;
        v.push(x);
        proof {
            assert(names_view(keys@)[i as int] == keys@[i as int]@);
            assert(records_view(v@) =~= records_view(before).push(want[i as int]));
            assert(want.take(i + 1) =~= want.take(i as int).push(want[i as int]));
        }
        i = i + 1;
    }
    assert(want.take(keys@.len() as int) =~= want);
    v
}

/// The value keys of `r` as `value_keys` gives them.
fn record_value_keys(o: &PivotOptions, r: &Record) -> (ks: Vec<String>)
    requires
        record_ok(*o, r@),
    ensures
        names_view(ks@) == value_keys(*o, r@),
{
    if o.vk.len() > 0 {
        let mut ks: Vec<String> = Vec::new();
        let mut i: usize = 0;
        while i < o.vk.len()
            invariant
                i <= o.vk@.len(),
                names_view(ks@) == names_view(o.vk@).take(i as int),
            decreases o.vk@.len() - i,
        {
            let c = o.vk[i].clone();
            let ghost before = ks@;
            ks.push(c);
            assert(names_view(ks@) =~= names_view(before).push(o.vk@[i as int]@));
            assert(names_view(o.vk@).take(i + 1) =~= names_view(o.vk@).take(i as int).push(o.vk@[i as int]@));
            i = i + 1;
        }
        assert(names_view(o.vk@).take(o.vk@.len() as int) =~= names_view(o.vk@));
        return ks;
    }
    let e = r.expect_hash();
    let ghost keys = as_hash(r@).map_values(|x: (Seq<char>, JsonView)| x.0);
    let ghost pred = |k: Seq<char>| !used_key(*o, k);
    assert(as_hash(r@) == entries_view(e@));
    let mut ks: Vec<String> = Vec::new();
    let mut i: usize = 0;
    assert(keys.take(0) =~= Seq::<Seq<char>>::empty());
    proof {
        reveal(Seq::filter);
    }
    while i < e.len()
        invariant
            i <= e@.len(),
            keys == as_hash(r@).map_values(|x: (Seq<char>, JsonView)| x.0),
            as_hash(r@) == entries_view(e@),
            pred == |k: Seq<char>| !used_key(*o, k),
            names_view(ks@) == keys.take(i as int).filter(pred),
        decreases e@.len() - i,
    {
        let k = e[i].0.as_str();
        assert(keys[i as int] == k@);
        proof {
            reveal(Seq::filter);
            assert(keys.take(i + 1).drop_last() =~= keys.take(i as int));
            assert(keys.take(i + 1).last() == k@);
        }
        if !(contains_name(&o.xk, k) || contains_name(&o.yk, k) || pinned(&o.pins, k)) {
            let ghost before = ks@;
            ks.push(k.to_owned());
            assert(names_view(ks@) =~= names_view(before).push(k@));
        }
        i = i + 1;
    }
    assert(keys.take(e@.len() as int) =~= keys);
    ks
}

/// Appends the cells `r` gives.
pub fn record_cells(o: &PivotOptions, r: &Record, out: &mut Vec<(Vec<Record>, Vec<Record>, Record)>)
    requires
        options_ok(*o),
        record_ok(*o, r@),
    ensures
        cells_view(final(out)@) == cells_view(old(out)@) + record_cells_spec(*o, r@),
{
    let mut i: usize = 0;
    while i < o.pins.len()
        invariant
            i <= o.pins@.len(),
            options_ok(*o),
            forall|j: int| 0 <= j < i ==> text_at(r@, (#[trigger] o.pins@[j]).0@) == o.pins@[j].1@,
        decreases o.pins@.len() - i,
    {
        assert(path_text_valid(o.pins@[i as int].0@));
        let t = r.get_path(o.pins[i].0.as_str()).pretty_string();
        let a = chars_of(t.as_str());
        let b = chars_of(o.pins[i].1.as_str());
        if !chars_eq(a.as_slice(), b.as_slice()) {
            assert(!pins_hold(o.pins@, r@));
            assert(cells_view(out@) =~= cells_view(out@) + Seq::<CellView>::empty());
            return;
        }
        i = i + 1;
    }
    assert(pins_hold(o.pins@, r@));
    let ks = record_value_keys(o, r);
    let ghost want = record_cells_spec(*o, r@);
    let ghost start = cells_view(out@);
    let mut j: usize = 0;
    while j < ks.len()
        invariant
            j <= ks@.len(),
            options_ok(*o),
            record_ok(*o, r@),
            pins_hold(o.pins@, r@),
            names_view(ks@) == value_keys(*o, r@),
            want == record_cells_spec(*o, r@),
            cells_view(out@) == start + want.take(j as int),
        decreases ks@.len() - j,
    {
        let k = ks[j].as_str();
        proof {
            assert(names_view(ks@)[j as int] == k@);
            if o.vk@.len() > 0 {
                assert(names_view(o.vk@)[j as int] == o.vk@[j as int]@);
                assert(path_text_valid(o.vk@[j as int]@));
            } else {
                let keys = as_hash(r@).map_values(|x: (Seq<char>, JsonView)| x.0);
                let pred = |k: Seq<char>| !used_key(*o, k);
                assert(keys.filter(pred).contains(k@)) by {
                    assert(keys.filter(pred)[j as int] == k@);
                }
                keys.lemma_filter_contains_rev(pred, k@);
                let m = choose|m: int| 0 <= m < keys.len() && keys[m] == k@;
                assert(path_text_valid(as_hash(r@)[m].0));
            }
        }
        let xs = side(&o.xk, r, k);
        let ys = side(&o.yk, r, k);
        let v = r.get_path(k);
        let ghost before = out@;
        out.push((xs, ys, v));
        proof {
            assert(cells_view(out@) =~= cells_view(before).push(want[j as int]));
            assert(want.take(j + 1) =~= want.take(j as int).push(want[j as int]));
        }
        j = j + 1;
    }
    assert(want.take(ks@.len() as int) =~= want);
}

/// The cells all the records give, record after record.
pub open spec fn all_cells(o: PivotOptions, rs: Seq<JsonView>) -> Seq<CellView>
    decreases rs.len(),
{
    if rs.len() == 0 {
        Seq::empty()
    } else {
        all_cells(o, rs.drop_last()) + record_cells_spec(o, rs.last())
    }
}

proof fn lemma_all_cells_lengths(o: PivotOptions, rs: Seq<JsonView>)
    ensures
        forall|q: CellView|
            #[trigger] all_cells(o, rs).contains(q) ==> q.0.len() == o.xk@.len() && q.1.len() == o.yk@.len(),
    decreases rs.len(),
{
    if rs.len() > 0 {
        lemma_all_cells_lengths(o, rs.drop_last());
        let a = all_cells(o, rs.drop_last());
        let b = record_cells_spec(o, rs.last());
        assert forall|q: CellView| #[trigger] all_cells(o, rs).contains(q) implies q.0.len() == o.xk@.len()
            && q.1.len() == o.yk@.len() by {
            let i = choose|i: int| 0 <= i < all_cells(o, rs).len() && all_cells(o, rs)[i] == q;
            if i < a.len() {
                assert(all_cells(o, rs)[i] == a[i]);
                assert(a.contains(q));
            } else {
                assert(all_cells(o, rs)[i] == b[i - a.len()]);
            }
        }
    }
}

/// A table with `n` cells has room for its rules and headers.
pub open spec fn fits(o: PivotOptions, n: nat) -> bool {
    2 * (o.xk@.len() + o.yk@.len() + n + 2) + 1 <= usize::MAX
}

/// `lines` is the pivot table of `cells` under header trees `xh` and `yh`.
pub open spec fn rendered_by(
    o: PivotOptions,
    cells: Seq<CellView>,
    xh: HeaderTree,
    yh: HeaderTree,
    lines: Seq<String>,
) -> bool {
    let xw = xh.leaves();
    let yw = yh.leaves();
    let h = (o.xk@.len() + 1 + yw) as nat;
    let w = (o.yk@.len() + 1 + xw) as nat;
    let g = ruled(pivot_grid(names_view(o.xk@), names_view(o.yk@), xh, xw, yh, yw, cells), h, w);
    &&& xh.numbered(0)
    &&& yh.numbered(0)
    &&& forall|i: int| 0 <= i < cells.len() ==> (#[trigger] xh.node_at(cells[i].0)) is Some && yh.node_at(cells[i].1) is Some
    &&& nodes_from(xh, cells.map_values(|c: CellView| c.0))
    &&& nodes_from(yh, cells.map_values(|c: CellView| c.1))
    &&& xh.shape() == shape_of_tuples(cells.map_values(|c: CellView| c.0))
    &&& yh.shape() == shape_of_tuples(cells.map_values(|c: CellView| c.1))
    &&& lines.len() == g.len()
    &&& forall|i: int| 0 <= i < g.len() ==> (#[trigger] lines[i])@ == row_text(g[i], g)
}

/// `lines` is the pivot table of `cells` under the numbered header trees
/// built from the cells' values along each side: every node a value first
/// met along some cell's values, children in the order first met.
pub open spec fn has_rendering(o: PivotOptions, cells: Seq<CellView>, lines: Seq<String>) -> bool {
    exists|xh: HeaderTree, yh: HeaderTree| #[trigger] rendered_by(o, cells, xh, yh, lines)
}

/// The values along one side of each cell, copied.
fn side_tuples(cells: &Vec<(Vec<Record>, Vec<Record>, Record)>, across: bool) -> (zss: Vec<Vec<Record>>)
    ensures
        zss@.len() == cells@.len(),
        forall|i: int|
            0 <= i < cells@.len() ==> records_view((#[trigger] zss@[i])@) == if across {
                records_view(cells@[i].0@)
            } else {
                records_view(cells@[i].1@)
            },
{
    let mut zss: Vec<Vec<Record>> = Vec::new();
    let mut i: usize = 0;
    while i < cells.len()
        invariant
            i <= cells@.len(),
            zss@.len() == i,
            forall|m: int|
                0 <= m < i ==> records_view((#[trigger] zss@[m])@) == if across {
                    records_view(cells@[m].0@)
                } else {
                    records_view(cells@[m].1@)
                },
        decreases cells@.len() - i,
    {
        let src = if across {
            &cells[i].0
        } else {
            &cells[i].1
        };
        let mut z: Vec<Record> = Vec::new();
        let mut k: usize = 0;
        while k < src.len()
            invariant
                k <= src@.len(),
                z@.len() == k,
                forall|q: int| 0 <= q < k ==> (#[trigger] z@[q])@ == src@[q]@,
            decreases src@.len() - k,
        {
            z.push(src[k].duplicate());
            k = k + 1;
        }
        assert(records_view(z@) =~= records_view(src@));
        zss.push(z);
        i = i + 1;
    }
    zss
}

/// A pivot table of the records: their cells, headed by the values along
/// each side, in the order first met; `None` when the table would be too
/// big to index.
pub fn to_ptable(o: &PivotOptions, rs: &Vec<Record>) -> (r: Option<Vec<String>>)
    requires
        options_ok(*o),
        forall|i: int| 0 <= i < rs@.len() ==> record_ok(*o, (#[trigger] rs@[i])@),
    ensures
        r is Some <==> fits(*o, all_cells(*o, records_view(rs@)).len()),
        r matches Some(lines) ==> has_rendering(*o, all_cells(*o, records_view(rs@)), lines@),
{
    let ghost rv = records_view(rs@);
    let mut cells: Vec<(Vec<Record>, Vec<Record>, Record)> = Vec::new();
    let mut i: usize = 0;
    assert(rv.take(0) =~= Seq::<JsonView>::empty());
    while i < rs.len()
        invariant
            i <= rs@.len(),
            rv == records_view(rs@),
            options_ok(*o),
            forall|m: int| 0 <= m < rs@.len() ==> record_ok(*o, (#[trigger] rs@[m])@),
            cells_view(cells@) == all_cells(*o, rv.take(i as int)),
        decreases rs@.len() - i,
    {
        assert(record_ok(*o, rs@[i as int]@));
        record_cells(o, &rs[i], &mut cells);
        proof {
            assert(rv.take(i + 1).drop_last() =~= rv.take(i as int));
            assert(rv.take(i + 1).last() == rs@[i as int]@);
        }
        i = i + 1;
    }
    assert(rv.take(rs@.len() as int) =~= rv);
    let ghost cv = cells_view(cells@);
    let n = cells.len();
    // room for everything: 2 * (xk + yk + n + 2) + 1
    let a = match o.xk.len().checked_add(o.yk.len()) {
        Some(a) => a,
        None => return None,
    };
    let b = match a.checked_add(n) {
        Some(b) => b,
        None => return None,
    };
    let c = match b.checked_add(2) {
        Some(c) => c,
        None => return None,
    };
    let d = match c.checked_mul(2) {
        Some(d) => d,
        None => return None,
    };
    if d.checked_add(1).is_none() {
        return None;
    }
    assert(fits(*o, cv.len()));
    let xzs = side_tuples(&cells, true);
    let yzs = side_tuples(&cells, false);
    proof {
        assert forall|m: int| 0 <= m < xzs@.len() implies (#[trigger] xzs@[m])@.len() <= o.xk@.len() by {
            assert(records_view(xzs@[m]@).len() == records_view(cells@[m].0@).len());
            assert(cv[m].0 == records_view(cells@[m].0@));
            assert(records_view(cells@[m].0@).len() == o.xk@.len()) by {
                let q = cv[m];
                assert(all_cells(*o, rv).contains(q)) by {
                    assert(all_cells(*o, rv)[m] == q);
                }
                lemma_all_cells_lengths(*o, rv);
            }
        }
        assert forall|m: int| 0 <= m < yzs@.len() implies (#[trigger] yzs@[m])@.len() <= o.yk@.len() by {
            assert(records_view(yzs@[m]@).len() == records_view(cells@[m].1@).len());
            assert(cv[m].1 == records_view(cells@[m].1@));
            assert(records_view(cells@[m].1@).len() == o.yk@.len()) by {
                let q = cv[m];
                assert(all_cells(*o, rv).contains(q)) by {
                    assert(all_cells(*o, rv)[m] == q);
                }
                lemma_all_cells_lengths(*o, rv);
            }
        }
    }
    let (xh, xw) = build_header_tree(&xzs, Ghost(o.xk@.len() as nat));
    let (yh, yw) = build_header_tree(&yzs, Ghost(o.yk@.len() as nat));
    proof {
        assert forall|m: int| 0 <= m < cells@.len() implies (#[trigger] xh.node_at(records_view(cells@[m].0@))) is Some
            && yh.node_at(records_view(cells@[m].1@)) is Some by {
            assert(xh.node_at(records_view(xzs@[m]@)) is Some);
            assert(yh.node_at(records_view(yzs@[m]@)) is Some);
        }
    }
    let lines = pivot_lines(&o.xk, &o.yk, &xh, xw, &yh, yw, &cells);
    proof {
        assert forall|m: int| 0 <= m < cv.len() implies (#[trigger] xh.node_at(cv[m].0)) is Some && yh.node_at(cv[m].1) is Some by {
            assert(xh.node_at(records_view(cells@[m].0@)) is Some);
        }
        assert(tuples_view(xzs@) =~= cv.map_values(|c: CellView| c.0)) by {
            assert forall|m: int| 0 <= m < xzs@.len() implies tuples_view(xzs@)[m] == cv[m].0 by {
                assert(cv[m].0 == records_view(cells@[m].0@));
            }
        }
        assert(tuples_view(yzs@) =~= cv.map_values(|c: CellView| c.1)) by {
            assert forall|m: int| 0 <= m < yzs@.len() implies tuples_view(yzs@)[m] == cv[m].1 by {
                assert(cv[m].1 == records_view(cells@[m].1@));
            }
        }
        assert(rendered_by(*o, cv, xh, yh, lines@));
        assert(cv == all_cells(*o, records_view(rs@)));
        assert(rendered_by(*o, all_cells(*o, records_view(rs@)), xh, yh, lines@));
        assert(has_rendering(*o, all_cells(*o, records_view(rs@)), lines@));
    }
    Some(lines)
}

} // verus!
