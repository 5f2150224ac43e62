//! Piles of options: what each option is called, how many arguments it
//! takes and which handler gets them, with its help texts; a pile becomes
//! an option parser.

use crate::parser::{strings_of, ExtraHandler, OptParser};
use crate::registry::strs_view;
use vstd::prelude::*;

verus! {

/// What an element of a pile matches: a named option (its aliases, how
/// many arguments it takes, its handler's number), or an extra-argument
/// handler.
pub enum PileMatch {
    Args(Vec<String>, usize, usize),
    Extra(ExtraHandler),
}

/// One element of a pile, with its help texts.
pub struct OptionsPileElement {
    pub m: PileMatch,
    pub help_meta: Option<String>,
    pub help_msg: Option<String>,
}

/// The aliases an element files.
pub open spec fn elem_aliases(e: OptionsPileElement) -> Seq<Seq<char>> {
    match e.m {
        PileMatch::Args(al, _, _) => strings_of(al@),
        PileMatch::Extra(_) => Seq::empty(),
    }
}

/// The extra-argument handler an element files, if any.
pub open spec fn elem_extras(e: OptionsPileElement) -> Seq<ExtraHandler> {
    match e.m {
        PileMatch::Args(_, _, _) => Seq::empty(),
        PileMatch::Extra(h) => seq![h],
    }
}

/// Every alias the elements file, in order.
pub open spec fn pile_aliases(es: Seq<OptionsPileElement>) -> Seq<Seq<char>>
    decreases es.len(),
{
    if es.len() == 0 {
        Seq::empty()
    } else {
        pile_aliases(es.drop_last()) + elem_aliases(es.last())
    }
}

/// The extra-argument handlers the elements file, in order.
pub open spec fn pile_extras(es: Seq<OptionsPileElement>) -> Seq<ExtraHandler>
    decreases es.len(),
{
    if es.len() == 0 {
        Seq::empty()
    } else {
        pile_extras(es.drop_last()) + elem_extras(es.last())
    }
}

proof fn lemma_pile_prefix(es: Seq<OptionsPileElement>, i: int)
    requires
        0 <= i <= es.len(),
    ensures
        pile_aliases(es.take(i)).is_prefix_of(pile_aliases(es)),
        pile_extras(es.take(i)).is_prefix_of(pile_extras(es)),
        i < es.len() ==> pile_aliases(es.take(i + 1)) == pile_aliases(es.take(i)) + elem_aliases(es[i]),
        i < es.len() ==> pile_extras(es.take(i + 1)) == pile_extras(es.take(i)) + elem_extras(es[i]),
    decreases es.len() - i,
{
    if i < es.len() {
        assert(es.take(i + 1).drop_last() =~= es.take(i));
        assert(es.take(i + 1).last() == es[i]);
        lemma_pile_prefix(es, i + 1);
    } else {
        assert(es.take(i) =~= es);
    }
}

/// Copies the aliases.
fn owned_aliases(aliases: &[&str]) -> (v: Vec<String>)
    ensures
        strings_of(v@) == strs_view(aliases@),
{
    let mut v: Vec<String> = Vec::new();
    let mut i: usize = 0;
    while i < aliases.len()
        invariant
            i <= aliases@.len(),
            strings_of(v@) == strs_view(aliases@).take(i as int),
        decreases aliases@.len() - i,
    {
        let ghost before = strings_of(v@);
        v.push(aliases[i].to_owned());
        assert(strings_of(v@) =~= before.push(aliases@[i as int]@));
        assert(strs_view(aliases@).take(i + 1) =~= strs_view(aliases@).take(i as int).push(aliases@[i as int]@));
        i = i + 1;
    }
    assert(strs_view(aliases@).take(aliases@.len() as int) =~= strs_view(aliases@));
    v
}

impl OptionsPileElement {
    /// A named option with `aliases`, taking `argct` arguments, for handler
    /// `id`.
    pub fn match_n(aliases: &[&str], argct: usize, id: usize) -> (e: OptionsPileElement)
        ensures
            e.m matches PileMatch::Args(al, c, i) && strings_of(al@) == strs_view(aliases@) && c == argct && i == id,
            e.help_meta is None,
            e.help_msg is None,
    {
        OptionsPileElement { m: PileMatch::Args(owned_aliases(aliases), argct, id), help_meta: None, help_msg: None }
    }

    /// A named option taking one argument.
    pub fn match_single(aliases: &[&str], id: usize) -> (e: OptionsPileElement)
        ensures
            e.m matches PileMatch::Args(al, c, i) && strings_of(al@) == strs_view(aliases@) && c == 1 && i == id,
            e.help_meta is None,
            e.help_msg is None,
    {
        Self::match_n(aliases, 1, id)
    }

    /// A named option taking no argument.
    pub fn match_zero(aliases: &[&str], id: usize) -> (e: OptionsPileElement)
        ensures
            e.m matches PileMatch::Args(al, c, i) && strings_of(al@) == strs_view(aliases@) && c == 0 && i == id,
            e.help_meta is None,
            e.help_msg is None,
    {
        Self::match_n(aliases, 0, id)
    }

    /// A soft extra-argument handler.
    pub fn match_extra_soft(id: usize) -> (e: OptionsPileElement)
        ensures
            e.m == PileMatch::Extra(ExtraHandler::Soft(id)),
            e.help_meta is None,
            e.help_msg is None,
    {
        OptionsPileElement { m: PileMatch::Extra(ExtraHandler::Soft(id)), help_meta: None, help_msg: None }
    }

    /// A hard extra-argument handler.
    pub fn match_extra_hard(id: usize) -> (e: OptionsPileElement)
        ensures
            e.m == PileMatch::Extra(ExtraHandler::Hard(id)),
            e.help_meta is None,
            e.help_msg is None,
    {
        OptionsPileElement { m: PileMatch::Extra(ExtraHandler::Hard(id)), help_meta: None, help_msg: None }
    }

    /// The element with `s` as the name its argument has in the help.
    pub fn help_meta(self, s: &str) -> (e: OptionsPileElement)
        ensures
            e.m == self.m,
            e.help_meta matches Some(t) && t@ == s@,
            e.help_msg == self.help_msg,
    {
        OptionsPileElement { m: self.m, help_meta: Some(s.to_owned()), help_msg: self.help_msg }
    }

    /// The element with `s` as its help message.
    pub fn help_msg(self, s: &str) -> (e: OptionsPileElement)
        ensures
            e.m == self.m,
            e.help_meta == self.help_meta,
            e.help_msg matches Some(t) && t@ == s@,
    {
        OptionsPileElement { m: self.m, help_meta: self.help_meta, help_msg: Some(s.to_owned()) }
    }
}

/// Options, in the order they were added.
pub struct OptionsPile(pub Vec<OptionsPileElement>);

impl OptionsPile {
    pub fn new() -> (p: OptionsPile)
        ensures
            p.0@ == Seq::<OptionsPileElement>::empty(),
    {
        OptionsPile(Vec::new())
    }

    /// Adds a named option taking one argument.
    pub fn match_single(&mut self, aliases: &[&str], id: usize)
        ensures
            final(self).0@.len() == old(self).0@.len() + 1,
            final(self).0@.drop_last() == old(self).0@,
            final(self).0@.last().m matches PileMatch::Args(al, c, i) && strings_of(al@) == strs_view(aliases@) && c
                == 1 && i == id,
    {
        self.0.push(OptionsPileElement::match_single(aliases, id));
        assert(self.0@.drop_last() =~= old(self).0@);
    }

    /// Adds a named option taking no argument.
    pub fn match_zero(&mut self, aliases: &[&str], id: usize)
        ensures
            final(self).0@.len() == old(self).0@.len() + 1,
            final(self).0@.drop_last() == old(self).0@,
            final(self).0@.last().m matches PileMatch::Args(al, c, i) && strings_of(al@) == strs_view(aliases@) && c
                == 0 && i == id,
    {
        self.0.push(OptionsPileElement::match_zero(aliases, id));
        assert(self.0@.drop_last() =~= old(self).0@);
    }

    /// Adds a named option taking `argct` arguments.
    pub fn match_n(&mut self, aliases: &[&str], argct: usize, id: usize)
        ensures
            final(self).0@.len() == old(self).0@.len() + 1,
            final(self).0@.drop_last() == old(self).0@,
            final(self).0@.last().m matches PileMatch::Args(al, c, i) && strings_of(al@) == strs_view(aliases@) && c
                == argct && i == id,
    {
        self.0.push(OptionsPileElement::match_n(aliases, argct, id));
        assert(self.0@.drop_last() =~= old(self).0@);
    }

    /// Adds a soft extra-argument handler.
    pub fn match_extra_soft(&mut self, id: usize)
        ensures
            final(self).0@ == old(self).0@.push(final(self).0@.last()),
            final(self).0@.last().m == PileMatch::Extra(ExtraHandler::Soft(id)),
    {
        self.0.push(OptionsPileElement::match_extra_soft(id));
    }

    /// Adds a hard extra-argument handler.
    pub fn match_extra_hard(&mut self, id: usize)
        ensures
            final(self).0@ == old(self).0@.push(final(self).0@.last()),
            final(self).0@.last().m == PileMatch::Extra(ExtraHandler::Hard(id)),
    {
        self.0.push(OptionsPileElement::match_extra_hard(id));
    }

    /// Adds the options of `other` after these.
    pub fn add(&mut self, other: OptionsPile)
        ensures
            final(self).0@ == old(self).0@ + other.0@,
    {
        let mut o = other.0;
        self.0.append(&mut o);
    }

    /// The parser for the pile: each alias of a named option is filed with
    /// its option's argument count and handler, and the extra handlers
    /// follow in the pile's order. No alias may be filed twice.
    pub fn to_parser(&self) -> (p: OptParser)
        requires
            pile_aliases(self.0@).no_duplicates(),
        ensures
            p.wf(),
            forall|a: Seq<char>| p.names()@.contains_key(a) <==> pile_aliases(self.0@).contains(a),
            forall|i: int, j: int|
                0 <= i < self.0@.len() && 0 <= j < elem_aliases(self.0@[i]).len() ==> {
                    let a = #[trigger] elem_aliases(self.0@[i])[j];
                    &&& p.names()@[a].0@ == a
                    &&& self.0@[i].m matches PileMatch::Args(_, c, id) && p.names()@[a].1 == c && p.names()@[a].2 == id
                },
            p.extras() == pile_extras(self.0@),
    {
        let ghost es = self.0@;
        let ghost full = pile_aliases(es);
        let mut opt = OptParser::new();
        let mut i: usize = 0;
        assert(es.take(0) =~= Seq::<OptionsPileElement>::empty());
        while i < self.0.len()
            invariant
                es == self.0@,
                full == pile_aliases(es),
                full.no_duplicates(),
                i <= es.len(),
                opt.wf(),
                forall|a: Seq<char>| opt.names()@.contains_key(a) <==> pile_aliases(es.take(i as int)).contains(a),
                forall|i2: int, j2: int|
                    0 <= i2 < i && 0 <= j2 < elem_aliases(es[i2]).len() ==> {
                        let a = #[trigger] elem_aliases(es[i2])[j2];
                        &&& opt.names()@[a].0@ == a
                        &&& es[i2].m matches PileMatch::Args(_, c, id) && opt.names()@[a].1 == c && opt.names()@[a].2 == id
                    },
                opt.extras() == pile_extras(es.take(i as int)),
            decreases es.len() - i,
        {
            proof {
                lemma_pile_prefix(es, i as int);
                lemma_pile_prefix(es, i + 1);
            }
            let ghost done0 = pile_aliases(es.take(i as int));
            match &self.0[i].m {
                PileMatch::Args(al, argct, id) => {
                    let ghost av = strings_of(al@);
                    assert(elem_aliases(es[i as int]) == av);
                    let mut j: usize = 0;
                    while j < al.len()
                        invariant
                            es == self.0@,
                            full == pile_aliases(es),
                            full.no_duplicates(),
                            i < es.len(),
                            self.0@[i as int].m == PileMatch::Args(*al, *argct, *id),
                            av == strings_of(al@),
                            done0 == pile_aliases(es.take(i as int)),
                            (done0 + av).is_prefix_of(full),
                            j <= al@.len(),
                            opt.wf(),
                            forall|a: Seq<char>|
                                opt.names()@.contains_key(a) <==> (done0 + av.take(j as int)).contains(a),
                            forall|i2: int, j2: int|
                                0 <= i2 < i && 0 <= j2 < elem_aliases(es[i2]).len() ==> {
                                    let a = #[trigger] elem_aliases(es[i2])[j2];
                                    &&& opt.names()@[a].0@ == a
                                    &&& es[i2].m matches PileMatch::Args(_, c, id2) && opt.names()@[a].1 == c
                                        && opt.names()@[a].2 == id2
                                },
                            forall|j2: int|
                                0 <= j2 < j ==> {
                                    let a = #[trigger] av[j2];
                                    &&& opt.names()@[a].0@ == a
                                    &&& opt.names()@[a].1 == *argct
                                    &&& opt.names()@[a].2 == *id
                                },
                            opt.extras() == pile_extras(es.take(i as int)),
                        decreases al@.len() - j,
                    {
                        let ghost a = av[j as int];
                        let ghost k = done0.len() + j;
                        proof {
                            assert(full[k] == (done0 + av)[k]);
                            assert((done0 + av)[k] == a);
                            assert forall|m: int| 0 <= m < (done0 + av.take(j as int)).len() implies (done0
                                + av.take(j as int))[m] != a by {
                                assert((done0 + av.take(j as int))[m] == (done0 + av)[m]);
                                lemma_prefix_index(done0 + av, full, m);
                                lemma_prefix_index(done0 + av, full, k);
                                assert(m != k);
                            }
                            assert(!(done0 + av.take(j as int)).contains(a));
                        }
                        let ghost before = opt.names()@;
                        opt.add_named(al[j].as_str(), *argct, *id);
                        proof {
                            assert(done0 + av.take(j + 1) =~= (done0 + av.take(j as int)).push(a));
                            lemma_push_contains(done0 + av.take(j as int), a);
                            assert forall|i2: int, j2: int|
                                0 <= i2 < i && 0 <= j2 < elem_aliases(es[i2]).len() implies {
                                    let b = #[trigger] elem_aliases(es[i2])[j2];
                                    &&& opt.names()@[b].0@ == b
                                    &&& es[i2].m matches PileMatch::Args(_, c, id2) && opt.names()@[b].1 == c
                                        && opt.names()@[b].2 == id2
                                } by {
                                let b = elem_aliases(es[i2])[j2];
                                lemma_pile_prefix(es, i2);
                                lemma_pile_prefix(es, i2 + 1);
                                lemma_take_prefix(es, i2 + 1, i as int);
                                let pos = pile_aliases(es.take(i2)).len() + j2;
                                assert(pile_aliases(es.take(i2 + 1))[pos] == b);
                                lemma_prefix_index(pile_aliases(es.take(i2 + 1)), done0, pos);
                                assert((done0 + av.take(j as int))[pos] == b);
                                assert(before.contains_key(b));
                            }
                            assert forall|j2: int| 0 <= j2 < j + 1 implies {
                                let b = #[trigger] av[j2];
                                &&& opt.names()@[b].0@ == b
                                &&& opt.names()@[b].1 == *argct
                                &&& opt.names()@[b].2 == *id
                            } by {
                                if j2 < j {
                                    assert((done0 + av.take(j as int))[done0.len() + j2] == av[j2]);
                                    assert(before.contains_key(av[j2]));
                                }
                            }
                        }
                        j = j + 1;
                    }
                    assert(av.take(al@.len() as int) =~= av);
                    assert(elem_extras(es[i as int]) =~= Seq::<ExtraHandler>::empty());
                    assert(pile_extras(es.take(i as int)) + elem_extras(es[i as int]) =~= pile_extras(es.take(i as int)));
                },
                PileMatch::Extra(h) => {
                    let hh = match h {
                        ExtraHandler::Soft(x) => ExtraHandler::Soft(*x),
                        ExtraHandler::Hard(x) => ExtraHandler::Hard(*x),
                    };
                    assert(hh == *h);
                    opt.add_extra(hh);
                    assert(elem_aliases(es[i as int]) =~= Seq::<Seq<char>>::empty());
                    assert(done0 + Seq::<Seq<char>>::empty() =~= done0);
                },
            }
            i = i + 1;
        }
        assert(es.take(es.len() as int) =~= es);
        opt
    }
}

proof fn lemma_prefix_index<T>(a: Seq<T>, b: Seq<T>, k: int)
    requires
        a.is_prefix_of(b),
        0 <= k < a.len(),
    ensures
        a[k] == b[k],
{
    assert(a =~= b.subrange(0, a.len() as int));
    assert(b.subrange(0, a.len() as int)[k] == b[k]);
}

/// Adding `x` to the end of `s` adds just `x` to what `s` contains.
proof fn lemma_push_contains<T>(s: Seq<T>, x: T)
    ensures
        forall|y: T| #[trigger] s.push(x).contains(y) <==> (s.contains(y) || y == x),
{
    assert forall|y: T| #[trigger] s.push(x).contains(y) <==> (s.contains(y) || y == x) by {
        if s.contains(y) {
            let m = choose|m: int| 0 <= m < s.len() && s[m] == y;
            assert(s.push(x)[m] == y);
        }
        if y == x {
            assert(s.push(x)[s.len() as int] == y);
        }
        if s.push(x).contains(y) {
            let m = choose|m: int| 0 <= m < s.push(x).len() && s.push(x)[m] == y;
            if m < s.len() {
                assert(s[m] == y);
            }
        }
    }
}

/// The aliases filed by the first `i` elements are those of the first `n`
/// up to where the `i`-th ends.
proof fn lemma_take_prefix(es: Seq<OptionsPileElement>, i: int, n: int)
    requires
        0 <= i <= n <= es.len(),
    ensures
        pile_aliases(es.take(i)).is_prefix_of(pile_aliases(es.take(n))),
{
    assert(es.take(n).take(i) =~= es.take(i));
    lemma_pile_prefix(es.take(n), i);
}

} // verus!
