//! Sub-operations given on the command line: one operation's name and
//! arguments, and chains of them separated by a delimiter argument.

use crate::parser::{debug_list, debug_strings, strings_of};
use crate::vals::OptionalStringOption;
use crate::validates::{ValidationError, ValidationResult};
use vstd::prelude::*;

verus! {

/// The arguments of one sub-operation: its name, then its own arguments.
pub struct SubOperationOption(pub Vec<String>);

impl Default for SubOperationOption {
    fn default() -> (r: Self)
        ensures
            r.0@ == Seq::<String>::empty(),
    {
        SubOperationOption(Vec::new())
    }
}

impl SubOperationOption {
    /// Appends arguments.
    pub fn push(&mut self, a: &[String]) -> (r: ValidationResult<()>)
        ensures
            r is Ok,
            strings_of(final(self).0@) == strings_of(old(self).0@) + strings_of(a@),
    {
        let mut i: usize = 0;
        let ghost start = self.0@;
        while i < a.len()
            invariant
                i <= a@.len(),
                strings_of(self.0@) == strings_of(start) + strings_of(a@.take(i as int)),
            decreases a@.len() - i,
        {
            let ghost before = self.0@;
            let c = a[i].clone();
            assert(c@ == a@[i as int]@);
            self.0.push(c);
            assert(strings_of(self.0@) =~= strings_of(before).push(c@));
            assert(strings_of(a@.take(i + 1)) =~= strings_of(a@.take(i as int)).push(a@[i as int]@));
            assert(strings_of(self.0@) =~= strings_of(start) + strings_of(a@.take(i + 1)));
            i = i + 1;
        }
        assert(a@.take(a@.len() as int) =~= a@);
        Ok(())
    }

    pub fn of(a: Vec<String>) -> (r: SubOperationOption)
        ensures
            r.0 == a,
    {
        SubOperationOption(a)
    }

    /// The operation's name and its arguments; there must be a name.
    pub fn split_name(self) -> (r: ValidationResult<(String, Vec<String>)>)
        ensures
            self.0@.len() == 0 ==> (r matches Err(e) && e.text() == "No sub-operation specified"@),
            self.0@.len() > 0 ==> (r matches Ok(p) && p.0@ == self.0@[0]@ && p.1@ == self.0@.drop_first()),
    {
        let mut v = self.0;
        if v.len() == 0 {
            return ValidationError::message("No sub-operation specified");
        }
        let name = v.remove(0);
        assert(v@ =~= self.0@.drop_first());
        Ok((name, v))
    }
}

/// `s` cut at every element equal to `d`, as a slice is split by a
/// predicate: no delimiter gives one piece, a delimiter at either end an
/// empty piece there.
pub open spec fn split_on(s: Seq<Seq<char>>, d: Seq<char>) -> Seq<Seq<Seq<char>>>
    decreases s.len(),
{
    if s.len() == 0 {
        seq![Seq::<Seq<char>>::empty()]
    } else {
        let r = split_on(s.drop_last(), d);
        if s.last() == d {
            r.push(Seq::<Seq<char>>::empty())
        } else {
            r.update(r.len() - 1, r.last().push(s.last()))
        }
    }
}

proof fn lemma_split_on_nonempty(s: Seq<Seq<char>>, d: Seq<char>)
    ensures
        split_on(s, d).len() >= 1,
    decreases s.len(),
{
    if s.len() > 0 {
        lemma_split_on_nonempty(s.drop_last(), d);
    }
}

/// The stages of a chain: its arguments and the delimiter between stages.
pub struct CmdsOption {
    pub delim: OptionalStringOption,
    pub args: Vec<String>,
}

/// The delimiter a chain uses: the one given, else `|`.
pub open spec fn chain_delim(given: Option<String>) -> Seq<char> {
    match given {
        Some(s) => s@,
        None => seq!['|'],
    }
}

impl CmdsOption {
    /// Cuts the arguments into stages at every delimiter.
    pub fn stages(self) -> (r: Vec<Vec<String>>)
        ensures
            r@.len() == split_on(strings_of(self.args@), chain_delim(self.delim.0)).len(),
            forall|i: int|
                0 <= i < r@.len() ==> strings_of(#[trigger] r@[i]@) == split_on(
                    strings_of(self.args@),
                    chain_delim(self.delim.0),
                )[i],
    {
        let ghost d = chain_delim(self.delim.0);
        let delim: String = match self.delim.0 {
            Some(s) => s,
            None => {
                let mut s = String::new();
                crate::text::push_char(&mut s, '|');
                assert(s@ =~= seq!['|']);
                s
            },
        };
        let args = self.args;
        let ghost xs = strings_of(args@);
        let mut parts: Vec<Vec<String>> = Vec::new();
        let mut cur: Vec<String> = Vec::new();
        let mut i: usize = 0;
        assert(xs.take(0) =~= Seq::<Seq<char>>::empty());
        assert(strings_of(cur@) =~= Seq::<Seq<char>>::empty());
        while i < args.len()
            invariant
                delim@ == d,
                xs == strings_of(args@),
                i <= args@.len(),
                parts@.len() + 1 == split_on(xs.take(i as int), d).len(),
                forall|j: int|
                    0 <= j < parts@.len() ==> strings_of(#[trigger] parts@[j]@) == split_on(
                        xs.take(i as int),
                        d,
                    )[j],
                strings_of(cur@) == split_on(xs.take(i as int), d).last(),
            decreases args@.len() - i,
        {
            proof {
                lemma_split_on_nonempty(xs.take(i as int), d);
                assert(xs.take(i + 1).drop_last() =~= xs.take(i as int));
                assert(xs.take(i + 1).last() == args@[i as int]@);
            }
            let a = crate::text::chars_of(args[i].as_str());
            let dc = crate::text::chars_of(delim.as_str());
            if crate::text::chars_eq(a.as_slice(), dc.as_slice()) {
                parts.push(cur);
                cur = Vec::new();
                assert(strings_of(cur@) =~= Seq::<Seq<char>>::empty());
            } else {
                let ghost before = strings_of(cur@);
                cur.push(args[i].clone());
                assert(strings_of(cur@) =~= before.push(args@[i as int]@));
            }
            i = i + 1;
        }
        assert(xs.take(args@.len() as int) =~= xs);
        parts.push(cur);
        parts
    }
}

/// One stage's share of the chain's leftover arguments: the first stage's
/// leftovers are the chain's (`first` is `None` until then); a later stage
/// must leave none.
pub fn chain_extra_step(first: Option<Vec<String>>, extra: Vec<String>) -> (r: ValidationResult<
    Option<Vec<String>>,
>)
    ensures
        first is None ==> (r matches Ok(Some(e)) && e == extra),
        first is Some && extra@.len() == 0 ==> r == Ok::<Option<Vec<String>>, ValidationError>(first),
        first is Some && extra@.len() > 0 ==> (r matches Err(e) && e.text()
            == "Unexpected extra args for non-first chain stage: "@ + debug_list(strings_of(extra@))),
{
    match first {
        None => Ok(Some(extra)),
        Some(f) => {
            if extra.len() > 0 {
                let mut m = "Unexpected extra args for non-first chain stage: ".to_owned();
                let d = debug_strings(extra.as_slice());
                m.append(d.as_str());
                Err(ValidationError::Message(m))
            } else {
                Ok(Some(f))
            }
        },
    }
}

/// A sub-operation checked: what it stands for, and the arguments it left.
pub struct SubOperationOptionValidated<W> {
    pub extra: Vec<String>,
    pub wr: W,
}

/// A checked sub-operation as the pair the lookup gave.
pub open spec fn validated_pair<W>(r: ValidationResult<SubOperationOptionValidated<W>>) -> ValidationResult<(W, Vec<String>)> {
    match r {
        Ok(v) => Ok((v.wr, v.extra)),
        Err(e) => Err(e),
    }
}

/// The lookup `f` may answer `r` for the sub-operation `s`: it was handed
/// the name `s` starts with and the arguments after it.
pub open spec fn stage_answered<W, F: Fn(String, Vec<String>) -> ValidationResult<(W, Vec<String>)>>(
    f: F,
    s: Seq<Seq<char>>,
    r: ValidationResult<(W, Vec<String>)>,
) -> bool {
    &&& s.len() > 0
    &&& exists|n: String, a: Vec<String>|
        n@ == s[0] && strings_of(a@) == s.drop_first() && #[trigger] f.ensures((n, a), r)
}

impl SubOperationOption {
    /// Checks the sub-operation: there must be a name; `find_parse` looks
    /// the name up and reads the arguments the operation takes, giving
    /// what it stands for and the arguments it leaves.
    pub fn validate<W, F: Fn(String, Vec<String>) -> ValidationResult<(W, Vec<String>)>>(self, find_parse: &F) -> (r:
        ValidationResult<SubOperationOptionValidated<W>>)
        requires
            forall|n: String, a: Vec<String>| find_parse.requires((n, a)),
        ensures
            self.0@.len() == 0 ==> (r matches Err(e) && e.text() == "No sub-operation specified"@),
            self.0@.len() > 0 ==> stage_answered(*find_parse, strings_of(self.0@), validated_pair(r)),
    {
        let ghost s = strings_of(self.0@);
        let (name, rest) = match self.split_name() {
            Ok(p) => p,
            Err(e) => {
                return Err(e);
            },
        };
        assert(strings_of(rest@) =~= s.drop_first());
        let res = find_parse(name, rest);
        match res {
            Ok((wr, extra)) => {
                let r = Ok(SubOperationOptionValidated { extra, wr });
                assert(validated_pair(r) == res);
                r
            },
            Err(e) => Err(e),
        }
    }
}

/// The stages of a chain checked: the first stage's leftover arguments
/// and what each stage stands for, in order.
pub struct CmdsOptions<W> {
    pub extra: Vec<String>,
    pub wrs: Vec<W>,
}

/// How checking the stages `st` from the `i`-th on ends, `extra` holding
/// the first stage's leftovers once it is checked and `wrs` what the
/// stages before stand for, when the lookup answers `rs` for the stages
/// it is asked about, in order: `Some` of the leftovers and all the stages
/// checked, or of the text of the first error; `None` when `rs` are not
/// exactly the answers that run asks for. An empty stage fails without a
/// lookup; a later stage that leaves arguments fails.
pub open spec fn chain_run<W>(
    st: Seq<Seq<Seq<char>>>,
    i: int,
    extra: Option<Seq<Seq<char>>>,
    wrs: Seq<W>,
    rs: Seq<ValidationResult<(W, Vec<String>)>>,
) -> Option<Result<(Seq<Seq<char>>, Seq<W>), Seq<char>>>
    decreases st.len() - i,
{
    if i < 0 || i >= st.len() {
        if rs.len() == 0 {
            Some(
                Ok(
                    (
                        match extra {
                            Some(x) => x,
                            None => Seq::empty(),
                        },
                        wrs,
                    ),
                ),
            )
        } else {
            None
        }
    } else if st[i].len() == 0 {
        if rs.len() == 0 {
            Some(Err("No sub-operation specified"@))
        } else {
            None
        }
    } else if rs.len() == 0 {
        None
    } else {
        match rs[0] {
            Err(e) => if rs.len() == 1 {
                Some(Err(e.text()))
            } else {
                None
            },
            Ok((w, ex)) => match extra {
                None => chain_run(st, i + 1, Some(strings_of(ex@)), wrs.push(w), rs.drop_first()),
                Some(x) => if ex@.len() > 0 {
                    if rs.len() == 1 {
                        Some(Err("Unexpected extra args for non-first chain stage: "@ + debug_list(strings_of(ex@))))
                    } else {
                        None
                    }
                } else {
                    chain_run(st, i + 1, Some(x), wrs.push(w), rs.drop_first())
                },
            },
        }
    }
}

/// The strings a list of arguments holds, if there is one.
pub open spec fn opt_strings(o: Option<Vec<String>>) -> Option<Seq<Seq<char>>> {
    match o {
        Some(x) => Some(strings_of(x@)),
        None => None,
    }
}

/// `rs` are answers the lookup `f` may give for the stages `st`, and the
/// check of `st` with them ends in `res`.
pub open spec fn chain_answered<W, F: Fn(String, Vec<String>) -> ValidationResult<(W, Vec<String>)>>(
    f: F,
    st: Seq<Seq<Seq<char>>>,
    rs: Seq<ValidationResult<(W, Vec<String>)>>,
    res: Result<(Seq<Seq<char>>, Seq<W>), Seq<char>>,
) -> bool {
    &&& chain_run(st, 0, None, Seq::empty(), rs) == Some(res)
    &&& forall|j: int| 0 <= j < rs.len() ==> stage_answered(f, st[j], #[trigger] rs[j])
}

/// The result of checking a chain, as `chain_run` gives it.
pub open spec fn chain_result<W>(r: ValidationResult<CmdsOptions<W>>) -> Result<(Seq<Seq<char>>, Seq<W>), Seq<char>> {
    match r {
        Ok(c) => Ok((strings_of(c.extra@), c.wrs@)),
        Err(e) => Err(e.text()),
    }
}

impl CmdsOption {
    /// Checks a chain: its arguments are cut into stages at every
    /// delimiter, and the stages are checked in order as sub-operations,
    /// through `find_parse`; the first error ends it. The first stage's
    /// leftover arguments are the chain's; a later stage must leave none.
    pub fn validate<W, F: Fn(String, Vec<String>) -> ValidationResult<(W, Vec<String>)>>(self, find_parse: &F) -> (r:
        ValidationResult<CmdsOptions<W>>)
        requires
            forall|n: String, a: Vec<String>| find_parse.requires((n, a)),
        ensures
            exists|rs: Seq<ValidationResult<(W, Vec<String>)>>|
                #[trigger] chain_answered(
                    *find_parse,
                    split_on(strings_of(self.args@), chain_delim(self.delim.0)),
                    rs,
                    chain_result(r),
                ),
    {
        let ghost st = split_on(strings_of(self.args@), chain_delim(self.delim.0));
        proof {
            lemma_split_on_nonempty(strings_of(self.args@), chain_delim(self.delim.0));
        }
        let mut cmds = self.stages();
        let total: usize = cmds.len();
        let ghost n = st.len();
        let ghost mut done: Seq<ValidationResult<(W, Vec<String>)>> = Seq::empty();
        let mut extra: Option<Vec<String>> = None;
        let mut wrs: Vec<W> = Vec::new();
        let mut i: usize = 0;
        assert forall|rest: Seq<ValidationResult<(W, Vec<String>)>>|
            #[trigger] chain_run(st, 0, None, Seq::<W>::empty(), done + rest) == chain_run(
                st,
                0,
                None,
                Seq::<W>::empty(),
                rest,
            ) by {
            assert(done + rest =~= rest);
        }
        assert(wrs@ =~= Seq::<W>::empty());
        while cmds.len() > 0
            invariant
                st == split_on(strings_of(self.args@), chain_delim(self.delim.0)),
                n == st.len(),
                n >= 1,
                i + cmds@.len() == n,
                total == n,
                forall|k: int| 0 <= k < cmds@.len() ==> strings_of(#[trigger] cmds@[k]@) == st[i + k],
                forall|n2: String, a: Vec<String>| find_parse.requires((n2, a)),
                done.len() == i,
                forall|j: int| 0 <= j < done.len() ==> stage_answered(*find_parse, st[j], #[trigger] done[j]),
                i == 0 ==> extra is None,
                i > 0 ==> extra is Some,
                forall|rest: Seq<ValidationResult<(W, Vec<String>)>>|
                    #[trigger] chain_run(st, 0, None, Seq::<W>::empty(), done + rest) == chain_run(
                        st,
                        i as int,
                        opt_strings(extra),
                        wrs@,
                        rest,
                    ),
            decreases cmds@.len(),
        {
            let ghost ex0 = opt_strings(extra);
            let ghost wrs0 = wrs@;
            let ghost before = cmds@;
            let cmd = cmds.remove(0);
            assert(strings_of(cmd@) == st[i as int]);
            assert forall|k: int| 0 <= k < cmds@.len() implies strings_of(#[trigger] cmds@[k]@) == st[i + 1 + k] by {
                assert(cmds@[k] == before[k + 1]);
            }
            let ghost s_i = st[i as int];
            let so = SubOperationOption::of(cmd);
            let res = so.validate(find_parse);
            let ghost pair = validated_pair(res);
            match res {
                Err(e) => {
                    proof {
                        let out: ValidationResult<CmdsOptions<W>> = Err(e);
                        if s_i.len() == 0 {
                            assert(done + Seq::<ValidationResult<(W, Vec<String>)>>::empty() =~= done);
                            assert(chain_run(st, i as int, ex0, wrs0, Seq::empty()) == Some(chain_result(out)));
                            assert(chain_run(st, 0, None, Seq::<W>::empty(), done) == Some(chain_result(out)));
                            assert(chain_answered(*find_parse, st, done, chain_result(out)));
                        } else {
                            let rs = done.push(pair);
                            assert(rs =~= done + seq![pair]);
                            assert(seq![pair][0] == pair);
                            assert(chain_run(st, i as int, ex0, wrs0, seq![pair]) == Some(chain_result(out)));
                            assert(chain_run(st, 0, None, Seq::<W>::empty(), rs) == Some(chain_result(out)));
                            assert forall|j: int| 0 <= j < rs.len() implies stage_answered(*find_parse, st[j], #[trigger] rs[j]) by {
                                if j < i {
                                    assert(rs[j] == done[j]);
                                }
                            }
                            assert(chain_answered(*find_parse, st, rs, chain_result(out)));
                        }
                    }
                    let ghost rs_out = if s_i.len() == 0 {
                        done
                    } else {
                        done.push(pair)
                    };
                    assert(chain_answered(*find_parse, st, rs_out, chain_result(Err::<CmdsOptions<W>, ValidationError>(e))));
                    return Err(e);
                },
                Ok(v) => {
                    let ghost vx = strings_of(v.extra@);
                    let ghost vw = v.wr;
                    assert(pair == Ok::<(W, Vec<String>), ValidationError>((v.wr, v.extra)));
                    let first = extra;
                    let step = chain_extra_step(first, v.extra);
                    proof {
                        assert forall|rest: Seq<ValidationResult<(W, Vec<String>)>>|
                            (#[trigger] (seq![pair] + rest)).drop_first() == rest && (seq![pair] + rest)[0] == pair by {
                            assert((seq![pair] + rest).drop_first() =~= rest);
                        }
                    }
                    match step {
                        Err(e) => {
                            proof {
                                let out: ValidationResult<CmdsOptions<W>> = Err(e);
                                let rs = done.push(pair);
                                assert(rs =~= done + seq![pair]);
                                assert(seq![pair] + Seq::<ValidationResult<(W, Vec<String>)>>::empty() =~= seq![pair]);
                                assert(chain_run(st, i as int, ex0, wrs0, seq![pair]) == Some(chain_result(out)));
                                assert(chain_run(st, 0, None, Seq::<W>::empty(), rs) == Some(chain_result(out)));
                                assert forall|j: int| 0 <= j < rs.len() implies stage_answered(*find_parse, st[j], #[trigger] rs[j]) by {
                                    if j < i {
                                        assert(rs[j] == done[j]);
                                    }
                                }
                                assert(chain_answered(*find_parse, st, rs, chain_result(out)));
                            }
                            let ghost rs_out = done.push(pair);
                            assert(chain_answered(*find_parse, st, rs_out, chain_result(Err::<CmdsOptions<W>, ValidationError>(e))));
                            return Err(e);
                        },
                        Ok(nx) => {
                            extra = nx;
                        },
                    }
                    wrs.push(v.wr);
                    proof {
                        let ex1 = opt_strings(extra);
                        assert forall|rest: Seq<ValidationResult<(W, Vec<String>)>>|
                            #[trigger] chain_run(st, 0, None, Seq::<W>::empty(), done.push(pair) + rest) == chain_run(
                                st,
                                i + 1,
                                ex1,
                                wrs@,
                                rest,
                            ) by {
                            assert(done.push(pair) + rest =~= done + (seq![pair] + rest));
                            assert(chain_run(st, i as int, ex0, wrs0, seq![pair] + rest) == chain_run(st, i + 1, ex1, wrs0.push(vw), rest));
                        }
                        assert forall|j: int| 0 <= j < done.push(pair).len() implies stage_answered(*find_parse, st[j], #[trigger] done.push(pair)[j]) by {
                            if j < i {
                                assert(done.push(pair)[j] == done[j]);
                            }
                        }
                        done = done.push(pair);
                    }
                    i = i + 1;
                },
            }
        }
        proof {
            let out_extra = match opt_strings(extra) { Some(x) => x, None => Seq::<Seq<char>>::empty() };
            assert(done + Seq::<ValidationResult<(W, Vec<String>)>>::empty() =~= done);
            assert(chain_run(st, i as int, opt_strings(extra), wrs@, Seq::empty()) == Some(Ok::<(Seq<Seq<char>>, Seq<W>), Seq<char>>((out_extra, wrs@))));
        }
        let out_extra = match extra {
            Some(x) => x,
            None => Vec::new(),
        };
        let out = CmdsOptions { extra: out_extra, wrs };
        assert(chain_answered(*find_parse, st, done, chain_result(Ok::<CmdsOptions<W>, ValidationError>(out))));
        Ok(out)
    }
}

/// The stages put back together, the delimiter between each two.
pub open spec fn join_on(parts: Seq<Seq<Seq<char>>>, d: Seq<char>) -> Seq<Seq<char>>
    decreases parts.len(),
{
    if parts.len() == 0 {
        Seq::empty()
    } else if parts.len() == 1 {
        parts[0]
    } else {
        join_on(parts.drop_last(), d) + seq![d] + parts.last()
    }
}

proof fn lemma_join_last_push(parts: Seq<Seq<Seq<char>>>, d: Seq<char>, x: Seq<char>)
    requires
        parts.len() >= 1,
    ensures
        join_on(parts.update(parts.len() - 1, parts.last().push(x)), d) == join_on(parts, d).push(x),
{
    let q = parts.update(parts.len() - 1, parts.last().push(x));
    if parts.len() == 1 {
        assert(q[0] == parts[0].push(x));
    } else {
        assert(q.drop_last() =~= parts.drop_last());
        assert(q.last() == parts.last().push(x));
        assert(join_on(q, d) =~= join_on(parts, d).push(x));
    }
}

/// Cutting the arguments into stages loses nothing: the stages joined
/// with the delimiter give back the arguments.
pub proof fn law_stages_rejoin(s: Seq<Seq<char>>, d: Seq<char>)
    ensures
        join_on(split_on(s, d), d) == s,
    decreases s.len(),
{
    if s.len() == 0 {
        assert(split_on(s, d) =~= seq![Seq::<Seq<char>>::empty()]);
        assert(s =~= Seq::<Seq<char>>::empty());
    } else {
        let r = split_on(s.drop_last(), d);
        law_stages_rejoin(s.drop_last(), d);
        lemma_split_on_nonempty(s.drop_last(), d);
        if s.last() == d {
            let q = r.push(Seq::<Seq<char>>::empty());
            assert(q.drop_last() =~= r);
            assert(join_on(q, d) =~= join_on(r, d) + seq![d] + Seq::<Seq<char>>::empty());
            assert(s =~= s.drop_last() + seq![d]);
        } else {
            lemma_join_last_push(r, d, s.last());
            assert(s =~= s.drop_last().push(s.last()));
        }
    }
}

} // verus!
