//! Command-line option parsing: options named by any unambiguous prefix of
//! their name, each taking a fixed number of arguments, and handlers for
//! the remaining ("extra") arguments. The handlers themselves belong to the
//! caller; the parser refers to them by number and hands each one exactly
//! the arguments it is owed.

use crate::text::{chars_of, string_from_chars};
use crate::trie::NameTrie;
use crate::validates::{debug_quote, debug_text, ValidationError, ValidationResult};
use vstd::prelude::*;

verus! {

/// The option name an argument spells: what follows `--`, or else what
/// follows `-`; none for an argument that does not start with `-`.
pub open spec fn arg_name(a: Seq<char>) -> Option<Seq<char>> {
    if a.len() >= 2 && a[0] == '-' && a[1] == '-' {
        Some(a.skip(2))
    } else if a.len() >= 1 && a[0] == '-' {
        Some(a.skip(1))
    } else {
        None
    }
}

/// The option name that `name` spells, if it is an option at all.
pub fn name_from_arg(name: &str) -> (r: Option<String>)
    ensures
        match arg_name(name@) {
            Some(n) => r matches Some(s) && s@ == n,
            None => r is None,
        },
{
    let cs = chars_of(name);
    if cs.len() >= 2 && cs[0] == '-' && cs[1] == '-' {
        let rest = string_from_chars(&cs.as_slice()[2..cs.len()]);
        assert(cs@.subrange(2, cs@.len() as int) =~= name@.skip(2));
        return Some(rest);
    }
    if cs.len() >= 1 && cs[0] == '-' {
        let rest = string_from_chars(&cs.as_slice()[1..cs.len()]);
        assert(cs@.subrange(1, cs@.len() as int) =~= name@.skip(1));
        return Some(rest);
    }
    None
}

/// `{:?}` of a list of strings: each quoted, separated by `", "`, in
/// brackets.
pub open spec fn debug_list(xs: Seq<Seq<char>>) -> Seq<char> {
    "["@ + debug_join(xs) + "]"@
}

pub open spec fn debug_join(xs: Seq<Seq<char>>) -> Seq<char>
    decreases xs.len(),
{
    if xs.len() == 0 {
        Seq::empty()
    } else if xs.len() == 1 {
        debug_text(xs[0])
    } else {
        debug_join(xs.drop_last()) + ", "@ + debug_text(xs.last())
    }
}

pub open spec fn strings_of(a: Seq<String>) -> Seq<Seq<char>> {
    a.map_values(|s: String| s@)
}

/// `{:?}` of a slice of strings.
pub fn debug_strings(a: &[String]) -> (r: String)
    ensures
        r@ == debug_list(strings_of(a@)),
{
    let mut r = "[".to_owned();
    let mut i: usize = 0;
    let ghost xs = strings_of(a@);
    assert(xs.take(0) =~= Seq::<Seq<char>>::empty());
    while i < a.len()
        invariant
            xs == strings_of(a@),
            i <= a@.len(),
            r@ == "["@ + debug_join(xs.take(i as int)),
        decreases a@.len() - i,
    {
        let q = debug_quote(a[i].as_str());
        assert(xs.take(i + 1).drop_last() =~= xs.take(i as int));
        assert(xs.take(i + 1).last() == a@[i as int]@);
        if i > 0 {
            r.append(", ");
        }
        r.append(q.as_str());
        proof {
            if i == 0 {
                assert(xs.take(1) =~= seq![xs[0]]);
            }
        }
        i = i + 1;
    }
    assert(xs.take(a@.len() as int) =~= xs);
    r.append("]");
    r
}

/// `{:?}` of an error: its text, quoted, as the variant's argument.
pub open spec fn error_debug(t: Seq<char>) -> Seq<char> {
    "Message("@ + debug_text(t) + ")"@
}

/// `{:?}` of an error.
pub fn debug_error(e: &ValidationError) -> (r: String)
    ensures
        r@ == error_debug(e.text()),
{
    match e {
        ValidationError::Message(s) => {
            let mut r = "Message(".to_owned();
            let q = debug_quote(s.as_str());
            r.append(q.as_str());
            r.append(")");
            r
        },
    }
}

/// A handler for arguments that are not options: a soft one may take one
/// argument (or pass it on), a hard one takes all that are left.
pub enum ExtraHandler {
    Soft(usize),
    Hard(usize),
}

/// What a named option is filed with: its full name, how many arguments it
/// takes, and its handler's number.
pub type NamedEntry = (String, usize, usize);

/// An option parser: named options and extra-argument handlers, in order.
pub struct OptParser {
    named: NameTrie<NamedEntry>,
    extra: Vec<ExtraHandler>,
}

/// The next thing the parser does at position `at`.
pub enum ParseStep {
    /// Every argument is used.
    Done,
    /// `--`: no more options from here on.
    Refuse,
    /// Handler `id` of a named option gets the arguments `start..end`.
    Named { id: usize, start: usize, end: usize },
    /// The argument goes to the extra handlers.
    Extra,
    /// Parsing fails with this message.
    Fail(String),
}

/// The spec-side form of a step.
pub enum StepView {
    Done,
    Refuse,
    Named(usize, int, int),
    Extra,
    Fail(Seq<char>),
}

impl ParseStep {
    pub open spec fn view(&self) -> StepView {
        match self {
            ParseStep::Done => StepView::Done,
            ParseStep::Refuse => StepView::Refuse,
            ParseStep::Named { id, start, end } => StepView::Named(*id, *start as int, *end as int),
            ParseStep::Extra => StepView::Extra,
            ParseStep::Fail(m) => StepView::Fail(m@),
        }
    }
}

/// The step taken at `at`, given the named options `named`, whether `--`
/// has been seen, and the arguments.
pub open spec fn step_of(named: NameTrie<NamedEntry>, args: Seq<Seq<char>>, at: int, refuse: bool) -> StepView {
    if at >= args.len() {
        StepView::Done
    } else if !refuse && args[at] == seq!['-', '-'] {
        StepView::Refuse
    } else if !refuse && arg_name(args[at]) is Some {
        let name = arg_name(args[at])->0;
        let found = named.lookup(name);
        if found.len() == 0 {
            StepView::Fail("No such option "@ + name)
        } else if found.len() > 1 {
            StepView::Fail(
                "Option "@ + name + " is ambiguous (e.g.  "@ + found[0].0@ + " and "@ + found[1].0@
                    + ")"@,
            )
        } else if at + 1 + found[0].1 > args.len() {
            StepView::Fail("Not enough arguments for "@ + args[at])
        } else {
            StepView::Named(found[0].2, at + 1, at + 1 + found[0].1)
        }
    } else {
        StepView::Extra
    }
}

/// One handler call of a run of `parse_mut`, with what the handler
/// answered: a named option's handler on the operands `start..end`, a soft
/// extra handler on the argument at `at`, or a hard one on everything from
/// `at` on.
pub enum MutCall {
    Named(usize, int, int, ValidationResult<()>),
    Soft(usize, int, ValidationResult<bool>),
    Hard(usize, int, ValidationResult<()>),
}

/// Where a run of `parse_mut` stands: at an argument (with whether `--` has
/// been seen), or handing the argument at `at` to extra handler `k`.
pub enum MutAt {
    Main(int, bool),
    Extras(int, bool, int),
}

/// The text of a result: `None` for `Ok`, else the error's text.
pub open spec fn result_text(r: ValidationResult<()>) -> Option<Seq<char>> {
    match r {
        Ok(_) => None,
        Err(e) => Some(e.text()),
    }
}

/// The error for an option's handler failing with text `t`: the option and
/// its operands, then the handler's error.
pub open spec fn named_error_text(args: Seq<Seq<char>>, at: int, end: int, t: Seq<char>) -> Seq<char> {
    "While handline "@ + debug_list(args.subrange(at, end)) + ": "@ + debug_text(t)
}

/// The error for a soft extra handler failing with text `t`.
pub open spec fn soft_error_text(args: Seq<Seq<char>>, at: int, t: Seq<char>) -> Seq<char> {
    "While handling "@ + debug_list(args.subrange(at, at + 1)) + ": "@ + error_debug(t) + ": "@ + debug_text(t)
}

/// The error for a hard extra handler failing with text `t`.
pub open spec fn hard_error_text(args: Seq<Seq<char>>, at: int, t: Seq<char>) -> Seq<char> {
    "While handline "@ + debug_list(args.skip(at)) + ": "@ + error_debug(t) + ": "@ + debug_text(t)
}

/// The error for an argument no extra handler takes.
pub open spec fn unexpected_text(args: Seq<Seq<char>>, at: int) -> Seq<char> {
    "Unexpected extra arguments: "@ + debug_list(args.skip(at))
}

/// How a run of `parse_mut` from `c` ends when its handlers are called as
/// `calls` says, in order: `Some` of the result's text when `calls` are
/// exactly the calls that run makes, `None` otherwise.
pub open spec fn mut_run(
    named: NameTrie<NamedEntry>,
    extras: Seq<ExtraHandler>,
    args: Seq<Seq<char>>,
    c: MutAt,
    calls: Seq<MutCall>,
) -> Option<Option<Seq<char>>>
    decreases calls.len(), (match c {
        MutAt::Main(at, _) => args.len() - at,
        MutAt::Extras(at, _, _) => args.len() - at,
    }), (match c {
        MutAt::Main(_, _) => extras.len() as int + 1,
        MutAt::Extras(_, _, k) => extras.len() - k,
    }),
{
    match c {
        MutAt::Main(at, refuse) => if at < 0 || at >= args.len() {
            if calls.len() == 0 {
                Some(None)
            } else {
                None
            }
        } else {
            match step_of(named, args, at, refuse) {
                StepView::Done => if calls.len() == 0 {
                    Some(None)
                } else {
                    None
                },
                StepView::Refuse => mut_run(named, extras, args, MutAt::Main(at + 1, true), calls),
                StepView::Named(id, start, end) => if calls.len() > 0 && end > at && calls[0] == MutCall::Named(
                    id,
                    start,
                    end,
                    calls[0]->Named_3,
                ) {
                    match calls[0]->Named_3 {
                        Err(x) => if calls.len() == 1 {
                            Some(Some(named_error_text(args, at, end, x.text())))
                        } else {
                            None
                        },
                        Ok(_) => mut_run(named, extras, args, MutAt::Main(end, refuse), calls.drop_first()),
                    }
                } else {
                    None
                },
                StepView::Extra => mut_run(named, extras, args, MutAt::Extras(at, refuse, 0), calls),
                StepView::Fail(m) => if calls.len() == 0 {
                    Some(Some(m))
                } else {
                    None
                },
            }
        },
        MutAt::Extras(at, refuse, k) => if at < 0 || at >= args.len() || k < 0 {
            None
        } else if k >= extras.len() {
            if calls.len() == 0 {
                Some(Some(unexpected_text(args, at)))
            } else {
                None
            }
        } else if calls.len() == 0 {
            None
        } else {
            match extras[k] {
                ExtraHandler::Soft(id) => match calls[0] {
                    MutCall::Soft(id2, a, res) => if id2 == id && a == at {
                        match res {
                            Err(x) => if calls.len() == 1 {
                                Some(Some(soft_error_text(args, at, x.text())))
                            } else {
                                None
                            },
                            Ok(took) => if took {
                                mut_run(named, extras, args, MutAt::Main(at + 1, refuse), calls.drop_first())
                            } else {
                                mut_run(named, extras, args, MutAt::Extras(at, refuse, k + 1), calls.drop_first())
                            },
                        }
                    } else {
                        None
                    },
                    _ => None,
                },
                ExtraHandler::Hard(id) => match calls[0] {
                    MutCall::Hard(id2, a, res) => if id2 == id && a == at {
                        match res {
                            Err(x) => if calls.len() == 1 {
                                Some(Some(hard_error_text(args, at, x.text())))
                            } else {
                                None
                            },
                            Ok(_) => mut_run(
                                named,
                                extras,
                                args,
                                MutAt::Main(args.len() as int, refuse),
                                calls.drop_first(),
                            ),
                        }
                    } else {
                        None
                    },
                    _ => None,
                },
            }
        },
    }
}

/// The extra handlers from the `k`-th on, run on the argument at `at`,
/// made the calls `calls` and ended with `r`: `Ok` of the position parsing
/// goes on from, or the error the run ends with.
pub open spec fn extras_done(
    named: NameTrie<NamedEntry>,
    extras: Seq<ExtraHandler>,
    args: Seq<Seq<char>>,
    at: int,
    refuse: bool,
    k: int,
    calls: Seq<MutCall>,
    r: ValidationResult<usize>,
) -> bool {
    match r {
        Ok(n) => at < n <= args.len() && forall|rest: Seq<MutCall>|
            #[trigger] mut_run(named, extras, args, MutAt::Extras(at, refuse, k), calls + rest) == mut_run(
                named,
                extras,
                args,
                MutAt::Main(n as int, refuse),
                rest,
            ),
        Err(e) => mut_run(named, extras, args, MutAt::Extras(at, refuse, k), calls) == Some(Some(e.text())),
    }
}

/// The handlers' answer to the call `c`, when the state it ran on is the
/// one `q` borrows: the handler `c` names answered what `c` records, on the
/// arguments `c` names.
pub open spec fn call_fits<P, N, S, H>(named: N, soft: S, hard: H, args: Seq<Seq<char>>, c: MutCall, q: &mut P) -> bool where
    N: Fn(usize, &mut P, &[String]) -> ValidationResult<()>,
    S: Fn(usize, &mut P, &str) -> ValidationResult<bool>,
    H: Fn(usize, &mut P, &[String]) -> ValidationResult<()>,
 {
    match c {
        MutCall::Named(id, start, end, res) => exists|a: &[String]|
            strings_of(a@) == args.subrange(start, end) && #[trigger] named.ensures((id, q, a), res),
        MutCall::Soft(id, at, res) => exists|a: &str| a@ == args[at] && #[trigger] soft.ensures((id, q, a), res),
        MutCall::Hard(id, at, res) => exists|a: &[String]|
            strings_of(a@) == args.skip(at) && #[trigger] hard.ensures((id, q, a), res),
    }
}

/// Calls handler `id` once, on `p` and the arguments `a`.
fn call_on_slice<P, R, F>(f: &F, id: usize, p: &mut P, a: &[String]) -> (r: R) where F: Fn(usize, &mut P, &[String]) -> R,
    requires
        forall|i: usize, q: &mut P, b: &[String]| f.requires((i, q, b)),
    ensures
        exists|q: &mut P|
            #![trigger f.ensures((id, q, a), r)]
            *q == *old(p) && *final(q) == *final(p) && f.ensures((id, q, a), r),
{
    f(id, p, a)
}

/// Calls handler `id` once, on `p` and the argument `a`.
fn call_on_str<P, R, F>(f: &F, id: usize, p: &mut P, a: &str) -> (r: R) where F: Fn(usize, &mut P, &str) -> R,
    requires
        forall|i: usize, q: &mut P, b: &str| f.requires((i, q, b)),
    ensures
        exists|q: &mut P|
            #![trigger f.ensures((id, q, a), r)]
            *q == *old(p) && *final(q) == *final(p) && f.ensures((id, q, a), r),
{
    f(id, p, a)
}

impl OptParser {
    pub closed spec fn names(&self) -> NameTrie<NamedEntry> {
        self.named
    }

    pub closed spec fn extras(&self) -> Seq<ExtraHandler> {
        self.extra@
    }

    pub closed spec fn wf(&self) -> bool {
        self.named.wf()
    }

    pub fn new() -> (p: OptParser)
        ensures
            p.wf(),
            p.names()@ == Map::<Seq<char>, NamedEntry>::empty(),
            p.extras() == Seq::<ExtraHandler>::empty(),
    {
        OptParser { named: NameTrie::default(), extra: Vec::new() }
    }

    /// Files the option `alias`, taking `argct` arguments, for handler `id`;
    /// the alias must be new.
    pub fn add_named(&mut self, alias: &str, argct: usize, id: usize)
        requires
            old(self).wf(),
            !old(self).names()@.contains_key(alias@),
        ensures
            final(self).wf(),
            final(self).names()@ == old(self).names()@.insert(alias@, final(self).names()@[alias@]),
            final(self).names()@[alias@].0@ == alias@,
            final(self).names()@[alias@].1 == argct,
            final(self).names()@[alias@].2 == id,
            final(self).extras() == old(self).extras(),
    {
        let e = (alias.to_owned(), argct, id);
        self.named.insert(alias, e);
    }

    /// Adds an extra-argument handler after those there are.
    pub fn add_extra(&mut self, h: ExtraHandler)
        ensures
            final(self).names() == old(self).names(),
            final(self).extras() == old(self).extras().push(h),
            final(self).wf() == old(self).wf(),
    {
        self.extra.push(h);
    }

    /// Whether `alias` is filed already.
    pub fn has_named(&self, alias: &str) -> (r: bool)
        ensures
            r == self.names()@.contains_key(alias@),
    {
        self.named.contains(alias)
    }

    /// Decides the step at `at`.
    pub fn next_step(&self, args: &[String], at: usize, refuse: bool) -> (s: ParseStep)
        requires
            at <= args@.len(),
        ensures
            s.view() == step_of(self.names(), strings_of(args@), at as int, refuse),
    {
        let ghost xs = strings_of(args@);
        if at >= args.len() {
            return ParseStep::Done;
        }
        let a = chars_of(args[at].as_str());
        assert(a@ == xs[at as int]);
        if !refuse && a.len() == 2 && a[0] == '-' && a[1] == '-' {
            assert(a@ =~= seq!['-', '-']);
            return ParseStep::Refuse;
        }
        if !refuse {
            assert(a@.len() == 2 && a@[0] == '-' && a@[1] == '-' ==> a@ =~= seq!['-', '-']);
            assert(xs[at as int] != seq!['-', '-']);
            if let Some(name) = name_from_arg(args[at].as_str()) {
                let found = self.named.get(name.as_str());
                if found.len() == 0 {
                    let mut m = "No such option ".to_owned();
                    m.append(name.as_str());
                    return ParseStep::Fail(m);
                }
                if found.len() > 1 {
                    let mut m = "Option ".to_owned();
                    m.append(name.as_str());
                    m.append(" is ambiguous (e.g.  ");
                    m.append(found[0].0.as_str());
                    m.append(" and ");
                    m.append(found[1].0.as_str());
                    m.append(")");
                    return ParseStep::Fail(m);
                }
                let argct: usize = found[0].1;
                let id: usize = found[0].2;
                if argct > args.len() - at - 1 {
                    let mut m = "Not enough arguments for ".to_owned();
                    m.append(args[at].as_str());
                    return ParseStep::Fail(m);
                }
                return ParseStep::Named { id, start: at + 1, end: at + 1 + argct };
            }
        }
        ParseStep::Extra
    }

    /// Hands the argument at `at` to the extra handlers from the `k`-th on,
    /// in order: the first soft one that takes it consumes it, the first
    /// hard one reached takes all that are left; gives the position parsing
    /// goes on from, with the calls made and the states `p` went through.
    fn extras_from<P, N, S, H>(
        &self,
        args: &[String],
        at: usize,
        refuse: Ghost<bool>,
        k: usize,
        p: &mut P,
        named: &N,
        soft: &S,
        hard: &H,
    ) -> (r: (ValidationResult<usize>, Ghost<Seq<MutCall>>, Ghost<Seq<P>>)) where
        N: Fn(usize, &mut P, &[String]) -> ValidationResult<()>,
        S: Fn(usize, &mut P, &str) -> ValidationResult<bool>,
        H: Fn(usize, &mut P, &[String]) -> ValidationResult<()>,

        requires
            at < args@.len(),
            k <= self.extras().len(),
            forall|i: usize, q: &mut P, a: &str| soft.requires((i, q, a)),
            forall|i: usize, q: &mut P, a: &[String]| hard.requires((i, q, a)),
        ensures
            extras_done(self.names(), self.extras(), strings_of(args@), at as int, refuse@, k as int, r.1@, r.0),
            r.2@.len() == r.1@.len() + 1,
            r.2@[0] == *old(p),
            r.2@[r.1@.len() as int] == *final(p),
            exists|qs: Seq<&mut P>|
                #![trigger qs.len()]
                qs.len() == r.1@.len() && forall|j: int|
                    #![trigger qs[j]]
                    0 <= j < qs.len() ==> call_fits(*named, *soft, *hard, strings_of(args@), r.1@[j], qs[j]) && *qs[j]
                        == r.2@[j] && *final(qs[j]) == r.2@[j + 1],
        decreases self.extras().len() - k,
    {
        let ghost xs = strings_of(args@);
        let ghost names = self.names();
        let ghost extras = self.extras();
        let ghost rf = refuse@;
        let ghost cur = MutAt::Extras(at as int, rf, k as int);
        let ghost s0 = *p;
        if k == self.extra.len() {
            let mut m = "Unexpected extra arguments: ".to_owned();
            let rest = debug_strings(&args[at..args.len()]);
            assert(args@.subrange(at as int, args@.len() as int) =~= args@.skip(at as int));
            assert(strings_of(args@.skip(at as int)) =~= xs.skip(at as int));
            m.append(rest.as_str());
            let out = ValidationError::Message(m);
            proof {
                reveal_strlit("Unexpected extra arguments: ");
                assert(mut_run(names, extras, xs, cur, Seq::empty()) == Some(Some(out.text())));
            }
            let ghost one = seq![*p];
            proof {
                let qs0 = Seq::<&mut P>::empty();
                assert(qs0.len() == 0);
            }
            return (Err(out), Ghost(Seq::empty()), Ghost(one));
        }
        match &self.extra[k] {
            ExtraHandler::Soft(id) => {
                let a = args[at].as_str();
                assert(a@ == xs[at as int]);
                let res = call_on_str(soft, *id, p, a);
                let ghost c = MutCall::Soft(*id, at as int, res);
                let ghost s1 = *p;
                let ghost cs1 = seq![c];
                let ghost ps1 = seq![s0, s1];
                proof {
                    let q0 = choose|q: &mut P|
                        #![trigger soft.ensures((*id, q, a), res)]
                        *q == s0 && *final(q) == s1 && soft.ensures((*id, q, a), res);
                    assert(call_fits(*named, *soft, *hard, xs, c, q0));
                    assert(cs1[0] == c && ps1[0] == s0 && ps1[1] == s1);
                    let qs1 = seq![q0];
                    assert(qs1[0] == q0);
                    assert(qs1.len() == cs1.len() && forall|j: int|
                        #![trigger qs1[j]]
                        0 <= j < qs1.len() ==> call_fits(*named, *soft, *hard, xs, cs1[j], qs1[j]) && *qs1[j] == ps1[j]
                            && *final(qs1[j]) == ps1[j + 1]);
                    assert forall|rest: Seq<MutCall>| (#[trigger] (seq![c] + rest)).drop_first() == rest by {
                        assert((seq![c] + rest).drop_first() =~= rest);
                    }
                }
                match res {
                    Err(e) => {
                        let mut prefix = "While handling ".to_owned();
                        let one = debug_strings(&args[at..at + 1]);
                        assert(strings_of(args@.subrange(at as int, at + 1)) =~= xs.subrange(at as int, at + 1));
                        prefix.append(one.as_str());
                        prefix.append(": ");
                        let de = debug_error(&e);
                        prefix.append(de.as_str());
                        let out = e.label(prefix.as_str());
                        proof {
                            reveal_strlit(": ");
                            reveal_strlit("While handling ");
                            assert(seq![c] + Seq::<MutCall>::empty() =~= seq![c]);
                            assert(mut_run(names, extras, xs, cur, seq![c]) == Some(Some(out.text())));
                        }
                        (Err(out), Ghost(cs1), Ghost(ps1))
                    },
                    Ok(true) => {
                        proof {
                            assert forall|rest: Seq<MutCall>| #[trigger] mut_run(names, extras, xs, cur, seq![c] + rest)
                                == mut_run(names, extras, xs, MutAt::Main(at + 1, rf), rest) by {}
                        }
                        (Ok(at + 1), Ghost(cs1), Ghost(ps1))
                    },
                    Ok(false) => {
                        let (r2, Ghost(calls2), Ghost(ps2)) = self.extras_from(args, at, refuse, k + 1, p, named, soft, hard);
                        let ghost calls = seq![c] + calls2;
                        let ghost ps = seq![s0] + ps2;
                        proof {
                            assert(ps2[0] == s1);
                            let q0 = choose|q: &mut P|
                                #![trigger soft.ensures((*id, q, a), res)]
                                *q == s0 && *final(q) == s1 && soft.ensures((*id, q, a), res);
                            let qs2 = choose|qs: Seq<&mut P>|
                                #![trigger qs.len()]
                                qs.len() == calls2.len() && forall|j: int|
                                    #![trigger qs[j]]
                                    0 <= j < qs.len() ==> call_fits(*named, *soft, *hard, strings_of(args@), calls2[j], qs[j]) && *qs[j]
                                        == ps2[j] && *final(qs[j]) == ps2[j + 1];
                            let qs = seq![q0] + qs2;
                            assert forall|j: int| #![trigger qs[j]] 0 <= j < qs.len() implies call_fits(*named, *soft, *hard, xs, calls[j], qs[j])
                                && *qs[j] == ps[j] && *final(qs[j]) == ps[j + 1] by {
                                if j == 0 {
                                    assert(qs[0] == q0 && calls[0] == c && ps[0] == s0 && ps[1] == s1);
                                } else {
                                    assert(qs[j] == qs2[j - 1] && calls[j] == calls2[j - 1] && ps[j] == ps2[j - 1] && ps[j + 1] == ps2[j]);
                                }
                            }
                            assert(qs.len() == calls.len());
                            assert forall|rest: Seq<MutCall>| #[trigger] mut_run(names, extras, xs, cur, calls + rest)
                                == mut_run(names, extras, xs, MutAt::Extras(at as int, rf, k + 1), calls2 + rest) by {
                                assert(calls + rest =~= seq![c] + (calls2 + rest));
                            }
                        }
                        (r2, Ghost(calls), Ghost(ps))
                    },
                }
            },
            ExtraHandler::Hard(id) => {
                let slice = &args[at..args.len()];
                assert(strings_of(slice@) =~= xs.skip(at as int));
                let res = call_on_slice(hard, *id, p, slice);
                let ghost c = MutCall::Hard(*id, at as int, res);
                let ghost s1 = *p;
                let ghost cs1 = seq![c];
                let ghost ps1 = seq![s0, s1];
                proof {
                    let q0 = choose|q: &mut P|
                        #![trigger hard.ensures((*id, q, slice), res)]
                        *q == s0 && *final(q) == s1 && hard.ensures((*id, q, slice), res);
                    assert(call_fits(*named, *soft, *hard, xs, c, q0));
                    assert(cs1[0] == c && ps1[0] == s0 && ps1[1] == s1);
                    let qs1 = seq![q0];
                    assert(qs1[0] == q0);
                    assert(qs1.len() == cs1.len() && forall|j: int|
                        #![trigger qs1[j]]
                        0 <= j < qs1.len() ==> call_fits(*named, *soft, *hard, xs, cs1[j], qs1[j]) && *qs1[j] == ps1[j]
                            && *final(qs1[j]) == ps1[j + 1]);
                    assert forall|rest: Seq<MutCall>| (#[trigger] (seq![c] + rest)).drop_first() == rest by {
                        assert((seq![c] + rest).drop_first() =~= rest);
                    }
                }
                match res {
                    Err(e) => {
                        let mut prefix = "While handline ".to_owned();
                        let rest = debug_strings(&args[at..args.len()]);
                        assert(args@.subrange(at as int, args@.len() as int) =~= args@.skip(at as int));
                        assert(strings_of(args@.skip(at as int)) =~= xs.skip(at as int));
                        prefix.append(rest.as_str());
                        prefix.append(": ");
                        let de = debug_error(&e);
                        prefix.append(de.as_str());
                        let out = e.label(prefix.as_str());
                        proof {
                            reveal_strlit(": ");
                            reveal_strlit("While handline ");
                            assert(seq![c] + Seq::<MutCall>::empty() =~= seq![c]);
                            assert(mut_run(names, extras, xs, cur, seq![c]) == Some(Some(out.text())));
                        }
                        (Err(out), Ghost(cs1), Ghost(ps1))
                    },
                    Ok(()) => {
                        proof {
                            assert forall|rest: Seq<MutCall>| #[trigger] mut_run(names, extras, xs, cur, seq![c] + rest)
                                == mut_run(names, extras, xs, MutAt::Main(args@.len() as int, rf), rest) by {}
                        }
                        (Ok(args.len()), Ghost(cs1), Ghost(ps1))
                    },
                }
            },
        }
    }

    /// The run of `parse_mut` from the argument at `at`: its result, the
    /// calls it made and the states `p` went through.
    fn run_from<P, N, S, H>(
        &self,
        args: &[String],
        at: usize,
        refuse: bool,
        p: &mut P,
        named: &N,
        soft: &S,
        hard: &H,
    ) -> (r: (ValidationResult<()>, Ghost<Seq<MutCall>>, Ghost<Seq<P>>)) where
        N: Fn(usize, &mut P, &[String]) -> ValidationResult<()>,
        S: Fn(usize, &mut P, &str) -> ValidationResult<bool>,
        H: Fn(usize, &mut P, &[String]) -> ValidationResult<()>,

        requires
            at <= args@.len(),
            forall|i: usize, q: &mut P, a: &[String]| named.requires((i, q, a)),
            forall|i: usize, q: &mut P, a: &str| soft.requires((i, q, a)),
            forall|i: usize, q: &mut P, a: &[String]| hard.requires((i, q, a)),
        ensures
            mut_run(self.names(), self.extras(), strings_of(args@), MutAt::Main(at as int, refuse), r.1@) == Some(
                result_text(r.0),
            ),
            r.2@.len() == r.1@.len() + 1,
            r.2@[0] == *old(p),
            r.2@[r.1@.len() as int] == *final(p),
            exists|qs: Seq<&mut P>|
                #![trigger qs.len()]
                qs.len() == r.1@.len() && forall|j: int|
                    #![trigger qs[j]]
                    0 <= j < qs.len() ==> call_fits(*named, *soft, *hard, strings_of(args@), r.1@[j], qs[j]) && *qs[j]
                        == r.2@[j] && *final(qs[j]) == r.2@[j + 1],
            at == 0 && !refuse ==> (step_of(self.names(), strings_of(args@), 0, false) matches StepView::Fail(m) ==> (r.0 matches Err(e) && e.text() == m)),
            at == args@.len() ==> r.0 is Ok,
        decreases args@.len() - at,
    {
        let ghost xs = strings_of(args@);
        let ghost names = self.names();
        let ghost extras = self.extras();
        let ghost cur = MutAt::Main(at as int, refuse);
        let ghost s0 = *p;
        let st = self.next_step(args, at, refuse);
        match st {
            ParseStep::Done => {
                let out: ValidationResult<()> = Ok(());
                assert(mut_run(names, extras, xs, cur, Seq::empty()) == Some(result_text(out)));
                let ghost one = seq![*p];
                proof {
                    let qs0 = Seq::<&mut P>::empty();
                    assert(qs0.len() == 0);
                }
                (out, Ghost(Seq::empty()), Ghost(one))
            },
            ParseStep::Refuse => {
                assert(st.view() is Refuse);
                let n: usize = args.len();
                assert(at < n);
                let (r2, Ghost(calls2), Ghost(ps2)) = self.run_from(args, at + 1, true, p, named, soft, hard);
                assert(mut_run(names, extras, xs, cur, calls2) == mut_run(
                    names,
                    extras,
                    xs,
                    MutAt::Main(at + 1, true),
                    calls2,
                ));
                (r2, Ghost(calls2), Ghost(ps2))
            },
            ParseStep::Named { id, start: b, end } => {
                assert(b == at + 1 && end > at);
                let slice = &args[b..end];
                assert(strings_of(slice@) =~= xs.subrange(b as int, end as int));
                let res = call_on_slice(named, id, p, slice);
                let ghost c = MutCall::Named(id, b as int, end as int, res);
                let ghost s1 = *p;
                let ghost cs1 = seq![c];
                let ghost ps1 = seq![s0, s1];
                proof {
                    let q0 = choose|q: &mut P|
                        #![trigger named.ensures((id, q, slice), res)]
                        *q == s0 && *final(q) == s1 && named.ensures((id, q, slice), res);
                    assert(call_fits(*named, *soft, *hard, xs, c, q0));
                    assert(cs1[0] == c && ps1[0] == s0 && ps1[1] == s1);
                    let qs1 = seq![q0];
                    assert(qs1[0] == q0);
                    assert(qs1.len() == cs1.len() && forall|j: int|
                        #![trigger qs1[j]]
                        0 <= j < qs1.len() ==> call_fits(*named, *soft, *hard, xs, cs1[j], qs1[j]) && *qs1[j] == ps1[j]
                            && *final(qs1[j]) == ps1[j + 1]);
                    assert(seq![c][0] == c);
                }
                match res {
                    Err(e) => {
                        let mut prefix = "While handline ".to_owned();
                        let used = debug_strings(&args[at..end]);
                        assert(strings_of(args@.subrange(at as int, end as int)) =~= xs.subrange(at as int, end as int));
                        prefix.append(used.as_str());
                        let out = e.label(prefix.as_str());
                        proof {
                            reveal_strlit("While handline ");
                            assert(mut_run(names, extras, xs, cur, seq![c]) == Some(
                                result_text(Err::<(), ValidationError>(out)),
                            ));
                        }
                        (Err(out), Ghost(cs1), Ghost(ps1))
                    },
                    Ok(()) => {
                        let (r2, Ghost(calls2), Ghost(ps2)) = self.run_from(args, end, refuse, p, named, soft, hard);
                        let ghost calls = seq![c] + calls2;
                        let ghost ps = seq![s0] + ps2;
                        proof {
                            assert(calls.drop_first() =~= calls2);
                            assert(calls[0] == c);
                            assert(mut_run(names, extras, xs, cur, calls) == mut_run(
                                names,
                                extras,
                                xs,
                                MutAt::Main(end as int, refuse),
                                calls2,
                            ));
                            let q0 = choose|q: &mut P|
                                #![trigger named.ensures((id, q, slice), res)]
                                *q == s0 && *final(q) == s1 && named.ensures((id, q, slice), res);
                            let qs2 = choose|qs: Seq<&mut P>|
                                #![trigger qs.len()]
                                qs.len() == calls2.len() && forall|j: int|
                                    #![trigger qs[j]]
                                    0 <= j < qs.len() ==> call_fits(*named, *soft, *hard, strings_of(args@), calls2[j], qs[j]) && *qs[j]
                                        == ps2[j] && *final(qs[j]) == ps2[j + 1];
                            let qs = seq![q0] + qs2;
                            assert forall|j: int| #![trigger qs[j]] 0 <= j < qs.len() implies call_fits(*named, *soft, *hard, xs, calls[j], qs[j])
                                && *qs[j] == ps[j] && *final(qs[j]) == ps[j + 1] by {
                                if j == 0 {
                                    assert(qs[0] == q0 && calls[0] == c && ps[0] == s0 && ps[1] == s1);
                                } else {
                                    assert(qs[j] == qs2[j - 1] && calls[j] == calls2[j - 1] && ps[j] == ps2[j - 1] && ps[j + 1] == ps2[j]);
                                }
                            }
                            assert(qs.len() == calls.len());
                        }
                        (r2, Ghost(calls), Ghost(ps))
                    },
                }
            },
            ParseStep::Extra => {
                assert(at < args@.len());
                let (ex, Ghost(calls1), Ghost(ps1)) = self.extras_from(args, at, Ghost(refuse), 0, p, named, soft, hard);
                proof {
                    assert forall|calls: Seq<MutCall>| #[trigger] mut_run(names, extras, xs, cur, calls) == mut_run(
                        names,
                        extras,
                        xs,
                        MutAt::Extras(at as int, refuse, 0),
                        calls,
                    ) by {}
                }
                match ex {
                    Err(e) => (Err(e), Ghost(calls1), Ghost(ps1)),
                    Ok(n) => {
                        let ghost s1 = *p;
                        let (r2, Ghost(calls2), Ghost(ps2)) = self.run_from(args, n, refuse, p, named, soft, hard);
                        let ghost calls = calls1 + calls2;
                        let ghost ps = ps1 + ps2.drop_first();
                        proof {
                            assert(ps1[calls1.len() as int] == s1 && ps2[0] == s1);
                            assert(mut_run(names, extras, xs, MutAt::Extras(at as int, refuse, 0), calls1 + calls2)
                                == mut_run(names, extras, xs, MutAt::Main(n as int, refuse), calls2));
                            let qa = choose|qs: Seq<&mut P>|
                                #![trigger qs.len()]
                                qs.len() == calls1.len() && forall|j: int|
                                    #![trigger qs[j]]
                                    0 <= j < qs.len() ==> call_fits(*named, *soft, *hard, strings_of(args@), calls1[j], qs[j]) && *qs[j]
                                        == ps1[j] && *final(qs[j]) == ps1[j + 1];
                            let qb = choose|qs: Seq<&mut P>|
                                #![trigger qs.len()]
                                qs.len() == calls2.len() && forall|j: int|
                                    #![trigger qs[j]]
                                    0 <= j < qs.len() ==> call_fits(*named, *soft, *hard, strings_of(args@), calls2[j], qs[j]) && *qs[j]
                                        == ps2[j] && *final(qs[j]) == ps2[j + 1];
                            let qs = qa + qb;
                            assert forall|j: int| #![trigger qs[j]] 0 <= j < qs.len() implies call_fits(*named, *soft, *hard, xs, calls[j], qs[j])
                                && *qs[j] == ps[j] && *final(qs[j]) == ps[j + 1] by {
                                if j < calls1.len() {
                                    assert(qs[j] == qa[j] && calls[j] == calls1[j] && ps[j] == ps1[j] && ps[j + 1] == ps1[j + 1]);
                                } else {
                                    let jj: int = j - calls1.len();
                                    assert(qs[j] == qb[jj] && calls[j] == calls2[jj] && ps[j] == ps2[jj] && ps[j + 1] == ps2[jj + 1]);
                                }
                            }
                            assert(qs.len() == calls.len());
                        }
                        (r2, Ghost(calls), Ghost(ps))
                    },
                }
            },
            ParseStep::Fail(m) => {
                let out = ValidationError::Message(m);
                assert(mut_run(names, extras, xs, cur, Seq::empty()) == Some(result_text(Err::<(), ValidationError>(out))));
                let ghost one = seq![*p];
                proof {
                    let qs0 = Seq::<&mut P>::empty();
                    assert(qs0.len() == 0);
                }
                (Err(out), Ghost(Seq::empty()), Ghost(one))
            },
        }
    }

    /// Parses `args` into `p`: options go to their handlers through `named`,
    /// other arguments to the extra handlers through `soft` and `hard`, in
    /// order: the first soft one that takes an argument consumes it, the
    /// first hard one reached takes all that are left. An error from a
    /// handler comes back labelled with the arguments it was handling, and
    /// no handler runs after it; what the handlers did to `p` before stays.
    /// The calls are those `mut_run` accepts, made once each and in that
    /// order, each on the state the one before it left: `p` starts the
    /// chain and ends as the last call left it.
    pub fn parse_mut<P, N, S, H>(&self, args: &[String], p: &mut P, named: &N, soft: &S, hard: &H) -> (r:
        ValidationResult<()>) where
        N: Fn(usize, &mut P, &[String]) -> ValidationResult<()>,
        S: Fn(usize, &mut P, &str) -> ValidationResult<bool>,
        H: Fn(usize, &mut P, &[String]) -> ValidationResult<()>,

        requires
            forall|i: usize, q: &mut P, a: &[String]| named.requires((i, q, a)),
            forall|i: usize, q: &mut P, a: &str| soft.requires((i, q, a)),
            forall|i: usize, q: &mut P, a: &[String]| hard.requires((i, q, a)),
        ensures
            args@.len() == 0 ==> r is Ok && *final(p) == *old(p),
            step_of(self.names(), strings_of(args@), 0, false) matches StepView::Fail(m) ==> (r matches Err(e) && e.text()
                == m && *final(p) == *old(p)),
            exists|calls: Seq<MutCall>, ps: Seq<P>, qs: Seq<&mut P>|
                #![trigger mut_run(self.names(), self.extras(), strings_of(args@), MutAt::Main(0, false), calls), ps.len(), qs.len()]
                mut_run(self.names(), self.extras(), strings_of(args@), MutAt::Main(0, false), calls) == Some(
                    result_text(r),
                ) && ps.len() == calls.len() + 1 && ps[0] == *old(p) && ps[calls.len() as int] == *final(p) && qs.len() == calls.len() && forall|j: int|
                    #![trigger qs[j]]
                    0 <= j < qs.len() ==> call_fits(*named, *soft, *hard, strings_of(args@), calls[j], qs[j]) && *qs[j]
                        == ps[j] && *final(qs[j]) == ps[j + 1],
    {
        let (r, Ghost(calls), Ghost(ps)) = self.run_from(args, 0, false, p, named, soft, hard);
        r
    }

    /// Parses `args` into a fresh `P`, as `parse_mut` does: on success the
    /// value is the state the chain of handler calls leaves, the chain
    /// starting from the value `P::default()` gave.
    pub fn parse<P: Default, N, S, H>(&self, args: &[String], named: &N, soft: &S, hard: &H) -> (r:
        ValidationResult<P>) where
        N: Fn(usize, &mut P, &[String]) -> ValidationResult<()>,
        S: Fn(usize, &mut P, &str) -> ValidationResult<bool>,
        H: Fn(usize, &mut P, &[String]) -> ValidationResult<()>,

        requires
            forall|i: usize, q: &mut P, a: &[String]| named.requires((i, q, a)),
            forall|i: usize, q: &mut P, a: &str| soft.requires((i, q, a)),
            forall|i: usize, q: &mut P, a: &[String]| hard.requires((i, q, a)),
        ensures
            step_of(self.names(), strings_of(args@), 0, false) matches StepView::Fail(m) ==> (r matches Err(e) && e.text()
                == m),
            args@.len() == 0 ==> r is Ok,
            exists|calls: Seq<MutCall>, ps: Seq<P>, qs: Seq<&mut P>|
                #![trigger mut_run(self.names(), self.extras(), strings_of(args@), MutAt::Main(0, false), calls), ps.len(), qs.len()]
                mut_run(self.names(), self.extras(), strings_of(args@), MutAt::Main(0, false), calls) == Some(
                    match r {
                        Ok(_) => None,
                        Err(e) => Some(e.text()),
                    },
                ) && ps.len() == calls.len() + 1 && (r matches Ok(v) ==> v == ps[calls.len() as int]) && qs.len() == calls.len() && forall|j: int|
                    #![trigger qs[j]]
                    0 <= j < qs.len() ==> call_fits(*named, *soft, *hard, strings_of(args@), calls[j], qs[j]) && *qs[j]
                        == ps[j] && *final(qs[j]) == ps[j + 1],
    {
        let mut p = P::default();
        let res = self.parse_mut(args, &mut p, named, soft, hard);
        match res {
            Ok(()) => Ok(p),
            Err(e) => Err(e),
        }
    }
}

/// Why parsing by exact option names stopped.
pub enum RetainError {
    /// An argument names no option.
    UnknownOption(String),
    /// An option is followed by fewer arguments than it takes.
    MissingArguments(String),
}

/// The strings at positions `ks` of `v`.
pub open spec fn picked(v: Seq<String>, ks: Seq<int>) -> Seq<Seq<char>> {
    ks.map_values(|k: int| v[k]@)
}

/// `ks` are positions in `0..n`, strictly increasing.
pub open spec fn increasing_in(ks: Seq<int>, n: int) -> bool {
    &&& forall|a: int, b: int| 0 <= a < b < ks.len() ==> ks[a] < ks[b]
    &&& forall|a: int| 0 <= a < ks.len() ==> 0 <= #[trigger] ks[a] < n
}

/// The positions `v` holds, as integers.
pub open spec fn positions(v: Seq<usize>) -> Seq<int> {
    v.map_values(|i: usize| i as int)
}

/// One handler call of a run of `parse_retain`: a named option's handler
/// on the operands `start..end`, a soft extra handler on the argument at
/// `at` with whether it took it, or a hard one on everything from `at` on.
pub enum RetainCall {
    Named(usize, int, int),
    Soft(usize, int, bool),
    Hard(usize, int),
}

/// How a run of `parse_retain` ends: with the positions of the arguments
/// that stay, in order; or on an argument naming no option (with the
/// name); or on an option short of operands (with the option as given).
pub enum RetainEnd {
    Kept(Seq<int>),
    Unknown(Seq<char>),
    Missing(Seq<char>),
}

/// How a run of `parse_retain` from `c` ends when its handlers are called
/// as `calls` says, in order (each soft call with whether it took the
/// argument): `Some` of the end when `calls` are exactly the calls that run
/// makes, `None` otherwise. Options are named in full; `--` ends options
/// and goes; an argument no extra handler takes stays.
pub open spec fn retain_run(
    named: NameTrie<NamedEntry>,
    extras: Seq<ExtraHandler>,
    args: Seq<Seq<char>>,
    c: MutAt,
    calls: Seq<RetainCall>,
) -> Option<RetainEnd>
    decreases (match c {
        MutAt::Main(at, _) => args.len() - at,
        MutAt::Extras(at, _, _) => args.len() - at,
    }), (match c {
        MutAt::Main(_, _) => extras.len() as int + 1,
        MutAt::Extras(_, _, k) => extras.len() - k,
    }),
{
    match c {
        MutAt::Main(at, refuse) => if at < 0 || at >= args.len() {
            if calls.len() == 0 {
                Some(RetainEnd::Kept(Seq::empty()))
            } else {
                None
            }
        } else if !refuse && args[at] == seq!['-', '-'] {
            retain_run(named, extras, args, MutAt::Main(at + 1, true), calls)
        } else if !refuse && arg_name(args[at]) is Some {
            let name = arg_name(args[at])->0;
            if !named@.contains_key(name) {
                if calls.len() == 0 {
                    Some(RetainEnd::Unknown(name))
                } else {
                    None
                }
            } else if at + 1 + named@[name].1 > args.len() {
                if calls.len() == 0 {
                    Some(RetainEnd::Missing(args[at]))
                } else {
                    None
                }
            } else if calls.len() > 0 && calls[0] == RetainCall::Named(
                named@[name].2,
                at + 1,
                at + 1 + named@[name].1,
            ) {
                retain_run(named, extras, args, MutAt::Main(at + 1 + named@[name].1, false), calls.drop_first())
            } else {
                None
            }
        } else {
            retain_run(named, extras, args, MutAt::Extras(at, refuse, 0), calls)
        },
        MutAt::Extras(at, refuse, k) => if at < 0 || at >= args.len() || k < 0 {
            None
        } else if k >= extras.len() {
            match retain_run(named, extras, args, MutAt::Main(at + 1, refuse), calls) {
                Some(RetainEnd::Kept(ks)) => Some(RetainEnd::Kept(seq![at] + ks)),
                other => other,
            }
        } else if calls.len() == 0 {
            None
        } else {
            match extras[k] {
                ExtraHandler::Soft(id) => match calls[0] {
                    RetainCall::Soft(id2, a, took) => if id2 == id && a == at {
                        if took {
                            retain_run(named, extras, args, MutAt::Main(at + 1, refuse), calls.drop_first())
                        } else {
                            retain_run(named, extras, args, MutAt::Extras(at, refuse, k + 1), calls.drop_first())
                        }
                    } else {
                        None
                    },
                    _ => None,
                },
                ExtraHandler::Hard(id) => if calls[0] == RetainCall::Hard(id, at) {
                    retain_run(named, extras, args, MutAt::Main(args.len() as int, refuse), calls.drop_first())
                } else {
                    None
                },
            }
        },
    }
}

/// The end a result of `parse_retain` stands for, `ks` being the positions
/// kept where it succeeded.
pub open spec fn retain_end(r: Result<(), RetainError>, ks: Seq<int>) -> RetainEnd {
    match r {
        Ok(_) => RetainEnd::Kept(ks),
        Err(RetainError::UnknownOption(n)) => RetainEnd::Unknown(n@),
        Err(RetainError::MissingArguments(a)) => RetainEnd::Missing(a@),
    }
}

/// The handlers' answer to the call `c` of `parse_retain`, when the state
/// it ran on is the one `q` borrows.
pub open spec fn retain_fits<P, N, S, H>(named: N, soft: S, hard: H, args: Seq<Seq<char>>, c: RetainCall, q: &mut P) -> bool where
    N: Fn(usize, &mut P, &[String]),
    S: Fn(usize, &mut P, &str) -> bool,
    H: Fn(usize, &mut P, &[String]),
 {
    match c {
        RetainCall::Named(id, start, end) => exists|a: &[String]|
            strings_of(a@) == args.subrange(start, end) && #[trigger] named.ensures((id, q, a), ()),
        RetainCall::Soft(id, at, took) => exists|a: &str| a@ == args[at] && #[trigger] soft.ensures((id, q, a), took),
        RetainCall::Hard(id, at) => exists|a: &[String]|
            strings_of(a@) == args.skip(at) && #[trigger] hard.ensures((id, q, a), ()),
    }
}

/// Keeps of `args` the entries at the positions `kept`, in order.
fn keep_only(args: &mut Vec<String>, kept: &Vec<usize>)
    requires
        increasing_in(positions(kept@), old(args)@.len() as int),
    ensures
        final(args)@.len() == kept@.len(),
        forall|m: int| 0 <= m < kept@.len() ==> (#[trigger] final(args)@[m]) == old(args)@[kept@[m] as int],
{
    let ghost orig = args@;
    let ghost ks = positions(kept@);
    let mut j: usize = 0;
    let ghost mut lo: int = 0;
    while j < kept.len()
        invariant
            orig == old(args)@,
            ks == positions(kept@),
            increasing_in(ks, orig.len() as int),
            args@.len() == orig.len(),
            j <= kept@.len(),
            j <= lo,
            j > 0 ==> lo == kept@[j - 1] + 1,
            j == 0 ==> lo == 0,
            lo <= orig.len(),
            forall|m: int| 0 <= m < j ==> (#[trigger] args@[m]) == orig[kept@[m] as int],
            forall|m: int| lo <= m < args@.len() ==> (#[trigger] args@[m]) == orig[m],
        decreases kept@.len() - j,
    {
        let t: usize = kept[j];
        proof {
            assert(ks[j as int] == t as int);
            if j > 0 {
                assert(ks[j - 1] < ks[j as int]);
                assert(ks[j - 1] == kept@[j - 1] as int);
            }
            assert(0 <= ks[j as int] < orig.len());
        }
        let ghost before = args@;
        crate::sorts::slice_swap(args.as_mut_slice(), j, t);
        proof {
            assert(args@[j as int] == orig[t as int]);
            assert forall|m: int| 0 <= m < j + 1 implies (#[trigger] args@[m]) == orig[kept@[m] as int] by {
                if m < j {
                    assert(args@[m] == before[m]);
                }
            }
            assert forall|m: int| t + 1 <= m < args@.len() implies (#[trigger] args@[m]) == orig[m] by {
                assert(args@[m] == before[m]);
            }
            lo = t + 1;
        }
        j = j + 1;
    }
    args.truncate(kept.len());
}

impl OptParser {
    /// Hands the argument at `at` to the extra handlers from the `k`-th on,
    /// as `parse_retain` does: gives the position parsing goes on from, or
    /// `None` where no handler took the argument, with the calls made and
    /// the states `p` went through.
    fn retain_extras<P, N, S, H>(
        &self,
        args: &[String],
        at: usize,
        refuse: Ghost<bool>,
        k: usize,
        p: &mut P,
        named: &N,
        soft: &S,
        hard: &H,
    ) -> (r: (Option<usize>, Ghost<Seq<RetainCall>>, Ghost<Seq<P>>)) where
        N: Fn(usize, &mut P, &[String]),
        S: Fn(usize, &mut P, &str) -> bool,
        H: Fn(usize, &mut P, &[String]),

        requires
            at < args@.len(),
            k <= self.extras().len(),
            forall|i: usize, q: &mut P, a: &str| soft.requires((i, q, a)),
            forall|i: usize, q: &mut P, a: &[String]| hard.requires((i, q, a)),
        ensures
            match r.0 {
                Some(n) => at < n <= args@.len() && forall|rest: Seq<RetainCall>|
                    #[trigger] retain_run(self.names(), self.extras(), strings_of(args@), MutAt::Extras(at as int, refuse@, k as int), r.1@ + rest)
                        == retain_run(self.names(), self.extras(), strings_of(args@), MutAt::Main(n as int, refuse@), rest),
                None => forall|rest: Seq<RetainCall>|
                    #[trigger] retain_run(self.names(), self.extras(), strings_of(args@), MutAt::Extras(at as int, refuse@, k as int), r.1@ + rest)
                        == retain_run(self.names(), self.extras(), strings_of(args@), MutAt::Extras(at as int, refuse@, self.extras().len() as int), rest),
            },
            r.2@.len() == r.1@.len() + 1,
            r.2@[0] == *old(p),
            r.2@[r.1@.len() as int] == *final(p),
            exists|qs: Seq<&mut P>|
                #![trigger qs.len()]
                qs.len() == r.1@.len() && forall|j: int|
                    #![trigger qs[j]]
                    0 <= j < qs.len() ==> retain_fits(*named, *soft, *hard, strings_of(args@), r.1@[j], qs[j]) && *qs[j]
                        == r.2@[j] && *final(qs[j]) == r.2@[j + 1],
        decreases self.extras().len() - k,
    {
        let ghost xs = strings_of(args@);
        let ghost names = self.names();
        let ghost extras = self.extras();
        let ghost rf = refuse@;
        let ghost cur = MutAt::Extras(at as int, rf, k as int);
        let ghost s0 = *p;
        if k == self.extra.len() {
            let ghost one = seq![*p];
            proof {
                let qs0 = Seq::<&mut P>::empty();
                assert(qs0.len() == 0);
                assert forall|rest: Seq<RetainCall>| #[trigger] (Seq::<RetainCall>::empty() + rest) == rest by {
                    assert(Seq::<RetainCall>::empty() + rest =~= rest);
                }
            }
            return (None, Ghost(Seq::empty()), Ghost(one));
        }
        let (c, took, n): (Ghost<RetainCall>, bool, usize) = match &self.extra[k] {
            ExtraHandler::Soft(id) => {
                let a = args[at].as_str();
                assert(a@ == xs[at as int]);
                let t = call_on_str(soft, *id, p, a);
                proof {
                    let q0 = choose|q: &mut P| #![trigger soft.ensures((*id, q, a), t)] *q == s0 && *final(q) == *p && soft.ensures((*id, q, a), t);
                    assert(soft.ensures((*id, q0, a), t) && a@ == xs[at as int]);
                    assert(exists|b: &str| b@ == xs[at as int] && #[trigger] soft.ensures((*id, q0, b), t));
                    let cc = RetainCall::Soft(*id, at as int, t);
                    assert(cc matches RetainCall::Soft(i2, a2, t2) && i2 == *id && a2 == at && t2 == t);
                    assert(retain_fits(*named, *soft, *hard, xs, cc, q0) == (exists|b: &str|
                        b@ == xs[at as int] && #[trigger] soft.ensures((*id, q0, b), t)));
                    assert(retain_fits(*named, *soft, *hard, xs, cc, q0));
                    assert(retain_fits(*named, *soft, *hard, xs, RetainCall::Soft(*id, at as int, t), q0));
                }
                let ghost cc = RetainCall::Soft(*id, at as int, t);
                (Ghost(cc), t, at + 1)
            },
            ExtraHandler::Hard(id) => {
                let slice = &args[at..args.len()];
                assert(strings_of(slice@) =~= xs.skip(at as int));
                call_on_slice(hard, *id, p, slice);
                proof {
                    let q0 = choose|q: &mut P| #![trigger hard.ensures((*id, q, slice), ())] *q == s0 && *final(q) == *p && hard.ensures((*id, q, slice), ());
                    assert(retain_fits(*named, *soft, *hard, xs, RetainCall::Hard(*id, at as int), q0));
                }
                (Ghost(RetainCall::Hard(*id, at as int)), true, args.len())
            },
        };
        let ghost s1 = *p;
        let ghost cs1 = seq![c@];
        let ghost ps1 = seq![s0, s1];
        proof {
            let q0 = choose|q: &mut P| #![trigger retain_fits(*named, *soft, *hard, xs, c@, q)] *q == s0 && *final(q) == s1 && retain_fits(*named, *soft, *hard, xs, c@, q);
            let qs1 = seq![q0];
            assert(qs1[0] == q0 && cs1[0] == c@ && ps1[0] == s0 && ps1[1] == s1);
            assert(qs1.len() == cs1.len() && forall|j: int|
                #![trigger qs1[j]]
                0 <= j < qs1.len() ==> retain_fits(*named, *soft, *hard, xs, cs1[j], qs1[j]) && *qs1[j] == ps1[j]
                    && *final(qs1[j]) == ps1[j + 1]);
            assert forall|rest: Seq<RetainCall>| (#[trigger] (seq![c@] + rest)).drop_first() == rest by {
                assert((seq![c@] + rest).drop_first() =~= rest);
            }
        }
        if took {
            return (Some(n), Ghost(cs1), Ghost(ps1));
        }
        let (r2, Ghost(calls2), Ghost(ps2)) = self.retain_extras(args, at, refuse, k + 1, p, named, soft, hard);
        let ghost calls = seq![c@] + calls2;
        let ghost ps = seq![s0] + ps2;
        proof {
            assert(ps2[0] == s1);
            let q0 = choose|q: &mut P| #![trigger retain_fits(*named, *soft, *hard, xs, c@, q)] *q == s0 && *final(q) == s1 && retain_fits(*named, *soft, *hard, xs, c@, q);
            let qs2 = choose|qs: Seq<&mut P>|
                #![trigger qs.len()]
                qs.len() == calls2.len() && forall|j: int|
                    #![trigger qs[j]]
                    0 <= j < qs.len() ==> retain_fits(*named, *soft, *hard, strings_of(args@), calls2[j], qs[j]) && *qs[j]
                        == ps2[j] && *final(qs[j]) == ps2[j + 1];
            let qs = seq![q0] + qs2;
            assert forall|j: int| #![trigger qs[j]] 0 <= j < qs.len() implies retain_fits(*named, *soft, *hard, xs, calls[j], qs[j])
                && *qs[j] == ps[j] && *final(qs[j]) == ps[j + 1] by {
                if j == 0 {
                    assert(qs[0] == q0 && calls[0] == c@ && ps[0] == s0 && ps[1] == s1);
                } else {
                    assert(qs[j] == qs2[j - 1] && calls[j] == calls2[j - 1] && ps[j] == ps2[j - 1] && ps[j + 1] == ps2[j]);
                }
            }
            assert(qs.len() == calls.len());
            assert forall|rest: Seq<RetainCall>| #[trigger] retain_run(names, extras, xs, cur, calls + rest)
                == retain_run(names, extras, xs, MutAt::Extras(at as int, rf, k + 1), calls2 + rest) by {
                assert(calls + rest =~= seq![c@] + (calls2 + rest));
            }
        }
        (r2, Ghost(calls), Ghost(ps))
    }

    /// The run of `parse_retain` from the argument at `at`: the positions
    /// of the arguments that stay or the error, the calls made and the
    /// states `p` went through.
    fn retain_from<P, N, S, H>(
        &self,
        args: &[String],
        at: usize,
        refuse: bool,
        p: &mut P,
        named: &N,
        soft: &S,
        hard: &H,
    ) -> (r: (Result<Vec<usize>, RetainError>, Ghost<Seq<RetainCall>>, Ghost<Seq<P>>)) where
        N: Fn(usize, &mut P, &[String]),
        S: Fn(usize, &mut P, &str) -> bool,
        H: Fn(usize, &mut P, &[String]),

        requires
            at <= args@.len(),
            forall|i: usize, q: &mut P, a: &[String]| named.requires((i, q, a)),
            forall|i: usize, q: &mut P, a: &str| soft.requires((i, q, a)),
            forall|i: usize, q: &mut P, a: &[String]| hard.requires((i, q, a)),
        ensures
            retain_run(self.names(), self.extras(), strings_of(args@), MutAt::Main(at as int, refuse), r.1@) == Some(
                match r.0 {
                    Ok(v) => RetainEnd::Kept(positions(v@)),
                    Err(RetainError::UnknownOption(n)) => RetainEnd::Unknown(n@),
                    Err(RetainError::MissingArguments(a)) => RetainEnd::Missing(a@),
                },
            ),
            r.0 matches Ok(v) ==> increasing_in(positions(v@), args@.len() as int) && forall|i: int|
                0 <= i < v@.len() ==> at <= #[trigger] v@[i],
            r.2@.len() == r.1@.len() + 1,
            r.2@[0] == *old(p),
            r.2@[r.1@.len() as int] == *final(p),
            exists|qs: Seq<&mut P>|
                #![trigger qs.len()]
                qs.len() == r.1@.len() && forall|j: int|
                    #![trigger qs[j]]
                    0 <= j < qs.len() ==> retain_fits(*named, *soft, *hard, strings_of(args@), r.1@[j], qs[j]) && *qs[j]
                        == r.2@[j] && *final(qs[j]) == r.2@[j + 1],
        decreases args@.len() - at,
    {
        let ghost xs = strings_of(args@);
        let ghost names = self.names();
        let ghost extras = self.extras();
        let ghost cur = MutAt::Main(at as int, refuse);
        let ghost s0 = *p;
        let ghost one = seq![*p];
        proof {
            let qs0 = Seq::<&mut P>::empty();
            assert(qs0.len() == 0);
        }
        if at == args.len() {
            let v: Vec<usize> = Vec::new();
            assert(positions(v@) =~= Seq::<int>::empty());
            return (Ok(v), Ghost(Seq::empty()), Ghost(one));
        }
        if !refuse {
            let a = chars_of(args[at].as_str());
            assert(a@ == xs[at as int]);
            if a.len() == 2 && a[0] == '-' && a[1] == '-' {
                assert(a@ =~= seq!['-', '-']);
                return self.retain_from(args, at + 1, true, p, named, soft, hard);
            }
            assert(a@.len() == 2 && a@[0] == '-' && a@[1] == '-' ==> a@ =~= seq!['-', '-']);
            assert(xs[at as int] != seq!['-', '-']);
            if let Some(name) = name_from_arg(args[at].as_str()) {
                match self.named.get_exact(name.as_str()) {
                    None => {
                        return (Err(RetainError::UnknownOption(name)), Ghost(Seq::empty()), Ghost(one));
                    },
                    Some(e) => {
                        let argct: usize = e.1;
                        if argct > args.len() - at - 1 {
                            return (Err(RetainError::MissingArguments(args[at].clone())), Ghost(Seq::empty()), Ghost(one));
                        }
                        let end: usize = at + 1 + argct;
                        let slice = &args[at + 1..end];
                        assert(strings_of(slice@) =~= xs.subrange(at + 1, end as int));
                        call_on_slice(named, e.2, p, slice);
                        let ghost c = RetainCall::Named(e.2, at + 1, end as int);
                        let ghost s1 = *p;
                        proof {
                            let q0 = choose|q: &mut P|
                                #![trigger named.ensures((e.2, q, slice), ())]
                                *q == s0 && *final(q) == s1 && named.ensures((e.2, q, slice), ());
                            assert(retain_fits(*named, *soft, *hard, xs, c, q0));
                        }
                        let (r2, Ghost(calls2), Ghost(ps2)) = self.retain_from(args, end, false, p, named, soft, hard);
                        let ghost calls = seq![c] + calls2;
                        let ghost ps = seq![s0] + ps2;
                        proof {
                            assert(calls.drop_first() =~= calls2);
                            assert(calls[0] == c);
                            assert(ps2[0] == s1);
                            let q0 = choose|q: &mut P|
                                #![trigger named.ensures((e.2, q, slice), ())]
                                *q == s0 && *final(q) == s1 && named.ensures((e.2, q, slice), ());
                            let qs2 = choose|qs: Seq<&mut P>|
                                #![trigger qs.len()]
                                qs.len() == calls2.len() && forall|j: int|
                                    #![trigger qs[j]]
                                    0 <= j < qs.len() ==> retain_fits(*named, *soft, *hard, strings_of(args@), calls2[j], qs[j])
                                        && *qs[j] == ps2[j] && *final(qs[j]) == ps2[j + 1];
                            let qs = seq![q0] + qs2;
                            assert forall|j: int| #![trigger qs[j]] 0 <= j < qs.len() implies retain_fits(*named, *soft, *hard, xs, calls[j], qs[j])
                                && *qs[j] == ps[j] && *final(qs[j]) == ps[j + 1] by {
                                if j == 0 {
                                    assert(qs[0] == q0 && calls[0] == c && ps[0] == s0 && ps[1] == s1);
                                } else {
                                    assert(qs[j] == qs2[j - 1] && calls[j] == calls2[j - 1] && ps[j] == ps2[j - 1] && ps[j + 1] == ps2[j]);
                                }
                            }
                            assert(qs.len() == calls.len());
                        }
                        return (r2, Ghost(calls), Ghost(ps));
                    },
                }
            }
        }
        let (ex, Ghost(calls1), Ghost(ps1)) = self.retain_extras(args, at, Ghost(refuse), 0, p, named, soft, hard);
        let ghost s1 = *p;
        let ghost ex_at = MutAt::Extras(at as int, refuse, 0);
        assert forall|calls: Seq<RetainCall>| #[trigger] retain_run(names, extras, xs, cur, calls) == retain_run(
            names,
            extras,
            xs,
            ex_at,
            calls,
        ) by {}
        let next: usize = match ex {
            Some(n) => n,
            None => at + 1,
        };
        let (r2, Ghost(calls2), Ghost(ps2)) = self.retain_from(args, next, refuse, p, named, soft, hard);
        let ghost calls = calls1 + calls2;
        let ghost ps = ps1 + ps2.drop_first();
        proof {
            assert(ps1[calls1.len() as int] == s1 && ps2[0] == s1);
            let qa = choose|qs: Seq<&mut P>|
                #![trigger qs.len()]
                qs.len() == calls1.len() && forall|j: int|
                    #![trigger qs[j]]
                    0 <= j < qs.len() ==> retain_fits(*named, *soft, *hard, strings_of(args@), calls1[j], qs[j]) && *qs[j]
                        == ps1[j] && *final(qs[j]) == ps1[j + 1];
            let qb = choose|qs: Seq<&mut P>|
                #![trigger qs.len()]
                qs.len() == calls2.len() && forall|j: int|
                    #![trigger qs[j]]
                    0 <= j < qs.len() ==> retain_fits(*named, *soft, *hard, strings_of(args@), calls2[j], qs[j]) && *qs[j]
                        == ps2[j] && *final(qs[j]) == ps2[j + 1];
            let qs = qa + qb;
            assert forall|j: int| #![trigger qs[j]] 0 <= j < qs.len() implies retain_fits(*named, *soft, *hard, xs, calls[j], qs[j])
                && *qs[j] == ps[j] && *final(qs[j]) == ps[j + 1] by {
                if j < calls1.len() {
                    assert(qs[j] == qa[j] && calls[j] == calls1[j] && ps[j] == ps1[j] && ps[j + 1] == ps1[j + 1]);
                } else {
                    let jj: int = j - calls1.len();
                    assert(qs[j] == qb[jj] && calls[j] == calls2[jj] && ps[j] == ps2[jj] && ps[j + 1] == ps2[jj + 1]);
                }
            }
            assert(qs.len() == calls.len());
            assert(retain_run(names, extras, xs, ex_at, calls1 + calls2) == match ex {
                Some(n) => retain_run(names, extras, xs, MutAt::Main(n as int, refuse), calls2),
                None => retain_run(names, extras, xs, MutAt::Extras(at as int, refuse, extras.len() as int), calls2),
            });
        }
        match (ex, r2) {
            (None, Ok(v)) => {
                let mut out: Vec<usize> = Vec::new();
                out.push(at);
                let mut rest = v;
                let ghost vv = rest@;
                out.append(&mut rest);
                proof {
                    assert(out@ =~= seq![at] + vv);
                    assert(positions(out@) =~= seq![at as int] + positions(vv));
                    assert forall|a: int, b: int| 0 <= a < b < positions(out@).len() implies positions(out@)[a] < positions(out@)[b] by {
                        if a > 0 {
                            assert(positions(out@)[a] == positions(vv)[a - 1]);
                        } else {
                            assert(vv[b - 1] >= at + 1);
                        }
                        assert(positions(out@)[b] == positions(vv)[b - 1]);
                    }
                    assert forall|i: int| 0 <= i < out@.len() implies at <= #[trigger] out@[i] by {
                        if i > 0 {
                            assert(out@[i] == vv[i - 1]);
                        }
                    }
                    assert forall|a: int| 0 <= a < positions(out@).len() implies 0 <= #[trigger] positions(out@)[a] < args@.len() by {
                        if a > 0 {
                            assert(positions(out@)[a] == positions(vv)[a - 1]);
                        }
                    }
                }
                (Ok(out), Ghost(calls), Ghost(ps))
            },
            (_, r2) => {
                (r2, Ghost(calls), Ghost(ps))
            },
        }
    }

    /// Parses `args` into `p` with options named in full, leaving in
    /// `args`, in their order, the arguments that no handler took: each
    /// option goes with its operands, and so does the first `--`, after
    /// which no argument is an option; an argument that no extra handler
    /// takes stays. Fails on an argument that names no option, or an option
    /// short of arguments, and then leaves `args` as it was. The handlers'
    /// calls are those `retain_run` accepts, made once each and in that
    /// order, each on the state the one before it left: `p` starts the
    /// chain and ends as the last call left it.
    pub fn parse_retain<P, N, S, H>(&self, args: &mut Vec<String>, p: &mut P, named: &N, soft: &S, hard: &H) -> (r:
        Result<(), RetainError>) where
        N: Fn(usize, &mut P, &[String]),
        S: Fn(usize, &mut P, &str) -> bool,
        H: Fn(usize, &mut P, &[String]),

        requires
            forall|i: usize, q: &mut P, a: &[String]| named.requires((i, q, a)),
            forall|i: usize, q: &mut P, a: &str| soft.requires((i, q, a)),
            forall|i: usize, q: &mut P, a: &[String]| hard.requires((i, q, a)),
        ensures
            old(args)@.len() == 0 ==> r is Ok && final(args)@.len() == 0 && *final(p) == *old(p),
            r is Err ==> final(args)@ == old(args)@,
            exists|calls: Seq<RetainCall>, ps: Seq<P>, qs: Seq<&mut P>, ks: Seq<int>|
                #![trigger retain_run(self.names(), self.extras(), strings_of(old(args)@), MutAt::Main(0, false), calls), ps.len(), qs.len(), ks.len()]
                retain_run(self.names(), self.extras(), strings_of(old(args)@), MutAt::Main(0, false), calls) == Some(
                    retain_end(r, ks),
                ) && (r is Ok ==> increasing_in(ks, old(args)@.len() as int) && strings_of(final(args)@) == picked(
                    old(args)@,
                    ks,
                )) && ps.len() == calls.len() + 1 && ps[0] == *old(p) && ps[calls.len() as int] == *final(p)
                    && qs.len() == calls.len() && forall|j: int|
                    #![trigger qs[j]]
                    0 <= j < qs.len() ==> retain_fits(*named, *soft, *hard, strings_of(old(args)@), calls[j], qs[j])
                        && *qs[j] == ps[j] && *final(qs[j]) == ps[j + 1],
    {
        let ghost orig = args@;
        let (res, Ghost(calls), Ghost(ps)) = self.retain_from(args.as_slice(), 0, false, p, named, soft, hard);
        match res {
            Err(e) => {
                let ghost ks = Seq::<int>::empty();
                assert(ks.len() == 0);
                Err(e)
            },
            Ok(kept) => {
                keep_only(args, &kept);
                let ghost ks = positions(kept@);
                proof {
                    assert(ks.len() == kept@.len());
                    assert(strings_of(args@) =~= picked(orig, ks));
                }
                Ok(())
            },
        }
    }
}

/// An option given by its full name is that option, even where longer
/// names begin with it; it takes the arguments that follow it.
pub proof fn law_full_name_selects(parser: OptParser, args: Seq<Seq<char>>, at: int, name: Seq<char>)
    requires
        parser.wf(),
        parser.names()@.contains_key(name),
        name.len() > 0,
        0 <= at < args.len(),
        args[at] == seq!['-', '-'] + name,
        at + 1 + parser.names()@[name].1 <= args.len(),
    ensures
        step_of(parser.names(), args, at, false) == StepView::Named(
            parser.names()@[name].2,
            at + 1,
            at + 1 + parser.names()@[name].1,
        ),
{
    crate::trie::law_get_matches(parser.names(), name);
    assert(args[at].skip(2) =~= name);
    assert(args[at] != seq!['-', '-']) by {
        assert(args[at].len() > 2);
    }
    assert(parser.names().lookup(name) =~= seq![parser.names()@[name]]);
}

} // verus!
