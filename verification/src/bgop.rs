//! The two queues between a front end and a back end that run apart: lines
//! go to the back end, results come back, either side can stop reading, and
//! `None` in a queue marks its end. Each method here is one atomic step;
//! whoever shares the buffers runs each step under a lock, waits while a
//! step answers "not ready" (`None`), and wakes the other side when a step
//! says so (the `bool`).

use vstd::prelude::*;
use vstd::pervasive::cloned;
use std::collections::VecDeque;

verus! {

/// How many entries a queue takes before a writer has to wait.
pub const BUFFER_LIMIT: usize = 1024;

struct OneBuffer<E> {
    buf: VecDeque<Option<E>>,
    rclosed: bool,
}

impl<E> OneBuffer<E> {
    fn new() -> (b: OneBuffer<E>)
        ensures
            b.buf@ == Seq::<Option<E>>::empty(),
            !b.rclosed,
    {
        OneBuffer { buf: VecDeque::new(), rclosed: false }
    }
}

/// The buffers between a front end and a background back end.
pub struct BackgroundOp<E> {
    os_closed: bool,
    fe_to_be: OneBuffer<E>,
    be_to_fe: OneBuffer<E>,
}

/// What the buffers hold.
pub struct BgState<E> {
    /// The back end's end marker has reached the front end.
    pub os_closed: bool,
    /// Entries waiting for the back end.
    pub to_be: Seq<Option<E>>,
    /// The back end reads no more.
    pub be_rclosed: bool,
    /// Entries waiting for the front end.
    pub to_fe: Seq<Option<E>>,
    /// The front end reads no more.
    pub fe_rclosed: bool,
}

impl<E> View for BackgroundOp<E> {
    type V = BgState<E>;

    closed spec fn view(&self) -> BgState<E> {
        BgState {
            os_closed: self.os_closed,
            to_be: self.fe_to_be.buf@,
            be_rclosed: self.fe_to_be.rclosed,
            to_fe: self.be_to_fe.buf@,
            fe_rclosed: self.be_to_fe.rclosed,
        }
    }
}

/// Whether `s` holds an end marker.
pub open spec fn has_end<E>(s: Seq<Option<E>>) -> bool {
    exists|i: int| 0 <= i < s.len() && s[i] is None
}

/// What a front-end step answers: the entries handed over, that the step
/// is over, or not yet.
pub enum StepOut<E> {
    Handed(Seq<Option<E>>),
    Over,
    NotYet,
}

pub open spec fn out_view<E>(r: Option<Option<Vec<Option<E>>>>) -> StepOut<E> {
    match r {
        Some(Some(es)) => StepOut::Handed(es@),
        Some(None) => StepOut::Over,
        None => StepOut::NotYet,
    }
}

/// The buffers once everything waiting for the front end is taken.
pub open spec fn drained<E>(s: BgState<E>) -> BgState<E> {
    BgState { to_fe: Seq::empty(), os_closed: s.os_closed || has_end(s.to_fe), ..s }
}

/// A step of the front end writing, `x` being its copy of the line.
pub open spec fn write_step<E>(s: BgState<E>, x: E) -> (StepOut<E>, bool, BgState<E>) {
    if s.to_fe.len() > 0 {
        (StepOut::Handed(s.to_fe), true, drained(s))
    } else if s.be_rclosed {
        (StepOut::Over, false, s)
    } else if s.to_be.len() < BUFFER_LIMIT {
        (StepOut::Over, true, BgState { to_be: s.to_be.push(Some(x)), ..s })
    } else {
        (StepOut::NotYet, false, s)
    }
}

/// A step of the front end waiting for the back end to finish.
pub open spec fn close_step<E>(s: BgState<E>) -> (StepOut<E>, bool, BgState<E>) {
    if s.to_fe.len() > 0 {
        (StepOut::Handed(s.to_fe), true, drained(s))
    } else if s.os_closed {
        (StepOut::Over, false, s)
    } else {
        (StepOut::NotYet, false, s)
    }
}

/// Once the back end's end marker is the last thing waiting, the front
/// end's wait hands over everything the back end wrote, the marker last,
/// and the next step finishes.
pub proof fn law_close_delivers_all<E>(s: BgState<E>)
    requires
        s.to_fe.len() > 0,
        s.to_fe.last() is None,
    ensures
        close_step(s).0 == StepOut::Handed(s.to_fe),
        close_step(close_step(s).2).0 == StepOut::<E>::Over,
        close_step(close_step(s).2).2 == close_step(s).2,
{
    assert(has_end(s.to_fe)) by {
        assert(s.to_fe[s.to_fe.len() - 1] is None);
    }
}

/// A write first hands over what waits for the front end without queueing
/// its line; the next step then queues the line, once, and the write is
/// over, as long as the back end still reads and there is room.
pub proof fn law_write_hands_over_then_queues<E>(s: BgState<E>, x: E)
    requires
        s.to_fe.len() > 0,
        !s.be_rclosed,
        s.to_be.len() < BUFFER_LIMIT,
    ensures
        write_step(s, x).0 == StepOut::Handed(s.to_fe),
        write_step(s, x).2.to_be == s.to_be,
        write_step(write_step(s, x).2, x).0 == StepOut::<E>::Over,
        write_step(write_step(s, x).2, x).2.to_be == s.to_be.push(Some(x)),
        write_step(write_step(s, x).2, x).2.to_fe.len() == 0,
{
}

/// One step on the buffers, by either side; a step that queues an entry
/// carries the copy it queues.
pub enum BgStep<E> {
    BeReadLine,
    BeRclose,
    BeWriteLine(E),
    BeClose,
    FeWriteLine(E),
    FeRclose,
    FeClose,
    FeCloseStep,
}

/// The buffers after the step `st` from `s`.
pub open spec fn bg_step<E>(s: BgState<E>, st: BgStep<E>) -> BgState<E> {
    match st {
        BgStep::BeReadLine => if s.to_be.len() > 0 {
            BgState { to_be: s.to_be.drop_first(), ..s }
        } else {
            s
        },
        BgStep::BeRclose => BgState { to_be: Seq::empty(), be_rclosed: true, ..s },
        BgStep::BeWriteLine(x) => if !s.fe_rclosed && s.to_fe.len() < BUFFER_LIMIT {
            BgState { to_fe: s.to_fe.push(Some(x)), ..s }
        } else {
            s
        },
        BgStep::BeClose => BgState { to_fe: s.to_fe.push(None), ..s },
        BgStep::FeWriteLine(x) => write_step(s, x).2,
        BgStep::FeRclose => BgState { to_fe: Seq::empty(), fe_rclosed: true, ..s },
        BgStep::FeClose => BgState { to_be: s.to_be.push(None), ..s },
        BgStep::FeCloseStep => close_step(s).2,
    }
}

/// The buffers after the steps `sts` from `s`, in order.
pub open spec fn bg_run<E>(s: BgState<E>, sts: Seq<BgStep<E>>) -> BgState<E>
    decreases sts.len(),
{
    if sts.len() == 0 {
        s
    } else {
        bg_run(bg_step(s, sts[0]), sts.drop_first())
    }
}

/// Whether `sts` holds a step of the back end ceasing to read.
pub open spec fn has_be_rclose<E>(sts: Seq<BgStep<E>>) -> bool {
    exists|i: int| 0 <= i < sts.len() && sts[i] is BeRclose
}

/// Whatever steps are taken, the back end reads no more after them exactly
/// when it read no more before or one of them was it ceasing to read: once
/// set, the mark stays; from fresh buffers it is set just when some step
/// set it.
pub proof fn law_be_rclosed_sticks<E>(s: BgState<E>, sts: Seq<BgStep<E>>)
    ensures
        bg_run(s, sts).be_rclosed == (s.be_rclosed || has_be_rclose(sts)),
    decreases sts.len(),
{
    if sts.len() > 0 {
        let rest = sts.drop_first();
        law_be_rclosed_sticks(bg_step(s, sts[0]), rest);
        assert(bg_step(s, sts[0]).be_rclosed == (s.be_rclosed || sts[0] is BeRclose));
        if has_be_rclose(rest) {
            let i = choose|i: int| 0 <= i < rest.len() && rest[i] is BeRclose;
            assert(sts[i + 1] is BeRclose);
        }
        if has_be_rclose(sts) && !(sts[0] is BeRclose) {
            let i = choose|i: int| 0 <= i < sts.len() && sts[i] is BeRclose;
            assert(rest[i - 1] is BeRclose);
        }
    }
}

/// The attempts of one write of `x`, as the front end made them: attempt
/// `i` found the buffers in the state `ss[i]` (the back end may have acted
/// in between), every attempt but the last left the write going, and the
/// last ended it.
pub open spec fn one_write<E>(ss: Seq<BgState<E>>, x: E) -> bool {
    &&& ss.len() > 0
    &&& forall|i: int| 0 <= i < ss.len() - 1 ==> !(#[trigger] write_step(ss[i], x).0 is Over)
    &&& write_step(ss.last(), x).0 is Over
}

/// Over one write, queue full or not: each attempt that hands entries over
/// hands all that waited for the front end, in order; no attempt but the
/// last queues anything; the last queues the line once when the back end
/// still reads and drops it when it does not, and nothing waits for the
/// front end then.
pub proof fn law_one_write_queues_once<E>(ss: Seq<BgState<E>>, x: E)
    requires
        one_write(ss, x),
    ensures
        forall|i: int|
            0 <= i < ss.len() ==> (#[trigger] write_step(ss[i], x).0 matches StepOut::Handed(es) ==> es == ss[i].to_fe),
        forall|i: int| 0 <= i < ss.len() - 1 ==> (#[trigger] write_step(ss[i], x)).2.to_be == ss[i].to_be,
        ss.last().to_fe.len() == 0,
        write_step(ss.last(), x).2.to_be == if ss.last().be_rclosed {
            ss.last().to_be
        } else {
            ss.last().to_be.push(Some(x))
        },
{
    assert forall|i: int| 0 <= i < ss.len() - 1 implies (#[trigger] write_step(ss[i], x)).2.to_be == ss[i].to_be by {
        assert(!(write_step(ss[i], x).0 is Over));
    }
}

/// What a front-end wait step hands over: the entries, or nothing.
pub open spec fn close_handed<E>(s: BgState<E>) -> Seq<Option<E>> {
    match close_step(s).0 {
        StepOut::Handed(es) => es,
        _ => Seq::empty(),
    }
}

/// Everything the wait steps from the states `ss` hand over, in order.
pub open spec fn all_handed<E>(ss: Seq<BgState<E>>) -> Seq<Option<E>>
    decreases ss.len(),
{
    if ss.len() == 0 {
        Seq::empty()
    } else {
        all_handed(ss.drop_last()) + close_handed(ss.last())
    }
}

/// The sequences of `xs` one after another.
pub open spec fn concat_all<E>(xs: Seq<Seq<Option<E>>>) -> Seq<Option<E>>
    decreases xs.len(),
{
    if xs.len() == 0 {
        Seq::empty()
    } else {
        concat_all(xs.drop_last()) + xs.last()
    }
}

/// The front end's wait after its own end, step by step: step `i` found
/// the buffers in the state `ss[i]`; between steps `i` and `i + 1` the back
/// end added `adds[i]` to what waits for the front end and changed nothing
/// else; every step but the last left the wait going, and the last ended it.
pub open spec fn close_wait<E>(ss: Seq<BgState<E>>, adds: Seq<Seq<Option<E>>>) -> bool {
    &&& ss.len() == adds.len() + 1
    &&& forall|i: int|
        0 <= i < adds.len() ==> !(#[trigger] close_step(ss[i]).0 is Over) && ss[i + 1] == (BgState {
            to_fe: close_step(ss[i]).2.to_fe + adds[i],
            ..close_step(ss[i]).2
        })
    &&& close_step(ss.last()).0 is Over
}

/// Over the whole wait after the front end's end: what waited for the
/// front end at the start and everything the back end added meanwhile is
/// handed over, each once and in the order it came; and, where the back
/// end's end had not come through before, its end marker is among it.
pub proof fn law_close_hands_over_everything<E>(ss: Seq<BgState<E>>, adds: Seq<Seq<Option<E>>>)
    requires
        close_wait(ss, adds),
    ensures
        all_handed(ss) == ss[0].to_fe + concat_all(adds),
        !ss[0].os_closed ==> has_end(all_handed(ss)),
{
    let k: int = adds.len() as int;
    assert forall|m: int| 0 <= m <= k implies {
        &&& all_handed(#[trigger] ss.take(m)) + ss[m].to_fe == ss[0].to_fe + concat_all(adds.take(m))
        &&& ss[m].os_closed ==> ss[0].os_closed || has_end(all_handed(ss.take(m)))
    } by {
        lemma_close_prefix(ss, adds, m);
    }
    let last = ss[k];
    assert(close_step(last).0 is Over);
    assert(last.to_fe.len() == 0);
    assert(ss.take(k + 1) =~= ss);
    assert(ss.take(k + 1).drop_last() =~= ss.take(k));
    assert(adds.take(k) =~= adds);
    assert(close_handed(last) =~= Seq::<Option<E>>::empty());
    assert(all_handed(ss) == all_handed(ss.take(k)) + close_handed(last));
    assert(all_handed(ss) =~= all_handed(ss.take(k)));
    assert(all_handed(ss.take(k)) + last.to_fe =~= all_handed(ss.take(k)));
}

proof fn lemma_close_prefix<E>(ss: Seq<BgState<E>>, adds: Seq<Seq<Option<E>>>, m: int)
    requires
        close_wait(ss, adds),
        0 <= m <= adds.len(),
    ensures
        all_handed(ss.take(m)) + ss[m].to_fe == ss[0].to_fe + concat_all(adds.take(m)),
        ss[m].os_closed ==> ss[0].os_closed || has_end(all_handed(ss.take(m))),
    decreases m,
{
    if m == 0 {
        assert(ss.take(0) =~= Seq::<BgState<E>>::empty());
        assert(adds.take(0) =~= Seq::<Seq<Option<E>>>::empty());
        assert(Seq::<Option<E>>::empty() + ss[0].to_fe =~= ss[0].to_fe);
        assert(ss[0].to_fe + Seq::<Option<E>>::empty() =~= ss[0].to_fe);
    } else {
        let i = m - 1;
        lemma_close_prefix(ss, adds, i);
        let s = ss[i];
        let st = close_step(s);
        assert(!(close_step(ss[i]).0 is Over));
        let h = close_handed(s);
        assert(h + st.2.to_fe =~= s.to_fe);
        assert(ss.take(m).drop_last() =~= ss.take(i));
        assert(ss.take(m).last() == s);
        assert(adds.take(m).drop_last() =~= adds.take(i));
        assert(adds.take(m).last() == adds[i]);
        let pre = all_handed(ss.take(i));
        assert(all_handed(ss.take(m)) == pre + h);
        assert(concat_all(adds.take(m)) == concat_all(adds.take(i)) + adds[i]);
        assert(ss[m].to_fe == st.2.to_fe + adds[i]);
        assert(pre + h + ss[m].to_fe =~= (pre + s.to_fe) + adds[i]);
        assert(ss[0].to_fe + concat_all(adds.take(i)) + adds[i] =~= ss[0].to_fe + (concat_all(adds.take(i)) + adds[i]));
        if ss[m].os_closed && !ss[0].os_closed {
            if s.os_closed {
                if has_end(pre) {
                    let x = choose|x: int| 0 <= x < pre.len() && pre[x] is None;
                    assert((pre + h)[x] is None);
                }
            } else {
                assert(has_end(s.to_fe));
                let x = choose|x: int| 0 <= x < s.to_fe.len() && s.to_fe[x] is None;
                assert(h == s.to_fe);
                assert((pre + h)[pre.len() + x] is None);
            }
        }
    }
}

impl<E: Clone> BackgroundOp<E> {
    pub fn new() -> (b: BackgroundOp<E>)
        ensures
            b@ == (BgState::<E> {
                os_closed: false,
                to_be: Seq::empty(),
                be_rclosed: false,
                to_fe: Seq::empty(),
                fe_rclosed: false,
            }),
    {
        BackgroundOp { os_closed: false, fe_to_be: OneBuffer::new(), be_to_fe: OneBuffer::new() }
    }

    /// The back end takes the next entry for it, if there is one.
    pub fn be_read_line(&mut self) -> (r: (Option<Option<E>>, bool))
        ensures
            old(self)@.be_rclosed ==> final(self)@.be_rclosed,
            old(self)@.fe_rclosed ==> final(self)@.fe_rclosed,
            old(self)@.to_be.len() > 0 ==> r == (Some(old(self)@.to_be[0]), true) && final(self)@
                == (BgState { to_be: old(self)@.to_be.drop_first(), ..old(self)@ }),
            old(self)@.to_be.len() == 0 ==> r == (None::<Option<E>>, false) && final(self)@ == old(self)@,
            final(self)@ == bg_step(old(self)@, BgStep::BeReadLine),
    {
        match self.fe_to_be.buf.pop_front() {
            Some(e) => {
                assert(self.fe_to_be.buf@ =~= old(self)@.to_be.drop_first());
                (Some(e), true)
            },
            None => (None, false),
        }
    }

    /// The back end stops reading: what waits for it is dropped.
    pub fn be_rclose(&mut self)
        ensures
            old(self)@.be_rclosed ==> final(self)@.be_rclosed,
            old(self)@.fe_rclosed ==> final(self)@.fe_rclosed,
            final(self)@ == (BgState { to_be: Seq::empty(), be_rclosed: true, ..old(self)@ }),
            final(self)@ == bg_step(old(self)@, BgStep::BeRclose),
    {
        self.fe_to_be.rclosed = true;
        self.fe_to_be.buf.clear();
    }

    /// The back end hands `e` to the front end: refused for good (`false`)
    /// once the front end reads no more, queued (`true`) while there is
    /// room, otherwise not yet.
    pub fn be_write_line(&mut self, e: &E) -> (r: (Option<bool>, bool))
        ensures
            old(self)@.be_rclosed ==> final(self)@.be_rclosed,
            old(self)@.fe_rclosed ==> final(self)@.fe_rclosed,
            old(self)@.fe_rclosed ==> r == (Some(false), false) && final(self)@ == old(self)@,
            !old(self)@.fe_rclosed && old(self)@.to_fe.len() < BUFFER_LIMIT ==> {
                &&& r == (Some(true), true)
                &&& final(self)@.to_fe.len() == old(self)@.to_fe.len() + 1
                &&& final(self)@.to_fe.drop_last() == old(self)@.to_fe
                &&& final(self)@.to_fe.last() matches Some(x) && cloned(*e, x)
                &&& final(self)@ == (BgState { to_fe: final(self)@.to_fe, ..old(self)@ })
            },
            !old(self)@.fe_rclosed && old(self)@.to_fe.len() >= BUFFER_LIMIT ==> r == (
            None::<bool>, false) && final(self)@ == old(self)@,
            exists|x: E|
                final(self)@ == #[trigger] bg_step(old(self)@, BgStep::BeWriteLine(x)) && (final(self)@ != old(self)@
                    ==> cloned(*e, x)),
    {
        let ghost any = vstd::pervasive::arbitrary::<E>();
        if self.be_to_fe.rclosed {
            assert(self@ == bg_step(old(self)@, BgStep::BeWriteLine(any)));
            return (Some(false), false);
        }
        if self.be_to_fe.buf.len() < BUFFER_LIMIT {
            let x = e.clone();
            let ghost gx = x;
            self.be_to_fe.buf.push_back(Some(x));
            assert(self@.to_fe.drop_last() =~= old(self)@.to_fe);
            assert(self@ == bg_step(old(self)@, BgStep::BeWriteLine(gx)));
            return (Some(true), true);
        }
        assert(self@ == bg_step(old(self)@, BgStep::BeWriteLine(any)));
        (None, false)
    }

    /// The back end is done: its end marker follows what it wrote.
    pub fn be_close(&mut self)
        ensures
            old(self)@.be_rclosed ==> final(self)@.be_rclosed,
            old(self)@.fe_rclosed ==> final(self)@.fe_rclosed,
            final(self)@ == (BgState { to_fe: old(self)@.to_fe.push(None), ..old(self)@ }),
            final(self)@ == bg_step(old(self)@, BgStep::BeClose),
    {
        self.be_to_fe.buf.push_back(None);
    }

    /// Takes everything waiting for the front end; meeting the end marker
    /// records that the back end is done.
    fn drain_to_fe(&mut self) -> (es: Vec<Option<E>>)
        ensures
            es@ == old(self)@.to_fe,
            final(self)@ == (BgState {
                to_fe: Seq::empty(),
                os_closed: old(self)@.os_closed || has_end(old(self)@.to_fe),
                ..old(self)@
            }),
    {
        let mut es: Vec<Option<E>> = Vec::new();
        let ghost all = self.be_to_fe.buf@;
        loop
            invariant
                es@ + self.be_to_fe.buf@ == all,
                all == old(self)@.to_fe,
                self.fe_to_be == old(self).fe_to_be,
                self.be_to_fe.rclosed == old(self).be_to_fe.rclosed,
                self.os_closed == (old(self).os_closed || has_end(es@)),
            decreases self.be_to_fe.buf@.len(),
        {
            let ghost before = self.be_to_fe.buf@;
            match self.be_to_fe.buf.pop_front() {
                Some(e) => {
                    let ghost es0 = es@;
                    if e.is_none() {
                        self.os_closed = true;
                    }
                    es.push(e);
                    proof {
                        assert(es@ + self.be_to_fe.buf@ =~= es0 + before);
                        if has_end(es0) {
                            let i = choose|i: int| 0 <= i < es0.len() && es0[i] is None;
                            assert(es@[i] is None);
                        }
                        if has_end(es@) {
                            let i = choose|i: int| 0 <= i < es@.len() && es@[i] is None;
                            if i < es0.len() {
                                assert(es0[i] is None);
                            }
                        }
                        if e is None {
                            assert(es@[es0.len() as int] is None);
                        }
                    }
                },
                None => {
                    assert(es@ =~= all);
                    assert(self.be_to_fe.buf@ =~= Seq::<Option<E>>::empty());
                    assert(self@.to_fe =~= Seq::<Option<E>>::empty());
                    assert(has_end(es@) == has_end(old(self)@.to_fe));
                    return es;
                },
            }
        }
    }

    /// A step of the front end writing `e`: first anything waiting for the
    /// front end is handed over (and `e` is not taken); else, once the back
    /// end reads no more, the write is over (`Some(None)`); else `e` is
    /// queued if there is room, otherwise not yet.
    pub fn fe_write_line(&mut self, e: &E) -> (r: (Option<Option<Vec<Option<E>>>>, bool))
        ensures
            old(self)@.be_rclosed ==> final(self)@.be_rclosed,
            old(self)@.fe_rclosed ==> final(self)@.fe_rclosed,
            old(self)@.to_fe.len() > 0 ==> {
                &&& r.1
                &&& r.0 matches Some(Some(es)) && es@ == old(self)@.to_fe
                &&& final(self)@ == (BgState {
                    to_fe: Seq::empty(),
                    os_closed: old(self)@.os_closed || has_end(old(self)@.to_fe),
                    ..old(self)@
                })
            },
            old(self)@.to_fe.len() == 0 && old(self)@.be_rclosed ==> (r.0 matches Some(None)) && !r.1
                && final(self)@ == old(self)@,
            old(self)@.to_fe.len() == 0 && !old(self)@.be_rclosed && old(self)@.to_be.len()
                < BUFFER_LIMIT ==> {
                &&& r.0 matches Some(None)
                &&& r.1
                &&& final(self)@.to_be.len() == old(self)@.to_be.len() + 1
                &&& final(self)@.to_be.drop_last() == old(self)@.to_be
                &&& final(self)@.to_be.last() matches Some(x) && cloned(*e, x)
                &&& final(self)@ == (BgState { to_be: final(self)@.to_be, ..old(self)@ })
            },
            old(self)@.to_fe.len() == 0 && !old(self)@.be_rclosed && old(self)@.to_be.len()
                >= BUFFER_LIMIT ==> r.0 is None && !r.1 && final(self)@ == old(self)@,
            exists|x: E|
                (out_view(r.0), r.1, final(self)@) == #[trigger] write_step(old(self)@, x) && (final(self)@.to_be
                    != old(self)@.to_be ==> cloned(*e, x)),
            exists|x: E|
                final(self)@ == #[trigger] bg_step(old(self)@, BgStep::FeWriteLine(x)) && (final(self)@.to_be
                    != old(self)@.to_be ==> cloned(*e, x)),
    {
        let ghost any = vstd::pervasive::arbitrary::<E>();
        if self.be_to_fe.buf.len() > 0 {
            let es = self.drain_to_fe();
            let r = (Some(Some(es)), true);
            assert((out_view(r.0), r.1, self@) == write_step(old(self)@, any));
            assert(self@ == bg_step(old(self)@, BgStep::FeWriteLine(any)));
            return r;
        }
        if self.fe_to_be.rclosed {
            let r = (Some(None), false);
            assert((out_view(r.0), r.1, self@) == write_step(old(self)@, any));
            assert(self@ == bg_step(old(self)@, BgStep::FeWriteLine(any)));
            return r;
        }
        if self.fe_to_be.buf.len() < BUFFER_LIMIT {
            let x = e.clone();
            let ghost gx = x;
            self.fe_to_be.buf.push_back(Some(x));
            assert(self@.to_be.drop_last() =~= old(self)@.to_be);
            let r = (Some(None), true);
            assert((out_view(r.0), r.1, self@) == write_step(old(self)@, gx));
            assert(self@ == bg_step(old(self)@, BgStep::FeWriteLine(gx)));
            return r;
        }
        let r = (None, false);
        assert((out_view(r.0), r.1, self@) == write_step(old(self)@, any));
            assert(self@ == bg_step(old(self)@, BgStep::FeWriteLine(any)));
        r
    }

    /// The front end stops reading: what waits for it is dropped.
    pub fn fe_rclose(&mut self)
        ensures
            old(self)@.be_rclosed ==> final(self)@.be_rclosed,
            old(self)@.fe_rclosed ==> final(self)@.fe_rclosed,
            final(self)@ == (BgState { to_fe: Seq::empty(), fe_rclosed: true, ..old(self)@ }),
            final(self)@ == bg_step(old(self)@, BgStep::FeRclose),
    {
        self.be_to_fe.rclosed = true;
        self.be_to_fe.buf.clear();
    }

    /// Whether the back end reads no more.
    pub fn fe_rclosed(&self) -> (r: bool)
        ensures
            r == self@.be_rclosed,
    {
        self.fe_to_be.rclosed
    }

    /// The front end is done writing: its end marker follows what it wrote.
    pub fn fe_close(&mut self)
        ensures
            old(self)@.be_rclosed ==> final(self)@.be_rclosed,
            old(self)@.fe_rclosed ==> final(self)@.fe_rclosed,
            final(self)@ == (BgState { to_be: old(self)@.to_be.push(None), ..old(self)@ }),
            final(self)@ == bg_step(old(self)@, BgStep::FeClose),
    {
        self.fe_to_be.buf.push_back(None);
    }

    /// A step of the front end waiting, after its own end, for the back end
    /// to finish: anything waiting for the front end is handed over; else
    /// the wait is over once the back end's end marker has come through;
    /// otherwise not yet.
    pub fn fe_close_step(&mut self) -> (r: (Option<Option<Vec<Option<E>>>>, bool))
        ensures
            old(self)@.be_rclosed ==> final(self)@.be_rclosed,
            old(self)@.fe_rclosed ==> final(self)@.fe_rclosed,
            old(self)@.to_fe.len() > 0 ==> {
                &&& r.1
                &&& r.0 matches Some(Some(es)) && es@ == old(self)@.to_fe
                &&& final(self)@ == (BgState {
                    to_fe: Seq::empty(),
                    os_closed: old(self)@.os_closed || has_end(old(self)@.to_fe),
                    ..old(self)@
                })
            },
            old(self)@.to_fe.len() == 0 && old(self)@.os_closed ==> (r.0 matches Some(None)) && !r.1
                && final(self)@ == old(self)@,
            old(self)@.to_fe.len() == 0 && !old(self)@.os_closed ==> r.0 is None && !r.1 && final(self)@ == old(self)@,
            (out_view(r.0), r.1, final(self)@) == close_step(old(self)@),
            final(self)@ == bg_step(old(self)@, BgStep::FeCloseStep),
    {
        if self.be_to_fe.buf.len() > 0 {
            let es = self.drain_to_fe();
            return (Some(Some(es)), true);
        }
        if self.os_closed {
            return (Some(None), false);
        }
        (None, false)
    }
}

} // verus!
