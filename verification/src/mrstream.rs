//! The multi-regex stream: lines go through a `MultiRegex`, and the
//! records it hands on, and the starts of files, go to a writer until the
//! writer refuses one.

use crate::json::JsonView;
use crate::multire::{flush_out, line_events, line_step, MultiRegex};
use crate::record::Record;
use crate::stream::Entry;
use std::sync::Arc;
use vstd::prelude::*;

verus! {

/// An entry handed to the writer, as the contracts see it.
pub enum Sent {
    Record(JsonView),
    Bof(Seq<char>),
}

/// A writer in the state `f`, handed an entry that `s` describes, may
/// answer `b`.
pub open spec fn sent_answered<W: FnMut(Entry) -> bool>(f: W, s: Sent, b: bool) -> bool {
    match s {
        Sent::Record(v) => exists|x: Record| x@ == v && #[trigger] call_ensures(f, (Entry::Record(x),), b),
        Sent::Bof(t) => exists|x: Arc<str>| x@ == t && #[trigger] call_ensures(f, (Entry::Bof(x),), b),
    }
}

/// The writer was handed `want` in order, one call each, up to the first
/// entry it refused: call `j` found it in the state `ws[j]`, answered
/// `rs[j]` and left it in the state `ws[j + 1]`; `r` says whether it took
/// them all.
pub open spec fn sent_all<W: FnMut(Entry) -> bool>(want: Seq<Sent>, rs: Seq<bool>, ws: Seq<W>, r: bool) -> bool {
    &&& rs.len() <= want.len()
    &&& ws.len() == rs.len() + 1
    &&& forall|j: int| 0 <= j < rs.len() ==> sent_answered::<W>(ws[j], want[j], #[trigger] rs[j])
    &&& forall|j: int| 0 <= j < rs.len() - 1 ==> #[trigger] rs[j]
    &&& rs.len() < want.len() ==> rs.len() > 0 && !rs.last()
    &&& r == (rs.len() == want.len() && (rs.len() == 0 || rs.last()))
}

pub open spec fn rec_views(v: Seq<Record>) -> Seq<JsonView> {
    v.map_values(|x: Record| x@)
}

/// What the start of a file sends: the record flushed first unless
/// clobbering, then the start itself.
pub open spec fn bof_sent(clobber: bool, r: JsonView, f: Seq<char>) -> Seq<Sent> {
    records_sent(if clobber { Seq::empty() } else { flush_out(r) }).push(Sent::Bof(f))
}

pub open spec fn records_sent(v: Seq<JsonView>) -> Seq<Sent> {
    v.map_values(|x: JsonView| Sent::Record(x))
}

/// Hands `rs` to `w` in order, stopping at the first it refuses.
fn send_records<W: FnMut(Entry) -> bool>(rs: Vec<Record>, w: &mut W) -> (r: bool)
    requires
        forall|f: W, e: Entry| call_requires(f, (e,)),
    ensures
        exists|bs: Seq<bool>, ws: Seq<W>|
            #[trigger] sent_all::<W>(records_sent(rec_views(rs@)), bs, ws, r) && ws[0] == *old(w) && ws[bs.len() as int]
                == *final(w),
{
    let ghost want = records_sent(rec_views(rs@));
    let ghost mut bs: Seq<bool> = Seq::empty();
    let ghost mut ws: Seq<W> = seq![*w];
    let n = rs.len();
    let mut rest = rs;
    let ghost all = rest@;
    let mut i: usize = 0;
    let mut v: Vec<Record> = Vec::new();
    // hand them out front to back
    while rest.len() > 0
        invariant
            v@.len() + rest@.len() == all.len(),
            forall|k: int| 0 <= k < v@.len() ==> #[trigger] v@[k] == all[all.len() - 1 - k],
            forall|k: int| 0 <= k < rest@.len() ==> #[trigger] rest@[k] == all[k],
        decreases rest@.len(),
    {
        let x = rest.pop().unwrap();
        v.push(x);
    }
    assert(want.len() == all.len());
    while v.len() > 0
        invariant
            want == records_sent(rec_views(all)),
            all == rs@,
            all.len() == n,
            forall|f: W, e: Entry| call_requires(f, (e,)),
            i + v@.len() == all.len(),
            forall|k: int| 0 <= k < v@.len() ==> #[trigger] v@[k] == all[all.len() - 1 - k],
            bs.len() == i,
            ws.len() == i + 1,
            ws[0] == *old(w),
            ws[i as int] == *w,
            forall|j: int| 0 <= j < bs.len() ==> sent_answered::<W>(ws[j], want[j], #[trigger] bs[j]),
            forall|j: int| 0 <= j < bs.len() ==> #[trigger] bs[j],
        decreases v@.len(),
    {
        let x = v.pop().unwrap();
        let ghost xv = x@;
        assert(want[i as int] == Sent::Record(xv));
        let ghost w0 = *w;
        let b = w(Entry::Record(x));
        proof {
            assert(sent_answered::<W>(w0, want[i as int], b));
            bs = bs.push(b);
            ws = ws.push(*w);
            assert(ws[i as int] == w0);
        }
        if !b {
            assert(sent_all::<W>(want, bs, ws, false));
            return false;
        }
        i = i + 1;
    }
    assert(sent_all::<W>(want, bs, ws, true));
    true
}

/// Takes one entry: a line goes through the regexes and each record handed
/// on goes to `w` at once, the line stopping at the first one refused; the
/// start of a file flushes (unless clobbering), then goes to `w` itself. A
/// record entry is not expected. Answers whether `w` took everything.
pub fn multire_write<W: FnMut(Entry) -> bool>(m: &mut MultiRegex, e: Entry, w: &mut W) -> (r: bool)
    requires
        old(m).wf(),
        !(e is Record),
        forall|f: W, x: Entry| call_requires(f, (x,)),
    ensures
        final(m).wf(),
        match e {
            Entry::Line(l) => {
                let st = line_step(
                    old(m).record(),
                    old(m).res(),
                    old(m).res().len() as int,
                    l@,
                    old(m).clobber(),
                    old(m).keep(),
                    old(m).keep_all(),
                );
                let ev = line_events(
                    old(m).record(),
                    old(m).res(),
                    old(m).res().len() as int,
                    l@,
                    old(m).clobber(),
                    old(m).keep(),
                    old(m).keep_all(),
                );
                exists|bs: Seq<bool>, ws: Seq<W>|
                    #[trigger] sent_all::<W>(records_sent(st.0), bs, ws, r) && ws[0] == *old(w) && ws[bs.len() as int]
                        == *final(w) && final(m).record() == if r {
                        st.1
                    } else {
                        ev[bs.len() - 1]
                    }
            },
            Entry::Bof(f) => {
                &&& final(m).record() == JsonView::Hash(Seq::empty())
                &&& exists|bs: Seq<bool>, ws: Seq<W>|
                    #[trigger] sent_all::<W>(bof_sent(old(m).clobber(), old(m).record(), f@), bs, ws, r) && ws[0] == *old(w)
                        && ws[bs.len() as int] == *final(w)
            },
            Entry::Record(_) => true,
        },
{
    match e {
        Entry::Line(l) => m.on_line_write(&*l, w),
        Entry::Bof(f) => {
            let out = m.on_bof();
            assert(rec_views(out@) =~= out@.map_values(|x: Record| x@));
            let ghost want = records_sent(rec_views(out@));
            assert(want.push(Sent::Bof(f@)) == bof_sent(old(m).clobber(), old(m).record(), f@));
            let ghost w_start = *w;
            let ok = send_records(out, w);
            if !ok {
                proof {
                    let (bs, ws) = choose|bs: Seq<bool>, ws: Seq<W>|
                        sent_all::<W>(want, bs, ws, false) && ws[0] == w_start && ws[bs.len() as int] == *w;
                    assert(sent_all::<W>(want.push(Sent::Bof(f@)), bs, ws, false));
                }
                return false;
            }
            let ghost gf = f;
            assert(e == Entry::Bof(gf));
            let ghost w1 = *w;
            let b = w(Entry::Bof(f));
            proof {
                let (bs, ws) = choose|bs: Seq<bool>, ws: Seq<W>|
                    sent_all::<W>(want, bs, ws, true) && ws[0] == w_start && ws[bs.len() as int] == w1;
                let bs2 = bs.push(b);
                let ws2 = ws.push(*w);
                assert(sent_answered::<W>(w1, Sent::Bof(gf@), b));
                assert(ws2[bs.len() as int] == w1);
                assert(sent_all::<W>(want.push(Sent::Bof(gf@)), bs2, ws2, b));
            }
            b
        },
        Entry::Record(_) => vstd::pervasive::unreached(),
    }
}

} // verus!
