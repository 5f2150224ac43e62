//! Building records from lines with several regexes: each regex that
//! matches a line fills its capture groups in at its keys; a record is
//! handed on ("flushed") when a regex asks for it before or after its match,
//! when a match would overwrite a value already filled in, at the start of
//! a new file and at the end.

use crate::json::{as_hash, path_get, path_set, JsonView};
use crate::path::{path_of, path_text_valid, Step};
use crate::mrstream::{records_sent, sent_all, sent_answered, Sent};
use crate::record::Record;
use crate::stream::Entry;
use crate::regexes::{compile_regex, groups_view, regex_accepts, regex_captures, regex_groups, CompiledRegex};
use crate::text::{chars_of, split_char, split_chars, string_from_chars};
use vstd::prelude::*;

verus! {

/// A path whose first step is a key: setting it keeps a hash a hash.
pub open spec fn hash_path(s: Seq<char>) -> bool {
    &&& path_text_valid(s)
    &&& path_of(s).len() > 0
    &&& path_of(s)[0] is Key
}

/// What stays of `r` after a flush: an empty hash with each kept path that
/// `r` has set to what `r` has there, in the order given.
pub open spec fn kept(r: JsonView, keep: Seq<Seq<char>>) -> JsonView
    decreases keep.len(),
{
    if keep.len() == 0 {
        JsonView::Hash(Seq::empty())
    } else {
        let acc = kept(r, keep.drop_last());
        let p = path_of(keep.last());
        match path_get(r, p) {
            Some(v) => path_set(acc, p, v),
            None => acc,
        }
    }
}

/// What a flush hands on: the record, unless it is empty.
pub open spec fn flush_out(r: JsonView) -> Seq<JsonView> {
    if as_hash(r).len() > 0 {
        seq![r]
    } else {
        Seq::empty()
    }
}

/// The record after a flush.
pub open spec fn after_flush(r: JsonView, keep: Seq<Seq<char>>, keep_all: bool) -> JsonView {
    if keep_all {
        r
    } else {
        kept(r, keep)
    }
}

/// Whether a match must flush before it fills its groups in: the regex
/// asks for it, or (unless clobbering) a group that matched would land on
/// a path the record already has.
pub open spec fn forces_flush(
    r: JsonView,
    keys: Seq<Seq<char>>,
    groups: Seq<Option<Seq<char>>>,
    pre: bool,
    clobber: bool,
) -> bool {
    pre || (!clobber && exists|j: int|
        0 <= j < keys.len() && j < groups.len() && groups[j] is Some && #[trigger] path_get(
            r,
            path_of(keys[j]),
        ) is Some)
}

/// `r` with the first `n` groups that matched set, as strings, at their
/// keys.
pub open spec fn fill_upto(r: JsonView, keys: Seq<Seq<char>>, groups: Seq<Option<Seq<char>>>, n: int) -> JsonView
    decreases n,
{
    if n <= 0 {
        r
    } else {
        let acc = fill_upto(r, keys, groups, n - 1);
        match groups[n - 1] {
            Some(m) => path_set(acc, path_of(keys[n - 1]), JsonView::Str(m)),
            None => acc,
        }
    }
}

pub open spec fn pair_count(a: int, b: int) -> int {
    if a < b {
        a
    } else {
        b
    }
}

/// A regex with its keys and whether it flushes before and after a match.
pub struct ReSpec {
    pub pre_flush: bool,
    pub post_flush: bool,
    pub keys: Vec<String>,
    pub re: CompiledRegex,
}

/// What a `ReSpec` says.
pub type ReView = (bool, bool, Seq<Seq<char>>, Seq<char>);

pub open spec fn re_view(s: ReSpec) -> ReView {
    (s.pre_flush, s.post_flush, s.keys@.map_values(|k: String| k@), s.re.pattern())
}

/// One regex applied to a line: the records handed on and the record
/// after.
pub open spec fn re_step(
    r: JsonView,
    re: ReView,
    line: Seq<char>,
    clobber: bool,
    keep: Seq<Seq<char>>,
    keep_all: bool,
) -> (Seq<JsonView>, JsonView) {
    match regex_groups(re.3, line) {
        None => (Seq::empty(), r),
        Some(gs) => {
            let pre = forces_flush(r, re.2, gs, re.0, clobber);
            let e1 = if pre {
                flush_out(r)
            } else {
                Seq::empty()
            };
            let r1 = if pre {
                after_flush(r, keep, keep_all)
            } else {
                r
            };
            let r2 = fill_upto(r1, re.2, gs, pair_count(re.2.len() as int, gs.len() as int));
            let e2 = if re.1 {
                flush_out(r2)
            } else {
                Seq::empty()
            };
            let r3 = if re.1 {
                after_flush(r2, keep, keep_all)
            } else {
                r2
            };
            (e1 + e2, r3)
        },
    }
}

/// The first `n` regexes applied to a line in turn.
pub open spec fn line_step(
    r: JsonView,
    res: Seq<ReView>,
    n: int,
    line: Seq<char>,
    clobber: bool,
    keep: Seq<Seq<char>>,
    keep_all: bool,
) -> (Seq<JsonView>, JsonView)
    decreases n,
{
    if n <= 0 {
        (Seq::empty(), r)
    } else {
        let prev = line_step(r, res, n - 1, line, clobber, keep, keep_all);
        let cur = re_step(prev.1, res[n - 1], line, clobber, keep, keep_all);
        (prev.0 + cur.0, cur.1)
    }
}

/// The record after the first `n` regexes that match `line` fill their
/// groups in, in order, with no flush in between.
pub open spec fn line_fill(r: JsonView, res: Seq<ReView>, n: int, line: Seq<char>) -> JsonView
    decreases n,
{
    if n <= 0 {
        r
    } else {
        let prev = line_fill(r, res, n - 1, line);
        match regex_groups(res[n - 1].3, line) {
            None => prev,
            Some(gs) => fill_upto(prev, res[n - 1].2, gs, pair_count(res[n - 1].2.len() as int, gs.len() as int)),
        }
    }
}

/// With every path kept, flushing loses nothing: whatever flushes a line
/// makes, the record after it is the record with the line's groups filled
/// in, exactly as if nothing had been flushed.
pub proof fn law_keep_all_flush_keeps_record(
    r: JsonView,
    res: Seq<ReView>,
    n: int,
    line: Seq<char>,
    clobber: bool,
    keep: Seq<Seq<char>>,
)
    ensures
        line_step(r, res, n, line, clobber, keep, true).1 == line_fill(r, res, n, line),
    decreases n,
{
    if n > 0 {
        law_keep_all_flush_keeps_record(r, res, n - 1, line, clobber, keep);
    }
}

/// The record right after each flush of one regex's match that hands a
/// record on, in order: the record each such hand-over leaves behind.
pub open spec fn re_events(
    r: JsonView,
    re: ReView,
    line: Seq<char>,
    clobber: bool,
    keep: Seq<Seq<char>>,
    keep_all: bool,
) -> Seq<JsonView> {
    match regex_groups(re.3, line) {
        None => Seq::empty(),
        Some(gs) => {
            let pre = forces_flush(r, re.2, gs, re.0, clobber);
            let r1 = if pre {
                after_flush(r, keep, keep_all)
            } else {
                r
            };
            let r2 = fill_upto(r1, re.2, gs, pair_count(re.2.len() as int, gs.len() as int));
            (if pre && flush_out(r).len() > 0 {
                seq![r1]
            } else {
                Seq::empty()
            }) + (if re.1 && flush_out(r2).len() > 0 {
                seq![after_flush(r2, keep, keep_all)]
            } else {
                Seq::empty()
            })
        },
    }
}

/// The first `n` regexes applied to a line in turn: the record left right
/// after each record handed on, in order.
pub open spec fn line_events(
    r: JsonView,
    res: Seq<ReView>,
    n: int,
    line: Seq<char>,
    clobber: bool,
    keep: Seq<Seq<char>>,
    keep_all: bool,
) -> Seq<JsonView>
    decreases n,
{
    if n <= 0 {
        Seq::empty()
    } else {
        let prev = line_step(r, res, n - 1, line, clobber, keep, keep_all);
        line_events(r, res, n - 1, line, clobber, keep, keep_all) + re_events(
            prev.1,
            res[n - 1],
            line,
            clobber,
            keep,
            keep_all,
        )
    }
}

/// The records handed on, and the records left after each, grow with the
/// regexes applied: those of the first `n` start those of the first `m`,
/// one left record for each record handed on.
pub proof fn lemma_line_prefix(
    r: JsonView,
    res: Seq<ReView>,
    n: int,
    m: int,
    line: Seq<char>,
    clobber: bool,
    keep: Seq<Seq<char>>,
    keep_all: bool,
)
    requires
        0 <= n <= m,
    ensures
        line_step(r, res, n, line, clobber, keep, keep_all).0.is_prefix_of(line_step(r, res, m, line, clobber, keep, keep_all).0),
        line_events(r, res, n, line, clobber, keep, keep_all).is_prefix_of(line_events(r, res, m, line, clobber, keep, keep_all)),
        line_events(r, res, m, line, clobber, keep, keep_all).len() == line_step(r, res, m, line, clobber, keep, keep_all).0.len(),
    decreases m,
{
    if m > 0 {
        let prev = line_step(r, res, m - 1, line, clobber, keep, keep_all);
        let st = re_step(prev.1, res[m - 1], line, clobber, keep, keep_all);
        let ev = re_events(prev.1, res[m - 1], line, clobber, keep, keep_all);
        assert(st.0.len() == ev.len());
        if n < m {
            lemma_line_prefix(r, res, n, m - 1, line, clobber, keep, keep_all);
        } else {
            lemma_line_prefix(r, res, m - 1, m - 1, line, clobber, keep, keep_all);
        }
    }
}

/// The `j`-th record handed on by regex `i`, and the record left after
/// it, stand in the line's lists right after those of the regexes before.
proof fn lemma_event_at(
    r: JsonView,
    res: Seq<ReView>,
    i: int,
    n: int,
    line: Seq<char>,
    clobber: bool,
    keep: Seq<Seq<char>>,
    keep_all: bool,
    j: int,
)
    requires
        0 <= i < n,
        0 <= j < re_step(line_step(r, res, i, line, clobber, keep, keep_all).1, res[i], line, clobber, keep, keep_all).0.len(),
    ensures
        ({
            let st = line_step(r, res, i, line, clobber, keep, keep_all);
            let k: int = st.0.len() + j;
            &&& k < line_step(r, res, n, line, clobber, keep, keep_all).0.len()
            &&& line_step(r, res, n, line, clobber, keep, keep_all).0[k] == re_step(st.1, res[i], line, clobber, keep, keep_all).0[j]
            &&& line_events(r, res, n, line, clobber, keep, keep_all)[k] == re_events(st.1, res[i], line, clobber, keep, keep_all)[j]
        }),
{
    let st = line_step(r, res, i, line, clobber, keep, keep_all);
    let cur = re_step(st.1, res[i], line, clobber, keep, keep_all);
    let ev = re_events(st.1, res[i], line, clobber, keep, keep_all);
    lemma_line_prefix(r, res, i + 1, n, line, clobber, keep, keep_all);
    lemma_line_prefix(r, res, i, i, line, clobber, keep, keep_all);
    assert(cur.0.len() == ev.len());
    let k: int = st.0.len() + j;
    assert(line_step(r, res, i + 1, line, clobber, keep, keep_all).0 == st.0 + cur.0);
    assert((st.0 + cur.0)[k] == cur.0[j]);
    assert(line_events(r, res, i + 1, line, clobber, keep, keep_all) == line_events(r, res, i, line, clobber, keep, keep_all) + ev);
    assert((line_events(r, res, i, line, clobber, keep, keep_all) + ev)[k] == ev[j]);
}

proof fn lemma_set_key_path_hash(j: JsonView, p: Seq<Step>, v: JsonView)
    requires
        p.len() > 0,
        p[0] is Key,
    ensures
        path_set(j, p, v) is Hash,
{
}

proof fn lemma_kept_hash(r: JsonView, keep: Seq<Seq<char>>)
    requires
        r is Hash,
    ensures
        kept(r, keep) is Hash,
    decreases keep.len(),
{
    if keep.len() > 0 {
        lemma_kept_hash(r, keep.drop_last());
        let p = path_of(keep.last());
        if path_get(r, p) is Some && p.len() > 0 {
            assert(p[0] is Key);
        }
    }
}

/// The state of the line-to-record builder.
pub struct MultiRegex {
    res: Vec<ReSpec>,
    keep: Vec<String>,
    keep_all: bool,
    clobber: bool,
    r: Record,
}

pub open spec fn paths_view(v: Seq<String>) -> Seq<Seq<char>> {
    v.map_values(|k: String| k@)
}

impl MultiRegex {
    pub closed spec fn res(&self) -> Seq<ReView> {
        self.res@.map_values(|s: ReSpec| re_view(s))
    }

    pub closed spec fn keep(&self) -> Seq<Seq<char>> {
        paths_view(self.keep@)
    }

    pub closed spec fn keep_all(&self) -> bool {
        self.keep_all
    }

    pub closed spec fn clobber(&self) -> bool {
        self.clobber
    }

    /// The record being built.
    pub closed spec fn record(&self) -> JsonView {
        self.r@
    }

    pub closed spec fn wf(&self) -> bool {
        &&& self.r@ is Hash
        &&& self.r.wf()
        &&& forall|i: int| 0 <= i < self.keep@.len() ==> path_text_valid(#[trigger] self.keep@[i]@)
        &&& forall|i: int, j: int|
            0 <= i < self.res@.len() && 0 <= j < self.res@[i].keys@.len() ==> hash_path(
                #[trigger] self.res@[i].keys@[j]@,
            )
    }

    /// A builder with no record filled in yet.
    pub fn new(res: Vec<ReSpec>, keep: Vec<String>, keep_all: bool, clobber: bool) -> (m: MultiRegex)
        requires
            forall|i: int| 0 <= i < keep@.len() ==> path_text_valid(#[trigger] keep@[i]@),
            forall|i: int, j: int|
                0 <= i < res@.len() && 0 <= j < res@[i].keys@.len() ==> hash_path(
                    #[trigger] res@[i].keys@[j]@,
                ),
        ensures
            m.wf(),
            m.res() == res@.map_values(|s: ReSpec| re_view(s)),
            m.keep() == paths_view(keep@),
            m.keep_all() == keep_all,
            m.clobber() == clobber,
            m.record() == JsonView::Hash(Seq::empty()),
    {
        let r = Record::empty_hash();
        MultiRegex { res, keep, keep_all, clobber, r }
    }

    /// Flushes: the record if it is not empty; what stays is the kept
    /// paths, or everything when all is kept.
    fn flush(&mut self) -> (out: Vec<Record>)
        requires
            old(self).wf(),
        ensures
            final(self).wf(),
            out@.map_values(|x: Record| x@) == flush_out(old(self).record()),
            final(self).record() == after_flush(old(self).record(), old(self).keep(), old(self).keep_all()),
            final(self).res() == old(self).res(),
            final(self).keep() == old(self).keep(),
            final(self).keep_all() == old(self).keep_all(),
            final(self).clobber() == old(self).clobber(),
    {
        let mut out: Vec<Record> = Vec::new();
        if self.r.expect_hash().len() > 0 {
            out.push(self.r.duplicate());
        }
        assert(out@.map_values(|x: Record| x@) =~= flush_out(old(self).record()));
        if self.keep_all {
            return out;
        }
        let mut r2 = Record::empty_hash();
        let mut i: usize = 0;
        let ghost kv = self.keep();
        assert(kv.take(0) =~= Seq::<Seq<char>>::empty());
        while i < self.keep.len()
            invariant
                kv == paths_view(self.keep@),
                i <= kv.len(),
                forall|k: int| 0 <= k < self.keep@.len() ==> path_text_valid(#[trigger] self.keep@[k]@),
                self.r@ is Hash,
                self.r.wf(),
                r2@ == kept(self.r@, kv.take(i as int)),
                r2.wf(),
            decreases kv.len() - i,
        {
            assert(kv.take(i + 1).drop_last() =~= kv.take(i as int));
            assert(kv.take(i + 1).last() == self.keep@[i as int]@);
            assert(path_text_valid(self.keep@[i as int]@));
            if self.r.has_path(self.keep[i].as_str()) {
                let v = self.r.get_path(self.keep[i].as_str());
                proof {
                    crate::json::lemma_path_get_wf(self.r@, path_of(self.keep@[i as int]@));
                }
                r2.set_path(self.keep[i].as_str(), v);
            }
            i = i + 1;
        }
        assert(kv.take(kv.len() as int) =~= kv);
        proof {
            lemma_kept_hash(self.r@, kv);
        }
        self.r = r2;
        out
    }

    /// Whether the record has a value at any key whose group matched.
    fn any_filled(&self, i: usize, groups: &Vec<Option<String>>) -> (b: bool)
        requires
            i < self.res@.len(),
            self.wf(),
        ensures
            b == exists|j: int|
                0 <= j < self.res()[i as int].2.len() && j < groups@.len() && groups_view(groups@)[j] is Some
                    && #[trigger] path_get(self.record(), path_of(self.res()[i as int].2[j])) is Some,
    {
        let keys = &self.res[i].keys;
        let ghost kv = self.res()[i as int].2;
        assert(kv == paths_view(keys@));
        let mut j: usize = 0;
        while j < keys.len() && j < groups.len()
            invariant
                kv == paths_view(keys@),
                keys == &self.res@[i as int].keys,
                i < self.res@.len(),
                self.wf(),
                j <= keys@.len(),
                forall|k: int|
                    0 <= k < j ==> !(groups_view(groups@)[k] is Some && #[trigger] path_get(
                        self.record(),
                        path_of(kv[k]),
                    ) is Some),
            decreases keys@.len() - j,
        {
            assert(hash_path(keys@[j as int]@));
            if groups[j].is_some() && self.r.has_path(keys[j].as_str()) {
                assert(groups_view(groups@)[j as int] is Some);
                assert(path_get(self.record(), path_of(kv[j as int])) is Some);
                return true;
            }
            assert(!(groups_view(groups@)[j as int] is Some && path_get(self.record(), path_of(kv[j as int])) is Some));
            j = j + 1;
        }
        false
    }

    /// Sets each group that matched, as a string, at its key.
    fn fill(&mut self, i: usize, groups: &Vec<Option<String>>)
        requires
            i < old(self).res@.len(),
            old(self).wf(),
        ensures
            final(self).wf(),
            final(self).record() == fill_upto(
                old(self).record(),
                old(self).res()[i as int].2,
                groups_view(groups@),
                pair_count(old(self).res()[i as int].2.len() as int, groups@.len() as int),
            ),
            final(self).res() == old(self).res(),
            final(self).keep() == old(self).keep(),
            final(self).keep_all() == old(self).keep_all(),
            final(self).clobber() == old(self).clobber(),
    {
        let ghost kv = self.res()[i as int].2;
        let ghost gv = groups_view(groups@);
        let ghost r0 = self.record();
        let n = if self.res[i].keys.len() < groups.len() {
            self.res[i].keys.len()
        } else {
            groups.len()
        };
        let mut j: usize = 0;
        while j < n
            invariant
                i < self.res@.len(),
                kv == paths_view(self.res@[i as int].keys@),
                kv == self.res()[i as int].2,
                gv == groups_view(groups@),
                n <= kv.len(),
                n <= groups@.len(),
                j <= n,
                self.wf(),
                self.record() == fill_upto(r0, kv, gv, j as int),
                self.res() == old(self).res(),
                self.keep() == old(self).keep(),
                self.keep_all() == old(self).keep_all(),
                self.clobber() == old(self).clobber(),
            decreases n - j,
        {
            assert(hash_path(self.res@[i as int].keys@[j as int]@));
            match &groups[j] {
                Some(m) => {
                    let v = Record::from_str(m.as_str());
                    let ghost before = self.r@;
                    let k = self.res[i].keys[j].clone();
                    assert(k@ == kv[j as int]);
                    self.r.set_path(k.as_str(), v);
                    proof {
                        lemma_set_key_path_hash(before, path_of(kv[j as int]), v@);
                    }
                },
                None => {},
            }
            j = j + 1;
        }
        assert(n as int == pair_count(kv.len() as int, groups@.len() as int));
    }

    /// Applies the regexes to `line` in turn, handing each record a flush
    /// gives to `w` at once; stops at the first record `w` refuses, with
    /// the record as that flush left it and no later regex applied.
    /// Answers whether `w` took them all.
    #[verifier::rlimit(60)]
    pub fn on_line_write<W: FnMut(Entry) -> bool>(&mut self, line: &str, w: &mut W) -> (r: bool)
        requires
            old(self).wf(),
            forall|f: W, e: Entry| call_requires(f, (e,)),
        ensures
            final(self).wf(),
            final(self).res() == old(self).res(),
            final(self).keep() == old(self).keep(),
            final(self).keep_all() == old(self).keep_all(),
            final(self).clobber() == old(self).clobber(),
            exists|bs: Seq<bool>, ws: Seq<W>|
                #[trigger] sent_all::<W>(
                    records_sent(
                        line_step(
                            old(self).record(),
                            old(self).res(),
                            old(self).res().len() as int,
                            line@,
                            old(self).clobber(),
                            old(self).keep(),
                            old(self).keep_all(),
                        ).0,
                    ),
                    bs,
                    ws,
                    r,
                ) && ws[0] == *old(w) && ws[bs.len() as int] == *final(w) && final(self).record() == if r {
                    line_step(
                        old(self).record(),
                        old(self).res(),
                        old(self).res().len() as int,
                        line@,
                        old(self).clobber(),
                        old(self).keep(),
                        old(self).keep_all(),
                    ).1
                } else {
                    line_events(
                        old(self).record(),
                        old(self).res(),
                        old(self).res().len() as int,
                        line@,
                        old(self).clobber(),
                        old(self).keep(),
                        old(self).keep_all(),
                    )[bs.len() - 1]
                },
    {
        let ghost r0 = self.record();
        let ghost res = self.res();
        let ghost c = self.clobber();
        let ghost keep = self.keep();
        let ghost ka = self.keep_all();
        let ghost n = res.len() as int;
        let ghost full = line_step(r0, res, n, line@, c, keep, ka);
        let ghost evs = line_events(r0, res, n, line@, c, keep, ka);
        let ghost want = records_sent(full.0);
        let ghost mut bs: Seq<bool> = Seq::empty();
        let ghost mut ws: Seq<W> = seq![*w];
        proof {
            lemma_line_prefix(r0, res, 0, n, line@, c, keep, ka);
        }
        let mut i: usize = 0;
        while i < self.res.len()
            invariant
                self.wf(),
                res == self.res(),
                n == res.len(),
                i <= n,
                c == self.clobber(),
                keep == self.keep(),
                ka == self.keep_all(),
                c == old(self).clobber(),
                keep == old(self).keep(),
                ka == old(self).keep_all(),
                res == old(self).res(),
                r0 == old(self).record(),
                full == line_step(r0, res, n, line@, c, keep, ka),
                evs == line_events(r0, res, n, line@, c, keep, ka),
                want == records_sent(full.0),
                evs.len() == full.0.len(),
                self.record() == line_step(r0, res, i as int, line@, c, keep, ka).1,
                line_step(r0, res, i as int, line@, c, keep, ka).0.is_prefix_of(full.0),
                bs.len() == line_step(r0, res, i as int, line@, c, keep, ka).0.len(),
                ws.len() == bs.len() + 1,
                ws[0] == *old(w),
                ws[bs.len() as int] == *w,
                forall|j: int| 0 <= j < bs.len() ==> sent_answered::<W>(ws[j], want[j], #[trigger] bs[j]),
                forall|j: int| 0 <= j < bs.len() ==> #[trigger] bs[j],
                forall|f: W, e: Entry| call_requires(f, (e,)),
            decreases n - i,
        {
            let ghost st = line_step(r0, res, i as int, line@, c, keep, ka);
            let ghost cur = re_step(st.1, res[i as int], line@, c, keep, ka);
            let ghost ev = re_events(st.1, res[i as int], line@, c, keep, ka);
            let ghost k0 = bs.len();
            proof {
                lemma_line_prefix(r0, res, i + 1, n, line@, c, keep, ka);
                lemma_line_prefix(r0, res, i as int, i + 1, line@, c, keep, ka);
                lemma_line_prefix(r0, res, i as int, i as int, line@, c, keep, ka);
                assert(line_step(r0, res, i + 1, line@, c, keep, ka) == (st.0 + cur.0, cur.1));
                assert(line_events(r0, res, i + 1, line@, c, keep, ka) == line_events(r0, res, i as int, line@, c, keep, ka)
                    + ev);
                assert(line_events(r0, res, i + 1, line@, c, keep, ka).is_prefix_of(evs));
                assert((st.0 + cur.0).is_prefix_of(full.0));
            }
            match regex_captures(&self.res[i].re, line) {
                None => {
                    assert(cur.0 =~= Seq::<JsonView>::empty());
                    assert(st.0 + cur.0 =~= st.0);
                },
                Some(groups) => {
                    let pre = self.res[i].pre_flush || (!self.clobber && self.any_filled(i, &groups));
                    let ghost e1 = if pre {
                        flush_out(st.1)
                    } else {
                        Seq::<JsonView>::empty()
                    };
                    if pre {
                        let mut f = self.flush();
                        let ghost fv = f@;
                        match f.pop() {
                            Some(x) => {
                                let ghost xv = x@;
                                assert(x == fv.last());
                                assert(fv.map_values(|y: Record| y@)[fv.len() - 1] == xv);
                                assert(xv == st.1 && e1 == seq![st.1]);
                                proof {
                                    lemma_event_at(r0, res, i as int, n, line@, c, keep, ka, 0);
                                }
                                assert(want[k0 as int] == Sent::Record(xv));
                                let ghost w0 = *w;
                                let b = w(Entry::Record(x));
                                proof {
                                    assert(sent_answered::<W>(w0, want[k0 as int], b));
                                    bs = bs.push(b);
                                    ws = ws.push(*w);
                                    assert(ws[k0 as int] == w0);
                                }
                                if !b {
                                    assert(sent_all::<W>(want, bs, ws, false));
                                    return false;
                                }
                            },
                            None => {
                                assert(e1.len() == 0);
                            },
                        }
                    }
                    self.fill(i, &groups);
                    if self.res[i].post_flush {
                        let ghost k1 = bs.len();
                        let ghost r2 = self.record();
                        let mut f = self.flush();
                        let ghost fv = f@;
                        match f.pop() {
                            Some(x) => {
                                let ghost xv = x@;
                                assert(x == fv.last());
                                assert(fv.map_values(|y: Record| y@)[fv.len() - 1] == xv);
                                assert(xv == r2);
                                assert(k1 == k0 + e1.len());
                                assert(cur.0[e1.len() as int] == xv);
                                proof {
                                    lemma_event_at(r0, res, i as int, n, line@, c, keep, ka, e1.len() as int);
                                }
                                assert(want[k1 as int] == Sent::Record(xv));
                                let ghost w0 = *w;
                                let b = w(Entry::Record(x));
                                proof {
                                    assert(sent_answered::<W>(w0, want[k1 as int], b));
                                    bs = bs.push(b);
                                    ws = ws.push(*w);
                                    assert(ws[k1 as int] == w0);
                                }
                                if !b {
                                    assert(sent_all::<W>(want, bs, ws, false));
                                    return false;
                                }
                            },
                            None => {},
                        }
                    }
                },
            }
            i = i + 1;
        }
        proof {
            assert(line_step(r0, res, n, line@, c, keep, ka) == full);
            assert(sent_all::<W>(want, bs, ws, true));
        }
        true
    }

    /// Applies every regex to `line` in turn; gives the records handed on,
    /// in order.
    pub fn on_line(&mut self, line: &str) -> (out: Vec<Record>)
        requires
            old(self).wf(),
        ensures
            final(self).wf(),
            out@.map_values(|x: Record| x@) == line_step(
                old(self).record(),
                old(self).res(),
                old(self).res().len() as int,
                line@,
                old(self).clobber(),
                old(self).keep(),
                old(self).keep_all(),
            ).0,
            final(self).record() == line_step(
                old(self).record(),
                old(self).res(),
                old(self).res().len() as int,
                line@,
                old(self).clobber(),
                old(self).keep(),
                old(self).keep_all(),
            ).1,
            final(self).res() == old(self).res(),
            final(self).keep() == old(self).keep(),
            final(self).keep_all() == old(self).keep_all(),
            final(self).clobber() == old(self).clobber(),
    {
        let ghost r0 = self.record();
        let ghost res = self.res();
        let mut out: Vec<Record> = Vec::new();
        let mut i: usize = 0;
        while i < self.res.len()
            invariant
                self.wf(),
                res == self.res(),
                i <= res.len(),
                self.keep() == old(self).keep(),
                self.keep_all() == old(self).keep_all(),
                self.clobber() == old(self).clobber(),
                out@.map_values(|x: Record| x@) == line_step(
                    r0,
                    res,
                    i as int,
                    line@,
                    self.clobber(),
                    self.keep(),
                    self.keep_all(),
                ).0,
                self.record() == line_step(r0, res, i as int, line@, self.clobber(), self.keep(), self.keep_all()).1,
            decreases res.len() - i,
        {
            let ghost before_out = out@.map_values(|x: Record| x@);
            let ghost r_before = self.record();
            match regex_captures(&self.res[i].re, line) {
                None => {},
                Some(groups) => {
                    let pre = self.res[i].pre_flush || (!self.clobber && self.any_filled(i, &groups));
                    if pre {
                        let mut f = self.flush();
                        out.append(&mut f);
                    }
                    self.fill(i, &groups);
                    if self.res[i].post_flush {
                        let mut f = self.flush();
                        out.append(&mut f);
                    }
                },
            }
            proof {
                assert(out@.map_values(|x: Record| x@) =~= before_out + re_step(
                    r_before,
                    res[i as int],
                    line@,
                    self.clobber(),
                    self.keep(),
                    self.keep_all(),
                ).0);
            }
            i = i + 1;
        }
        out
    }

    /// A new file starts: unless clobbering, the record is flushed; the
    /// record starts empty.
    pub fn on_bof(&mut self) -> (out: Vec<Record>)
        requires
            old(self).wf(),
        ensures
            final(self).wf(),
            out@.map_values(|x: Record| x@) == if old(self).clobber() {
                Seq::empty()
            } else {
                flush_out(old(self).record())
            },
            final(self).record() == JsonView::Hash(Seq::empty()),
            final(self).res() == old(self).res(),
            final(self).keep() == old(self).keep(),
            final(self).keep_all() == old(self).keep_all(),
            final(self).clobber() == old(self).clobber(),
    {
        let mut out: Vec<Record> = Vec::new();
        if !self.clobber {
            out = self.flush();
        }
        assert(!old(self).clobber() ==> out@.map_values(|x: Record| x@) == flush_out(old(self).record()));
        assert(old(self).clobber() ==> out@.map_values(|x: Record| x@) =~= Seq::<JsonView>::empty());
        self.r = Record::empty_hash();
        out
    }

    /// The input is over: unless clobbering, the record is flushed.
    pub fn finish(&mut self) -> (out: Vec<Record>)
        requires
            old(self).wf(),
        ensures
            final(self).wf(),
            out@.map_values(|x: Record| x@) == if old(self).clobber() {
                Seq::empty()
            } else {
                flush_out(old(self).record())
            },
    {
        if !self.clobber {
            return self.flush();
        }
        let out: Vec<Record> = Vec::new();
        assert(out@.map_values(|x: Record| x@) =~= Seq::<JsonView>::empty());
        out
    }
}

/// The position of the first `c` in `s`, or -1.
pub open spec fn first_of(s: Seq<char>, c: char) -> int
    decreases s.len(),
{
    if s.len() == 0 {
        -1
    } else if s[0] == c {
        0
    } else {
        let r = first_of(s.drop_first(), c);
        if r < 0 {
            -1
        } else {
            r + 1
        }
    }
}

proof fn lemma_first_of(s: Seq<char>, c: char, i: int)
    requires
        0 <= i <= s.len(),
        forall|k: int| 0 <= k < i ==> s[k] != c,
        i == s.len() || s[i] == c,
    ensures
        first_of(s, c) == if i == s.len() {
            -1
        } else {
            i
        },
    decreases i,
{
    if i > 0 {
        lemma_first_of(s.drop_first(), c, i - 1);
    }
}

/// Why a regex option could not be read.
pub enum ReSpecError {
    /// There is no `=` between the keys and the pattern.
    NoEquals,
    /// The pattern does not compile.
    BadRegex,
}

/// Reads a regex option `keys=pattern`: the keys are separated by commas,
/// the pattern is everything after the first `=`.
pub fn parse_re_spec(s: &str, pre_flush: bool, post_flush: bool) -> (r: Result<ReSpec, ReSpecError>)
    ensures
        first_of(s@, '=') < 0 ==> r matches Err(ReSpecError::NoEquals),
        first_of(s@, '=') >= 0 ==> {
            let i = first_of(s@, '=');
            let pattern = s@.skip(i + 1);
            &&& regex_accepts(pattern) ==> (r matches Ok(spec) && re_view(spec) == (
                pre_flush,
                post_flush,
                split_char(s@.take(i), ','),
                pattern,
            ))
            &&& !regex_accepts(pattern) ==> r matches Err(ReSpecError::BadRegex)
        },
{
    let cs = chars_of(s);
    let mut i: usize = 0;
    while i < cs.len() && cs[i] != '='
        invariant
            cs@ == s@,
            i <= cs@.len(),
            forall|k: int| 0 <= k < i ==> cs@[k] != '=',
        decreases cs@.len() - i,
    {
        i = i + 1;
    }
    proof {
        lemma_first_of(s@, '=', i as int);
    }
    if i == cs.len() {
        return Err(ReSpecError::NoEquals);
    }
    let head = &cs.as_slice()[0..i];
    let tail = &cs.as_slice()[i + 1..cs.len()];
    assert(head@ =~= s@.take(i as int));
    assert(tail@ =~= s@.skip(i + 1));
    let pattern = string_from_chars(tail);
    let parts = split_chars(head, ',');
    let mut keys: Vec<String> = Vec::new();
    let mut k: usize = 0;
    while k < parts.len()
        invariant
            k <= parts@.len(),
            keys@.len() == k,
            forall|j: int| 0 <= j < k ==> (#[trigger] keys@[j])@ == parts@[j]@,
        decreases parts@.len() - k,
    {
        let key = string_from_chars(parts[k].as_slice());
        keys.push(key);
        k = k + 1;
    }
    assert(keys@.map_values(|x: String| x@) =~= split_char(s@.take(i as int), ','));
    match compile_regex(pattern.as_str()) {
        Some(re) => Ok(ReSpec { pre_flush, post_flush, keys, re }),
        None => Err(ReSpecError::BadRegex),
    }
}

} // verus!
