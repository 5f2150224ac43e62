//! The tree that the contracts speak of: a JSON value, with hash entries
//! kept in key order.

use crate::path::Step;
use crate::text::{lemma_seq_lt_asymmetric, lemma_seq_lt_irreflexive, lemma_seq_lt_total, lemma_seq_lt_transitive, seq_lt};
use vstd::prelude::*;

verus! {

/// A JSON value. Floats are held as the JSON text they print as.
pub enum JsonView {
    Null,
    Bool(bool),
    Int(i64),
    Float(Seq<char>),
    Str(Seq<char>),
    Array(Seq<JsonView>),
    Hash(Seq<(Seq<char>, JsonView)>),
}

pub type Entries = Seq<(Seq<char>, JsonView)>;

/// Keys strictly ascending.
pub open spec fn keys_sorted(e: Entries) -> bool {
    forall|i: int, j: int| 0 <= i < j < e.len() ==> seq_lt(#[trigger] e[i].0, #[trigger] e[j].0)
}

/// Well-formed: every hash, at every depth, has its keys strictly ascending.
pub open spec fn json_wf(j: JsonView) -> bool
    decreases j,
{
    match j {
        JsonView::Array(a) => forall|i: int| 0 <= i < a.len() ==> json_wf(#[trigger] a[i]),
        JsonView::Hash(e) => keys_sorted(e) && forall|i: int| 0 <= i < e.len() ==> json_wf(#[trigger] e[i].1),
        _ => true,
    }
}

/// The number of entries whose key sorts before `k`, counted from the back.
pub open spec fn lower(e: Entries, k: Seq<char>) -> int
    decreases e.len(),
{
    if e.len() == 0 {
        0
    } else if seq_lt(e.last().0, k) {
        e.len() as int
    } else {
        lower(e.drop_last(), k)
    }
}

pub open spec fn key_at(e: Entries, k: Seq<char>, p: int) -> bool {
    0 <= p < e.len() && e[p].0 == k
}

/// The value under `k`, if any.
pub open spec fn hash_get(e: Entries, k: Seq<char>) -> Option<JsonView> {
    let p = lower(e, k);
    if key_at(e, k, p) {
        Some(e[p].1)
    } else {
        None
    }
}

/// `e` with `k` bound to `v`, in key order.
pub open spec fn hash_put(e: Entries, k: Seq<char>, v: JsonView) -> Entries {
    let p = lower(e, k);
    if key_at(e, k, p) {
        e.update(p, (k, v))
    } else {
        e.insert(p, (k, v))
    }
}

/// `e` without `k`, and the value removed (null when there was none).
pub open spec fn hash_del(e: Entries, k: Seq<char>) -> (Entries, JsonView) {
    let p = lower(e, k);
    if key_at(e, k, p) {
        (e.remove(p), e[p].1)
    } else {
        (e, JsonView::Null)
    }
}

pub proof fn lemma_lower(e: Entries, k: Seq<char>)
    requires
        keys_sorted(e),
    ensures
        0 <= lower(e, k) <= e.len(),
        forall|i: int| 0 <= i < lower(e, k) ==> seq_lt(#[trigger] e[i].0, k),
        forall|i: int| lower(e, k) <= i < e.len() ==> !seq_lt(#[trigger] e[i].0, k),
    decreases e.len(),
{
    if e.len() > 0 {
        let d = e.drop_last();
        assert(keys_sorted(d));
        lemma_lower(d, k);
        if seq_lt(e.last().0, k) {
            assert forall|i: int| 0 <= i < e.len() implies seq_lt(#[trigger] e[i].0, k) by {
                if i < e.len() - 1 {
                    lemma_seq_lt_transitive(e[i].0, e.last().0, k);
                }
            }
        } else {
            assert forall|i: int| 0 <= i < lower(e, k) implies seq_lt(#[trigger] e[i].0, k) by {
                assert(d[i] == e[i]);
            }
            assert forall|i: int| lower(e, k) <= i < e.len() implies !seq_lt(#[trigger] e[i].0, k) by {
                if i < e.len() - 1 {
                    assert(d[i] == e[i]);
                }
            }
        }
    }
}

/// In sorted entries, a key found at `i` is found by `lower`.
pub proof fn lemma_lower_finds(e: Entries, k: Seq<char>, i: int)
    requires
        keys_sorted(e),
        key_at(e, k, i),
    ensures
        lower(e, k) == i,
{
    lemma_lower(e, k);
    lemma_seq_lt_irreflexive(k);
    let p = lower(e, k);
    if p < i {
        assert(seq_lt(e[p].0, e[i].0));
    }
}

/// Sorted entries map each key to at most one value: `hash_get` gives it.
pub proof fn lemma_hash_get(e: Entries, k: Seq<char>)
    requires
        keys_sorted(e),
    ensures
        hash_get(e, k) is Some <==> exists|i: int| key_at(e, k, i),
        forall|i: int| key_at(e, k, i) ==> hash_get(e, k) == Some(#[trigger] e[i].1),
{
    lemma_lower(e, k);
    assert forall|i: int| key_at(e, k, i) implies hash_get(e, k) == Some(#[trigger] e[i].1) by {
        lemma_lower_finds(e, k, i);
    }
    let p = lower(e, k);
    if key_at(e, k, p) {
        assert(exists|i: int| key_at(e, k, i));
    }
    if exists|i: int| key_at(e, k, i) {
        let i = choose|i: int| key_at(e, k, i);
        lemma_lower_finds(e, k, i);
    }
}

pub proof fn lemma_hash_put(e: Entries, k: Seq<char>, v: JsonView)
    requires
        keys_sorted(e),
    ensures
        keys_sorted(hash_put(e, k, v)),
        hash_get(hash_put(e, k, v), k) == Some(v),
        forall|k2: Seq<char>| k2 != k ==> #[trigger] hash_get(hash_put(e, k, v), k2) == hash_get(e, k2),
        hash_put(e, k, v).len() == e.len() + (if hash_get(e, k) is Some { 0int } else { 1int }),
{
    lemma_lower(e, k);
    let p = lower(e, k);
    let r = hash_put(e, k, v);
    if key_at(e, k, p) {
        assert forall|i: int, j: int| 0 <= i < j < r.len() implies seq_lt(#[trigger] r[i].0, #[trigger] r[j].0) by {
            assert(r[i].0 == e[i].0 && r[j].0 == e[j].0);
        }
    } else {
        assert forall|i: int, j: int| 0 <= i < j < r.len() implies seq_lt(#[trigger] r[i].0, #[trigger] r[j].0) by {
            if i < p && j == p {
                assert(seq_lt(e[i].0, k));
            } else if i == p && j > p {
                assert(r[j] == e[j - 1]);
                assert(!seq_lt(e[j - 1].0, k));
                lemma_seq_lt_total(e[j - 1].0, k);
                if j - 1 > p {
                    lemma_seq_lt_total(e[p].0, k);
                    assert(seq_lt(e[p].0, e[j - 1].0));
                    if e[p].0 == k {
                    } else {
                        assert(seq_lt(k, e[p].0));
                        lemma_seq_lt_transitive(k, e[p].0, e[j - 1].0);
                    }
                } else {
                    if e[j - 1].0 == k {
                        assert(key_at(e, k, p));
                    }
                }
            } else if i < p && j > p {
                assert(r[j] == e[j - 1]);
                assert(seq_lt(e[i].0, e[j - 1].0));
            } else if i > p {
                assert(r[i] == e[i - 1] && r[j] == e[j - 1]);
            }
        }
    }
    assert(keys_sorted(r));
    lemma_hash_get(r, k);
    lemma_hash_get(e, k);
    assert(key_at(r, k, p));
    assert forall|k2: Seq<char>| k2 != k implies #[trigger] hash_get(r, k2) == hash_get(e, k2) by {
        lemma_hash_get(r, k2);
        lemma_hash_get(e, k2);
        if hash_get(e, k2) is Some {
            let i = choose|i: int| key_at(e, k2, i);
            if key_at(e, k, p) {
                assert(key_at(r, k2, i));
            } else if i < p {
                assert(key_at(r, k2, i));
            } else {
                assert(key_at(r, k2, i + 1));
            }
        }
        if hash_get(r, k2) is Some {
            let i = choose|i: int| key_at(r, k2, i);
            if key_at(e, k, p) {
                assert(key_at(e, k2, i));
            } else if i < p {
                assert(key_at(e, k2, i));
            } else {
                assert(i != p);
                assert(key_at(e, k2, i - 1));
            }
        }
    }
}

pub proof fn lemma_hash_del(e: Entries, k: Seq<char>)
    requires
        keys_sorted(e),
    ensures
        keys_sorted(hash_del(e, k).0),
        hash_get(hash_del(e, k).0, k) is None,
        hash_del(e, k).1 == (match hash_get(e, k) { Some(v) => v, None => JsonView::Null }),
        forall|k2: Seq<char>| k2 != k ==> #[trigger] hash_get(hash_del(e, k).0, k2) == hash_get(e, k2),
{
    lemma_lower(e, k);
    let p = lower(e, k);
    let r = hash_del(e, k).0;
    if key_at(e, k, p) {
        assert forall|i: int, j: int| 0 <= i < j < r.len() implies seq_lt(#[trigger] r[i].0, #[trigger] r[j].0) by {
            if i < p && j >= p {
                assert(r[j] == e[j + 1]);
            } else if i >= p {
                assert(r[i] == e[i + 1] && r[j] == e[j + 1]);
            }
        }
    }
    assert(keys_sorted(r));
    lemma_hash_get(r, k);
    lemma_hash_get(e, k);
    if hash_get(r, k) is Some {
        let i = choose|i: int| key_at(r, k, i);
        if key_at(e, k, p) {
            if i < p {
                assert(seq_lt(e[i].0, e[p].0));
                lemma_seq_lt_irreflexive(k);
            } else {
                assert(r[i] == e[i + 1]);
                assert(seq_lt(e[p].0, e[i + 1].0));
                lemma_seq_lt_irreflexive(k);
            }
        } else {
            assert(key_at(e, k, i));
        }
    }
    assert forall|k2: Seq<char>| k2 != k implies #[trigger] hash_get(r, k2) == hash_get(e, k2) by {
        lemma_hash_get(r, k2);
        lemma_hash_get(e, k2);
        if hash_get(e, k2) is Some {
            let i = choose|i: int| key_at(e, k2, i);
            if !key_at(e, k, p) || i < p {
                assert(key_at(r, k2, i));
            } else {
                assert(i != p);
                assert(key_at(r, k2, i - 1));
            }
        }
        if hash_get(r, k2) is Some {
            let i = choose|i: int| key_at(r, k2, i);
            if !key_at(e, k, p) || i < p {
                assert(key_at(e, k2, i));
            } else {
                assert(key_at(e, k2, i + 1));
            }
        }
    }
}


pub open spec fn as_hash(j: JsonView) -> Entries {
    match j {
        JsonView::Hash(e) => e,
        _ => Seq::empty(),
    }
}

pub open spec fn as_array(j: JsonView) -> Seq<JsonView> {
    match j {
        JsonView::Array(a) => a,
        _ => Seq::empty(),
    }
}

pub open spec fn or_null(o: Option<JsonView>) -> JsonView {
    match o {
        Some(v) => v,
        None => JsonView::Null,
    }
}

/// What one step reaches, if anything: a key of a hash, an index of an array.
pub open spec fn step_get(j: JsonView, s: Step) -> Option<JsonView> {
    match s {
        Step::Key(k) => match j {
            JsonView::Hash(e) => hash_get(e, k),
            _ => None,
        },
        Step::Index(n) => match j {
            JsonView::Array(a) => if n < a.len() {
                Some(a[n as int])
            } else {
                None
            },
            _ => None,
        },
    }
}

/// What a path reaches, if anything.
pub open spec fn path_get(j: JsonView, p: Seq<Step>) -> Option<JsonView>
    decreases p.len(),
{
    if p.len() == 0 {
        Some(j)
    } else {
        match step_get(j, p[0]) {
            Some(c) => path_get(c, p.drop_first()),
            None => None,
        }
    }
}

/// `a` lengthened with nulls so that index `n` exists.
pub open spec fn pad_nulls(a: Seq<JsonView>, n: nat) -> Seq<JsonView> {
    if n < a.len() {
        a
    } else {
        a + Seq::new((n + 1 - a.len()) as nat, |_i: int| JsonView::Null)
    }
}

/// `j` with the value at `p` replaced by `v`. Each step makes room: a
/// value that is not a hash becomes an empty hash before a key step, one
/// that is not an array an empty array before an index step; a missing key
/// starts out null, and an array too short is lengthened with nulls.
pub open spec fn path_set(j: JsonView, p: Seq<Step>, v: JsonView) -> JsonView
    decreases p.len(),
{
    if p.len() == 0 {
        v
    } else {
        let rest = p.drop_first();
        match p[0] {
            Step::Key(k) => {
                let e = as_hash(j);
                let c = or_null(hash_get(e, k));
                JsonView::Hash(hash_put(e, k, path_set(c, rest, v)))
            },
            Step::Index(n) => {
                let a = pad_nulls(as_array(j), n);
                JsonView::Array(a.update(n as int, path_set(a[n as int], rest, v)))
            },
        }
    }
}

/// Removes what one step reaches: a key of a hash, or an element of an
/// array (later elements move down). Gives the new value and what was
/// removed, null when nothing was.
pub open spec fn part_del(j: JsonView, s: Step) -> (JsonView, JsonView) {
    match s {
        Step::Key(k) => match j {
            JsonView::Hash(e) => (JsonView::Hash(hash_del(e, k).0), hash_del(e, k).1),
            _ => (j, JsonView::Null),
        },
        Step::Index(n) => match j {
            JsonView::Array(a) => if n < a.len() {
                (JsonView::Array(a.remove(n as int)), a[n as int])
            } else {
                (j, JsonView::Null)
            },
            _ => (j, JsonView::Null),
        },
    }
}

/// Removes what a non-empty path reaches. The steps before the last make
/// room as `path_set` does; the last one removes.
pub open spec fn path_del(j: JsonView, p: Seq<Step>) -> (JsonView, JsonView)
    decreases p.len(),
{
    if p.len() == 0 {
        (j, JsonView::Null)
    } else if p.len() == 1 {
        part_del(j, p[0])
    } else {
        let rest = p.drop_first();
        match p[0] {
            Step::Key(k) => {
                let e = as_hash(j);
                let c = or_null(hash_get(e, k));
                let (c2, r) = path_del(c, rest);
                (JsonView::Hash(hash_put(e, k, c2)), r)
            },
            Step::Index(n) => {
                let a = pad_nulls(as_array(j), n);
                let (c2, r) = path_del(a[n as int], rest);
                (JsonView::Array(a.update(n as int, c2)), r)
            },
        }
    }
}

proof fn lemma_hash_get_wf(e: Entries, k: Seq<char>)
    requires
        keys_sorted(e),
        forall|i: int| 0 <= i < e.len() ==> json_wf(#[trigger] e[i].1),
    ensures
        json_wf(or_null(hash_get(e, k))),
{
    lemma_hash_get(e, k);
    if hash_get(e, k) is Some {
        let i = choose|i: int| key_at(e, k, i);
        assert(json_wf(e[i].1));
    }
}

/// What a path reaches in a well-formed value is well-formed.
pub proof fn lemma_path_get_wf(j: JsonView, p: Seq<Step>)
    requires
        json_wf(j),
    ensures
        json_wf(or_null(path_get(j, p))),
    decreases p.len(),
{
    if p.len() > 0 {
        match step_get(j, p[0]) {
            Some(c) => {
                match p[0] {
                    Step::Key(k) => {
                        let e = as_hash(j);
                        lemma_hash_get_wf(e, k);
                    },
                    Step::Index(n) => {},
                }
                lemma_path_get_wf(c, p.drop_first());
            },
            None => {},
        }
    }
}

pub proof fn lemma_hash_put_wf(e: Entries, k: Seq<char>, v: JsonView)
    requires
        keys_sorted(e),
        forall|i: int| 0 <= i < e.len() ==> json_wf(#[trigger] e[i].1),
        json_wf(v),
    ensures
        json_wf(JsonView::Hash(hash_put(e, k, v))),
{
    lemma_hash_put(e, k, v);
    let r = hash_put(e, k, v);
    let p = lower(e, k);
    lemma_lower(e, k);
    assert forall|i: int| 0 <= i < r.len() implies json_wf(#[trigger] r[i].1) by {
        if !key_at(e, k, p) && i > p {
            assert(r[i] == e[i - 1]);
        }
    }
}

proof fn lemma_pad_wf(a: Seq<JsonView>, n: nat)
    requires
        forall|i: int| 0 <= i < a.len() ==> json_wf(#[trigger] a[i]),
    ensures
        forall|i: int| 0 <= i < pad_nulls(a, n).len() ==> json_wf(#[trigger] pad_nulls(a, n)[i]),
        pad_nulls(a, n).len() > n,
        forall|i: int| 0 <= i < a.len() ==> pad_nulls(a, n)[i] == a[i],
{
}

/// Setting keeps a tree well-formed.
pub proof fn law_set_keeps_wf(j: JsonView, p: Seq<Step>, v: JsonView)
    requires
        json_wf(j),
        json_wf(v),
    ensures
        json_wf(path_set(j, p, v)),
    decreases p.len(),
{
    if p.len() > 0 {
        let rest = p.drop_first();
        match p[0] {
            Step::Key(k) => {
                let e = as_hash(j);
                lemma_hash_get_wf(e, k);
                let c = or_null(hash_get(e, k));
                law_set_keeps_wf(c, rest, v);
                lemma_hash_put_wf(e, k, path_set(c, rest, v));
            },
            Step::Index(n) => {
                let a = pad_nulls(as_array(j), n);
                lemma_pad_wf(as_array(j), n);
                law_set_keeps_wf(a[n as int], rest, v);
                let a2 = a.update(n as int, path_set(a[n as int], rest, v));
                assert forall|i: int| 0 <= i < a2.len() implies json_wf(#[trigger] a2[i]) by {}
            },
        }
    }
}

/// What was set at a path is what the path then reaches.
pub proof fn law_get_after_set(j: JsonView, p: Seq<Step>, v: JsonView)
    requires
        json_wf(j),
    ensures
        path_get(path_set(j, p, v), p) == Some(v),
    decreases p.len(),
{
    if p.len() > 0 {
        let rest = p.drop_first();
        match p[0] {
            Step::Key(k) => {
                let e = as_hash(j);
                lemma_hash_get_wf(e, k);
                let c = or_null(hash_get(e, k));
                lemma_hash_put(e, k, path_set(c, rest, v));
                law_get_after_set(c, rest, v);
            },
            Step::Index(n) => {
                let a = pad_nulls(as_array(j), n);
                lemma_pad_wf(as_array(j), n);
                law_get_after_set(a[n as int], rest, v);
            },
        }
    }
}

/// Setting under one key of a hash leaves what any path under another key
/// reaches unchanged.
pub proof fn law_set_other_key(j: JsonView, k1: Seq<char>, p1: Seq<Step>, k2: Seq<char>, p2: Seq<Step>, v: JsonView)
    requires
        json_wf(j),
        j is Hash,
        k1 != k2,
    ensures
        path_get(path_set(j, seq![Step::Key(k1)] + p1, v), seq![Step::Key(k2)] + p2)
            == path_get(j, seq![Step::Key(k2)] + p2),
{
    let q1 = seq![Step::Key(k1)] + p1;
    let q2 = seq![Step::Key(k2)] + p2;
    assert(q1.drop_first() =~= p1);
    assert(q2.drop_first() =~= p2);
    let e = as_hash(j);
    let c = or_null(hash_get(e, k1));
    lemma_hash_put(e, k1, path_set(c, p1, v));
}

/// Neither path begins the other: they part at some step.
pub open spec fn apart(p: Seq<Step>, q: Seq<Step>) -> bool {
    !p.is_prefix_of(q) && !q.is_prefix_of(p)
}

/// Every step is a key step.
pub open spec fn keys_only(p: Seq<Step>) -> bool {
    forall|i: int| 0 <= i < p.len() ==> #[trigger] p[i] is Key
}

/// The way along `p` is ready: each step that reaches an existing value
/// finds a hash for a key step, or an array long enough for an index step;
/// below a missing key only key steps follow.
pub open spec fn room_ready(j: JsonView, p: Seq<Step>) -> bool
    decreases p.len(),
{
    if p.len() == 0 {
        true
    } else {
        match p[0] {
            Step::Key(k) => j is Hash && match hash_get(as_hash(j), k) {
                Some(c) => room_ready(c, p.drop_first()),
                None => keys_only(p.drop_first()),
            },
            Step::Index(n) => j is Array && n < as_array(j).len() && room_ready(as_array(j)[n as int], p.drop_first()),
        }
    }
}

proof fn lemma_apart_step(p: Seq<Step>, q: Seq<Step>)
    requires
        apart(p, q),
    ensures
        p.len() > 0 && q.len() > 0,
        p[0] == q[0] ==> apart(p.drop_first(), q.drop_first()),
{
    if p.len() == 0 {
        assert(p =~= q.subrange(0, 0));
    }
    if q.len() == 0 {
        assert(q =~= p.subrange(0, 0));
    }
    if p.len() > 0 && q.len() > 0 && p[0] == q[0] {
        let p1 = p.drop_first();
        let q1 = q.drop_first();
        if p1.is_prefix_of(q1) {
            assert forall|i: int| 0 <= i < p.len() implies p[i] == q[i] by {
                if i > 0 {
                    assert(p[i] == p1[i - 1] && q[i] == q1[i - 1]);
                    assert(p1[i - 1] == q1.subrange(0, p1.len() as int)[i - 1]);
                }
            }
            assert(p =~= q.subrange(0, p.len() as int));
        }
        if q1.is_prefix_of(p1) {
            assert forall|i: int| 0 <= i < q.len() implies p[i] == q[i] by {
                if i > 0 {
                    assert(p[i] == p1[i - 1] && q[i] == q1[i - 1]);
                    assert(q1[i - 1] == p1.subrange(0, q1.len() as int)[i - 1]);
                }
            }
            assert(q =~= p.subrange(0, q.len() as int));
        }
    }
}

/// Every step is a key step or index 0: below a value that is not there
/// yet, setting along such a path pads nothing.
pub open spec fn fresh_path(p: Seq<Step>) -> bool {
    forall|i: int| 0 <= i < p.len() ==> #[trigger] p[i] is Key || p[i] == Step::Index(0)
}

/// A value with nothing inside: no hash or array, or an empty one.
pub open spec fn bare(j: JsonView) -> bool {
    match j {
        JsonView::Hash(e) => e.len() == 0,
        JsonView::Array(a) => a.len() == 0,
        _ => true,
    }
}

/// Setting along `p` drops nothing and pads nothing: each step that
/// reaches a value with something inside finds a hash for a key step, or
/// an array for an index step at most as large as its length (at its
/// length the value is appended); from a value with nothing inside, or
/// below what is not there yet, only key steps and index 0 follow.
pub open spec fn set_room(j: JsonView, p: Seq<Step>) -> bool
    decreases p.len(),
{
    if p.len() == 0 {
        true
    } else if bare(j) && fresh_path(p) {
        true
    } else {
        match p[0] {
            Step::Key(k) => j is Hash && match hash_get(as_hash(j), k) {
                Some(c) => set_room(c, p.drop_first()),
                None => fresh_path(p.drop_first()),
            },
            Step::Index(n) => j is Array && n <= as_array(j).len() && if n < as_array(j).len() {
                set_room(as_array(j)[n as int], p.drop_first())
            } else {
                fresh_path(p.drop_first())
            },
        }
    }
}

/// Under a fresh path, nothing apart from it is reached.
proof fn lemma_fresh_set(p: Seq<Step>, q: Seq<Step>, v: JsonView)
    requires
        fresh_path(p),
        apart(p, q),
    ensures
        path_get(path_set(JsonView::Null, p, v), q) is None,
    decreases p.len(),
{
    lemma_apart_step(p, q);
    let rest = p.drop_first();
    let c = path_set(JsonView::Null, rest, v);
    assert(p[0] is Key || p[0] == Step::Index(0));
    assert forall|i: int| 0 <= i < rest.len() implies #[trigger] rest[i] is Key || rest[i] == Step::Index(0) by {
        assert(rest[i] == p[i + 1]);
    }
    match p[0] {
        Step::Key(k) => {
            let e: Entries = Seq::empty();
            lemma_hash_put(e, k, c);
            assert(hash_get(e, k) is None);
            match q[0] {
                Step::Key(k2) => {
                    if k2 == k {
                        lemma_fresh_set(rest, q.drop_first(), v);
                    } else {
                        assert(hash_get(e, k2) is None);
                    }
                },
                Step::Index(_) => {},
            }
        },
        Step::Index(n) => {
            let a = pad_nulls(Seq::<JsonView>::empty(), 0);
            assert(a.len() == 1);
            match q[0] {
                Step::Index(m) => {
                    if m == 0 {
                        lemma_fresh_set(rest, q.drop_first(), v);
                    }
                },
                Step::Key(_) => {},
            }
        },
    }
}

/// Setting along a path that drops and pads nothing leaves what any path
/// apart from it reaches unchanged.
pub proof fn law_set_elsewhere(j: JsonView, p: Seq<Step>, q: Seq<Step>, v: JsonView)
    requires
        json_wf(j),
        set_room(j, p),
        apart(p, q),
    ensures
        path_get(path_set(j, p, v), q) == path_get(j, q),
    decreases p.len(),
{
    lemma_apart_step(p, q);
    let rest = p.drop_first();
    let q1 = q.drop_first();
    if bare(j) && fresh_path(p) {
        assert(as_hash(j) =~= as_hash(JsonView::Null));
        assert(as_array(j) =~= as_array(JsonView::Null));
        assert(path_set(j, p, v) == path_set(JsonView::Null, p, v));
        lemma_fresh_set(p, q, v);
        match q[0] {
            Step::Key(k2) => {
                if j is Hash {
                    assert(hash_get(as_hash(j), k2) is None);
                }
            },
            Step::Index(_) => {},
        }
    } else {
        match p[0] {
            Step::Key(k) => {
                let e = as_hash(j);
                lemma_hash_get_wf(e, k);
                let c = or_null(hash_get(e, k));
                let c2 = path_set(c, rest, v);
                lemma_hash_put(e, k, c2);
                if q[0] == p[0] {
                    match hash_get(e, k) {
                        Some(c0) => {
                            law_set_elsewhere(c0, rest, q1, v);
                        },
                        None => {
                            lemma_fresh_set(rest, q1, v);
                            lemma_null_or_nothing(q1);
                        },
                    }
                }
            },
            Step::Index(n) => {
                let a = as_array(j);
                if n < a.len() {
                    assert(pad_nulls(a, n) == a);
                    if q[0] == p[0] {
                        assert(json_wf(a[n as int]));
                        law_set_elsewhere(a[n as int], rest, q1, v);
                    }
                } else {
                    let a2 = pad_nulls(a, n);
                    assert(a2 =~= a.push(JsonView::Null));
                    if q[0] == p[0] {
                        lemma_fresh_set(rest, q1, v);
                    }
                }
            },
        }
    }
}

/// Setting along `p` drops nothing that was there: each step that reaches
/// a value with something inside finds a hash for a key step, or an array
/// for an index step (which may be lengthened); below what is not there
/// yet, anything goes.
pub open spec fn set_keeps(j: JsonView, p: Seq<Step>) -> bool
    decreases p.len(),
{
    if p.len() == 0 {
        true
    } else {
        match p[0] {
            Step::Key(k) => (j is Hash || bare(j)) && match hash_get(as_hash(j), k) {
                Some(c) => set_keeps(c, p.drop_first()),
                None => true,
            },
            Step::Index(n) => (j is Array || bare(j)) && (n < as_array(j).len() ==> set_keeps(
                as_array(j)[n as int],
                p.drop_first(),
            )),
        }
    }
}

/// Nothing is reached inside a value with nothing inside.
proof fn lemma_bare_nothing(j: JsonView, q: Seq<Step>)
    requires
        bare(j),
        q.len() >= 1,
    ensures
        path_get(j, q) is None,
{
    match q[0] {
        Step::Key(k) => {
            if j is Hash {
                lemma_lower(as_hash(j), k);
                assert(!key_at(as_hash(j), k, lower(as_hash(j), k)));
            }
        },
        Step::Index(_) => {},
    }
}

/// Setting along a path that drops nothing, even where it pads an array
/// with nulls or builds below what is not there, leaves every value that
/// a path apart from it reached where it was.
pub proof fn law_set_keeps_existing(j: JsonView, p: Seq<Step>, q: Seq<Step>, v: JsonView)
    requires
        json_wf(j),
        set_keeps(j, p),
        apart(p, q),
        path_get(j, q) is Some,
    ensures
        path_get(path_set(j, p, v), q) == path_get(j, q),
    decreases p.len(),
{
    lemma_apart_step(p, q);
    let rest = p.drop_first();
    let q1 = q.drop_first();
    if bare(j) {
        lemma_bare_nothing(j, q);
    } else {
        match p[0] {
            Step::Key(k) => {
                let e = as_hash(j);
                lemma_hash_get_wf(e, k);
                let c = or_null(hash_get(e, k));
                let c2 = path_set(c, rest, v);
                lemma_hash_put(e, k, c2);
                if q[0] == p[0] {
                    match hash_get(e, k) {
                        Some(c0) => {
                            law_set_keeps_existing(c0, rest, q1, v);
                        },
                        None => {},
                    }
                }
            },
            Step::Index(n) => {
                let a = as_array(j);
                let a2 = pad_nulls(a, n);
                match q[0] {
                    Step::Index(m) => {
                        assert(m < a.len());
                        assert(a2[m as int] == a[m as int]);
                        if m == n {
                            assert(json_wf(a[n as int]));
                            law_set_keeps_existing(a[n as int], rest, q1, v);
                        }
                    },
                    Step::Key(_) => {},
                }
            },
        }
    }
}

/// A path that reaches a value is ready all the way: each step finds a
/// hash for a key step, or an array long enough for an index step.
pub proof fn law_existing_path_ready(j: JsonView, p: Seq<Step>)
    requires
        path_get(j, p) is Some,
    ensures
        room_ready(j, p),
    decreases p.len(),
{
    if p.len() > 0 {
        let c = step_get(j, p[0])->0;
        law_existing_path_ready(c, p.drop_first());
    }
}

/// On a hash, setting at one key leaves it a well-formed hash and leaves
/// what any other single key reaches unchanged.
pub proof fn law_set_plain_key(j: JsonView, p: Seq<Step>, q: Seq<Step>, v: JsonView)
    requires
        json_wf(j),
        json_wf(v),
        j is Hash,
        p.len() == 1,
        p[0] is Key,
        q.len() == 1,
        q[0] is Key,
        p != q,
    ensures
        path_set(j, p, v) is Hash,
        json_wf(path_set(j, p, v)),
        path_get(path_set(j, p, v), q) == path_get(j, q),
{
    law_set_keeps_wf(j, p, v);
    assert(p.drop_first().len() == 0);
    match hash_get(as_hash(j), p[0]->Key_0) {
        Some(c) => {
            assert(set_room(c, p.drop_first()));
        },
        None => {
            assert(fresh_path(p.drop_first()));
        },
    }
    assert(set_room(j, p));
    if p.is_prefix_of(q) {
        assert(p =~= q.subrange(0, 1));
        assert(q =~= q.subrange(0, 1));
    }
    if q.is_prefix_of(p) {
        assert(q =~= p.subrange(0, 1));
        assert(p =~= p.subrange(0, 1));
    }
    law_set_elsewhere(j, p, q, v);
}

/// Removing along a fresh path of key steps reaches nothing apart from it.
proof fn lemma_fresh_del(p: Seq<Step>, q: Seq<Step>)
    requires
        keys_only(p),
        p.len() >= 1,
        apart(p, q),
    ensures
        path_get(path_del(JsonView::Null, p).0, q) is None,
    decreases p.len(),
{
    lemma_apart_step(p, q);
    assert(p[0] is Key);
    if p.len() > 1 {
        let k = p[0]->Key_0;
        let rest = p.drop_first();
        let e: Entries = Seq::empty();
        let c2 = path_del(JsonView::Null, rest).0;
        lemma_hash_put(e, k, c2);
        match q[0] {
            Step::Key(k2) => {
                if k2 == k {
                    assert forall|i: int| 0 <= i < rest.len() implies #[trigger] rest[i] is Key by {
                        assert(rest[i] == p[i + 1]);
                    }
                    lemma_fresh_del(rest, q.drop_first());
                } else {
                    assert(hash_get(e, k2) is None);
                }
            },
            Step::Index(_) => {},
        }
    }
}

/// Removing under a key, along a path whose way is ready, leaves what any
/// path apart from it reaches unchanged.
pub proof fn law_del_elsewhere(j: JsonView, p: Seq<Step>, q: Seq<Step>)
    requires
        json_wf(j),
        p.len() >= 1,
        p.last() is Key,
        room_ready(j, p),
        apart(p, q),
    ensures
        path_get(path_del(j, p).0, q) == path_get(j, q),
    decreases p.len(),
{
    lemma_apart_step(p, q);
    let rest = p.drop_first();
    let q1 = q.drop_first();
    if p.len() == 1 {
        let k = p[0]->Key_0;
        lemma_hash_del(as_hash(j), k);
        if q[0] == p[0] {
            assert(p =~= q.subrange(0, 1));
        }
    } else {
        assert(rest.last() == p.last());
        match p[0] {
            Step::Key(k) => {
                let e = as_hash(j);
                lemma_hash_get_wf(e, k);
                let c = or_null(hash_get(e, k));
                let c2 = path_del(c, rest).0;
                lemma_hash_put(e, k, c2);
                if q[0] == p[0] {
                    match hash_get(e, k) {
                        Some(c0) => {
                            law_del_elsewhere(c0, rest, q1);
                        },
                        None => {
                            lemma_fresh_del(rest, q1);
                            lemma_null_or_nothing(q1);
                        },
                    }
                }
            },
            Step::Index(n) => {
                let a = as_array(j);
                assert(pad_nulls(a, n) == a);
                if q[0] == p[0] {
                    assert(json_wf(a[n as int]));
                    law_del_elsewhere(a[n as int], rest, q1);
                }
            },
        }
    }
}

proof fn lemma_null_or_nothing(q: Seq<Step>)
    requires
        q.len() >= 1,
    ensures
        path_get(JsonView::Null, q) is None,
{
}

/// Removing what a path reaches gives back what a read of that path gives,
/// null when it reaches nothing.
pub proof fn law_del_returns_get(j: JsonView, p: Seq<Step>)
    requires
        json_wf(j),
        p.len() >= 1,
    ensures
        path_del(j, p).1 == or_null(path_get(j, p)),
    decreases p.len(),
{
    let rest = p.drop_first();
    if p.len() == 1 {
        assert(rest.len() == 0);
        match p[0] {
            Step::Key(k) => {
                if j is Hash {
                    lemma_hash_del(as_hash(j), k);
                    match hash_get(as_hash(j), k) {
                        Some(c) => {
                            assert(path_get(c, rest) == Some(c));
                        },
                        None => {},
                    }
                }
            },
            Step::Index(n) => {
                if j is Array && n < as_array(j).len() {
                    assert(path_get(as_array(j)[n as int], rest) == Some(as_array(j)[n as int]));
                }
            },
        }
    } else {
        match p[0] {
            Step::Key(k) => {
                let e = as_hash(j);
                lemma_hash_get_wf(e, k);
                let c = or_null(hash_get(e, k));
                law_del_returns_get(c, rest);
                if !(j is Hash) || hash_get(e, k) is None {
                    lemma_null_reaches_nothing(rest);
                    assert(path_get(j, p) is None);
                } else {
                    assert(path_get(j, p) == path_get(c, rest));
                }
                assert(path_del(j, p).1 == path_del(c, rest).1);
            },
            Step::Index(n) => {
                let a = pad_nulls(as_array(j), n);
                lemma_pad_wf(as_array(j), n);
                law_del_returns_get(a[n as int], rest);
                if !(j is Array) || n >= as_array(j).len() {
                    assert(a[n as int] == JsonView::Null);
                    lemma_null_reaches_nothing(rest);
                    assert(path_get(j, p) is None);
                } else {
                    assert(path_get(j, p) == path_get(a[n as int], rest));
                }
                assert(path_del(j, p).1 == path_del(a[n as int], rest).1);
            },
        }
    }
}

proof fn lemma_null_reaches_nothing(p: Seq<Step>)
    requires
        p.len() >= 1,
    ensures
        path_get(JsonView::Null, p) is None,
{
}

/// Removing a key leaves the path reaching nothing.
pub proof fn law_del_key_gone(j: JsonView, p: Seq<Step>, k: Seq<char>)
    requires
        json_wf(j),
    ensures
        path_get(path_del(j, p.push(Step::Key(k))).0, p.push(Step::Key(k))) is None,
    decreases p.len(),
{
    let q = p.push(Step::Key(k));
    if p.len() == 0 {
        assert(q.len() == 1);
        assert(q.drop_first().len() == 0);
        if j is Hash {
            lemma_hash_del(as_hash(j), k);
        }
    } else {
        let rest = q.drop_first();
        assert(rest =~= p.drop_first().push(Step::Key(k)));
        match q[0] {
            Step::Key(k0) => {
                let e = as_hash(j);
                lemma_hash_get_wf(e, k0);
                let c = or_null(hash_get(e, k0));
                law_del_key_gone(c, p.drop_first(), k);
                let (c2, r) = path_del(c, rest);
                lemma_hash_put(e, k0, c2);
            },
            Step::Index(n) => {
                let a = pad_nulls(as_array(j), n);
                lemma_pad_wf(as_array(j), n);
                law_del_key_gone(a[n as int], p.drop_first(), k);
            },
        }
    }
}

/// Removing keeps a tree well-formed.
pub proof fn law_del_keeps_wf(j: JsonView, p: Seq<Step>)
    requires
        json_wf(j),
    ensures
        json_wf(path_del(j, p).0),
    decreases p.len(),
{
    if p.len() == 1 {
        match p[0] {
            Step::Key(k) => {
                if j is Hash {
                    let e = as_hash(j);
                    lemma_hash_del(e, k);
                    let r = hash_del(e, k).0;
                    lemma_lower(e, k);
                    let q = lower(e, k);
                    assert forall|i: int| 0 <= i < r.len() implies json_wf(#[trigger] r[i].1) by {
                        if key_at(e, k, q) && i >= q {
                            assert(r[i] == e[i + 1]);
                        }
                    }
                }
            },
            Step::Index(n) => {
                if j is Array && n < as_array(j).len() {
                    let a = as_array(j);
                    let r = a.remove(n as int);
                    assert forall|i: int| 0 <= i < r.len() implies json_wf(#[trigger] r[i]) by {
                        if i >= n {
                            assert(r[i] == a[i + 1]);
                        }
                    }
                }
            },
        }
    } else if p.len() > 1 {
        let rest = p.drop_first();
        match p[0] {
            Step::Key(k) => {
                let e = as_hash(j);
                lemma_hash_get_wf(e, k);
                let c = or_null(hash_get(e, k));
                law_del_keeps_wf(c, rest);
                lemma_hash_put_wf(e, k, path_del(c, rest).0);
            },
            Step::Index(n) => {
                let a = pad_nulls(as_array(j), n);
                lemma_pad_wf(as_array(j), n);
                law_del_keeps_wf(a[n as int], rest);
                let a2 = a.update(n as int, path_del(a[n as int], rest).0);
                assert forall|i: int| 0 <= i < a2.len() implies json_wf(#[trigger] a2[i]) by {}
            },
        }
    }
}


/// A hex digit, lower case.
pub open spec fn hex_digit(n: int) -> char {
    if n < 10 {
        (('0' as int) + n) as char
    } else {
        (('a' as int) + n - 10) as char
    }
}

/// How a JSON string literal writes one character: quote, backslash and the
/// control characters escaped, everything else as it is.
pub open spec fn escape_char(c: char) -> Seq<char> {
    if c == '"' {
        seq!['\\', '"']
    } else if c == '\\' {
        seq!['\\', '\\']
    } else if c == '\u{8}' {
        seq!['\\', 'b']
    } else if c == '\t' {
        seq!['\\', 't']
    } else if c == '\n' {
        seq!['\\', 'n']
    } else if c == '\u{c}' {
        seq!['\\', 'f']
    } else if c == '\r' {
        seq!['\\', 'r']
    } else if (c as int) < 0x20 {
        seq!['\\', 'u', '0', '0', hex_digit((c as int) / 16), hex_digit((c as int) % 16)]
    } else {
        seq![c]
    }
}

pub open spec fn escaped(s: Seq<char>) -> Seq<char>
    decreases s.len(),
{
    if s.len() == 0 {
        Seq::empty()
    } else {
        escaped(s.drop_last()) + escape_char(s.last())
    }
}

/// The JSON string literal for `s`.
pub open spec fn json_quoted(s: Seq<char>) -> Seq<char> {
    seq!['"'] + escaped(s) + seq!['"']
}

pub open spec fn digit_char(n: nat) -> char {
    (('0' as int) + n) as char
}

/// The decimal digits of `n`.
pub open spec fn decimal(n: nat) -> Seq<char>
    decreases n,
{
    if n < 10 {
        seq![digit_char(n)]
    } else {
        decimal(n / 10).push(digit_char(n % 10))
    }
}

/// An integer in decimal, with a leading `-` when negative.
pub open spec fn int_text(n: int) -> Seq<char> {
    if n < 0 {
        seq!['-'] + decimal((-n) as nat)
    } else {
        decimal(n as nat)
    }
}

/// Compact JSON text: no spaces, hash keys in the order held.
pub open spec fn deparse_spec(j: JsonView) -> Seq<char>
    decreases j,
{
    match j {
        JsonView::Null => seq!['n', 'u', 'l', 'l'],
        JsonView::Bool(b) => if b {
            seq!['t', 'r', 'u', 'e']
        } else {
            seq!['f', 'a', 'l', 's', 'e']
        },
        JsonView::Int(n) => int_text(n as int),
        JsonView::Float(t) => t,
        JsonView::Str(s) => json_quoted(s),
        JsonView::Array(a) => seq!['['] + items_text(a) + seq![']'],
        JsonView::Hash(e) => seq!['{'] + entries_text(e) + seq!['}'],
    }
}

/// The elements' texts joined by commas.
pub open spec fn items_text(a: Seq<JsonView>) -> Seq<char>
    decreases a,
{
    if a.len() == 0 {
        Seq::empty()
    } else if a.len() == 1 {
        deparse_spec(a[0])
    } else {
        items_text(a.drop_last()) + seq![','] + deparse_spec(a.last())
    }
}

/// `"key":value` for each entry, joined by commas.
pub open spec fn entries_text(e: Entries) -> Seq<char>
    decreases e,
{
    if e.len() == 0 {
        Seq::empty()
    } else if e.len() == 1 {
        json_quoted(e[0].0) + seq![':'] + deparse_spec(e[0].1)
    } else {
        entries_text(e.drop_last()) + seq![','] + json_quoted(e.last().0) + seq![':'] + deparse_spec(e.last().1)
    }
}

/// A string shows as itself; anything else as its JSON text.
pub open spec fn pretty_spec(j: JsonView) -> Seq<char> {
    match j {
        JsonView::Str(s) => s,
        _ => deparse_spec(j),
    }
}

} // verus!
