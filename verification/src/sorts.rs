//! Sorting records: putting a slice into a given order, and ordering
//! records by a key's text.

use crate::json::pretty_spec;
use crate::path::{path_of, path_text_valid};
use crate::record::Record;
use crate::json::or_null;
use crate::json::path_get;
use crate::registry::{no_impl_text, wrong_args_text};
use crate::text::{chars_lt, chars_of, seq_lt};
use crate::validates::{ValidationError, ValidationResult};
use rand::seq::SliceRandom;
use vstd::prelude::*;
use vstd::slice::slice_subrange;

verus! {

/// `k` appears in `s`.
pub open spec fn occurs(s: Seq<usize>, k: int) -> bool {
    exists|i: int| 0 <= i < s.len() && s[i] == k
}

/// `idxs` lists each of `0..n` exactly once.
pub open spec fn is_permutation(idxs: Seq<usize>, n: nat) -> bool {
    &&& idxs.len() == n
    &&& forall|i: int| 0 <= i < n ==> #[trigger] idxs[i] < n
    &&& forall|i: int, j: int| 0 <= i < j < n ==> #[trigger] idxs[i] != #[trigger] idxs[j]
    &&& forall|k: int| 0 <= k < n ==> #[trigger] occurs(idxs, k)
}

/// Exchanges two elements (std's `<[T]>::swap`).
#[verifier::external_body]
pub(crate) fn slice_swap<T>(ts: &mut [T], i: usize, j: usize)
    requires
        i < old(ts)@.len(),
        j < old(ts)@.len(),
    ensures
        final(ts)@ == old(ts)@.update(i as int, old(ts)@[j as int]).update(j as int, old(ts)@[i as int]),
{
    ts.swap(i, j)
}

/// Puts `ts` in the order `idxs` gives: afterwards position `i` holds what
/// position `idxs[i]` held.
pub fn reorder<T>(ts: &mut [T], idxs: &[usize])
    requires
        is_permutation(idxs@, old(ts)@.len()),
    ensures
        final(ts)@.len() == old(ts)@.len(),
        forall|i: int| 0 <= i < old(ts)@.len() ==> #[trigger] final(ts)@[i] == old(ts)@[idxs@[i] as int],
{
    let ct = ts.len();
    let ghost orig = ts@;
    let mut fw: Vec<usize> = Vec::new();
    let mut k: usize = 0;
    while k < ct
        invariant
            k <= ct,
            ct == idxs@.len(),
            fw@ == idxs@.take(k as int),
        decreases ct - k,
    {
        fw.push(idxs[k]);
        assert(idxs@.take(k + 1) =~= idxs@.take(k as int).push(idxs@[k as int]));
        k = k + 1;
    }
    assert(idxs@.take(ct as int) =~= idxs@);
    let mut bw: Vec<usize> = Vec::new();
    let mut k: usize = 0;
    while k < ct
        invariant
            k <= ct,
            ct == idxs@.len(),
            is_permutation(idxs@, ct as nat),
            bw@.len() == k,
            forall|j: int| 0 <= j < k ==> #[trigger] bw@[j] < ct && idxs@[bw@[j] as int] == j,
        decreases ct - k,
    {
        assert(occurs(idxs@, k as int));
        let ghost w = choose|i: int| 0 <= i < idxs@.len() && idxs@[i] == k;
        let mut i: usize = 0;
        while i < ct && idxs[i] != k
            invariant
                i <= ct,
                ct == idxs@.len(),
                0 <= w < ct,
                idxs@[w] == k,
                forall|m: int| 0 <= m < i ==> idxs@[m] != k,
            decreases ct - i,
        {
            i = i + 1;
        }
        if i == ct {
            assert(idxs@[w] != k);
        }
        bw.push(i);
        k = k + 1;
    }
    let mut i: usize = 0;
    while i < ct
        invariant
            i <= ct,
            ct == orig.len(),
            ts@.len() == ct,
            is_permutation(idxs@, ct as nat),
            fw@.len() == ct,
            bw@.len() == ct,
            forall|m: int| 0 <= m < ct ==> #[trigger] fw@[m] < ct,
            forall|m: int| 0 <= m < ct ==> #[trigger] bw@[m] < ct,
            forall|m: int| 0 <= m < ct ==> #[trigger] bw@[fw@[m] as int] == m,
            forall|m: int| 0 <= m < ct ==> #[trigger] fw@[bw@[m] as int] == m,
            forall|m: int| 0 <= m < i ==> #[trigger] fw@[m] == m,
            forall|m: int| 0 <= m < i ==> ts@[m] == orig[idxs@[m] as int],
            forall|m: int| i <= m < ct ==> #[trigger] ts@[fw@[m] as int] == orig[idxs@[m] as int],
        decreases ct - i,
    {
        let b = bw[i];
        let f = fw[i];
        if i != f {
            assert(fw@[b as int] == i);
            if b < i {
                assert(fw@[b as int] == b);
            }
            let ghost ts0 = ts@;
            let ghost fw0 = fw@;
            let ghost bw0 = bw@;
            slice_swap(ts, i, f);
            fw[b] = f;
            bw[f] = b;
            fw[i] = i;
            bw[i] = i;
            assert(f >= i) by {
                if f < i {
                    assert(fw0[f as int] == f);
                    assert(bw0[fw0[f as int] as int] == f);
                    assert(bw0[fw0[i as int] as int] == i);
                }
            }
            assert forall|m: int| 0 <= m < i + 1 implies ts@[m] == orig[idxs@[m] as int] by {
                if m == i {
                    assert(ts0[fw0[i as int] as int] == orig[idxs@[i as int] as int]);
                }
            }
            assert forall|m: int| i + 1 <= m < ct implies #[trigger] ts@[fw@[m] as int] == orig[idxs@[m] as int] by {
                if m == b {
                    assert(ts@[f as int] == ts0[i as int]);
                    assert(fw0[b as int] == i);
                } else {
                    assert(fw@[m] == fw0[m]);
                    assert(fw0[m] != i);
                    assert(fw0[m] != f) by {
                        assert(bw0[fw0[m] as int] == m);
                        assert(bw0[f as int] == i);
                    }
                }
            }
            assert forall|m: int| 0 <= m < ct implies #[trigger] bw@[fw@[m] as int] == m by {
                if m == b {
                } else if m == i {
                } else {
                    assert(fw0[m] != i && fw0[m] != f) by {
                        assert(bw0[fw0[m] as int] == m);
                        assert(bw0[f as int] == i);
                    }
                }
            }
            assert forall|m: int| 0 <= m < ct implies #[trigger] fw@[bw@[m] as int] == m by {
                if m == f {
                } else if m == i {
                } else {
                    assert(bw0[m] != i && bw0[m] != b) by {
                        assert(fw0[bw0[m] as int] == m);
                        assert(fw0[b as int] == i);
                    }
                }
            }
        }
        i = i + 1;
    }
}

/// A sort key: records are ordered by the text the key path reaches.
pub open spec fn key_text(r: Record, key: Seq<char>) -> Seq<char> {
    pretty_spec(or_null(path_get(r@, path_of(key))))
}

/// `order` lists `0..n` ascending by `keys`, equal keys in index order.
pub open spec fn sorted_by_keys(order: Seq<usize>, keys: Seq<Seq<char>>) -> bool {
    forall|a: int, b: int|
        0 <= a < b < order.len() ==> seq_lt(#[trigger] keys[order[a] as int], #[trigger] keys[order[b] as int])
            || (keys[order[a] as int] == keys[order[b] as int] && order[a] < order[b])
}

/// The positions `0..keys.len()` in ascending key order; a stable sort.
pub fn stable_order(keys: &Vec<Vec<char>>) -> (order: Vec<usize>)
    ensures
        is_permutation(order@, keys@.len()),
        sorted_by_keys(order@, keys@.map_values(|k: Vec<char>| k@)),
{
    let ghost kv = keys@.map_values(|k: Vec<char>| k@);
    let mut order: Vec<usize> = Vec::new();
    let mut n: usize = 0;
    while n < keys.len()
        invariant
            n <= keys@.len(),
            kv == keys@.map_values(|k: Vec<char>| k@),
            order@.len() == n,
            forall|i: int| 0 <= i < n ==> #[trigger] order@[i] < n,
            forall|i: int, j: int| 0 <= i < j < n ==> #[trigger] order@[i] != #[trigger] order@[j],
            forall|k: int| 0 <= k < n ==> #[trigger] occurs(order@, k),
            sorted_by_keys(order@, kv),
        decreases keys@.len() - n,
    {
        // Insert `n` after every position whose key is not greater.
        let mut p: usize = n;
        while p > 0 && chars_lt(keys[n].as_slice(), keys[order[p - 1]].as_slice())
            invariant
                p <= n,
                n < keys@.len(),
                order@.len() == n,
                kv == keys@.map_values(|k: Vec<char>| k@),
                forall|i: int| 0 <= i < n ==> #[trigger] order@[i] < n,
                forall|i: int| p <= i < n ==> seq_lt(kv[n as int], #[trigger] kv[order@[i] as int]),
            decreases p,
        {
            p = p - 1;
        }
        let ghost before = order@;
        proof {
            if p > 0 {
                crate::text::lemma_seq_lt_total(kv[n as int], kv[before[p - 1] as int]);
            }
        }
        order.insert(p, n);
        proof {
            assert forall|i: int, j: int| 0 <= i < j < n + 1 implies #[trigger] order@[i] != #[trigger] order@[j] by {
                if i < p && j > p {
                    assert(order@[j] == before[j - 1]);
                } else if i > p {
                    assert(order@[i] == before[i - 1] && order@[j] == before[j - 1]);
                }
            }
            assert forall|k: int| 0 <= k < n + 1 implies #[trigger] occurs(order@, k) by {
                if k == n {
                    assert(order@[p as int] == k);
                } else {
                    assert(occurs(before, k));
                    let i0 = choose|i: int| 0 <= i < before.len() && before[i] == k;
                    if i0 < p {
                        assert(order@[i0] == k);
                    } else {
                        assert(order@[i0 + 1] == k);
                    }
                }
            }
            assert forall|a: int, b: int| 0 <= a < b < order@.len() implies
                seq_lt(#[trigger] kv[order@[a] as int], #[trigger] kv[order@[b] as int])
                || (kv[order@[a] as int] == kv[order@[b] as int] && order@[a] < order@[b]) by {
                if a < p && b == p {
                    // before[a] sorts no later than before[p - 1], which is not after n
                    assert(order@[a] == before[a]);
                    assert(order@[b] == n);
                    let y = kv[before[p - 1] as int];
                    let z = kv[n as int];
                    assert(!seq_lt(z, y));
                    assert(seq_lt(y, z) || y == z);
                    assert(before[p - 1] < n);
                    if a < p - 1 {
                        let x = kv[before[a] as int];
                        assert(seq_lt(x, y) || (x == y && before[a] < before[p - 1]));
                        if seq_lt(x, y) && seq_lt(y, z) {
                            crate::text::lemma_seq_lt_transitive(x, y, z);
                        }
                        assert(before[a] < n);
                    }
                } else if a == p && b > p {
                    assert(order@[b] == before[b - 1]);
                } else if a < p && b > p {
                    assert(order@[a] == before[a] && order@[b] == before[b - 1]);
                } else if a > p {
                    assert(order@[a] == before[a - 1] && order@[b] == before[b - 1]);
                }
            }
        }
        n = n + 1;
    }
    order
}

/// The positions of `rs` in the order a sort on `key` gives: ascending by
/// the text the key path reaches, equal texts in input order; a key that
/// starts with `-` reverses the whole order.
pub fn lexical_sort_aux(key: &str, rs: &[Record]) -> (order: Vec<usize>)
    requires
        path_text_valid(if key@.len() > 0 && key@[0] == '-' { key@.drop_first() } else { key@ }),
    ensures
        is_permutation(order@, rs@.len()),
        ({
            let rev = key@.len() > 0 && key@[0] == '-';
            let k = if rev { key@.drop_first() } else { key@ };
            let keys = Seq::new(rs@.len(), |i: int| key_text(rs@[i], k));
            let o = if rev { order@.reverse() } else { order@ };
            sorted_by_keys(o, keys)
        }),
{
    let kc = chars_of(key);
    let rev = kc.len() > 0 && kc[0] == '-';
    let k: &str = if rev { key.substring_char(1, kc.len()) } else { key };
    assert(rev ==> k@ =~= key@.drop_first());
    let ghost keys = Seq::new(rs@.len(), |i: int| key_text(rs@[i], k@));
    let mut texts: Vec<Vec<char>> = Vec::new();
    let mut i: usize = 0;
    while i < rs.len()
        invariant
            i <= rs@.len(),
            path_text_valid(k@),
            keys == Seq::new(rs@.len(), |i: int| key_text(rs@[i], k@)),
            texts@.len() == i,
            forall|j: int| 0 <= j < i ==> (#[trigger] texts@[j])@ == keys[j],
        decreases rs@.len() - i,
    {
        let v = rs[i].get_path(k);
        let t = v.pretty_string();
        texts.push(chars_of(t.as_str()));
        i = i + 1;
    }
    assert(texts@.map_values(|k: Vec<char>| k@) =~= keys);
    let order = stable_order(&texts);
    if rev {
        let mut out: Vec<usize> = Vec::new();
        let mut j: usize = order.len();
        while j > 0
            invariant
                j <= order@.len(),
                out@ == order@.subrange(j as int, order@.len() as int).reverse(),
            decreases j,
        {
            out.push(order[j - 1]);
            assert(order@.subrange(j - 1, order@.len() as int).reverse()
                =~= order@.subrange(j as int, order@.len() as int).reverse().push(order@[j - 1]));
            j = j - 1;
        }
        assert(order@.subrange(0, order@.len() as int) =~= order@);
        assert(out@.reverse() =~= order@);
        proof {
            let o = order@;
            let r = out@;
            assert forall|a: int| 0 <= a < r.len() implies #[trigger] r[a] < rs@.len() by {
                assert(r[a] == o[o.len() - 1 - a]);
            }
            assert forall|a: int, b: int| 0 <= a < b < r.len() implies #[trigger] r[a] != #[trigger] r[b] by {
                assert(r[a] == o[o.len() - 1 - a] && r[b] == o[o.len() - 1 - b]);
            }
            assert forall|m: int| 0 <= m < r.len() implies #[trigger] occurs(r, m) by {
                assert(occurs(o, m));
                let a0 = choose|a: int| 0 <= a < o.len() && o[a] == m;
                assert(r[o.len() - 1 - a0] == m);
            }
        }
        out
    } else {
        order
    }
}

/// The order a lexical sort on `key` puts `rs` in, read off a result.
pub open spec fn lexically_sorted(key: Seq<char>, rs: Seq<Record>, order: Seq<usize>) -> bool {
    let rev = key.len() > 0 && key[0] == '-';
    let k = if rev { key.drop_first() } else { key };
    let keys = Seq::new(rs.len(), |i: int| key_text(rs[i], k));
    is_permutation(order, rs.len()) && sorted_by_keys(if rev { order.reverse() } else { order }, keys)
}

/// A sort on the key text that the argument path reaches.
pub trait SortSimpleBe {
    /// The names the sort is registered under, in order.
    spec fn name_list() -> Seq<&'static str>;

    fn names() -> (v: Vec<&'static str>)
        ensures
            v@ == Self::name_list(),
    ;
}

/// A key sort for the implementation `B` names.
pub struct SortSimpleBeImpl<B>(pub B);

/// Sorts that take one key argument.
pub trait SortBe {
    /// The keys the sort accepts.
    spec fn key_accepted(a: Seq<char>) -> bool;

    fn names() -> Vec<&'static str>;

    fn sort(a: &str, rs: &mut [Record])
        requires
            Self::key_accepted(a@),
    ;

    fn sort_aux(a: &str, rs: &[Record]) -> Vec<usize>
        requires
            Self::key_accepted(a@),
    ;
}

impl<B: SortSimpleBe> SortSimpleBeImpl<B> {
    /// The valid keys: a path, with an optional leading `-`.
    pub open spec fn key_ok(a: Seq<char>) -> bool {
        path_text_valid(if a.len() > 0 && a[0] == '-' { a.drop_first() } else { a })
    }

    /// The order of `rs` by key, as `lexical_sort_aux` gives it.
    pub fn sort_aux(a: &str, rs: &[Record]) -> (order: Vec<usize>)
        requires
            Self::key_ok(a@),
        ensures
            lexically_sorted(a@, rs@, order@),
    {
        lexical_sort_aux(a, rs)
    }

    /// Sorts `rs` in place by key.
    pub fn sort(a: &str, rs: &mut [Record])
        requires
            Self::key_ok(a@),
        ensures
            exists|order: Seq<usize>|
                lexically_sorted(a@, old(rs)@, order) && final(rs)@.len() == old(rs)@.len()
                && forall|i: int| 0 <= i < old(rs)@.len() ==> #[trigger] final(rs)@[i] == old(rs)@[order[i] as int],
    {
        let idxs = Self::sort_aux(a, rs);
        reorder(rs, idxs.as_slice());
        assert(lexically_sorted(a@, old(rs)@, idxs@));
    }
}

impl<B: SortSimpleBe> SortBe for SortSimpleBeImpl<B> {
    open spec fn key_accepted(a: Seq<char>) -> bool {
        Self::key_ok(a)
    }

    fn names() -> (v: Vec<&'static str>)
        ensures
            v@ == B::name_list(),
    {
        B::names()
    }

    fn sort(a: &str, rs: &mut [Record])
        ensures
            exists|order: Seq<usize>|
                lexically_sorted(a@, old(rs)@, order) && final(rs)@.len() == old(rs)@.len()
                && forall|i: int| 0 <= i < old(rs)@.len() ==> #[trigger] final(rs)@[i] == old(rs)@[order[i] as int],
    {
        SortSimpleBeImpl::<B>::sort(a, rs);
    }

    fn sort_aux(a: &str, rs: &[Record]) -> (order: Vec<usize>)
        ensures
            lexically_sorted(a@, rs@, order@),
    {
        SortSimpleBeImpl::<B>::sort_aux(a, rs)
    }
}

impl<B: SortSimpleBe> SortSimpleBeImpl<B> {
    /// Whether `a` is a valid key.
    pub fn key_ok_exec(a: &str) -> (r: bool)
        ensures
            r == Self::key_ok(a@),
    {
        let kc = chars_of(a);
        if kc.len() > 0 && kc[0] == '-' {
            let k = a.substring_char(1, kc.len());
            assert(k@ =~= a@.drop_first());
            crate::path::path_text_ok(k)
        } else {
            crate::path::path_text_ok(a)
        }
    }
}

/// The lexical sort.
pub struct SimpleImpl();

impl SortSimpleBe for SimpleImpl {
    open spec fn name_list() -> Seq<&'static str> {
        seq!["l", "lex", "lexical"]
    }

    fn names() -> (v: Vec<&'static str>)
        ensures
            v@ == seq!["l", "lex", "lexical"],
    {
        let mut v: Vec<&'static str> = Vec::new();
        v.push("l");
        v.push("lex");
        v.push("lexical");
        v
    }
}

/// The lexical sort as the sort registry names it.
pub struct ImplSimpleBe;

impl SortSimpleBe for ImplSimpleBe {
    open spec fn name_list() -> Seq<&'static str> {
        seq!["lexical", "lex", "l"]
    }

    fn names() -> (v: Vec<&'static str>)
        ensures
            v@ == seq!["lexical", "lex", "l"],
    {
        let mut v: Vec<&'static str> = Vec::new();
        v.push("lexical");
        v.push("lex");
        v.push("l");
        v
    }
}

/// `rand::seq::SliceRandom::shuffle` with `rand::thread_rng()`: the slice
/// in an order chosen at random (the source swaps each position from the
/// last down with one at or below it). The contract says that the result
/// is a reordering of the slice; which one rests on chance. The call panics
/// only where the thread's random source cannot be seeded by the system.
#[verifier::external_body]
fn shuffle_slice<T>(ts: &mut [T])
    ensures
        exists|order: Seq<usize>|
            is_permutation(order, old(ts)@.len()) && final(ts)@.len() == old(ts)@.len() && forall|i: int|
                0 <= i < old(ts)@.len() ==> #[trigger] final(ts)@[i] == old(ts)@[order[i] as int],
{
    ts.shuffle(&mut rand::thread_rng())
}

/// The shuffle sort: `rs` in an order chosen at random.
pub fn shuffle_sort(rs: &mut [Record])
    ensures
        exists|order: Seq<usize>|
            is_permutation(order, old(rs)@.len()) && final(rs)@.len() == old(rs)@.len() && forall|i: int|
                0 <= i < old(rs)@.len() ==> #[trigger] final(rs)@[i] == old(rs)@[order[i] as int],
{
    shuffle_slice(rs)
}

/// The shuffle sort's order for `ct` records: each of `0..ct` once, in an
/// order chosen at random.
pub fn shuffle_sort_aux(ct: usize) -> (order: Vec<usize>)
    ensures
        is_permutation(order@, ct as nat),
{
    let mut idxs: Vec<usize> = Vec::new();
    let mut k: usize = 0;
    while k < ct
        invariant
            k <= ct,
            idxs@.len() == k,
            forall|i: int| 0 <= i < k ==> #[trigger] idxs@[i] == i,
        decreases ct - k,
    {
        idxs.push(k);
        k = k + 1;
    }
    let ghost before = idxs@;
    shuffle_slice(idxs.as_mut_slice());
    proof {
        let order = choose|order: Seq<usize>|
            is_permutation(order, before.len()) && idxs@.len() == before.len() && forall|i: int|
                0 <= i < before.len() ==> #[trigger] idxs@[i] == before[order[i] as int];
        assert forall|i: int| 0 <= i < ct implies #[trigger] idxs@[i] == order[i] by {
            assert(order[i] < ct);
            assert(idxs@[i] == before[order[i] as int]);
        }
        assert(idxs@ =~= order);
    }
    idxs
}

/// Whether `name` picks the lexical sort, the one sort registered under a
/// name here (the numeric one orders by floating-point values).
pub open spec fn sort_named(name: Seq<char>) -> bool {
    name == "l"@ || name == "lex"@ || name == "lexical"@
}

/// Whether `name` is the text of `lit`.
fn name_is(name: &str, lit: &str) -> (r: bool)
    ensures
        r == (name@ == lit@),
{
    let a = chars_of(name);
    let b = chars_of(lit);
    crate::text::chars_eq(a.as_slice(), b.as_slice())
}

/// A sort picked by name, with its argument read: the lexical sort on a
/// key.
pub struct SortState {
    pub key: String,
}

impl SortState {
    /// Whether the state can sort: its key is valid.
    pub open spec fn valid(&self) -> bool {
        SortSimpleBeImpl::<SimpleImpl>::key_ok(self.key@)
    }

    /// Picks the sort `name` with the arguments `args`: the lexical sort
    /// takes its key.
    pub fn init(name: &str, args: &[&str]) -> (r: ValidationResult<SortState>)
        requires
            sort_named(name@) && args@.len() == 1 ==> SortSimpleBeImpl::<SimpleImpl>::key_ok(args@[0]@),
        ensures
            !sort_named(name@) ==> (r matches Err(e) && e.text() == no_impl_text(name@)),
            sort_named(name@) && args@.len() != 1 ==> (r matches Err(e) && e.text() == wrong_args_text(name@)),
            sort_named(name@) && args@.len() == 1 ==> (r matches Ok(s) && s.key@ == args@[0]@),
            r matches Ok(s) ==> s.valid(),
    {
        proof {
            reveal_strlit("l");
            reveal_strlit("lex");
            reveal_strlit("lexical");
        }
        let lex = name_is(name, "l") || name_is(name, "lex") || name_is(name, "lexical");
        if !lex {
            let mut m = "No implementation named ".to_owned();
            m.append(name);
            proof {
                reveal_strlit("No implementation named ");
            }
            return Err(ValidationError::Message(m));
        }
        if args.len() != 1 {
            let mut m = "Wrong number of args for ".to_owned();
            m.append(name);
            proof {
                reveal_strlit("Wrong number of args for ");
            }
            return Err(ValidationError::Message(m));
        }
        Ok(SortState { key: args[0].to_owned() })
    }

    /// The order the sort gives `rs`.
    pub fn sort_aux(&self, rs: &[Record]) -> (order: Vec<usize>)
        requires
            self.valid(),
        ensures
            lexically_sorted(self.key@, rs@, order@),
    {
        SortSimpleBeImpl::<SimpleImpl>::sort_aux(self.key.as_str(), rs)
    }

    /// Sorts `rs` in place.
    pub fn sort(&self, rs: &mut [Record])
        requires
            self.valid(),
        ensures
            exists|order: Seq<usize>|
                lexically_sorted(self.key@, old(rs)@, order) && final(rs)@.len() == old(rs)@.len() && forall|i: int|
                    0 <= i < old(rs)@.len() ==> #[trigger] final(rs)@[i] == old(rs)@[order[i] as int],
    {
        SortSimpleBeImpl::<SimpleImpl>::sort(self.key.as_str(), rs)
    }

    /// A copy of the state.
    pub fn box_clone(&self) -> (s: SortState)
        ensures
            s.key@ == self.key@,
    {
        SortState { key: self.key.clone() }
    }
}

} // verus!
