//! The right-hand side of a join: records grouped by the values found at
//! some paths, each group remembering whether a query has matched it.

use crate::json::{or_null, path_get, JsonView};
use crate::path::{path_of, path_text_valid};
use crate::record::{records_view, Record};
use vstd::prelude::*;

verus! {

/// The values a record has at the given paths (null where a path reaches
/// nothing).
pub open spec fn key_spec(r: JsonView, paths: Seq<Seq<char>>) -> Seq<JsonView> {
    paths.map_values(|p: Seq<char>| or_null(path_get(r, path_of(p))))
}

/// Two keys taken at equally many paths are equal exactly when the two
/// records agree at every pair of paths (null standing for nothing): a
/// query's key finds the group of the records that agree with it at every
/// pair, and no others.
pub proof fn law_keys_equal_iff_values_agree(x: JsonView, xs: Seq<Seq<char>>, q: JsonView, qs: Seq<Seq<char>>)
    requires
        xs.len() == qs.len(),
    ensures
        key_spec(x, xs) == key_spec(q, qs) <==> forall|i: int|
            0 <= i < xs.len() ==> or_null(path_get(x, path_of(xs[i]))) == or_null(path_get(q, path_of(qs[i]))),
{
    if key_spec(x, xs) == key_spec(q, qs) {
        assert forall|i: int| 0 <= i < xs.len() implies or_null(path_get(x, path_of(xs[i]))) == or_null(
            path_get(q, path_of(qs[i])),
        ) by {
            assert(key_spec(x, xs)[i] == key_spec(q, qs)[i]);
        }
    }
    if forall|i: int|
        0 <= i < xs.len() ==> or_null(path_get(x, path_of(xs[i]))) == or_null(path_get(q, path_of(qs[i]))) {
        assert(key_spec(x, xs) =~= key_spec(q, qs));
    }
}

/// A group: its key, whether a query matched it, its records.
pub type GroupView = (Seq<JsonView>, bool, Seq<JsonView>);

/// What a `Db` holds: its groups and the paths a query is keyed by.
pub struct DbView {
    pub groups: Seq<GroupView>,
    pub rks: Seq<Seq<char>>,
}

struct DbGroup {
    key: Vec<Record>,
    used: bool,
    records: Vec<Record>,
}

/// Records grouped by key, for joining.
pub struct Db {
    groups: Vec<DbGroup>,
    rks: Vec<String>,
}

pub open spec fn strings_view(v: Seq<String>) -> Seq<Seq<char>> {
    v.map_values(|s: String| s@)
}

spec fn group_view(g: DbGroup) -> GroupView {
    (records_view(g.key@), g.used, records_view(g.records@))
}

impl View for Db {
    type V = DbView;

    closed spec fn view(&self) -> DbView {
        DbView { groups: self.groups@.map_values(|g: DbGroup| group_view(g)), rks: strings_view(self.rks@) }
    }
}

/// No two groups share a key.
pub open spec fn keys_distinct(groups: Seq<GroupView>) -> bool {
    forall|i: int, j: int| 0 <= i < j < groups.len() ==> groups[i].0 != groups[j].0
}

/// The records of the groups no query matched, group after group.
pub open spec fn leftover_spec(groups: Seq<GroupView>) -> Seq<JsonView>
    decreases groups.len(),
{
    if groups.len() == 0 {
        Seq::empty()
    } else {
        leftover_spec(groups.drop_last()) + if groups.last().1 {
            Seq::empty()
        } else {
            groups.last().2
        }
    }
}

/// Some group has key `k`.
pub open spec fn has_group(groups: Seq<GroupView>, k: Seq<JsonView>) -> bool {
    exists|g: int| 0 <= g < groups.len() && groups[g].0 == k
}

/// The left-hand paths of the pairs.
pub open spec fn lefts(pairs: Seq<(String, String)>) -> Seq<Seq<char>> {
    pairs.map_values(|p: (String, String)| p.0@)
}

/// The right-hand paths of the pairs.
pub open spec fn rights(pairs: Seq<(String, String)>) -> Seq<Seq<char>> {
    pairs.map_values(|p: (String, String)| p.1@)
}

/// The records, in order, whose key at `paths` is `k`.
pub open spec fn with_key(rs: Seq<JsonView>, paths: Seq<Seq<char>>, k: Seq<JsonView>) -> Seq<JsonView> {
    rs.filter(|x: JsonView| key_spec(x, paths) == k)
}

pub open spec fn paths_valid(paths: Seq<Seq<char>>) -> bool {
    forall|i: int| 0 <= i < paths.len() ==> path_text_valid(#[trigger] paths[i])
}

/// The values `r` has at `paths`.
pub fn key_of(r: &Record, paths: &Vec<String>) -> (k: Vec<Record>)
    requires
        paths_valid(strings_view(paths@)),
    ensures
        records_view(k@) == key_spec(r@, strings_view(paths@)),
{
    let ghost ps = strings_view(paths@);
    let mut k: Vec<Record> = Vec::new();
    let mut i: usize = 0;
    while i < paths.len()
        invariant
            ps == strings_view(paths@),
            paths_valid(ps),
            i <= paths@.len(),
            k@.len() == i,
            forall|j: int| 0 <= j < i ==> (#[trigger] k@[j])@ == key_spec(r@, ps)[j],
        decreases paths@.len() - i,
    {
        assert(path_text_valid(ps[i as int]));
        let v = r.get_path(paths[i].as_str());
        k.push(v);
        i = i + 1;
    }
    assert(records_view(k@) =~= key_spec(r@, ps));
    k
}

/// Whether two lists of records hold the same values.
fn records_equal(a: &Vec<Record>, b: &Vec<Record>) -> (r: bool)
    ensures
        r == (records_view(a@) == records_view(b@)),
{
    if a.len() != b.len() {
        assert(records_view(a@).len() != records_view(b@).len());
        return false;
    }
    let mut i: usize = 0;
    while i < a.len()
        invariant
            a@.len() == b@.len(),
            i <= a@.len(),
            forall|j: int| 0 <= j < i ==> (#[trigger] a@[j])@ == b@[j]@,
        decreases a@.len() - i,
    {
        if !a[i].equals(&b[i]) {
            assert(records_view(a@)[i as int] != records_view(b@)[i as int]);
            return false;
        }
        i = i + 1;
    }
    assert(records_view(a@) =~= records_view(b@));
    true
}

impl Db {
    /// Well-formed: no two groups share a key.
    pub open spec fn wf(&self) -> bool {
        &&& keys_distinct(self@.groups)
        &&& paths_valid(self@.rks)
    }

    /// The group whose key is `key`, if any.
    fn find(&self, key: &Vec<Record>) -> (r: Option<usize>)
        ensures
            match r {
                Some(i) => i < self@.groups.len() && self@.groups[i as int].0 == records_view(key@),
                None => forall|i: int|
                    0 <= i < self@.groups.len() ==> self@.groups[i].0 != records_view(key@),
            },
    {
        let mut i: usize = 0;
        while i < self.groups.len()
            invariant
                i <= self.groups@.len(),
                forall|j: int| 0 <= j < i ==> self@.groups[j].0 != records_view(key@),
            decreases self.groups@.len() - i,
        {
            if records_equal(&self.groups[i].key, key) {
                return Some(i);
            }
            i = i + 1;
        }
        None
    }

    /// Groups `records` by the values at the left-hand paths of `pairs`;
    /// queries will look up the values at the right-hand paths.
    pub fn new(records: Vec<Record>, pairs: &Vec<(String, String)>) -> (db: Db)
        requires
            forall|i: int|
                0 <= i < pairs@.len() ==> path_text_valid(#[trigger] pairs@[i].0@) && path_text_valid(
                    pairs@[i].1@,
                ),
        ensures
            db.wf(),
            db@.rks == rights(pairs@),
            forall|g: int| 0 <= g < db@.groups.len() ==> !(#[trigger] db@.groups[g]).1,
            forall|g: int|
                0 <= g < db@.groups.len() ==> (#[trigger] db@.groups[g]).2 == with_key(records_view(records@), lefts(pairs@), db@.groups[g].0),
            forall|j: int|
                0 <= j < records@.len() ==> #[trigger] has_group(
                    db@.groups,
                    key_spec(records_view(records@)[j], lefts(pairs@)),
                ),
    {
        let mut lks: Vec<String> = Vec::new();
        let mut rks: Vec<String> = Vec::new();
        let mut i: usize = 0;
        while i < pairs.len()
            invariant
                i <= pairs@.len(),
                strings_view(lks@) == lefts(pairs@.take(i as int)),
                strings_view(rks@) == rights(pairs@.take(i as int)),
            decreases pairs@.len() - i,
        {
            let l = pairs[i].0.clone();
            let r = pairs[i].1.clone();
            assert(l@ == pairs@[i as int].0@);
            assert(r@ == pairs@[i as int].1@);
            let ghost l0 = lks@;
            let ghost r0 = rks@;
            lks.push(l);
            rks.push(r);
            assert(strings_view(lks@) =~= strings_view(l0).push(pairs@[i as int].0@));
            assert(strings_view(rks@) =~= strings_view(r0).push(pairs@[i as int].1@));
            assert(lefts(pairs@.take(i + 1)) =~= lefts(pairs@.take(i as int)).push(pairs@[i as int].0@));
            assert(rights(pairs@.take(i + 1)) =~= rights(pairs@.take(i as int)).push(pairs@[i as int].1@));
            i = i + 1;
        }
        assert(pairs@.take(pairs@.len() as int) =~= pairs@);
        let ghost lk = lefts(pairs@);
        let total = records.len();
        assert(records@.len() <= usize::MAX);
        assert(paths_valid(strings_view(lks@))) by {
            assert forall|j: int| 0 <= j < strings_view(lks@).len() implies path_text_valid(
                #[trigger] strings_view(lks@)[j],
            ) by {
                assert(strings_view(lks@)[j] == pairs@[j].0@);
            }
        }
        assert(paths_valid(strings_view(rks@))) by {
            assert forall|j: int| 0 <= j < strings_view(rks@).len() implies path_text_valid(
                #[trigger] strings_view(rks@)[j],
            ) by {
                assert(path_text_valid(pairs@[j].0@));
                assert(strings_view(rks@)[j] == pairs@[j].1@);
            }
        }
        let mut db = Db { groups: Vec::new(), rks };
        let ghost orig = records@;
        let ghost rv = records_view(records@);
        let mut left = records;
        let mut rest: Vec<Record> = Vec::new();
        // records are taken from the back; reverse first so they go in order
        while left.len() > 0
            invariant
                records_view(rest@) + records_view(left@).reverse() == rv.reverse(),
            decreases left@.len(),
        {
            let ghost before = left@;
            let x = left.pop().unwrap();
            rest.push(x);
            proof {
                assert(before == left@.push(x));
                assert(records_view(before) =~= records_view(left@).push(x@));
                assert(records_view(rest@) =~= records_view(rest@).drop_last().push(x@));
                assert(records_view(left@).push(x@).reverse() =~= seq![x@] + records_view(left@).reverse());
                assert(records_view(rest@) + records_view(left@).reverse() =~= records_view(rest@).drop_last()
                    + records_view(before).reverse());
            }
        }
        assert(records_view(left@).reverse() =~= Seq::<JsonView>::empty());
        assert(records_view(rest@) =~= rv.reverse());
        let ghost n = rv.len();
        assert forall|j: int| 0 <= j < rest@.len() implies (#[trigger] rest@[j])@ == rv[n - 1 - j] by {
            assert(records_view(rest@)[j] == rest@[j]@);
        }
        let mut done: usize = 0;
        assert(rv.take(0) =~= Seq::<JsonView>::empty());
        while rest.len() > 0
            invariant
                records_view(rest@).len() + done == n,
                n == rv.len(),
                n == total,
                forall|j: int| 0 <= j < rest@.len() ==> (#[trigger] rest@[j])@ == rv[n - 1 - j],
                db@.rks == rights(pairs@),
                paths_valid(db@.rks),
                strings_view(lks@) == lk,
                paths_valid(lk),
                keys_distinct(db@.groups),
                forall|g: int| 0 <= g < db@.groups.len() ==> !(#[trigger] db@.groups[g]).1,
                forall|g: int|
                    0 <= g < db@.groups.len() ==> (#[trigger] db@.groups[g]).2 == with_key(rv.take(done as int), lk, db@.groups[g].0),
                forall|j: int| 0 <= j < done ==> #[trigger] has_group(db@.groups, key_spec(rv[j], lk)),
            decreases rest@.len(),
        {
            assert(records_view(rest@).len() == rest@.len());
            let ghost before = rest@;
            let x = rest.pop().unwrap();
            assert(x@ == rv[done as int]);
            let key = key_of(&x, &lks);
            let ghost k = key_spec(x@, lk);
            let ghost old_groups = db@.groups;
            let ghost old_vec = db.groups@;
            proof {
                reveal(Seq::filter);
                assert(rv.take(done + 1).drop_last() =~= rv.take(done as int));
                assert(rv.take(done + 1).last() == x@);
            }
            let ghost mut gi: int = 0;
            match db.find(&key) {
                Some(g) => {
                    proof {
                        gi = g as int;
                    }
                    let mut grp = db.groups.remove(g);
                    let ghost recs0 = grp.records@;
                    assert(grp == old_vec[g as int]);
                    grp.records.push(x);
                    assert(records_view(grp.records@) =~= records_view(recs0).push(x@));
                    let ghost grp1 = grp;
                    db.groups.insert(g, grp);
                    proof {
                        assert(db.groups@ =~= old_vec.update(g as int, grp1));
                        assert(db@.groups =~= old_groups.update(
                            g as int,
                            (old_groups[g as int].0, false, old_groups[g as int].2.push(x@)),
                        ));
                    }
                },
                None => {
                    proof {
                        gi = old_groups.len() as int;
                    }
                    let mut recs: Vec<Record> = Vec::new();
                    recs.push(x);
                    assert(records_view(recs@) =~= seq![x@]);
                    let grp = DbGroup { key, used: false, records: recs };
                    let ghost grp1 = grp;
                    db.groups.push(grp);
                    proof {
                        assert(db.groups@ =~= old_vec.push(grp1));
                        assert(db@.groups =~= old_groups.push((k, false, seq![x@])));
                        let pred = |y: JsonView| key_spec(y, lk) == k;
                        assert(rv.take(done as int).all(|y: JsonView| !pred(y))) by {
                            assert forall|j: int| 0 <= j < rv.take(done as int).len() implies !pred(
                                #[trigger] rv.take(done as int)[j],
                            ) by {
                                assert(rv.take(done as int)[j] == rv[j]);
                                assert(has_group(old_groups, key_spec(rv[j], lk)));
                                let g0 = choose|g: int|
                                    0 <= g < old_groups.len() && old_groups[g].0 == key_spec(rv[j], lk);
                            }
                        }
                        rv.take(done as int).lemma_all_neg_filter_empty(pred);
                        assert(with_key(rv.take(done as int), lk, k) =~= Seq::<JsonView>::empty());
                    }
                },
            }
            proof {
                assert forall|g: int| 0 <= g < db@.groups.len() implies (#[trigger] db@.groups[g]).2
                    == with_key(rv.take(done + 1), lk, db@.groups[g].0) by {
                    reveal(Seq::filter);
                }
                assert forall|j: int| 0 <= j < done + 1 implies #[trigger] has_group(
                    db@.groups,
                    key_spec(rv[j], lk),
                ) by {
                    if j < done {
                        assert(has_group(old_groups, key_spec(rv[j], lk)));
                        let g0 = choose|g: int| 0 <= g < old_groups.len() && old_groups[g].0 == key_spec(rv[j], lk);
                        assert(db@.groups[g0].0 == old_groups[g0].0);
                    } else {
                        assert(db@.groups[gi].0 == k);
                    }
                }
                assert forall|j: int| 0 <= j < rest@.len() implies (#[trigger] rest@[j])@ == rv[n - 1 - j] by {
                    assert(rest@[j] == before[j]);
                }
            }
            done = done + 1;
        }
        assert(rv.take(n as int) =~= rv);
        assert(lk == lefts(pairs@));
        assert(rv == records_view(records@));
        db
    }

    /// Looks up the group whose key is what `r` has at the query paths,
    /// marks it matched and gives its position; `None` when no group has
    /// that key.
    pub fn query(&mut self, r: &Record) -> (g: Option<usize>)
        requires
            old(self).wf(),
        ensures
            final(self).wf(),
            match g {
                Some(i) => {
                    &&& i < old(self)@.groups.len()
                    &&& old(self)@.groups[i as int].0 == key_spec(r@, old(self)@.rks)
                    &&& final(self)@ == (DbView {
                        groups: old(self)@.groups.update(
                            i as int,
                            (old(self)@.groups[i as int].0, true, old(self)@.groups[i as int].2),
                        ),
                        rks: old(self)@.rks,
                    })
                },
                None => {
                    &&& forall|i: int|
                        0 <= i < old(self)@.groups.len() ==> old(self)@.groups[i].0 != key_spec(
                            r@,
                            old(self)@.rks,
                        )
                    &&& final(self)@ == old(self)@
                },
            },
    {
        let key = key_of(r, &self.rks);
        match self.find(&key) {
            Some(i) => {
                let ghost old_groups = self@.groups;
                let mut grp = self.groups.remove(i);
                grp.used = true;
                self.groups.insert(i, grp);
                assert(self@.groups =~= old_groups.update(
                    i as int,
                    (old_groups[i as int].0, true, old_groups[i as int].2),
                ));
                Some(i)
            },
            None => None,
        }
    }

    /// The records of group `i`.
    pub fn group(&self, i: usize) -> (r: &Vec<Record>)
        requires
            i < self@.groups.len(),
        ensures
            records_view(r@) == self@.groups[i as int].2,
    {
        &self.groups[i].records
    }

    /// The records of the groups no query has matched.
    pub fn leftover(&self) -> (r: Vec<&Record>)
        ensures
            r@.len() == leftover_spec(self@.groups).len(),
            forall|j: int| 0 <= j < r@.len() ==> (*r@[j])@ == #[trigger] leftover_spec(self@.groups)[j],
    {
        let ghost gs = self@.groups;
        let mut r: Vec<&Record> = Vec::new();
        let mut i: usize = 0;
        assert(gs.take(0) =~= Seq::<GroupView>::empty());
        while i < self.groups.len()
            invariant
                gs == self@.groups,
                i <= gs.len(),
                r@.len() == leftover_spec(gs.take(i as int)).len(),
                forall|j: int| 0 <= j < r@.len() ==> (*r@[j])@ == #[trigger] leftover_spec(gs.take(i as int))[j],
            decreases gs.len() - i,
        {
            assert(gs.take(i + 1).drop_last() =~= gs.take(i as int));
            assert(gs.take(i + 1).last() == gs[i as int]);
            let grp = &self.groups[i];
            if !grp.used {
                let ghost prev = r@;
                let mut k: usize = 0;
                while k < grp.records.len()
                    invariant
                        gs == self@.groups,
                        i < gs.len(),
                        grp == &self.groups@[i as int],
                        k <= grp.records@.len(),
                        r@.len() == prev.len() + k,
                        prev.len() == leftover_spec(gs.take(i as int)).len(),
                        forall|j: int| 0 <= j < prev.len() ==> r@[j] == prev[j],
                        forall|j: int| 0 <= j < prev.len() ==> (*prev[j])@ == #[trigger] leftover_spec(gs.take(i as int))[j],
                        forall|j: int| 0 <= j < k ==> (*r@[prev.len() + j])@ == #[trigger] grp.records@[j]@,
                    decreases grp.records@.len() - k,
                {
                    r.push(&grp.records[k]);
                    k = k + 1;
                }
                proof {
                    let want = leftover_spec(gs.take(i + 1));
                    assert(gs[i as int].2 == records_view(grp.records@));
                    assert(want == leftover_spec(gs.take(i as int)) + records_view(grp.records@));
                    assert forall|j: int| 0 <= j < r@.len() implies (*r@[j])@ == #[trigger] want[j] by {
                        if j >= prev.len() {
                            assert(grp.records@[j - prev.len()]@ == records_view(grp.records@)[j - prev.len()]);
                        }
                    }
                }
            } else {
                assert(leftover_spec(gs.take(i + 1)) =~= leftover_spec(gs.take(i as int)));
            }
            i = i + 1;
        }
        assert(gs.take(gs.len() as int) =~= gs);
        r
    }
}

} // verus!
