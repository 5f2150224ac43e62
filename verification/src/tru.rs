//! Merging two records into one, each under an optional prefix.

use crate::json::{json_wf, path_get, path_set, Entries, JsonView};
use crate::path::{path_of, path_text_valid};
use crate::record::{entries_view, Record};
use crate::vals::OptionalStringOption;
use crate::validates::{Validates, ValidationResult};
use vstd::prelude::*;

verus! {

/// The prefixes under which the left and right records go.
pub struct TwoRecordUnionOption {
    pub left_prefix: OptionalStringOption,
    pub right_prefix: OptionalStringOption,
}

impl Default for TwoRecordUnionOption {
    fn default() -> (r: Self)
        ensures
            r.left_prefix.0 is None,
            r.right_prefix.0 is None,
    {
        TwoRecordUnionOption { left_prefix: OptionalStringOption(None), right_prefix: OptionalStringOption(None) }
    }
}

/// The validated prefixes.
pub struct TwoRecordUnionOptionValidated {
    pub left_prefix: Option<String>,
    pub right_prefix: Option<String>,
}

impl Validates for TwoRecordUnionOption {
    type Target = TwoRecordUnionOptionValidated;

    open spec fn can_validate(&self) -> bool {
        true
    }

    open spec fn validates_to(&self, r: ValidationResult<TwoRecordUnionOptionValidated>) -> bool {
        r matches Ok(v) && v.left_prefix == self.left_prefix.0 && v.right_prefix == self.right_prefix.0
    }

    fn validate(self) -> (r: ValidationResult<TwoRecordUnionOptionValidated>)
        ensures
            r matches Ok(v) && v.left_prefix == self.left_prefix.0 && v.right_prefix == self.right_prefix.0,
    {
        Ok(TwoRecordUnionOptionValidated { left_prefix: self.left_prefix.0, right_prefix: self.right_prefix.0 })
    }
}

/// Sets each entry's key, read as a path, to its value, in entry order.
pub open spec fn set_entries(j: JsonView, e: Entries) -> JsonView
    decreases e.len(),
{
    if e.len() == 0 {
        j
    } else {
        path_set(set_entries(j, e.drop_last()), path_of(e.last().0), e.last().1)
    }
}

/// Adds `r1` to `j`: under the prefix path when there is one, else each of
/// its keys, read as a path, set to its value.
pub open spec fn union_into(j: JsonView, prefix: Option<Seq<char>>, r1: JsonView) -> JsonView {
    match prefix {
        Some(p) => path_set(j, path_of(p), r1),
        None => set_entries(j, r1->Hash_0),
    }
}

/// `r` can be added under `prefix`: a prefix must be a path; without one
/// `r` must be a hash whose keys are paths.
pub open spec fn union_ok(prefix: Option<Seq<char>>, r: JsonView) -> bool {
    match prefix {
        Some(p) => path_text_valid(p),
        None => r is Hash && forall|i: int| 0 <= i < r->Hash_0.len() ==> path_text_valid(#[trigger] r->Hash_0[i].0),
    }
}

pub open spec fn prefix_view(p: Option<String>) -> Option<Seq<char>> {
    match p {
        Some(s) => Some(s@),
        None => None,
    }
}

/// The result of merging: an empty hash, then the left record added, then
/// the right one.
pub open spec fn union_spec(o: TwoRecordUnionOptionValidated, r1: Option<JsonView>, r2: Option<JsonView>) -> JsonView {
    let j0 = JsonView::Hash(Seq::empty());
    let j1 = match r1 {
        Some(a) => union_into(j0, prefix_view(o.left_prefix), a),
        None => j0,
    };
    match r2 {
        Some(b) => union_into(j1, prefix_view(o.right_prefix), b),
        None => j1,
    }
}

/// Without a right record the union is the left record alone, added to an
/// empty hash under the left prefix; without a left record, the right one
/// alone under the right prefix.
pub proof fn law_union_one_side(o: TwoRecordUnionOptionValidated, a: JsonView)
    ensures
        union_spec(o, Some(a), None) == union_into(JsonView::Hash(Seq::empty()), prefix_view(o.left_prefix), a),
        union_spec(o, None, Some(a)) == union_into(JsonView::Hash(Seq::empty()), prefix_view(o.right_prefix), a),
{
}

/// The union of both records is the right record added onto the union of
/// the left one alone: whether a right record comes does not change what
/// the left one contributes.
pub proof fn law_union_right_onto_left(o: TwoRecordUnionOptionValidated, a: Option<JsonView>, b: JsonView)
    ensures
        union_spec(o, a, Some(b)) == union_into(union_spec(o, a, None), prefix_view(o.right_prefix), b),
{
}

/// Under a left prefix, the left record alone is found at the prefix.
pub proof fn law_union_left_under_prefix(o: TwoRecordUnionOptionValidated, a: JsonView)
    requires
        o.left_prefix is Some,
    ensures
        path_get(union_spec(o, Some(a), None), path_of(o.left_prefix->0@)) == Some(a),
{
    assert(json_wf(JsonView::Hash(Seq::empty())));
    crate::json::law_get_after_set(JsonView::Hash(Seq::empty()), path_of(o.left_prefix->0@), a);
}

/// The entries' keys are single key steps, no two the same.
pub open spec fn plain_distinct_entries(e: Entries) -> bool {
    &&& forall|i: int| 0 <= i < e.len() ==> (#[trigger] path_of(e[i].0)).len() == 1 && path_of(e[i].0)[0] is Key
    &&& forall|i: int, j: int| 0 <= i < j < e.len() ==> path_of(e[i].0) != path_of(e[j].0)
}

/// Setting the entries on an empty hash puts each value at its key.
proof fn lemma_entries_at_keys(e: Entries)
    requires
        plain_distinct_entries(e),
        forall|i: int| 0 <= i < e.len() ==> json_wf(#[trigger] e[i].1),
    ensures
        set_entries(JsonView::Hash(Seq::empty()), e) is Hash,
        json_wf(set_entries(JsonView::Hash(Seq::empty()), e)),
        forall|i: int|
            0 <= i < e.len() ==> path_get(set_entries(JsonView::Hash(Seq::empty()), e), path_of(#[trigger] e[i].0))
                == Some(e[i].1),
    decreases e.len(),
{
    let h = JsonView::Hash(Seq::empty());
    if e.len() == 0 {
        assert(json_wf(h));
    } else {
        let d = e.drop_last();
        assert forall|i: int| 0 <= i < d.len() implies (#[trigger] path_of(d[i].0)).len() == 1 && path_of(d[i].0)[0] is Key by {
            assert(d[i] == e[i]);
        }
        assert forall|i: int, j: int| 0 <= i < j < d.len() implies path_of(d[i].0) != path_of(d[j].0) by {
            assert(d[i] == e[i] && d[j] == e[j]);
        }
        assert forall|i: int| 0 <= i < d.len() implies json_wf(#[trigger] d[i].1) by {
            assert(d[i] == e[i]);
        }
        lemma_entries_at_keys(d);
        let prev = set_entries(h, d);
        let last = e.len() - 1;
        let p = path_of(e[last].0);
        let v = e[last].1;
        assert(path_of(e[last].0).len() == 1);
        assert(json_wf(e[last].1));
        crate::json::law_set_keeps_wf(prev, p, v);
        crate::json::law_get_after_set(prev, p, v);
        assert forall|i: int| 0 <= i < e.len() implies path_get(set_entries(h, e), path_of(#[trigger] e[i].0)) == Some(
            e[i].1,
        ) by {
            if i < last {
                assert(d[i] == e[i]);
                assert(path_of(e[i].0).len() == 1);
                crate::json::law_set_plain_key(prev, p, path_of(e[i].0), v);
            }
        }
        if last > 0 {
            assert(path_of(e[0].0).len() == 1);
            crate::json::law_set_plain_key(prev, p, path_of(e[0].0), v);
        }
    }
}

/// Without a left prefix, each entry of the left record alone is found at
/// its key, when the keys are plain and distinct.
pub proof fn law_union_left_entries(o: TwoRecordUnionOptionValidated, a: JsonView)
    requires
        o.left_prefix is None,
        json_wf(a),
        a is Hash,
        plain_distinct_entries(a->Hash_0),
    ensures
        forall|i: int|
            0 <= i < a->Hash_0.len() ==> path_get(union_spec(o, Some(a), None), path_of(#[trigger] a->Hash_0[i].0))
                == Some(a->Hash_0[i].1),
{
    let e = a->Hash_0;
    assert forall|i: int| 0 <= i < e.len() implies json_wf(#[trigger] e[i].1) by {}
    lemma_entries_at_keys(e);
}

pub open spec fn opt_view(r: Option<Record>) -> Option<JsonView> {
    match r {
        Some(x) => Some(x@),
        None => None,
    }
}

fn union_aux(r: &mut Record, prefix: &Option<String>, r1: Record)
    requires
        union_ok(prefix_view(*prefix), r1@),
    ensures
        final(r)@ == union_into(old(r)@, prefix_view(*prefix), r1@),
{
    match prefix {
        Some(p) => {
            r.set_path(p.as_str(), r1);
        },
        None => {
            let e = r1.expect_hash();
            let ghost ev = entries_view(e@);
            let ghost start = r@;
            let mut i: usize = 0;
            assert(ev.take(0) =~= Seq::<(Seq<char>, JsonView)>::empty());
            while i < e.len()
                invariant
                    r1@ == JsonView::Hash(ev),
                    ev == entries_view(e@),
                    union_ok(None, r1@),
                    i <= e@.len(),
                    r@ == set_entries(start, ev.take(i as int)),
                decreases e@.len() - i,
            {
                assert(ev.take(i + 1).drop_last() =~= ev.take(i as int));
                assert(ev[i as int].0 == e@[i as int].0@);
                assert(r1@->Hash_0 == ev);
                assert(path_text_valid(r1@->Hash_0[i as int].0));
                let v = e[i].1.duplicate();
                r.set_path(e[i].0.as_str(), v);
                i = i + 1;
            }
            assert(ev.take(i as int) =~= ev);
        },
    }
}

impl TwoRecordUnionOptionValidated {
    /// Merges the records that are there into one.
    pub fn union_maybe(&self, r1: Option<Record>, r2: Option<Record>) -> (r: Record)
        requires
            r1 matches Some(a) ==> union_ok(prefix_view(self.left_prefix), a@),
            r2 matches Some(b) ==> union_ok(prefix_view(self.right_prefix), b@),
        ensures
            r@ == union_spec(*self, opt_view(r1), opt_view(r2)),
    {
        let mut r = Record::empty_hash();
        match r1 {
            Some(a) => union_aux(&mut r, &self.left_prefix, a),
            None => {},
        }
        match r2 {
            Some(b) => union_aux(&mut r, &self.right_prefix, b),
            None => {},
        }
        r
    }

    /// Merges both records into one.
    pub fn union(&self, r1: Record, r2: Record) -> (r: Record)
        requires
            union_ok(prefix_view(self.left_prefix), r1@),
            union_ok(prefix_view(self.right_prefix), r2@),
        ensures
            r@ == union_spec(*self, Some(r1@), Some(r2@)),
    {
        self.union_maybe(Some(r1), Some(r2))
    }
}

} // verus!
