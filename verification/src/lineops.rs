//! Records made from single lines: by a regex's capture groups, or by
//! splitting the line on a delimiter, the pieces going to the given keys in
//! order.

use crate::json::{json_wf, path_get, path_set, JsonView};
use crate::multire::{fill_upto, pair_count};
use crate::path::{path_of, path_text_valid};
use crate::record::Record;
use crate::regexes::{
    groups_view, regex_captures, regex_groups, regex_pieces, regex_split, str_pieces, str_split,
    strings_seq, CompiledRegex,
};
use vstd::prelude::*;

verus! {

pub open spec fn keys_view(keys: Seq<String>) -> Seq<Seq<char>> {
    keys.map_values(|k: String| k@)
}

pub open spec fn keys_valid(keys: Seq<String>) -> bool {
    forall|i: int| 0 <= i < keys.len() ==> path_text_valid(#[trigger] keys[i]@)
}

/// Sets the groups that matched, as strings, at their keys, in order.
fn set_groups(r: &mut Record, keys: &Vec<String>, groups: &Vec<Option<String>>)
    requires
        keys_valid(keys@),
    ensures
        final(r)@ == fill_upto(
            old(r)@,
            keys_view(keys@),
            groups_view(groups@),
            pair_count(keys@.len() as int, groups@.len() as int),
        ),
{
    let ghost kv = keys_view(keys@);
    let ghost gv = groups_view(groups@);
    let ghost r0 = r@;
    let n = if keys.len() < groups.len() {
        keys.len()
    } else {
        groups.len()
    };
    let mut j: usize = 0;
    while j < n
        invariant
            kv == keys_view(keys@),
            gv == groups_view(groups@),
            keys_valid(keys@),
            n <= keys@.len(),
            n <= groups@.len(),
            j <= n,
            r@ == fill_upto(r0, kv, gv, j as int),
        decreases n - j,
    {
        assert(path_text_valid(keys@[j as int]@));
        match &groups[j] {
            Some(m) => {
                let v = Record::from_str(m.as_str());
                r.set_path(keys[j].as_str(), v);
            },
            None => {},
        }
        j = j + 1;
    }
}

/// The record a line gives when the regex matches it: each capture group
/// that took part set at its key; `None` when the regex does not match.
pub fn from_regex_line(re: &CompiledRegex, keys: &Vec<String>, line: &str) -> (r: Option<Record>)
    requires
        keys_valid(keys@),
    ensures
        match regex_groups(re.pattern(), line@) {
            None => r is None,
            Some(gs) => r matches Some(x) && x@ == fill_upto(
                JsonView::Hash(Seq::empty()),
                keys_view(keys@),
                gs,
                pair_count(keys@.len() as int, gs.len() as int),
            ),
        },
{
    match regex_captures(re, line) {
        None => None,
        Some(groups) => {
            let mut r = Record::empty_hash();
            set_groups(&mut r, keys, &groups);
            Some(r)
        },
    }
}

/// What a line is split on.
pub enum Delimiter {
    Str(String),
    Regex(CompiledRegex),
}

/// The pieces a delimiter cuts a line into.
pub open spec fn pieces(d: Delimiter, line: Seq<char>) -> Seq<Seq<char>> {
    match d {
        Delimiter::Str(s) => str_pieces(line, s@),
        Delimiter::Regex(c) => regex_pieces(c.pattern(), line),
    }
}

/// `r` with the first `n` pieces set, as strings, at their keys.
pub open spec fn set_pieces(r: JsonView, keys: Seq<Seq<char>>, ps: Seq<Seq<char>>, n: int) -> JsonView
    decreases n,
{
    if n <= 0 {
        r
    } else {
        path_set(set_pieces(r, keys, ps, n - 1), path_of(keys[n - 1]), JsonView::Str(ps[n - 1]))
    }
}

/// Each key is a single key step, and no two keys name the same one.
pub open spec fn plain_distinct_keys(keys: Seq<Seq<char>>) -> bool {
    &&& forall|i: int| 0 <= i < keys.len() ==> (#[trigger] path_of(keys[i])).len() == 1 && path_of(keys[i])[0] is Key
    &&& forall|i: int, j: int| 0 <= i < j < keys.len() ==> path_of(keys[i]) != path_of(keys[j])
}

/// With plain, distinct keys, every one of the first `n` pieces, empty ones
/// included, is found as a string at its key.
pub proof fn law_pieces_at_keys(keys: Seq<Seq<char>>, ps: Seq<Seq<char>>, n: int)
    requires
        0 <= n <= keys.len(),
        n <= ps.len(),
        plain_distinct_keys(keys),
    ensures
        set_pieces(JsonView::Hash(Seq::empty()), keys, ps, n) is Hash,
        json_wf(set_pieces(JsonView::Hash(Seq::empty()), keys, ps, n)),
        forall|j: int|
            0 <= j < n ==> path_get(set_pieces(JsonView::Hash(Seq::empty()), keys, ps, n), path_of(#[trigger] keys[j]))
                == Some(JsonView::Str(ps[j])),
    decreases n,
{
    let e = JsonView::Hash(Seq::empty());
    if n == 0 {
        assert(json_wf(e));
    } else {
        law_pieces_at_keys(keys, ps, n - 1);
        let prev = set_pieces(e, keys, ps, n - 1);
        let p = path_of(keys[n - 1]);
        let v = JsonView::Str(ps[n - 1]);
        assert(path_of(keys[n - 1]).len() == 1);
        crate::json::law_set_keeps_wf(prev, p, v);
        crate::json::law_get_after_set(prev, p, v);
        assert forall|j: int| 0 <= j < n implies path_get(set_pieces(e, keys, ps, n), path_of(#[trigger] keys[j]))
            == Some(JsonView::Str(ps[j])) by {
            if j < n - 1 {
                assert(path_of(keys[j]).len() == 1);
                crate::json::law_set_plain_key(prev, p, path_of(keys[j]), v);
            }
        }
        if n - 1 > 0 {
            crate::json::law_set_plain_key(prev, p, path_of(keys[0]), v);
        } else {
            assert(path_set(prev, p, v) is Hash);
        }
    }
}

/// The record a line gives: the line cut at the delimiter, the pieces set
/// at the keys in order (extra pieces or extra keys are left out).
pub fn from_split_line(d: &Delimiter, keys: &Vec<String>, line: &str) -> (r: Record)
    requires
        keys_valid(keys@),
    ensures
        r@ == set_pieces(
            JsonView::Hash(Seq::empty()),
            keys_view(keys@),
            pieces(*d, line@),
            pair_count(keys@.len() as int, pieces(*d, line@).len() as int),
        ),
{
    let vals = match d {
        Delimiter::Str(s) => str_split(line, s.as_str()),
        Delimiter::Regex(c) => regex_split(c, line),
    };
    let ghost ps = strings_seq(vals@);
    assert(ps == pieces(*d, line@));
    let ghost kv = keys_view(keys@);
    let mut r = Record::empty_hash();
    let n = if keys.len() < vals.len() {
        keys.len()
    } else {
        vals.len()
    };
    let mut j: usize = 0;
    while j < n
        invariant
            kv == keys_view(keys@),
            ps == strings_seq(vals@),
            keys_valid(keys@),
            n <= keys@.len(),
            n <= vals@.len(),
            j <= n,
            r@ == set_pieces(JsonView::Hash(Seq::empty()), kv, ps, j as int),
        decreases n - j,
    {
        assert(path_text_valid(keys@[j as int]@));
        let v = Record::from_str(vals[j].as_str());
        r.set_path(keys[j].as_str(), v);
        j = j + 1;
    }
    r
}

} // verus!
