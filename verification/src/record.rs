//! Records: JSON values addressed by paths.

use crate::json::{
    as_array, as_hash, deparse_spec, entries_text, hash_get, hash_put, items_text, json_quoted,
    json_wf, keys_sorted, key_at, law_del_keeps_wf, law_set_keeps_wf, lemma_hash_put_wf, lower,
    or_null, pad_nulls, part_del, path_del, path_get, path_set, pretty_spec, step_get, Entries,
    JsonView,
};
use crate::jsontext::{json_int, json_quote, parse_raw, serde_accepts, serde_read, RawJson, RawView};
use crate::path::{path_of, path_text_valid, Path, PathStep, Step};
use crate::text::{chars_eq, chars_lt, chars_of, push_char, str_eq_chars};
use vstd::prelude::*;

verus! {

/// A leaf value. A float is held as the JSON text it prints as.
#[derive(Clone)]
pub enum JsonPrimitive {
    Null(),
    Bool(bool),
    NumberI64(i64),
    NumberF64(String),
    String(String),
}

/// One level of a record. Hash entries are kept in ascending key order.
pub enum RecordNode {
    Primitive(JsonPrimitive),
    Array(Vec<Record>),
    Hash(Vec<(String, Record)>),
}

/// A JSON value.
pub struct Record(pub(crate) RecordNode);

/// The tree a leaf denotes.
pub open spec fn primitive_view(p: JsonPrimitive) -> JsonView {
    match p {
        JsonPrimitive::Null() => JsonView::Null,
        JsonPrimitive::Bool(b) => JsonView::Bool(b),
        JsonPrimitive::NumberI64(n) => JsonView::Int(n),
        JsonPrimitive::NumberF64(s) => JsonView::Float(s@),
        JsonPrimitive::String(s) => JsonView::Str(s@),
    }
}

pub closed spec fn record_view(r: Record) -> JsonView
    decreases r,
{
    match r.0 {
        RecordNode::Primitive(p) => primitive_view(p),
        RecordNode::Array(v) => JsonView::Array(records_view(v@)),
        RecordNode::Hash(v) => JsonView::Hash(entries_view(v@)),
    }
}

pub open spec fn records_view(v: Seq<Record>) -> Seq<JsonView>
    decreases v,
{
    Seq::new(v.len(), |i: int| if 0 <= i < v.len() { record_view(v[i]) } else { JsonView::Null })
}

pub open spec fn entries_view(v: Seq<(String, Record)>) -> Entries
    decreases v,
{
    Seq::new(
        v.len(),
        |i: int|
            if 0 <= i < v.len() {
                (v[i].0@, record_view(v[i].1))
            } else {
                (Seq::empty(), JsonView::Null)
            },
    )
}

impl View for Record {
    type V = JsonView;

    open spec fn view(&self) -> JsonView {
        record_view(*self)
    }
}

/// The position `lower` gives for `k` among the entries.
fn hash_lower(e: &Vec<(String, Record)>, k: &[char]) -> (p: usize)
    ensures
        p == lower(entries_view(e@), k@),
        p <= e@.len(),
{
    let ghost ev = entries_view(e@);
    let mut p = e.len();
    assert(ev.take(p as int) =~= ev);
    while p > 0
        invariant
            ev == entries_view(e@),
            p <= e@.len(),
            lower(ev, k@) == lower(ev.take(p as int), k@),
        decreases p,
    {
        let kc = chars_of(e[p - 1].0.as_str());
        assert(ev.take(p as int).last() == ev[p - 1]);
        if chars_lt(kc.as_slice(), k) {
            return p;
        }
        assert(ev.take(p as int).drop_last() =~= ev.take(p - 1));
        p = p - 1;
    }
    0
}

/// Where `k` is, or would go, among the entries, and whether it is there.
fn hash_find(e: &Vec<(String, Record)>, k: &[char]) -> (r: (usize, bool))
    ensures
        r.0 == lower(entries_view(e@), k@),
        r.0 <= e@.len(),
        r.1 == key_at(entries_view(e@), k@, r.0 as int),
{
    let p = hash_lower(e, k);
    if p < e.len() {
        let found = str_eq_chars(e[p].0.as_str(), k);
        (p, found)
    } else {
        (p, false)
    }
}

fn step_key<'a>(st: &PathStep<'a>) -> (k: Option<Vec<char>>)
    ensures
        match k {
            Some(c) => st@ == Step::Key(c@),
            None => st@ is Index,
        },
{
    match st {
        PathStep::RefHash(s) => Some(chars_of(s)),
        PathStep::OwnHash(s) => Some(chars_of(s.as_str())),
        PathStep::Array(_) => None,
    }
}

fn step_key_string<'a>(st: &PathStep<'a>) -> (k: String)
    requires
        st@ is Key,
    ensures
        st@ == Step::Key(k@),
{
    match st {
        PathStep::RefHash(s) => (*s).to_owned(),
        PathStep::OwnHash(s) => s.clone(),
        PathStep::Array(_) => String::new(),
    }
}

impl Record {
    /// Well-formed: every hash holds its keys in strictly ascending order.
    pub open spec fn wf(&self) -> bool {
        json_wf(self@)
    }

    /// Every record is well-formed.
    #[verifier::type_invariant]
    closed spec fn inv(self) -> bool {
        json_wf(record_view(self))
    }

    /// Every record is well-formed; this makes it known of this one.
    pub fn note_wf(&self)
        ensures
            self.wf(),
    {
        proof {
            use_type_invariant(self);
        }
    }

    pub fn null() -> (r: Record)
        ensures
            r@ == JsonView::Null,
    {
        Record(RecordNode::Primitive(JsonPrimitive::Null()))
    }

    pub fn from_bool(b: bool) -> (r: Record)
        ensures
            r@ == JsonView::Bool(b),
    {
        Record(RecordNode::Primitive(JsonPrimitive::Bool(b)))
    }

    pub fn from_i64(n: i64) -> (r: Record)
        ensures
            r@ == JsonView::Int(n),
    {
        Record(RecordNode::Primitive(JsonPrimitive::NumberI64(n)))
    }

    pub fn from_string(s: String) -> (r: Record)
        ensures
            r@ == JsonView::Str(s@),
    {
        Record(RecordNode::Primitive(JsonPrimitive::String(s)))
    }

    pub fn from_str(s: &str) -> (r: Record)
        ensures
            r@ == JsonView::Str(s@),
    {
        Record(RecordNode::Primitive(JsonPrimitive::String(s.to_owned())))
    }

    pub fn from_primitive(p: JsonPrimitive) -> (r: Record)
        ensures
            r@ == primitive_view(p),
    {
        Record(RecordNode::Primitive(p))
    }

    pub fn empty_hash() -> (r: Record)
        ensures
            r@ == JsonView::Hash(Seq::empty()),
            r.wf(),
    {
        let r = Record(RecordNode::Hash(Vec::new()));
        assert(entries_view(Seq::<(String, Record)>::empty()) =~= Seq::<(Seq<char>, JsonView)>::empty());
        r
    }

    pub fn from_vec(v: Vec<Record>) -> (r: Record)
        ensures
            r@ == JsonView::Array(records_view(v@)),
    {
        let mut i: usize = 0;
        while i < v.len()
            invariant
                i <= v@.len(),
                forall|j: int| 0 <= j < i ==> (#[trigger] v@[j]).wf(),
            decreases v@.len() - i,
        {
            v[i].note_wf();
            i = i + 1;
        }
        assert(json_wf(JsonView::Array(records_view(v@)))) by {
            assert forall|j: int| 0 <= j < records_view(v@).len() implies json_wf(#[trigger] records_view(v@)[j]) by {
                assert(v@[j].wf());
            }
        }
        Record(RecordNode::Array(v))
    }

    /// A copy equal to this record.
    pub fn duplicate(&self) -> (r: Record)
        ensures
            r@ == self@,
        decreases self,
    {
        proof {
            use_type_invariant(self);
        }
        match &self.0 {
            RecordNode::Primitive(p) => Record(RecordNode::Primitive(
                match p {
                    JsonPrimitive::Null() => JsonPrimitive::Null(),
                    JsonPrimitive::Bool(b) => JsonPrimitive::Bool(*b),
                    JsonPrimitive::NumberI64(n) => JsonPrimitive::NumberI64(*n),
                    JsonPrimitive::NumberF64(s) => JsonPrimitive::NumberF64(s.clone()),
                    JsonPrimitive::String(s) => JsonPrimitive::String(s.clone()),
                },
            )),
            RecordNode::Array(a) => {
                let mut out: Vec<Record> = Vec::new();
                let mut i: usize = 0;
                while i < a.len()
                    invariant
                        self.0 == RecordNode::Array(*a),
                        i <= a@.len(),
                        out@.len() == i,
                        forall|j: int| 0 <= j < i ==> (#[trigger] out@[j])@ == a@[j]@,
                    decreases a@.len() - i,
                {
                    assert(decreases_to!(*self => self.0));
                    assert(decreases_to!(self.0 => self.0->Array_0));
                    assert(decreases_to!(*a => a@));
                    assert(decreases_to!(a@ => a@[i as int]));
                    assert(decreases_to!(*self => a@[i as int]));
                    let c = a[i].duplicate();
                    out.push(c);
                    i = i + 1;
                }
                assert(records_view(out@) =~= records_view(a@));
                Record(RecordNode::Array(out))
            },
            RecordNode::Hash(e) => {
                let mut out: Vec<(String, Record)> = Vec::new();
                let mut i: usize = 0;
                while i < e.len()
                    invariant
                        self.0 == RecordNode::Hash(*e),
                        i <= e@.len(),
                        out@.len() == i,
                        forall|j: int| 0 <= j < i ==> (#[trigger] out@[j]).0@ == e@[j].0@ && out@[j].1@ == e@[j].1@,
                    decreases e@.len() - i,
                {
                    assert(decreases_to!(*self => self.0));
                    assert(decreases_to!(self.0 => self.0->Hash_0));
                    assert(decreases_to!(*e => e@));
                    assert(decreases_to!(e@ => e@[i as int]));
                    assert(decreases_to!(e@[i as int] => e@[i as int].1));
                    assert(decreases_to!(*self => e@[i as int].1));
                    let c = e[i].1.duplicate();
                    out.push((e[i].0.clone(), c));
                    i = i + 1;
                }
                assert(entries_view(out@) =~= entries_view(e@));
                Record(RecordNode::Hash(out))
            },
        }
    }

    /// Whether two records hold the same JSON value.
    pub fn equals(&self, other: &Record) -> (r: bool)
        ensures
            r == (self@ == other@),
        decreases self,
    {
        match (&self.0, &other.0) {
            (RecordNode::Primitive(p), RecordNode::Primitive(q)) => match (p, q) {
                (JsonPrimitive::Null(), JsonPrimitive::Null()) => true,
                (JsonPrimitive::Bool(a), JsonPrimitive::Bool(b)) => *a == *b,
                (JsonPrimitive::NumberI64(a), JsonPrimitive::NumberI64(b)) => *a == *b,
                (JsonPrimitive::NumberF64(a), JsonPrimitive::NumberF64(b)) => {
                    let x = chars_of(a.as_str());
                    let y = chars_of(b.as_str());
                    chars_eq(x.as_slice(), y.as_slice())
                },
                (JsonPrimitive::String(a), JsonPrimitive::String(b)) => {
                    let x = chars_of(a.as_str());
                    let y = chars_of(b.as_str());
                    chars_eq(x.as_slice(), y.as_slice())
                },
                _ => false,
            },
            (RecordNode::Array(a), RecordNode::Array(b)) => {
                if a.len() != b.len() {
                    assert(records_view(a@).len() != records_view(b@).len());
                    return false;
                }
                let mut i: usize = 0;
                while i < a.len()
                    invariant
                        self.0 == RecordNode::Array(*a),
                        other.0 == RecordNode::Array(*b),
                        a@.len() == b@.len(),
                        i <= a@.len(),
                        forall|j: int| 0 <= j < i ==> (#[trigger] a@[j])@ == b@[j]@,
                    decreases a@.len() - i,
                {
                    assert(decreases_to!(*self => self.0));
                    assert(decreases_to!(self.0 => self.0->Array_0));
                    assert(decreases_to!(*a => a@));
                    assert(decreases_to!(a@ => a@[i as int]));
                    assert(decreases_to!(*self => a@[i as int]));
                    if !a[i].equals(&b[i]) {
                        assert(records_view(a@)[i as int] != records_view(b@)[i as int]);
                        return false;
                    }
                    i = i + 1;
                }
                assert(records_view(a@) =~= records_view(b@));
                true
            },
            (RecordNode::Hash(a), RecordNode::Hash(b)) => {
                if a.len() != b.len() {
                    assert(entries_view(a@).len() != entries_view(b@).len());
                    return false;
                }
                let mut i: usize = 0;
                while i < a.len()
                    invariant
                        self.0 == RecordNode::Hash(*a),
                        other.0 == RecordNode::Hash(*b),
                        a@.len() == b@.len(),
                        i <= a@.len(),
                        forall|j: int| 0 <= j < i ==> (#[trigger] a@[j]).0@ == b@[j].0@ && a@[j].1@ == b@[j].1@,
                    decreases a@.len() - i,
                {
                    assert(decreases_to!(*self => self.0));
                    assert(decreases_to!(self.0 => self.0->Hash_0));
                    assert(decreases_to!(*a => a@));
                    assert(decreases_to!(a@ => a@[i as int]));
                    assert(decreases_to!(a@[i as int] => a@[i as int].1));
                    assert(decreases_to!(*self => a@[i as int].1));
                    let x = chars_of(a[i].0.as_str());
                    let y = chars_of(b[i].0.as_str());
                    if !chars_eq(x.as_slice(), y.as_slice()) {
                        assert(entries_view(a@)[i as int] != entries_view(b@)[i as int]);
                        return false;
                    }
                    if !a[i].1.equals(&b[i].1) {
                        assert(entries_view(a@)[i as int] != entries_view(b@)[i as int]);
                        return false;
                    }
                    i = i + 1;
                }
                assert(entries_view(a@) =~= entries_view(b@));
                true
            },
            _ => false,
        }
    }

    /// What one step reaches, if anything.
    pub fn get_step(&self, st: &PathStep) -> (r: Option<&Record>)
        ensures
            match r {
                Some(c) => step_get(self@, st@) == Some(c@),
                None => step_get(self@, st@) is None,
            },
    {
        match step_key(st) {
            Some(k) => match &self.0 {
                RecordNode::Hash(e) => {
                    let (p, found) = hash_find(e, k.as_slice());
                    if found {
                        Some(&e[p].1)
                    } else {
                        None
                    }
                },
                _ => None,
            },
            None => {
                let n = match st {
                    PathStep::Array(n) => *n,
                    _ => 0,
                };
                match &self.0 {
                    RecordNode::Array(a) => {
                        if n < a.len() {
                            Some(&a[n])
                        } else {
                            None
                        }
                    },
                    _ => None,
                }
            },
        }
    }

    /// What a path reaches, if anything.
    pub fn get_path_opt(&self, path: &str) -> (r: Option<&Record>)
        requires
            path_text_valid(path@),
        ensures
            match r {
                Some(c) => path_get(self@, path_of(path@)) == Some(c@),
                None => path_get(self@, path_of(path@)) is None,
            },
    {
        let p = Path::new(path);
        let mut cur: &Record = self;
        let mut i: usize = 0;
        assert(p@.skip(0) =~= p@);
        while i < p.0.len()
            invariant
                i <= p@.len(),
                p@.len() == p.0@.len(),
                p@ == path_of(path@),
                path_get(self@, p@) == path_get(cur@, p@.skip(i as int)),
            decreases p@.len() - i,
        {
            assert(p@.skip(i as int)[0] == p.0@[i as int]@);
            assert(p@.skip(i as int).drop_first() =~= p@.skip(i + 1));
            match cur.get_step(&p.0[i]) {
                Some(c) => {
                    cur = c;
                },
                None => {
                    assert(path_get(cur@, p@.skip(i as int)) is None);
                    return None;
                },
            }
            i = i + 1;
        }
        assert(p@.skip(i as int).len() == 0);
        Some(cur)
    }

    /// Whether the path reaches anything.
    pub fn has_path(&self, path: &str) -> (r: bool)
        requires
            path_text_valid(path@),
        ensures
            r == path_get(self@, path_of(path@)) is Some,
    {
        self.get_path_opt(path).is_some()
    }

    /// What the path reaches, null when it reaches nothing.
    pub fn get_path(&self, path: &str) -> (r: Record)
        requires
            path_text_valid(path@),
        ensures
            r@ == or_null(path_get(self@, path_of(path@))),
    {
        match self.get_path_opt(path) {
            Some(c) => c.duplicate(),
            None => Record::null(),
        }
    }

    fn set_steps(self, p: &Path, i: usize, v: Record) -> (r: Record)
        requires
            i <= p@.len(),
        ensures
            r@ == path_set(self@, p@.skip(i as int), v@),
        decreases p@.len() - i,
    {
        proof {
            use_type_invariant(&self);
            use_type_invariant(&v);
            law_set_keeps_wf(self@, p@.skip(i as int), v@);
        }
        if i == p.0.len() {
            assert(p@.skip(i as int).len() == 0);
            return v;
        }
        assert(p@.skip(i as int)[0] == p.0@[i as int]@);
        assert(p@.skip(i as int).drop_first() =~= p@.skip(i + 1));
        let st = &p.0[i];
        match step_key(st) {
            Some(kc) => {
                let ghost j = self@;
                let mut e: Vec<(String, Record)> = match self.0 {
                    RecordNode::Hash(e) => e,
                    _ => Vec::new(),
                };
                assert(entries_view(e@) == as_hash(j)) by {
                    if !(j is Hash) {
                        assert(entries_view(e@) =~= Seq::<(Seq<char>, JsonView)>::empty());
                    }
                };
                let ghost ev = entries_view(e@);
                let (pos, found) = hash_find(&e, kc.as_slice());
                if found {
                    let (k, c) = e.remove(pos);
                    assert(c@ == or_null(hash_get(ev, kc@)));
                    let c2 = c.set_steps(p, i + 1, v);
                    e.insert(pos, (k, c2));
                    assert(entries_view(e@) =~= ev.update(pos as int, (kc@, c2@)));
                } else {
                    let n = Record::null();
                    let c2 = n.set_steps(p, i + 1, v);
                    let ks = step_key_string(st);
                    e.insert(pos, (ks, c2));
                    assert(entries_view(e@) =~= ev.insert(pos as int, (kc@, c2@)));
                }
                assert(JsonView::Hash(entries_view(e@)) == path_set(j, p@.skip(i as int), v@));
                Record(RecordNode::Hash(e))
            },
            None => {
                let n = match st {
                    PathStep::Array(n) => *n,
                    _ => 0,
                };
                let ghost j = self@;
                let mut a: Vec<Record> = match self.0 {
                    RecordNode::Array(a) => a,
                    _ => Vec::new(),
                };
                assert(records_view(a@) == as_array(j)) by {
                    if !(j is Array) {
                        assert(records_view(a@) =~= Seq::<JsonView>::empty());
                    }
                };
                let ghost a0 = as_array(j);
                while a.len() <= n
                    invariant
                        a0.len() <= a@.len(),
                        a@.len() <= a0.len() || a@.len() <= n + 1,
                        records_view(a@) =~= a0 + Seq::new((a@.len() - a0.len()) as nat, |_i: int| JsonView::Null),
                    decreases n + 1 - a@.len(),
                {
                    let ghost before = a@;
                    let nl = Record::null();
                    a.push(nl);
                    assert(records_view(a@) =~= records_view(before).push(JsonView::Null));
                    assert((a0 + Seq::new((before.len() - a0.len()) as nat, |_i: int| JsonView::Null)).push(JsonView::Null)
                        =~= a0 + Seq::new((a@.len() - a0.len()) as nat, |_i: int| JsonView::Null));
                }
                assert(records_view(a@) =~= pad_nulls(a0, n as nat));
                let c = a.remove(n);
                let c2 = c.set_steps(p, i + 1, v);
                a.insert(n, c2);
                assert(records_view(a@) =~= pad_nulls(a0, n as nat).update(n as int, c2@));
                assert(JsonView::Array(records_view(a@)) == path_set(j, p@.skip(i as int), v@));
                Record(RecordNode::Array(a))
            },
        }
    }

    /// Puts `v` at the path, making room along the way.
    pub fn set_path(&mut self, path: &str, v: Record)
        requires
            path_text_valid(path@),
        ensures
            final(self)@ == path_set(old(self)@, path_of(path@), v@),
            old(self).wf() && v.wf() ==> final(self).wf(),
    {
        let p = Path::new(path);
        let mut cur = Record::null();
        std::mem::swap(&mut cur, self);
        let ghost v0 = v@;
        let r = cur.set_steps(&p, 0, v);
        assert(p@.skip(0) =~= p@);
        *self = r;
        proof {
            if json_wf(old(self)@) && json_wf(v0) {
                law_set_keeps_wf(old(self)@, path_of(path@), v0);
            }
        }
    }

    fn del_part(self, st: &PathStep) -> (r: (Record, Record))
        ensures
            r.0@ == part_del(self@, st@).0,
            r.1@ == part_del(self@, st@).1,
    {
        proof {
            use_type_invariant(&self);
            law_del_keeps_wf(self@, seq![st@]);
            assert(path_del(self@, seq![st@]) == part_del(self@, st@));
        }
        let ghost j = self@;
        match step_key(st) {
            Some(kc) => match self.0 {
                RecordNode::Hash(mut e) => {
                    let ghost ev = entries_view(e@);
                    let (pos, found) = hash_find(&e, kc.as_slice());
                    if found {
                        let (_k, c) = e.remove(pos);
                        assert(entries_view(e@) =~= ev.remove(pos as int));
                        assert(JsonView::Hash(entries_view(e@)) == part_del(j, st@).0);
                        (Record(RecordNode::Hash(e)), c)
                    } else {
                        (Record(RecordNode::Hash(e)), Record::null())
                    }
                },
                other => (Record(other), Record::null()),
            },
            None => {
                let n = match st {
                    PathStep::Array(n) => *n,
                    _ => 0,
                };
                match self.0 {
                    RecordNode::Array(mut a) => {
                        let ghost av = records_view(a@);
                        if n < a.len() {
                            let c = a.remove(n);
                            assert(records_view(a@) =~= av.remove(n as int));
                            assert(JsonView::Array(records_view(a@)) == part_del(j, st@).0);
                            (Record(RecordNode::Array(a)), c)
                        } else {
                            (Record(RecordNode::Array(a)), Record::null())
                        }
                    },
                    other => (Record(other), Record::null()),
                }
            },
        }
    }

    fn del_steps(self, p: &Path, i: usize) -> (r: (Record, Record))
        requires
            i < p@.len(),
        ensures
            r.0@ == path_del(self@, p@.skip(i as int)).0,
            r.1@ == path_del(self@, p@.skip(i as int)).1,
        decreases p@.len() - i,
    {
        proof {
            use_type_invariant(&self);
            law_del_keeps_wf(self@, p@.skip(i as int));
        }
        assert(p@.skip(i as int)[0] == p.0@[i as int]@);
        assert(p@.skip(i as int).drop_first() =~= p@.skip(i + 1));
        let st = &p.0[i];
        assert(p@.len() == p.0@.len());
        let len = p.0.len();
        if i == len - 1 {
            return self.del_part(st);
        }
        match step_key(st) {
            Some(kc) => {
                let ghost j = self@;
                let mut e: Vec<(String, Record)> = match self.0 {
                    RecordNode::Hash(e) => e,
                    _ => Vec::new(),
                };
                assert(entries_view(e@) == as_hash(j)) by {
                    if !(j is Hash) {
                        assert(entries_view(e@) =~= Seq::<(Seq<char>, JsonView)>::empty());
                    }
                };
                let ghost ev = entries_view(e@);
                let (pos, found) = hash_find(&e, kc.as_slice());
                let removed;
                if found {
                    let (k, c) = e.remove(pos);
                    let (c2, rm) = c.del_steps(p, i + 1);
                    removed = rm;
                    e.insert(pos, (k, c2));
                    assert(entries_view(e@) =~= ev.update(pos as int, (kc@, c2@)));
                } else {
                    let n = Record::null();
                    let (c2, rm) = n.del_steps(p, i + 1);
                    removed = rm;
                    let ks = step_key_string(st);
                    e.insert(pos, (ks, c2));
                    assert(entries_view(e@) =~= ev.insert(pos as int, (kc@, c2@)));
                }
                assert(JsonView::Hash(entries_view(e@)) == path_del(j, p@.skip(i as int)).0);
                (Record(RecordNode::Hash(e)), removed)
            },
            None => {
                let n = match st {
                    PathStep::Array(n) => *n,
                    _ => 0,
                };
                let ghost j = self@;
                let mut a: Vec<Record> = match self.0 {
                    RecordNode::Array(a) => a,
                    _ => Vec::new(),
                };
                assert(records_view(a@) == as_array(j)) by {
                    if !(j is Array) {
                        assert(records_view(a@) =~= Seq::<JsonView>::empty());
                    }
                };
                let ghost a0 = as_array(j);
                while a.len() <= n
                    invariant
                        a0.len() <= a@.len(),
                        a@.len() <= a0.len() || a@.len() <= n + 1,
                        records_view(a@) =~= a0 + Seq::new((a@.len() - a0.len()) as nat, |_i: int| JsonView::Null),
                    decreases n + 1 - a@.len(),
                {
                    let ghost before = a@;
                    let nl = Record::null();
                    a.push(nl);
                    assert(records_view(a@) =~= records_view(before).push(JsonView::Null));
                    assert((a0 + Seq::new((before.len() - a0.len()) as nat, |_i: int| JsonView::Null)).push(JsonView::Null)
                        =~= a0 + Seq::new((a@.len() - a0.len()) as nat, |_i: int| JsonView::Null));
                }
                assert(records_view(a@) =~= pad_nulls(a0, n as nat));
                let c = a.remove(n);
                let (c2, rm) = c.del_steps(p, i + 1);
                a.insert(n, c2);
                assert(records_view(a@) =~= pad_nulls(a0, n as nat).update(n as int, c2@));
                assert(JsonView::Array(records_view(a@)) == path_del(j, p@.skip(i as int)).0);
                (Record(RecordNode::Array(a)), rm)
            },
        }
    }

    /// Removes what a non-empty path reaches and returns it (null when it
    /// reaches nothing). The steps before the last make room as `set_path`
    /// does.
    pub fn del_path(&mut self, path: &str) -> (r: Record)
        requires
            path_text_valid(path@),
            path@.len() > 0,
        ensures
            final(self)@ == path_del(old(self)@, path_of(path@)).0,
            r@ == path_del(old(self)@, path_of(path@)).1,
            old(self).wf() ==> final(self).wf(),
    {
        let p = Path::new(path);
        proof {
            crate::text::lemma_split_char_nonempty(path@, '/');
        }
        let mut cur = Record::null();
        std::mem::swap(&mut cur, self);
        let (r0, r1) = cur.del_steps(&p, 0);
        assert(p@.skip(0) =~= p@);
        *self = r0;
        proof {
            if json_wf(old(self)@) {
                law_del_keeps_wf(old(self)@, path_of(path@));
            }
        }
        r1
    }

    /// The elements of an array record.
    pub fn expect_array(&self) -> (r: &Vec<Record>)
        requires
            self@ is Array,
        ensures
            self@ == JsonView::Array(records_view(r@)),
    {
        match &self.0 {
            RecordNode::Array(a) => a,
            _ => vstd::pervasive::unreached(),
        }
    }

    /// The entries of a hash record, in ascending key order.
    pub fn expect_hash(&self) -> (r: &Vec<(String, Record)>)
        requires
            self@ is Hash,
        ensures
            self@ == JsonView::Hash(entries_view(r@)),
            keys_sorted(entries_view(r@)),
    {
        proof {
            use_type_invariant(self);
        }
        match &self.0 {
            RecordNode::Hash(e) => e,
            _ => vstd::pervasive::unreached(),
        }
    }
}

impl Clone for Record {
    fn clone(&self) -> (r: Record)
        ensures
            r@ == self@,
    {
        self.duplicate()
    }
}

/// Binds `k` to `v` among the entries, keeping them in key order.
fn hash_put_entry(e: &mut Vec<(String, Record)>, k: String, v: Record)
    ensures
        entries_view(final(e)@) == hash_put(entries_view(old(e)@), k@, v@),
{
    let kc = chars_of(k.as_str());
    let ghost ev = entries_view(e@);
    let (pos, found) = hash_find(e, kc.as_slice());
    if found {
        let _old = e.remove(pos);
        e.insert(pos, (k, v));
        assert(entries_view(e@) =~= ev.update(pos as int, (kc@, v@)));
    } else {
        e.insert(pos, (k, v));
        assert(entries_view(e@) =~= ev.insert(pos as int, (kc@, v@)));
    }
}


impl Record {
    fn deparse_into(&self, acc: &mut String)
        ensures
            final(acc)@ == old(acc)@ + deparse_spec(self@),
        decreases self,
    {
        match &self.0 {
            RecordNode::Primitive(p) => match p {
                JsonPrimitive::Null() => {
                    acc.append("null");
                    proof {
                        reveal_strlit("null");
                    }
                },
                JsonPrimitive::Bool(b) => {
                    if *b {
                        acc.append("true");
                        proof {
                            reveal_strlit("true");
                        }
                    } else {
                        acc.append("false");
                        proof {
                            reveal_strlit("false");
                        }
                    }
                },
                JsonPrimitive::NumberI64(n) => {
                    let t = json_int(*n);
                    acc.append(t.as_str());
                },
                JsonPrimitive::NumberF64(t) => {
                    acc.append(t.as_str());
                },
                JsonPrimitive::String(s) => {
                    let q = json_quote(s.as_str());
                    acc.append(q.as_str());
                },
            },
            RecordNode::Array(a) => {
                push_char(acc, '[');
                let ghost start = acc@;
                let ghost av = records_view(a@);
                let mut i: usize = 0;
                assert(av.take(0) =~= Seq::<JsonView>::empty());
                while i < a.len()
                    invariant
                        self.0 == RecordNode::Array(*a),
                        av == records_view(a@),
                        i <= a@.len(),
                        acc@ == start + items_text(av.take(i as int)),
                    decreases a@.len() - i,
                {
                    assert(decreases_to!(*self => self.0));
                    assert(decreases_to!(self.0 => self.0->Array_0));
                    assert(decreases_to!(*a => a@));
                    assert(decreases_to!(a@ => a@[i as int]));
                    assert(av.take(i + 1).drop_last() =~= av.take(i as int));
                    assert(av.take(i + 1).last() == a@[i as int]@);
                    if i > 0 {
                        push_char(acc, ',');
                    }
                    a[i].deparse_into(acc);
                    i = i + 1;
                }
                assert(av.take(i as int) =~= av);
                push_char(acc, ']');
                assert(acc@ =~= old(acc)@ + deparse_spec(self@));
            },
            RecordNode::Hash(e) => {
                push_char(acc, '{');
                let ghost start = acc@;
                let ghost ev = entries_view(e@);
                let mut i: usize = 0;
                assert(ev.take(0) =~= Seq::<(Seq<char>, JsonView)>::empty());
                while i < e.len()
                    invariant
                        self.0 == RecordNode::Hash(*e),
                        ev == entries_view(e@),
                        i <= e@.len(),
                        acc@ == start + entries_text(ev.take(i as int)),
                    decreases e@.len() - i,
                {
                    assert(decreases_to!(*self => self.0));
                    assert(decreases_to!(self.0 => self.0->Hash_0));
                    assert(decreases_to!(*e => e@));
                    assert(decreases_to!(e@ => e@[i as int]));
                    assert(decreases_to!(e@[i as int] => e@[i as int].1));
                    assert(ev.take(i + 1).drop_last() =~= ev.take(i as int));
                    assert(ev.take(i + 1).last() == (e@[i as int].0@, e@[i as int].1@));
                    if i > 0 {
                        push_char(acc, ',');
                    }
                    let q = json_quote(e[i].0.as_str());
                    acc.append(q.as_str());
                    push_char(acc, ':');
                    e[i].1.deparse_into(acc);
                    assert(acc@ =~= start + entries_text(ev.take(i + 1)));
                    i = i + 1;
                }
                assert(ev.take(i as int) =~= ev);
                push_char(acc, '}');
                assert(acc@ =~= old(acc)@ + deparse_spec(self@));
            },
        }
    }

    /// Compact JSON text, hash keys in ascending order.
    pub fn deparse(&self) -> (r: String)
        ensures
            r@ == deparse_spec(self@),
    {
        let mut acc = String::new();
        self.deparse_into(&mut acc);
        assert(acc@ =~= deparse_spec(self@));
        acc
    }

    /// A string record's text itself; anything else as JSON text.
    pub fn pretty_string(&self) -> (r: String)
        ensures
            r@ == pretty_spec(self@),
    {
        match &self.0 {
            RecordNode::Primitive(JsonPrimitive::String(s)) => s.clone(),
            _ => self.deparse(),
        }
    }

    /// The record a node read by `serde_json` denotes.
    pub fn from_raw(t: &RawJson) -> (r: Record)
        ensures
            r@ == json_of_raw(t@),
            r.wf(),
        decreases t,
    {
        match t {
            RawJson::Null => Record::null(),
            RawJson::Bool(b) => Record::from_bool(*b),
            RawJson::Number(i, f) => match i {
                Some(n) => Record::from_i64(*n),
                None => match f {
                    Some(x) => Record(RecordNode::Primitive(JsonPrimitive::NumberF64(x.clone()))),
                    None => Record::null(),
                },
            },
            RawJson::Str(x) => Record::from_string(x.clone()),
            RawJson::Array(v) => {
                let ghost tv = t@;
                let ghost items = raw_items(tv);
                let mut out: Vec<Record> = Vec::new();
                let mut i: usize = 0;
                while i < v.len()
                    invariant
                        tv == t@,
                        items == raw_items(tv),
                        *t == RawJson::Array(*v),
                        i <= v@.len(),
                        items.len() == v@.len(),
                        records_view(out@) == items.take(i as int),
                        forall|j: int| 0 <= j < out@.len() ==> (#[trigger] out@[j]).wf(),
                    decreases v@.len() - i,
                {
                    let r = Record::from_raw(&v[i]);
                    let ghost before = out@;
                    out.push(r);
                    assert(records_view(out@) =~= records_view(before).push(r@));
                    assert(items.take(i + 1) =~= items.take(i as int).push(items[i as int]));
                    i = i + 1;
                }
                assert(items.take(i as int) =~= items);
                let r = Record::from_vec(out);
                assert forall|j: int| 0 <= j < records_view(out@).len() implies json_wf(#[trigger] records_view(out@)[j]) by {
                    assert(out@[j].wf());
                }
                r
            },
            RawJson::Object(v) => {
                let ghost tv = t@;
                let ghost items = raw_entries(tv);
                let mut out: Vec<(String, Record)> = Vec::new();
                assert(entries_view(out@) =~= put_all(items.take(0)));
                let mut i: usize = 0;
                while i < v.len()
                    invariant
                        tv == t@,
                        items == raw_entries(tv),
                        *t == RawJson::Object(*v),
                        i <= v@.len(),
                        items.len() == v@.len(),
                        entries_view(out@) == put_all(items.take(i as int)),
                        keys_sorted(entries_view(out@)),
                        forall|j: int| 0 <= j < entries_view(out@).len() ==> json_wf(#[trigger] entries_view(out@)[j].1),
                    decreases v@.len() - i,
                {
                    let k = v[i].0.clone();
                    let r = Record::from_raw(&v[i].1);
                    proof {
                        lemma_hash_put_wf(entries_view(out@), k@, r@);
                        assert(items[i as int] == (k@, r@));
                        assert(items.take(i + 1).drop_last() =~= items.take(i as int));
                    }
                    hash_put_entry(&mut out, k, r);
                    i = i + 1;
                }
                assert(items.take(i as int) =~= items);
                assert(json_of_raw(tv) == JsonView::Hash(put_all(items)));
                Record(RecordNode::Hash(out))
            },
        }
    }

    /// Parses JSON text with `serde_json`.
    pub fn parse(s: &str) -> (r: Record)
        requires
            serde_accepts(s@),
        ensures
            r@ == json_of_raw(serde_read(s@)->0),
            r.wf(),
    {
        match parse_raw(s) {
            Some(t) => Record::from_raw(&t),
            None => vstd::pervasive::unreached(),
        }
    }

    /// Parses JSON text with `serde_json`; `None` when it does not read as
    /// one JSON value.
    pub fn try_parse(s: &str) -> (r: Option<Record>)
        ensures
            match serde_read(s@) {
                Some(t) => r matches Some(x) && x@ == json_of_raw(t) && x.wf(),
                None => r is None,
            },
    {
        match parse_raw(s) {
            Some(t) => Some(Record::from_raw(&t)),
            None => None,
        }
    }

    /// Whether `serde_json` reads `s` as one JSON value.
    pub fn json_ok(s: &str) -> (r: bool)
        ensures
            r == serde_accepts(s@),
    {
        parse_raw(s).is_some()
    }
}

/// The record a number read by `serde_json` denotes: its `i64` value where
/// it has one, else its `f64` text.
pub open spec fn number_json(i: Option<i64>, f: Option<Seq<char>>) -> JsonView {
    match i {
        Some(n) => JsonView::Int(n),
        None => match f {
            Some(x) => JsonView::Float(x),
            None => JsonView::Null,
        },
    }
}

/// The entries bound one after another, a later key replacing an earlier.
pub open spec fn put_all(e: Entries) -> Entries
    decreases e.len(),
{
    if e.len() == 0 {
        Seq::empty()
    } else {
        hash_put(put_all(e.drop_last()), e.last().0, e.last().1)
    }
}

/// The record a node read by `serde_json` denotes.
pub open spec fn json_of_raw(t: RawView) -> JsonView
    decreases t,
{
    match t {
        RawView::Null => JsonView::Null,
        RawView::Bool(b) => JsonView::Bool(b),
        RawView::Number(i, f) => number_json(i, f),
        RawView::Str(x) => JsonView::Str(x),
        RawView::Array(a) => JsonView::Array(json_of_items(a)),
        RawView::Object(e) => JsonView::Hash(put_all(json_of_entries(e))),
    }
}

/// The records of an array's items.
pub open spec fn json_of_items(a: Seq<RawView>) -> Seq<JsonView>
    decreases a,
{
    Seq::new(a.len(), |i: int| if 0 <= i < a.len() { json_of_raw(a[i]) } else { JsonView::Null })
}

/// An object's entries, each value as the record it denotes, before they
/// are bound.
pub open spec fn json_of_entries(e: Seq<(Seq<char>, RawView)>) -> Entries
    decreases e,
{
    Seq::new(
        e.len(),
        |i: int|
            if 0 <= i < e.len() {
                (e[i].0, json_of_raw(e[i].1))
            } else {
                (Seq::empty(), JsonView::Null)
            },
    )
}

/// The records of an array node's items.
pub open spec fn raw_items(t: RawView) -> Seq<JsonView> {
    match t {
        RawView::Array(a) => json_of_items(a),
        _ => Seq::empty(),
    }
}

/// An object node's entries, each value as the record it denotes.
pub open spec fn raw_entries(t: RawView) -> Entries {
    match t {
        RawView::Object(e) => json_of_entries(e),
        _ => Seq::empty(),
    }
}

} // verus!
