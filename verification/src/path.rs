//! Paths into records: slash-separated steps, `#n` for an array index and
//! anything else for a hash key.

use crate::text::{chars_of, lemma_split_char_nonempty, parse_usize, split_char, split_chars, usize_text_value};
use vstd::prelude::*;
use vstd::slice::slice_subrange;

verus! {

/// One step of a path, as the contracts see it.
pub enum Step {
    Key(Seq<char>),
    Index(nat),
}

/// One step of a path.
pub enum PathStep<'a> {
    RefHash(&'a str),
    OwnHash(String),
    Array(usize),
}

impl<'a> View for PathStep<'a> {
    type V = Step;

    open spec fn view(&self) -> Step {
        match self {
            PathStep::RefHash(s) => Step::Key(s@),
            PathStep::OwnHash(s) => Step::Key(s@),
            PathStep::Array(n) => Step::Index(*n as nat),
        }
    }
}

/// A parsed path.
pub struct Path<'a>(pub Vec<PathStep<'a>>);

pub type OwnPath = Path<'static>;

impl<'a> View for Path<'a> {
    type V = Seq<Step>;

    open spec fn view(&self) -> Seq<Step> {
        self.0@.map_values(|p: PathStep<'a>| p@)
    }
}

/// A segment is usable unless it starts with `#` and the rest is not a
/// `usize` as `str::parse` reads one.
pub open spec fn segment_valid(seg: Seq<char>) -> bool {
    seg.len() == 0 || seg[0] != '#' || usize_text_value(seg.drop_first()) is Some
}

/// The step a segment denotes.
pub open spec fn segment_step(seg: Seq<char>) -> Step {
    if seg.len() > 0 && seg[0] == '#' {
        Step::Index(usize_text_value(seg.drop_first()).unwrap())
    } else {
        Step::Key(seg)
    }
}

/// Every segment of the text is usable.
pub open spec fn path_text_valid(s: Seq<char>) -> bool {
    forall|i: int|
        0 <= i < split_char(s, '/').len() ==> segment_valid(#[trigger] split_char(s, '/')[i])
}

/// The steps a path text denotes: none for the empty text, else one per
/// slash-separated segment.
pub open spec fn path_of(s: Seq<char>) -> Seq<Step> {
    if s.len() == 0 {
        Seq::empty()
    } else {
        split_char(s, '/').map_values(|seg: Seq<char>| segment_step(seg))
    }
}

/// Whether `s` is a path text that `Path::new` accepts.
pub fn path_text_ok(s: &str) -> (r: bool)
    ensures
        r == path_text_valid(s@),
{
    let cs = chars_of(s);
    let parts = split_chars(cs.as_slice(), '/');
    let mut i: usize = 0;
    while i < parts.len()
        invariant
            cs@ == s@,
            parts@.len() == split_char(s@, '/').len(),
            forall|j: int| 0 <= j < parts@.len() ==> #[trigger] parts@[j]@ == split_char(s@, '/')[j],
            forall|j: int| 0 <= j < i ==> segment_valid(#[trigger] split_char(s@, '/')[j]),
            i <= parts@.len(),
        decreases parts@.len() - i,
    {
        let seg = &parts[i];
        assert(seg@ == split_char(s@, '/')[i as int]);
        if seg.len() > 0 && seg[0] == '#' {
            let rest = slice_subrange(seg.as_slice(), 1, seg.len());
            assert(rest@ =~= seg@.drop_first());
            if parse_usize(rest).is_none() {
                return false;
            }
        }
        i = i + 1;
    }
    true
}

/// The step for the segment `cs[start..end]` of `s`.
fn segment_to_step<'a>(s: &'a str, cs: &Vec<char>, start: usize, end: usize) -> (st: PathStep<'a>)
    requires
        cs@ == s@,
        start <= end <= cs@.len(),
        segment_valid(cs@.subrange(start as int, end as int)),
    ensures
        st@ == segment_step(cs@.subrange(start as int, end as int)),
        !(st is OwnHash),
{
    let ghost seg = cs@.subrange(start as int, end as int);
    if start < end && cs[start] == '#' {
        let rest = slice_subrange(cs.as_slice(), start + 1, end);
        assert(rest@ =~= seg.drop_first());
        match parse_usize(rest) {
            Some(n) => PathStep::Array(n),
            None => {
                assert(false);
                PathStep::Array(0)
            },
        }
    } else {
        PathStep::RefHash(s.substring_char(start, end))
    }
}

impl<'a> Path<'a> {
    /// Parses a path text.
    pub fn new(s: &'a str) -> (p: Path<'a>)
        requires
            path_text_valid(s@),
        ensures
            p@ == path_of(s@),
            forall|j: int| 0 <= j < p.0@.len() ==> !(#[trigger] p.0@[j] is OwnHash),
    {
        let cs = chars_of(s);
        if cs.len() == 0 {
            assert(Seq::<PathStep<'a>>::empty().map_values(|p: PathStep<'a>| p@) =~= Seq::<Step>::empty());
            return Path(Vec::new());
        }
        let ghost parts = split_char(s@, '/');
        proof { lemma_split_char_nonempty(s@, '/'); }
        let mut steps: Vec<PathStep<'a>> = Vec::new();
        let mut start: usize = 0;
        let mut i: usize = 0;
        assert(s@.take(0) =~= Seq::<char>::empty());
        while i < cs.len()
            invariant
                cs@ == s@,
                parts == split_char(s@, '/'),
                path_text_valid(s@),
                start <= i <= cs@.len(),
                steps@.len() + 1 == split_char(s@.take(i as int), '/').len(),
                forall|j: int| 0 <= j < steps@.len() ==>
                    (#[trigger] steps@[j])@ == segment_step(split_char(s@.take(i as int), '/')[j]),
                cs@.subrange(start as int, i as int) == split_char(s@.take(i as int), '/').last(),
                forall|j: int| 0 <= j < steps@.len() ==>
                    split_char(s@.take(i as int), '/')[j] == #[trigger] parts[j],
                steps@.len() < parts.len(),
                forall|j: int| 0 <= j < steps@.len() ==> !(#[trigger] steps@[j] is OwnHash),
            decreases cs@.len() - i,
        {
            proof {
                lemma_split_char_nonempty(s@.take(i as int), '/');
                assert(s@.take(i + 1).drop_last() =~= s@.take(i as int));
                lemma_split_prefix(s@, '/', i as int);
                lemma_split_prefix(s@, '/', i + 1);
                lemma_split_char_nonempty(s@.take(i + 1), '/');
            }
            if cs[i] == '/' {
                proof {
                    assert(split_char(s@.take(i as int), '/')[steps@.len() as int]
                        == split_char(s@.take(i + 1), '/')[steps@.len() as int]);
                    assert(segment_valid(parts[steps@.len() as int]));
                }
                let st = segment_to_step(s, &cs, start, i);
                steps.push(st);
                start = i + 1;
                assert(cs@.subrange(start as int, i + 1) =~= Seq::<char>::empty());
            } else {
                assert(cs@.subrange(start as int, i + 1) =~= cs@.subrange(start as int, i as int).push(cs@[i as int]));
            }
            i = i + 1;
        }
        assert(s@.take(cs@.len() as int) =~= s@);
        proof {
            assert(segment_valid(parts[steps@.len() as int]));
        }
        let st = segment_to_step(s, &cs, start, i);
        steps.push(st);
        let p = Path(steps);
        assert(p@ =~= path_of(s@));
        p
    }

    /// The same path with every key held by value.
    pub fn to_owned(self) -> (p: OwnPath)
        ensures
            p@ == self@,
            forall|j: int| 0 <= j < p.0@.len() ==> !(#[trigger] p.0@[j] is RefHash),
    {
        let mut out: Vec<PathStep<'static>> = Vec::new();
        let mut i: usize = 0;
        let v = self.0;
        while i < v.len()
            invariant
                i <= v@.len(),
                out@.len() == i,
                forall|j: int| 0 <= j < i ==> (#[trigger] out@[j])@ == v@[j]@,
                forall|j: int| 0 <= j < i ==> !(#[trigger] out@[j] is RefHash),
            decreases v@.len() - i,
        {
            let st = match &v[i] {
                PathStep::RefHash(s) => PathStep::OwnHash((*s).to_owned()),
                PathStep::OwnHash(s) => PathStep::OwnHash(s.clone()),
                PathStep::Array(n) => PathStep::Array(*n),
            };
            out.push(st);
            i = i + 1;
        }
        let p = Path(out);
        assert(p@ =~= self@);
        p
    }
}

/// Splitting a longer text keeps the pieces of a shorter prefix that are
/// followed by a separator.
proof fn lemma_split_prefix(s: Seq<char>, c: char, i: int)
    requires
        0 <= i <= s.len(),
    ensures
        forall|j: int| 0 <= j < split_char(s.take(i), c).len() - 1 ==>
            #[trigger] split_char(s.take(i), c)[j] == split_char(s, c)[j],
        split_char(s.take(i), c).len() <= split_char(s, c).len(),
    decreases s.len() - i,
{
    lemma_split_char_nonempty(s.take(i), c);
    if i < s.len() {
        lemma_split_prefix(s, c, i + 1);
        assert(s.take(i + 1).drop_last() =~= s.take(i));
        lemma_split_char_nonempty(s.take(i + 1), c);
        let a = split_char(s.take(i), c);
        let b = split_char(s.take(i + 1), c);
        assert(a.len() <= b.len());
        assert forall|j: int| 0 <= j < a.len() - 1 implies #[trigger] a[j] == b[j] by {}
    } else {
        assert(s.take(i) =~= s);
    }
}

} // verus!
