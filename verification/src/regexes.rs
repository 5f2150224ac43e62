//! The calls into `regex`: compiling a pattern and matching a line.

use crate::text::{chars_of, string_from_chars};
use vstd::prelude::*;

verus! {

#[verifier::external_type_specification]
#[verifier::external_body]
pub struct ExRegex(regex::Regex);

/// Whether `regex::Regex::new` compiles the pattern.
pub uninterp spec fn regex_accepts(pattern: Seq<char>) -> bool;

/// The capture groups after the whole match (group 1 on) of the first match
/// of `pattern` in `line`, each the text it matched or `None` where it took
/// no part; `None` when the pattern does not match.
pub uninterp spec fn regex_groups(pattern: Seq<char>, line: Seq<char>) -> Option<
    Seq<Option<Seq<char>>>,
>;

/// A pattern with the regex compiled from it.
pub struct CompiledRegex {
    pattern: String,
    re: regex::Regex,
}

impl CompiledRegex {
    /// The pattern this regex was compiled from.
    pub closed spec fn pattern(&self) -> Seq<char> {
        self.pattern@
    }
}

/// `regex::Regex::new`: `Some` exactly when the pattern compiles, holding
/// the pattern beside what it compiled to.
#[verifier::external_body]
pub fn compile_regex(pattern: &str) -> (r: Option<CompiledRegex>)
    ensures
        r is Some <==> regex_accepts(pattern@),
        r matches Some(c) ==> c.pattern() == pattern@,
{
    match regex::Regex::new(pattern) {
        Ok(re) => Some(CompiledRegex { pattern: pattern.to_owned(), re }),
        Err(_) => None,
    }
}

pub open spec fn groups_view(v: Seq<Option<String>>) -> Seq<Option<Seq<char>>> {
    v.map_values(
        |g: Option<String>|
            match g {
                Some(s) => Some(s@),
                None => None,
            },
    )
}

/// `regex::Regex::captures` on `line`, its groups after the whole match
/// (`Captures::iter` from the second on) taken as strings: the result is
/// named by the pattern and the line.
#[verifier::external_body]
pub(crate) fn regex_captures(c: &CompiledRegex, line: &str) -> (r: Option<Vec<Option<String>>>)
    ensures
        match regex_groups(c.pattern(), line@) {
            Some(gs) => r matches Some(v) && groups_view(v@) == gs,
            None => r is None,
        },
{
    c.re.captures(line).map(|m| m.iter().skip(1).map(|g| g.map(|x| x.as_str().to_string())).collect())
}

/// The pieces of `line` between the matches of `pattern`.
pub uninterp spec fn regex_pieces(pattern: Seq<char>, line: Seq<char>) -> Seq<Seq<char>>;

pub open spec fn strings_seq(v: Seq<String>) -> Seq<Seq<char>> {
    v.map_values(|s: String| s@)
}

/// `regex::Regex::split` on `line`, the pieces taken as strings: the result
/// is named by the pattern and the line.
#[verifier::external_body]
pub(crate) fn regex_split(c: &CompiledRegex, line: &str) -> (r: Vec<String>)
    ensures
        strings_seq(r@) == regex_pieces(c.pattern(), line@),
{
    c.re.split(line).map(|x| x.to_string()).collect()
}

/// Where `pat` first occurs in `s`, if it does.
pub open spec fn first_match(s: Seq<char>, pat: Seq<char>) -> Option<int>
    decreases s.len(),
{
    if s.len() < pat.len() {
        None
    } else if s.take(pat.len() as int) == pat {
        Some(0)
    } else if s.len() == 0 {
        None
    } else {
        match first_match(s.drop_first(), pat) {
            Some(i) => Some(i + 1),
            None => None,
        }
    }
}

/// The pieces of `s` between the occurrences of `pat`, as `str::split` with
/// a `&str` pattern gives them: occurrences are found from the left and do
/// not overlap; an empty pattern matches before each character and at the
/// end.
pub open spec fn str_pieces(s: Seq<char>, pat: Seq<char>) -> Seq<Seq<char>>
    decreases s.len(),
{
    if pat.len() == 0 {
        seq![Seq::<char>::empty()] + Seq::new(s.len(), |i: int| seq![s[i]]) + seq![Seq::<char>::empty()]
    } else {
        match first_match(s, pat) {
            Some(i) => if 0 <= i && i + pat.len() <= s.len() {
                seq![s.take(i)] + str_pieces(s.skip(i + pat.len()), pat)
            } else {
                seq![s]
            },
            None => seq![s],
        }
    }
}

/// `pat` occurs at `i` in `t`, and nowhere before it: it is the first
/// match.
proof fn lemma_first_match_at(t: Seq<char>, pat: Seq<char>, i: int)
    requires
        pat.len() > 0,
        0 <= i,
        i + pat.len() <= t.len(),
        t.subrange(i, i + pat.len()) == pat,
        forall|j: int| 0 <= j < i ==> #[trigger] t.subrange(j, j + pat.len()) != pat,
    ensures
        first_match(t, pat) == Some(i),
    decreases i,
{
    assert(t.take(pat.len() as int) =~= t.subrange(0, pat.len() as int));
    if i > 0 {
        assert(t.subrange(0, 0int + pat.len()) != pat);
        assert(t.subrange(0, 0int + pat.len()) =~= t.subrange(0, pat.len() as int));
        let u = t.drop_first();
        assert(u.subrange(i - 1, i - 1 + pat.len()) =~= t.subrange(i, i + pat.len()));
        assert forall|j: int| 0 <= j < i - 1 implies #[trigger] u.subrange(j, j + pat.len()) != pat by {
            assert(u.subrange(j, j + pat.len()) =~= t.subrange(j + 1, j + 1 + pat.len()));
        }
        lemma_first_match_at(u, pat, i - 1);
    }
}

/// `pat` occurs nowhere in `t`.
proof fn lemma_no_match(t: Seq<char>, pat: Seq<char>)
    requires
        pat.len() > 0,
        forall|j: int| 0 <= j && j + pat.len() <= t.len() ==> #[trigger] t.subrange(j, j + pat.len()) != pat,
    ensures
        first_match(t, pat) is None,
    decreases t.len(),
{
    if t.len() >= pat.len() {
        assert(t.take(pat.len() as int) =~= t.subrange(0, pat.len() as int));
        assert(t.subrange(0, 0int + pat.len()) != pat);
        assert(t.subrange(0, 0int + pat.len()) =~= t.subrange(0, pat.len() as int));
        let u = t.drop_first();
        assert forall|j: int| 0 <= j && j + pat.len() <= u.len() implies #[trigger] u.subrange(j, j + pat.len()) != pat by {
            assert(u.subrange(j, j + pat.len()) =~= t.subrange(j + 1, j + 1 + pat.len()));
        }
        lemma_no_match(u, pat);
    }
}

/// Whether `pat` occurs in `cs` at `i`.
fn matches_at(cs: &Vec<char>, pat: &Vec<char>, i: usize) -> (r: bool)
    requires
        i + pat@.len() <= cs@.len(),
    ensures
        r == (cs@.subrange(i as int, i + pat@.len()) == pat@),
{
    let cl: usize = cs.len();
    let mut k: usize = 0;
    while k < pat.len()
        invariant
            cl == cs@.len(),
            i + pat@.len() <= cs@.len(),
            k <= pat@.len(),
            forall|kk: int| 0 <= kk < k ==> cs@[i + kk] == pat@[kk],
        decreases pat@.len() - k,
    {
        if cs[i + k] != pat[k] {
            assert(cs@.subrange(i as int, i + pat@.len())[k as int] != pat@[k as int]);
            return false;
        }
        k = k + 1;
    }
    assert(cs@.subrange(i as int, i + pat@.len()) =~= pat@);
    true
}

/// `str::split` with a `&str` pattern, the pieces taken as strings.
pub fn str_split(s: &str, pat: &str) -> (r: Vec<String>)
    ensures
        strings_seq(r@) == str_pieces(s@, pat@),
{
    let cs = chars_of(s);
    let ps = chars_of(pat);
    let n: usize = cs.len();
    let m: usize = ps.len();
    let mut out: Vec<String> = Vec::new();
    if m == 0 {
        out.push(String::new());
        let mut i: usize = 0;
        while i < n
            invariant
                n == cs@.len(),
                cs@ == s@,
                i <= n,
                strings_seq(out@) == seq![Seq::<char>::empty()] + Seq::new(i as nat, |k: int| seq![s@[k]]),
            decreases n - i,
        {
            let one = string_from_chars(&cs.as_slice()[i..i + 1]);
            assert(one@ =~= seq![s@[i as int]]);
            let ghost prev = strings_seq(out@);
            out.push(one);
            assert(strings_seq(out@) =~= prev.push(one@));
            assert(prev.push(one@) =~= seq![Seq::<char>::empty()] + Seq::new((i + 1) as nat, |k: int| seq![s@[k]]));
            i = i + 1;
        }
        let ghost prev = strings_seq(out@);
        out.push(String::new());
        assert(strings_seq(out@) =~= prev.push(Seq::<char>::empty()));
        assert(strings_seq(out@) =~= str_pieces(s@, pat@));
        return out;
    }
    let mut st: usize = 0;
    assert(cs@.skip(0) =~= cs@);
    assert(strings_seq(out@) =~= Seq::<Seq<char>>::empty());
    assert(Seq::<Seq<char>>::empty() + str_pieces(s@, pat@) =~= str_pieces(s@, pat@));
    loop
        invariant
            n == cs@.len(),
            m == ps@.len(),
            m > 0,
            cs@ == s@,
            ps@ == pat@,
            st <= n,
            strings_seq(out@) + str_pieces(cs@.skip(st as int), ps@) == str_pieces(s@, pat@),
        decreases n - st,
    {
        let ghost t = cs@.skip(st as int);
        let mut i: usize = st;
        let mut found = false;
        while !found && m <= n - i
            invariant
                n == cs@.len(),
                m == ps@.len(),
                st <= i,
                i <= n,
                m > 0,
                found ==> i + m <= n && cs@.subrange(i as int, i + m) == ps@,
                forall|j: int| st <= j < i ==> #[trigger] cs@.subrange(j, j + m) != ps@,
            decreases n + 1 - i - (if found { 1int } else { 0int }),
        {
            if matches_at(&cs, &ps, i) {
                found = true;
            } else {
                i = i + 1;
            }
        }
        let ghost before = strings_seq(out@);
        if found {
            let piece = string_from_chars(&cs.as_slice()[st..i]);
            proof {
                assert forall|j: int| 0 <= j < i - st implies #[trigger] t.subrange(j, j + m) != ps@ by {
                    assert(t.subrange(j, j + m) =~= cs@.subrange(st + j, st + j + m));
                }
                assert(t.subrange(i - st, i - st + m) =~= cs@.subrange(i as int, i + m));
                lemma_first_match_at(t, ps@, i - st);
                assert(piece@ =~= t.take(i - st));
                assert(t.skip(i - st + m) =~= cs@.skip(i + m));
            }
            out.push(piece);
            proof {
                assert(strings_seq(out@) =~= before.push(piece@));
                assert(str_pieces(t, ps@) == seq![t.take(i - st)] + str_pieces(cs@.skip(i + m), ps@));
                assert(before.push(piece@) + str_pieces(cs@.skip(i + m), ps@) =~= before + (seq![t.take(i - st)]
                    + str_pieces(cs@.skip(i + m), ps@)));
            }
            st = i + m;
        } else {
            let piece = string_from_chars(&cs.as_slice()[st..n]);
            proof {
                assert forall|j: int| 0 <= j && j + m <= t.len() implies #[trigger] t.subrange(j, j + m) != ps@ by {
                    assert(t.subrange(j, j + m) =~= cs@.subrange(st + j, st + j + m));
                }
                lemma_no_match(t, ps@);
                assert(piece@ =~= t);
            }
            out.push(piece);
            proof {
                assert(strings_seq(out@) =~= before.push(piece@));
                assert(str_pieces(t, ps@) == seq![t]);
                assert(before.push(piece@) =~= before + seq![t]);
            }
            return out;
        }
    }
}

} // verus!
