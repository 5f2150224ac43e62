//! Option holders: what each command-line option collects while arguments
//! are read, and what it validates to afterwards.

use crate::text::{chars_of, parse_usize, split_char, split_chars, string_from_chars, usize_text_value};
use crate::validates::{Validates, ValidationError, ValidationResult};
use std::sync::Arc;
use vstd::prelude::*;

verus! {

/// The texts of a vector of strings.
pub open spec fn strings_view(v: Seq<String>) -> Seq<Seq<char>> {
    v.map_values(|s: String| s@)
}

proof fn lemma_push_to_set<A>(s: Seq<A>, x: A)
    ensures
        s.push(x).to_set() == s.to_set().insert(x),
{
    let t = s.push(x);
    assert forall|a: A| t.to_set().contains(a) == s.to_set().insert(x).contains(a) by {
        if t.contains(a) {
            let k = choose|k: int| 0 <= k < t.len() && t[k] == a;
            if k < s.len() {
                assert(s[k] == a);
                assert(s.contains(a));
            }
        }
        if s.contains(a) {
            let k = choose|k: int| 0 <= k < s.len() && s[k] == a;
            assert(t[k] == a);
        }
        if a == x {
            assert(t[s.len() as int] == a);
        }
    }
    assert(t.to_set() =~= s.to_set().insert(x));
}

/// A flag.
pub struct BooleanOption(pub bool);

impl Default for BooleanOption {
    fn default() -> (r: Self)
        ensures
            r.0 == false,
    {
        BooleanOption(false)
    }
}

impl Validates for BooleanOption {
    type Target = bool;

    open spec fn can_validate(&self) -> bool {
        true
    }

    open spec fn validates_to(&self, r: ValidationResult<bool>) -> bool {
        r == Ok::<bool, crate::validates::ValidationError>(self.0)
    }

    fn validate(self) -> (r: ValidationResult<bool>)
        ensures
            r == Ok::<bool, crate::validates::ValidationError>(self.0),
    {
        Ok(self.0)
    }
}

impl BooleanOption {
    pub fn set(&mut self)
        ensures
            final(self).0 == true,
    {
        self.0 = true;
    }

    pub fn clear(&mut self)
        ensures
            final(self).0 == false,
    {
        self.0 = false;
    }
}

/// A value that must be given exactly once.
pub struct RequiredOption<T>(pub Option<T>);

impl<T> Default for RequiredOption<T> {
    fn default() -> (r: Self)
        ensures
            r.0 is None,
    {
        RequiredOption(None)
    }
}

impl<T> Validates for RequiredOption<T> {
    type Target = T;

    open spec fn can_validate(&self) -> bool {
        self.0 is Some
    }

    open spec fn validates_to(&self, r: ValidationResult<T>) -> bool {
        r matches Ok(t) && Some(t) == self.0
    }

    fn validate(self) -> (r: ValidationResult<T>)
        ensures
            r matches Ok(t) && Some(t) == self.0,
    {
        match self.0 {
            Some(t) => Ok(t),
            None => vstd::pervasive::unreached(),
        }
    }
}

impl<T> RequiredOption<T> {
    /// Gives the value; it must not have been given before.
    pub fn set(&mut self, t: T)
        requires
            old(self).0 is None,
        ensures
            final(self).0 == Some(t),
    {
        self.0 = Some(t);
    }

    /// Gives the value `f` makes, unless one was given already; says
    /// whether it did.
    pub fn maybe_set_with<F: FnOnce() -> T>(&mut self, f: F) -> (r: bool)
        requires
            old(self).0 is None ==> f.requires(()),
        ensures
            r == old(self).0 is None,
            !r ==> final(self).0 == old(self).0,
            r ==> (final(self).0 matches Some(v) && f.ensures((), v)),
    {
        if self.0.is_some() {
            return false;
        }
        self.0 = Some(f());
        true
    }
}

impl<T: Clone> RequiredOption<T> {
    /// Gives a clone of the value; it must not have been given before.
    pub fn set_clone(&mut self, t: &T)
        requires
            old(self).0 is None,
        ensures
            final(self).0 matches Some(v) && cloned(*t, v),
    {
        self.set(t.clone());
    }
}

/// A string that must be given exactly once.
pub struct RequiredStringOption(pub Option<String>);

impl Default for RequiredStringOption {
    fn default() -> (r: Self)
        ensures
            r.0 is None,
    {
        RequiredStringOption(None)
    }
}

impl Validates for RequiredStringOption {
    type Target = String;

    open spec fn can_validate(&self) -> bool {
        self.0 is Some
    }

    open spec fn validates_to(&self, r: ValidationResult<String>) -> bool {
        r matches Ok(s) && Some(s) == self.0
    }

    fn validate(self) -> (r: ValidationResult<String>)
        ensures
            r matches Ok(s) && Some(s) == self.0,
    {
        match self.0 {
            Some(s) => Ok(s),
            None => vstd::pervasive::unreached(),
        }
    }
}

impl RequiredStringOption {
    /// Gives the string; it must not have been given before.
    pub fn set(&mut self, a: &str)
        requires
            old(self).0 is None,
        ensures
            final(self).0 matches Some(s) && s@ == a@,
    {
        self.0 = Some(a.to_owned());
    }

    /// Gives the string unless one was given already; says whether it did.
    pub fn maybe_set(&mut self, a: &str) -> (r: bool)
        ensures
            r == old(self).0 is None,
            !r ==> final(self).0 == old(self).0,
            r ==> (final(self).0 matches Some(s) && s@ == a@),
    {
        if self.0.is_some() {
            return false;
        }
        self.0 = Some(a.to_owned());
        true
    }
}

/// A value that may be given at most once.
pub struct OptionalOption<T>(pub Option<T>);

impl<T> Default for OptionalOption<T> {
    fn default() -> (r: Self)
        ensures
            r.0 is None,
    {
        OptionalOption(None)
    }
}

impl<T> Validates for OptionalOption<T> {
    type Target = Option<T>;

    open spec fn can_validate(&self) -> bool {
        true
    }

    open spec fn validates_to(&self, r: ValidationResult<Option<T>>) -> bool {
        r matches Ok(o) && o == self.0
    }

    fn validate(self) -> (r: ValidationResult<Option<T>>)
        ensures
            r matches Ok(o) && o == self.0,
    {
        Ok(self.0)
    }
}

impl<T> OptionalOption<T> {
    /// Gives the value; it must not have been given before.
    pub fn set(&mut self, t: T)
        requires
            old(self).0 is None,
        ensures
            final(self).0 == Some(t),
    {
        self.0 = Some(t);
    }
}

impl<T: Clone> OptionalOption<T> {
    /// Gives a clone of the value; it must not have been given before.
    pub fn set_clone(&mut self, t: &T)
        requires
            old(self).0 is None,
        ensures
            final(self).0 matches Some(v) && cloned(*t, v),
    {
        self.set(t.clone());
    }
}

/// A string that may be given at most once.
pub struct OptionalStringOption(pub Option<String>);

impl Default for OptionalStringOption {
    fn default() -> (r: Self)
        ensures
            r.0 is None,
    {
        OptionalStringOption(None)
    }
}

impl Validates for OptionalStringOption {
    type Target = Option<String>;

    open spec fn can_validate(&self) -> bool {
        true
    }

    open spec fn validates_to(&self, r: ValidationResult<Option<String>>) -> bool {
        r matches Ok(o) && o == self.0
    }

    fn validate(self) -> (r: ValidationResult<Option<String>>)
        ensures
            r matches Ok(o) && o == self.0,
    {
        Ok(self.0)
    }
}

impl OptionalStringOption {
    /// Gives the string; it must not have been given before.
    pub fn set(&mut self, a: &str)
        requires
            old(self).0 is None,
        ensures
            final(self).0 matches Some(s) && s@ == a@,
    {
        self.0 = Some(a.to_owned());
    }
}

/// A value taken as it is.
pub struct UnvalidatedRawOption<T>(pub T);

impl<T> Validates for UnvalidatedRawOption<T> {
    type Target = T;

    open spec fn can_validate(&self) -> bool {
        true
    }

    open spec fn validates_to(&self, r: ValidationResult<T>) -> bool {
        r matches Ok(t) && t == self.0
    }

    fn validate(self) -> (r: ValidationResult<T>)
        ensures
            r matches Ok(t) && t == self.0,
    {
        Ok(self.0)
    }
}

/// A value taken as it is, shared behind an `Arc`.
pub struct UnvalidatedArcOption<T>(pub T);

impl<T> Validates for UnvalidatedArcOption<T> {
    type Target = Arc<T>;

    open spec fn can_validate(&self) -> bool {
        true
    }

    open spec fn validates_to(&self, r: ValidationResult<Arc<T>>) -> bool {
        r matches Ok(t) && *t == self.0
    }

    fn validate(self) -> (r: ValidationResult<Arc<T>>)
        ensures
            r matches Ok(t) && *t == self.0,
    {
        Ok(Arc::new(self.0))
    }
}

/// Strings gathered in the order given.
pub type StringVecOption = UnvalidatedArcOption<Vec<String>>;

impl Default for StringVecOption {
    fn default() -> (r: Self)
        ensures
            r.0@.len() == 0,
    {
        UnvalidatedArcOption(Vec::new())
    }
}

impl StringVecOption {
    pub fn push(&mut self, s: &str)
        ensures
            strings_view(final(self).0@) == strings_view(old(self).0@).push(s@),
    {
        self.0.push(s.to_owned());
        assert(strings_view(self.0@) =~= strings_view(old(self).0@).push(s@));
    }

    /// Adds each comma-separated piece of `s`.
    pub fn push_split(&mut self, s: &str)
        ensures
            strings_view(final(self).0@) == strings_view(old(self).0@) + split_char(s@, ','),
    {
        let cs = chars_of(s);
        let parts = split_chars(cs.as_slice(), ',');
        let mut i: usize = 0;
        while i < parts.len()
            invariant
                cs@ == s@,
                parts@.len() == split_char(s@, ',').len(),
                forall|j: int| 0 <= j < parts@.len() ==> #[trigger] parts@[j]@ == split_char(s@, ',')[j],
                i <= parts@.len(),
                strings_view(self.0@) == strings_view(old(self).0@) + split_char(s@, ',').take(i as int),
            decreases parts@.len() - i,
        {
            let piece = string_from_chars(parts[i].as_slice());
            let ghost prev = self.0@;
            self.0.push(piece);
            assert(strings_view(self.0@) =~= strings_view(prev).push(parts@[i as int]@));
            assert(split_char(s@, ',').take(i + 1) =~= split_char(s@, ',').take(i as int).push(parts@[i as int]@));
            assert(strings_view(self.0@) =~= strings_view(old(self).0@) + split_char(s@, ',').take(i + 1));
            i = i + 1;
        }
        assert(split_char(s@, ',').take(i as int) =~= split_char(s@, ','));
    }

    /// Adds every string of `a`.
    pub fn push_all(&mut self, a: &[String])
        ensures
            strings_view(final(self).0@) == strings_view(old(self).0@) + strings_view(a@),
    {
        let mut i: usize = 0;
        while i < a.len()
            invariant
                i <= a@.len(),
                strings_view(self.0@) == strings_view(old(self).0@) + strings_view(a@).take(i as int),
            decreases a@.len() - i,
        {
            let ghost prev = self.0@;
            self.0.push(a[i].clone());
            assert(strings_view(self.0@) =~= strings_view(prev).push(a@[i as int]@));
            assert(strings_view(a@).take(i + 1) =~= strings_view(a@).take(i as int).push(a@[i as int]@));
            assert(strings_view(self.0@) =~= strings_view(old(self).0@) + strings_view(a@).take(i + 1));
            i = i + 1;
        }
        assert(strings_view(a@).take(i as int) =~= strings_view(a@));
    }

    /// Adds `a`; always takes it.
    pub fn maybe_push(&mut self, a: &str) -> (r: bool)
        ensures
            r,
            strings_view(final(self).0@) == strings_view(old(self).0@).push(a@),
    {
        self.push(a);
        true
    }
}

/// Strings gathered as a set.
pub struct StringSetOption(pub Vec<String>);

impl Default for StringSetOption {
    fn default() -> (r: Self)
        ensures
            r.0@.len() == 0,
    {
        StringSetOption(Vec::new())
    }
}

impl Validates for StringSetOption {
    type Target = Arc<Vec<String>>;

    open spec fn can_validate(&self) -> bool {
        true
    }

    /// The distinct strings given, each once.
    open spec fn validates_to(&self, r: ValidationResult<Arc<Vec<String>>>) -> bool {
        r matches Ok(v) && strings_view(v@).no_duplicates()
            && strings_view(v@).to_set() == strings_view(self.0@).to_set()
    }

    /// The distinct strings given, each once, in the order first given.
    fn validate(self) -> (r: ValidationResult<Arc<Vec<String>>>)
        ensures
            r matches Ok(v) && strings_view(v@).no_duplicates()
                && strings_view(v@).to_set() == strings_view(self.0@).to_set(),
    {
        broadcast use vstd::seq_lib::group_seq_properties;

        let mut out: Vec<String> = Vec::new();
        let mut i: usize = 0;
        while i < self.0.len()
            invariant
                i <= self.0@.len(),
                strings_view(out@).no_duplicates(),
                strings_view(out@).to_set() == strings_view(self.0@).take(i as int).to_set(),
            decreases self.0@.len() - i,
        {
            let cs = chars_of(self.0[i].as_str());
            let mut seen = false;
            let mut j: usize = 0;
            while j < out.len()
                invariant
                    j <= out@.len(),
                    i < self.0@.len(),
                    cs@ == self.0@[i as int]@,
                    seen <==> exists|k: int| 0 <= k < j && out@[k]@ == cs@,
                decreases out@.len() - j,
            {
                if crate::text::str_eq_chars(out[j].as_str(), cs.as_slice()) {
                    seen = true;
                }
                j = j + 1;
            }
            let ghost before = out@;
            assert(strings_view(self.0@).take(i + 1) =~= strings_view(self.0@).take(i as int).push(self.0@[i as int]@));
            if !seen {
                out.push(self.0[i].clone());
                assert(strings_view(out@) =~= strings_view(before).push(cs@));
                assert(strings_view(out@).no_duplicates()) by {
                    assert forall|a: int, b: int| 0 <= a < b < strings_view(out@).len()
                        implies strings_view(out@)[a] != strings_view(out@)[b] by {
                        if b == before.len() {
                            assert(strings_view(out@)[a] == before[a]@);
                        }
                    }
                }
                proof {
                    lemma_push_to_set(strings_view(before), cs@);
                }
            } else {
                assert(strings_view(before).contains(cs@)) by {
                    let k = choose|k: int| 0 <= k < before.len() && before[k]@ == cs@;
                    assert(strings_view(before)[k] == cs@);
                }
            }
            proof {
                lemma_push_to_set(strings_view(self.0@).take(i as int), cs@);
                if seen {
                    assert(strings_view(self.0@).take(i as int).to_set().insert(cs@) =~= strings_view(self.0@).take(i as int).to_set());
                }
            }
            i = i + 1;
        }
        assert(strings_view(self.0@).take(i as int) =~= strings_view(self.0@));
        Ok(Arc::new(out))
    }
}

impl StringSetOption {
    pub fn push(&mut self, s: &str)
        ensures
            strings_view(final(self).0@) == strings_view(old(self).0@).push(s@),
    {
        self.0.push(s.to_owned());
        assert(strings_view(self.0@) =~= strings_view(old(self).0@).push(s@));
    }

    /// Adds each comma-separated piece of `s`.
    pub fn push_split(&mut self, s: &str)
        ensures
            strings_view(final(self).0@) == strings_view(old(self).0@) + split_char(s@, ','),
    {
        let cs = chars_of(s);
        let parts = split_chars(cs.as_slice(), ',');
        let mut i: usize = 0;
        while i < parts.len()
            invariant
                cs@ == s@,
                parts@.len() == split_char(s@, ',').len(),
                forall|j: int| 0 <= j < parts@.len() ==> #[trigger] parts@[j]@ == split_char(s@, ',')[j],
                i <= parts@.len(),
                strings_view(self.0@) == strings_view(old(self).0@) + split_char(s@, ',').take(i as int),
            decreases parts@.len() - i,
        {
            let piece = string_from_chars(parts[i].as_slice());
            let ghost prev = self.0@;
            self.0.push(piece);
            assert(strings_view(self.0@) =~= strings_view(prev).push(parts@[i as int]@));
            assert(split_char(s@, ',').take(i + 1) =~= split_char(s@, ',').take(i as int).push(parts@[i as int]@));
            assert(strings_view(self.0@) =~= strings_view(old(self).0@) + split_char(s@, ',').take(i + 1));
            i = i + 1;
        }
        assert(split_char(s@, ',').take(i as int) =~= split_char(s@, ','));
    }
}

/// A count given at most once.
pub type OptionalUsizeOption = OptionalOption<usize>;

impl OptionalUsizeOption {
    /// Reads `a` as a `usize` and gives it; it must be one, and none must
    /// have been given before.
    pub fn parse(&mut self, a: &str)
        requires
            old(self).0 is None,
            usize_text_value(a@) is Some,
        ensures
            final(self).0 matches Some(n) && usize_text_value(a@) == Some(n as nat),
    {
        let cs = chars_of(a);
        match parse_usize(cs.as_slice()) {
            Some(n) => self.set(n),
            None => {},
        }
    }
}

/// Options whose validated form is shared behind an `Arc`.
pub struct IntoArcOption<P>(pub P);

impl<P: Default> Default for IntoArcOption<P> {
    fn default() -> (r: Self) {
        IntoArcOption(P::default())
    }
}

impl<P: Validates> Validates for IntoArcOption<P> {
    type Target = Arc<P::Target>;

    open spec fn can_validate(&self) -> bool {
        self.0.can_validate()
    }

    /// What the inner options give, shared behind an `Arc`.
    open spec fn validates_to(&self, r: ValidationResult<Arc<P::Target>>) -> bool {
        match r {
            Ok(a) => self.0.validates_to(Ok::<P::Target, ValidationError>(*a)),
            Err(e) => self.0.validates_to(Err::<P::Target, ValidationError>(e)),
        }
    }

    fn validate(self) -> (r: ValidationResult<Arc<P::Target>>)
        ensures
            self.validates_to(r),
    {
        match self.0.validate() {
            Ok(t) => Ok(Arc::new(t)),
            Err(e) => Err(e),
        }
    }
}

/// An operation's own options followed by the arguments left for what
/// comes after it.
pub struct AndArgsOptions<P> {
    pub p: IntoArcOption<P>,
    pub args: StringVecOption,
}

/// The validated options and the leftover arguments.
pub struct AndArgsOptionsValidated<T> {
    pub p: Arc<T>,
    pub args: Arc<Vec<String>>,
}

impl<P: Default> Default for AndArgsOptions<P> {
    fn default() -> (r: Self)
        ensures
            r.args.0@.len() == 0,
    {
        AndArgsOptions { p: IntoArcOption::default(), args: StringVecOption::default() }
    }
}

impl<P: Validates> Validates for AndArgsOptions<P> {
    type Target = AndArgsOptionsValidated<P::Target>;

    open spec fn can_validate(&self) -> bool {
        self.p.can_validate()
    }

    /// The options as `p` validates them, with the leftover arguments as
    /// given; an error only from `p`.
    open spec fn validates_to(&self, r: ValidationResult<AndArgsOptionsValidated<P::Target>>) -> bool {
        match r {
            Ok(v) => self.p.validates_to(Ok::<Arc<P::Target>, ValidationError>(v.p)) && *v.args == self.args.0,
            Err(e) => self.p.validates_to(Err::<Arc<P::Target>, ValidationError>(e)),
        }
    }

    fn validate(self) -> (r: ValidationResult<AndArgsOptionsValidated<P::Target>>)
        ensures
            self.validates_to(r),
    {
        let args = self.args;
        match self.p.validate() {
            Err(e) => Err(e),
            Ok(p) => match args.validate() {
                Ok(a) => Ok(AndArgsOptionsValidated { p, args: a }),
                Err(e) => Err(e),
            },
        }
    }
}

} // verus!
