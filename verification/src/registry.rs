//! A registry of named implementations, each taking a fixed number of
//! string arguments.

use crate::text::{chars_of, parse_usize, str_eq_chars, usize_text_value};
use crate::validates::{ValidationError, ValidationResult};
use vstd::prelude::*;

verus! {

/// One argument read from its text.
pub trait RegistryArg: Sized {
    fn parse(arg: &str) -> ValidationResult<Self>;
}

impl RegistryArg for String {
    fn parse(arg: &str) -> (r: ValidationResult<String>)
        ensures
            r matches Ok(s) && s@ == arg@,
    {
        Ok(arg.to_owned())
    }
}

/// Types whose `FromStr` reading serves as their argument reading.
pub trait MayRegistryArgFromStr {}

impl MayRegistryArgFromStr for usize {}

impl RegistryArg for usize {
    fn parse(arg: &str) -> (r: ValidationResult<usize>)
        ensures
            match r {
                Ok(n) => usize_text_value(arg@) == Some(n as nat),
                Err(_) => usize_text_value(arg@) is None,
            },
    {
        let cs = chars_of(arg);
        match parse_usize(cs.as_slice()) {
            Some(n) => Ok(n),
            None => ValidationError::message("invalid digit found in string"),
        }
    }
}

/// The texts of a slice of strings.
pub open spec fn strs_view(a: Seq<&str>) -> Seq<Seq<char>> {
    a.map_values(|s: &str| s@)
}

/// The arguments an implementation takes, read from their texts.
pub trait RegistryArgs: Sized {
    spec fn arg_count() -> nat;

    /// `r` is what `parse` gives for the argument texts `args`.
    spec fn parsed(args: Seq<Seq<char>>, r: ValidationResult<Self>) -> bool;

    fn help_meta_suffix() -> &'static str;

    fn argct() -> (n: usize)
        ensures
            n == Self::arg_count(),
    ;

    fn parse(args: &[&str]) -> (r: ValidationResult<Self>)
        requires
            args@.len() == Self::arg_count(),
        ensures
            Self::parsed(strs_view(args@), r),
    ;
}

/// No arguments.
pub struct ZeroRegistryArgs {}

impl ZeroRegistryArgs {
    pub fn new() -> (r: ZeroRegistryArgs)
        ensures
            r == (ZeroRegistryArgs {  }),
    {
        ZeroRegistryArgs {  }
    }
}

impl RegistryArgs for ZeroRegistryArgs {
    open spec fn arg_count() -> nat {
        0
    }

    open spec fn parsed(args: Seq<Seq<char>>, r: ValidationResult<ZeroRegistryArgs>) -> bool {
        r is Ok
    }

    fn help_meta_suffix() -> (r: &'static str)
        ensures
            r@ == ""@,
    {
        ""
    }

    fn argct() -> (n: usize) {
        0
    }

    fn parse(args: &[&str]) -> (r: ValidationResult<ZeroRegistryArgs>)
        ensures
            r == Ok::<ZeroRegistryArgs, ValidationError>(ZeroRegistryArgs {  }),
    {
        Ok(ZeroRegistryArgs {  })
    }
}

/// One argument: a key.
pub struct OneKeyRegistryArgs {
    pub key: String,
}

impl OneKeyRegistryArgs {
    pub fn new(s: &str) -> (r: OneKeyRegistryArgs)
        ensures
            r.key@ == s@,
    {
        OneKeyRegistryArgs { key: s.to_owned() }
    }
}

impl RegistryArgs for OneKeyRegistryArgs {
    open spec fn arg_count() -> nat {
        1
    }

    open spec fn parsed(args: Seq<Seq<char>>, r: ValidationResult<OneKeyRegistryArgs>) -> bool {
        r matches Ok(a) && a.key@ == args[0]
    }

    fn help_meta_suffix() -> (r: &'static str)
        ensures
            r@ == ",key"@,
    {
        ",key"
    }

    fn argct() -> (n: usize) {
        1
    }

    fn parse(args: &[&str]) -> (r: ValidationResult<OneKeyRegistryArgs>)
        ensures
            r matches Ok(a) && a.key@ == args@[0]@,
    {
        Ok(OneKeyRegistryArgs::new(args[0]))
    }
}

/// Something registered under names, built from its arguments.
pub trait Registrant<R> {
    type Args: RegistryArgs;

    fn names() -> Vec<&'static str>;

    /// `r` is what `init2` builds from `a`.
    spec fn built(a: Self::Args, r: R) -> bool;

    fn init2(a: Self::Args) -> (r: R)
        ensures
            Self::built(a, r),
    ;

    fn argct() -> (n: usize)
        ensures
            n == Self::Args::arg_count(),
    {
        Self::Args::argct()
    }

    /// Reads the arguments and builds from them; the error of the reading
    /// when it fails.
    fn init(args: &[&str]) -> (r: ValidationResult<R>)
        requires
            args@.len() == Self::Args::arg_count(),
        ensures
            match r {
                Ok(x) => exists|a: Self::Args|
                    Self::Args::parsed(strs_view(args@), Ok::<Self::Args, ValidationError>(a))
                        && #[trigger] Self::built(a, x),
                Err(e) => Self::Args::parsed(strs_view(args@), Err::<Self::Args, ValidationError>(e)),
            },
    {
        match Self::Args::parse(args) {
            Ok(a) => {
                let ghost ga = a;
                let x = Self::init2(a);
                assert(Self::built(ga, x));
                let r = Ok(x);
                assert(r matches Ok(y) && y == x);
                r
            },
            Err(e) => Err(e),
        }
    }
}

/// Implementations by name, with the number of arguments each takes.
pub struct Registry<F> {
    entries: Vec<(String, usize, F)>,
}

impl<F> Registry<F> {
    /// The names registered, in the order added.
    pub closed spec fn names(&self) -> Seq<Seq<char>> {
        self.entries@.map_values(|e: (String, usize, F)| e.0@)
    }

    /// The argument count and implementation registered at position `i`.
    pub closed spec fn entry(&self, i: int) -> (usize, F) {
        (self.entries@[i].1, self.entries@[i].2)
    }

    pub open spec fn has(&self, name: Seq<char>) -> bool {
        self.names().contains(name)
    }

    /// Names are registered once each.
    pub open spec fn wf(&self) -> bool {
        self.names().no_duplicates()
    }

    pub fn new() -> (r: Registry<F>)
        ensures
            r.names().len() == 0,
            r.wf(),
    {
        let r = Registry { entries: Vec::new() };
        assert(r.names() =~= Seq::<Seq<char>>::empty());
        r
    }

    /// Registers `f` under `name`, taking `argct` arguments; the name must
    /// be new.
    pub fn add(&mut self, name: &str, argct: usize, f: F)
        requires
            old(self).wf(),
            !old(self).has(name@),
        ensures
            final(self).wf(),
            final(self).names() == old(self).names().push(name@),
            final(self).entry(old(self).names().len() as int) == (argct, f),
            forall|i: int| 0 <= i < old(self).names().len() ==> final(self).entry(i) == old(self).entry(i),
    {
        self.entries.push((name.to_owned(), argct, f));
        assert(self.names() =~= old(self).names().push(name@));
    }

    /// Where `name` is registered.
    fn position(&self, name: &str) -> (r: Option<usize>)
        ensures
            match r {
                Some(i) => i < self.names().len() && self.names()[i as int] == name@,
                None => !self.has(name@),
            },
    {
        let cs = chars_of(name);
        let mut i: usize = 0;
        while i < self.entries.len()
            invariant
                cs@ == name@,
                i <= self.entries@.len(),
                forall|j: int| 0 <= j < i ==> self.names()[j] != name@,
            decreases self.entries@.len() - i,
        {
            if str_eq_chars(self.entries[i].0.as_str(), cs.as_slice()) {
                return Some(i);
            }
            i = i + 1;
        }
        proof {
            if self.has(name@) {
                let k = choose|k: int| 0 <= k < self.names().len() && self.names()[k] == name@;
                assert(self.names()[k] != name@);
            }
        }
        None
    }
}

/// The error text for a name that is not registered.
pub open spec fn no_impl_text(name: Seq<char>) -> Seq<char> {
    "No implementation named "@ + name
}

/// The error text for a call with the wrong number of arguments.
pub open spec fn wrong_args_text(name: Seq<char>) -> Seq<char> {
    "Wrong number of args for "@ + name
}

impl<R, F: Fn(&[&str]) -> ValidationResult<R>> Registry<F> {
    /// Builds what `name` is registered to from `args`: an error when the
    /// name is unknown or the number of arguments is wrong.
    pub fn find(&self, name: &str, args: &[&str]) -> (r: ValidationResult<R>)
        requires
            self.wf(),
            forall|i: int| 0 <= i < self.names().len() ==> (#[trigger] self.entry(i)).1.requires((args,)),
        ensures
            !self.has(name@) ==> (r matches Err(e) && e.text() == no_impl_text(name@)),
            forall|i: int|
                0 <= i < self.names().len() && #[trigger] self.names()[i] == name@ ==> {
                    if args@.len() != self.entry(i).0 {
                        r matches Err(e) && e.text() == wrong_args_text(name@)
                    } else {
                        self.entry(i).1.ensures((args,), r)
                    }
                },
    {
        match self.position(name) {
            None => {
                let mut msg = "No implementation named ".to_owned();
                msg.append(name);
                proof {
                    reveal_strlit("No implementation named ");
                }
                Err(ValidationError::Message(msg))
            },
            Some(i) => {
                proof {
                    assert forall|j: int| 0 <= j < self.names().len() && self.names()[j] == name@ implies j == i by {
                        if j != i {
                            assert(self.names()[j] == self.names()[i as int]);
                        }
                    }
                }
                if args.len() != self.entries[i].1 {
                    let mut msg = "Wrong number of args for ".to_owned();
                    msg.append(name);
                    proof {
                        reveal_strlit("Wrong number of args for ");
                    }
                    return Err(ValidationError::Message(msg));
                }
                assert(self.entry(i as int).1.requires((args,)));
                (self.entries[i].2)(args)
            },
        }
    }
}

} // verus!
