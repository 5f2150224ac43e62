use vstd::prelude::*;

verus! {

/// The text that `{:?}` gives for a string: the string quoted and escaped.
pub uninterp spec fn debug_text(s: Seq<char>) -> Seq<char>;

/// Formats a string with `{:?}` (std's `Debug` for `str`).
/// The contract names the result: it depends on the string alone.
#[verifier::external_body]
pub(crate) fn debug_quote(s: &str) -> (r: String)
    ensures
        r@ == debug_text(s@),
{
    format!("{:?}", s)
}

/// An error met while validating options or arguments.
pub enum ValidationError {
    Message(String),
}

pub type ValidationResult<T> = Result<T, ValidationError>;

impl ValidationError {
    /// The text this error carries.
    pub open spec fn text(&self) -> Seq<char> {
        match self {
            ValidationError::Message(s) => s@,
        }
    }

    /// An `Err` carrying `msg`.
    pub fn message<R>(msg: &str) -> (r: ValidationResult<R>)
        ensures
            r matches Err(e) && e.text() == msg@,
    {
        Err(ValidationError::Message(msg.to_owned()))
    }

    /// The same error, its text now prefixed by `prefix` and `": "`, the
    /// old text quoted as `{:?}` quotes it.
    pub fn label(self, prefix: &str) -> (r: ValidationError)
        ensures
            r.text() == prefix@ + ": "@ + debug_text(self.text()),
    {
        match self {
            ValidationError::Message(s) => {
                let mut out = prefix.to_owned();
                out.append(": ");
                let q = debug_quote(s.as_str());
                out.append(q.as_str());
                proof { reveal_strlit(": "); }
                ValidationError::Message(out)
            },
        }
    }
}

/// Something that turns into its validated form, or fails with an error.
pub trait Validates: Sized {
    type Target;

    /// The inputs on which `validate` may be called.
    spec fn can_validate(&self) -> bool;

    /// `r` is what `validate` gives for this value.
    spec fn validates_to(&self, r: ValidationResult<Self::Target>) -> bool;

    fn validate(self) -> (r: ValidationResult<Self::Target>)
        requires
            self.can_validate(),
        ensures
            self.validates_to(r),
    ;
}

} // verus!
