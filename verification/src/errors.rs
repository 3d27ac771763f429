//! Error definitions.
use vstd::prelude::*;

verus! {

/// Declaration of the error type of the `toml` crate, so that it can be
/// carried inside [`EasySegmenterError`].  The value is opaque here.
#[verifier::external_type_specification]
#[verifier::external_body]
pub struct ExTomlDeError(toml::de::Error);

/// Errors in this library.
#[derive(Debug)]
pub enum EasySegmenterError {
    /// Contains [`InputError`].
    Input(InputError),
    /// The error variant for [`toml::de::Error`].
    TomlDecode(toml::de::Error),
}

/// Error used when the input argument is invalid.
#[derive(Debug)]
pub struct InputError {
    msg: String,
}

impl View for InputError {
    type V = Seq<char>;

    closed spec fn view(&self) -> Seq<char> {
        self.msg@
    }
}

impl InputError {
    /// Returns the message describing what was wrong with the input.
    pub fn message(&self) -> (r: String)
        ensures
            r@ == self@,
    {
        self.msg.clone()
    }
}

/// The text of a `toml` decode error.
pub uninterp spec fn toml_error_message(e: toml::de::Error) -> Seq<char>;

/// Relies on the `Display` impl of `toml::de::Error`: it formats the
/// error's message, a function of the error value alone.
#[verifier::external_body]
fn toml_error_string(e: &toml::de::Error) -> (r: String)
    ensures
        r@ == toml_error_message(*e),
{
    e.to_string()
}

impl EasySegmenterError {
    /// Returns the message describing the error: the invalid-input message,
    /// or the `toml` crate's description of the decode failure.
    pub fn message(&self) -> (r: String)
        ensures
            (*self matches EasySegmenterError::Input(e) ==> r@ == e@),
            (*self matches EasySegmenterError::TomlDecode(e) ==> r@ == toml_error_message(e)),
    {
        match self {
            EasySegmenterError::Input(e) => e.message(),
            EasySegmenterError::TomlDecode(e) => toml_error_string(e),
        }
    }

    pub(crate) fn input(msg: &str) -> (r: Self)
        ensures
            (r matches EasySegmenterError::Input(e) && e@ == msg@),
    {
        EasySegmenterError::Input(InputError { msg: msg.to_owned() })
    }
}

impl From<toml::de::Error> for EasySegmenterError {
    fn from(error: toml::de::Error) -> (r: Self) {
        EasySegmenterError::TomlDecode(error)
    }
}

impl vstd::std_specs::convert::FromSpecImpl<toml::de::Error> for EasySegmenterError {
    open spec fn obeys_from_spec() -> bool {
        true
    }

    open spec fn from_spec(error: toml::de::Error) -> Self {
        EasySegmenterError::TomlDecode(error)
    }
}

} // verus!
