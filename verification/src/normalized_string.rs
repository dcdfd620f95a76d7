//! A string that was checked, when it was made, to be non-empty, no longer
//! than a limit and free of a set of restricted characters.

use vstd::prelude::*;
use vstd::std_specs::iter::IteratorSpec;
use vstd::string::{to_string_from_display_ensures, StringExecFns};
use vstd::utf8::encode_utf8;

verus! {

/// The errors that can occur while ensuring a string is normalized. Each
/// carries the name of the value that was refused.
#[derive(Debug)]
pub enum NormalizationError {
    /// Indicates that the proposed value is empty.
    Empty(&'static str),
    /// Indicates that the proposed value exceeds the maximum length, which is given.
    TooLong(&'static str, usize),
    /// Indicates that the proposed value contains one or more of the
    /// restricted characters, which are given.
    InvalidCharacter(&'static str, &'static str),
}

/// A container for a string that enforces a maximum length and restricted
/// characters. It is never empty.
#[derive(Debug, PartialEq, Eq, Hash)]
pub struct NormalizedString(String);

/// Whether `text` holds one of the characters of `restricted`.
pub open spec fn has_restricted(text: Seq<char>, restricted: Seq<char>) -> bool {
    exists|i: int| 0 <= i < restricted.len() && text.contains(#[trigger] restricted[i])
}

/// The first rule that `text` breaks, as the error that reports it, or `None`
/// where it breaks none. The rules in order: the text is not empty; its
/// UTF-8 form has at most `max_len` bytes; it holds none of the characters of
/// `restricted_chars`.
pub open spec fn rejection(
    text: Seq<char>,
    value_name: &'static str,
    max_len: usize,
    restricted_chars: &'static str,
) -> Option<NormalizationError> {
    if text.len() == 0 {
        Some(NormalizationError::Empty(value_name))
    } else if encode_utf8(text).len() > max_len {
        Some(NormalizationError::TooLong(value_name, max_len))
    } else if has_restricted(text, restricted_chars@) {
        Some(NormalizationError::InvalidCharacter(value_name, restricted_chars))
    } else {
        None
    }
}

/// Whether `wanted` occurs in `text`.
fn contains_char(text: &str, wanted: char) -> (found: bool)
    ensures
        found == text@.contains(wanted),
{
    for c in chars: text.chars()
        invariant
            chars.seq() == text@,
            forall|i: int| 0 <= i < chars.index() ==> text@[i] != wanted,
    {
        if c == wanted {
            return true;
        }
    }
    false
}

impl View for NormalizedString {
    type V = Seq<char>;

    open spec fn view(&self) -> Seq<char> {
        self.text()@
    }
}

impl Clone for NormalizedString {
    fn clone(&self) -> (copy: Self)
        ensures
            copy@ == self@,
    {
        proof {
            use_type_invariant(self);
        }
        NormalizedString(self.0.clone())
    }
}

impl NormalizedString {
    /// The wrapped string.
    pub closed spec fn text(self) -> String {
        self.0
    }

    /// What holds of every value of this type: the wrapped text is not empty.
    #[verifier::type_invariant]
    spec fn well_formed(self) -> bool {
        self.0@.len() > 0
    }

    /// Verifies that the proposed value meets the requirements for a
    /// NormalizedString with a maximum length of 255 bytes and `;` as the
    /// only restricted character.
    pub fn default_verify(value: String, value_name: &'static str) -> (result: Result<
        NormalizedString,
        NormalizationError,
    >)
        ensures
            match rejection(value@, value_name, 255, ";") {
                Some(error) => result == Err::<NormalizedString, NormalizationError>(error),
                None => result is Ok && result->Ok_0@ == value@,
            },
    {
        NormalizedString::verify(value, value_name, 255, ";")
    }

    /// Verifies that the proposed value meets the requirements for a
    /// NormalizedString with the given parameters, and wraps it unchanged.
    pub fn verify(
        value: String,
        value_name: &'static str,
        max_len: usize,
        restricted_chars: &'static str,
    ) -> (result: Result<NormalizedString, NormalizationError>)
        ensures
            match rejection(value@, value_name, max_len, restricted_chars) {
                Some(error) => result == Err::<NormalizedString, NormalizationError>(error),
                None => result is Ok && result->Ok_0@ == value@,
            },
    {
        if value.as_str().is_empty() {
            return Err(NormalizationError::Empty(value_name));
        }
        if value.as_str().as_bytes().len() > max_len {
            return Err(NormalizationError::TooLong(value_name, max_len));
        }
        for c in chars: restricted_chars.chars()
            invariant
                chars.seq() == restricted_chars@,
                value@.len() != 0,
                encode_utf8(value@).len() <= max_len,
                forall|i: int|
                    0 <= i < chars.index() ==> !value@.contains(#[trigger] restricted_chars@[i]),
        {
            if contains_char(value.as_str(), c) {
                assert(value@.contains(restricted_chars@[chars.index()]));
                return Err(NormalizationError::InvalidCharacter(value_name, restricted_chars));
            }
        }
        Ok(NormalizedString(value))
    }

    /// Returns a reference to the wrapped value.
    pub fn as_str(&self) -> (text: &str)
        ensures
            text@ == self@,
            text@.len() > 0,
    {
        proof {
            use_type_invariant(self);
        }
        self.0.as_str()
    }

    /// Gives the wrapped value back as a plain string.
    pub fn into_string(self) -> (text: String)
        ensures
            text == self.text(),
            text@ == self@,
            text@.len() > 0,
    {
        proof {
            use_type_invariant(&self);
        }
        self.0
    }
}

impl NormalizationError {
    /// The message for a reader: which value was refused, and why.
    pub fn message(&self) -> (text: String)
        ensures
            match *self {
                NormalizationError::Empty(name) => text@ == name@ + " cannot be empty."@,
                NormalizationError::TooLong(name, max) => exists|digits: String| #[trigger]
                    to_string_from_display_ensures::<usize>(&max, digits) && text@ == name@
                        + " cannot be longer than "@ + digits@ + " characters."@,
                NormalizationError::InvalidCharacter(name, restricted) => text@ == name@
                    + " cannot contain '"@ + restricted@ + "'"@,
            },
    {
        match self {
            NormalizationError::Empty(name) => String::from_str(name).concat(" cannot be empty."),
            NormalizationError::TooLong(name, max) => {
                let digits = max.to_string();
                String::from_str(name).concat(" cannot be longer than ").concat(
                    digits.as_str(),
                ).concat(" characters.")
            },
            NormalizationError::InvalidCharacter(name, restricted) => String::from_str(
                name,
            ).concat(" cannot contain '").concat(restricted).concat("'"),
        }
    }
}

impl From<NormalizedString> for String {
    /// Gives the wrapped value back as a plain string.
    fn from(value: NormalizedString) -> (text: String) {
        value.into_string()
    }
}

impl vstd::std_specs::convert::FromSpecImpl<NormalizedString> for String {
    open spec fn obeys_from_spec() -> bool {
        true
    }

    open spec fn from_spec(value: NormalizedString) -> String {
        value.text()
    }
}

/// A text that is not empty, fits the limit and holds no restricted
/// character breaks no rule: `verify` wraps it unchanged.
pub proof fn lemma_valid_text_is_accepted(
    text: Seq<char>,
    value_name: &'static str,
    max_len: usize,
    restricted_chars: &'static str,
)
    requires
        text.len() > 0,
        encode_utf8(text).len() <= max_len,
        !has_restricted(text, restricted_chars@),
    ensures
        rejection(text, value_name, max_len, restricted_chars) is None,
{
}

/// The empty text is refused as `Empty`, whatever the limit and the
/// restricted characters are.
pub proof fn lemma_empty_text_is_refused(
    value_name: &'static str,
    max_len: usize,
    restricted_chars: &'static str,
)
    ensures
        rejection(Seq::<char>::empty(), value_name, max_len, restricted_chars) == Some(
            NormalizationError::Empty(value_name),
        ),
{
}

/// A text whose UTF-8 form is longer than the limit is refused as `TooLong`,
/// whatever it holds.
pub proof fn lemma_long_text_is_refused(
    text: Seq<char>,
    value_name: &'static str,
    max_len: usize,
    restricted_chars: &'static str,
)
    requires
        encode_utf8(text).len() > max_len,
    ensures
        rejection(text, value_name, max_len, restricted_chars) == Some(
            NormalizationError::TooLong(value_name, max_len),
        ),
{
    if text.len() == 0 {
        assert(encode_utf8(text).len() == 0);
    }
}

/// A text that fits the limit and holds a restricted character is refused as
/// `InvalidCharacter`. A text over the limit is refused as `TooLong` before
/// its characters are looked at.
pub proof fn lemma_restricted_text_is_refused(
    text: Seq<char>,
    value_name: &'static str,
    max_len: usize,
    restricted_chars: &'static str,
)
    requires
        encode_utf8(text).len() <= max_len,
        has_restricted(text, restricted_chars@),
    ensures
        rejection(text, value_name, max_len, restricted_chars) == Some(
            NormalizationError::InvalidCharacter(value_name, restricted_chars),
        ),
{
    let i = choose|i: int|
        0 <= i < restricted_chars@.len() && text.contains(#[trigger] restricted_chars@[i]);
    assert(text.len() > 0);
}

} // verus!
