use vstd::prelude::*;

use crate::error::MessageError;

verus! {

/// The characters that carry the Unicode `White_Space` property, which is
/// what `str::trim` strips.
pub open spec fn is_white_space(c: char) -> bool {
    ||| '\u{9}' <= c <= '\u{d}'
    ||| c == ' '
    ||| c == '\u{85}'
    ||| c == '\u{a0}'
    ||| c == '\u{1680}'
    ||| '\u{2000}' <= c <= '\u{200a}'
    ||| c == '\u{2028}'
    ||| c == '\u{2029}'
    ||| c == '\u{202f}'
    ||| c == '\u{205f}'
    ||| c == '\u{3000}'
}

/// A string is blank when it has no character outside `White_Space`
/// (the empty string is blank).
pub open spec fn is_blank(s: Seq<char>) -> bool {
    forall|i: int| 0 <= i < s.len() ==> is_white_space(#[trigger] s[i])
}

pub fn white_space_char(c: char) -> (r: bool)
    ensures
        r == is_white_space(c),
{
    ('\u{9}' <= c && c <= '\u{d}') || c == ' ' || c == '\u{85}' || c == '\u{a0}' || c == '\u{1680}'
        || ('\u{2000}' <= c && c <= '\u{200a}') || c == '\u{2028}' || c == '\u{2029}' || c
        == '\u{202f}' || c == '\u{205f}' || c == '\u{3000}'
}

pub fn blank_str(s: &str) -> (r: bool)
    ensures
        r == is_blank(s@),
{
    let mut blank = true;
    for c in it: s.chars()
        invariant
            it.seq() == s@,
            blank == (forall|i: int| 0 <= i < it.index() ==> is_white_space(#[trigger] s@[i])),
    {
        if !white_space_char(c) {
            blank = false;
        }
    }
    blank
}

/// Text that holds at least one character outside `White_Space`; the
/// characters are kept exactly as given.
#[derive(Debug, PartialEq, Eq, Hash)]
pub struct Text(String);

impl View for Text {
    type V = Seq<char>;

    closed spec fn view(&self) -> Seq<char> {
        self.0@
    }
}

impl Clone for Text {
    fn clone(&self) -> (r: Self)
        ensures
            r == *self,
    {
        proof {
            use_type_invariant(self);
        }
        Text(self.0.clone())
    }
}

impl Text {
    #[verifier::type_invariant]
    closed spec fn not_blank(self) -> bool {
        !is_blank(self.0@)
    }

    /// Builds a text, refused with `Blank { field: "text" }` exactly when
    /// the value is blank.
    pub fn new(value: &str) -> (r: Result<Text, MessageError>)
        ensures
            match r {
                Ok(text) => !is_blank(value@) && text@ == value@,
                Err(e) => is_blank(value@) && e == (MessageError::Blank { field: "text" }),
            },
    {
        if blank_str(value) {
            return Err(MessageError::Blank { field: "text" });
        }
        Ok(Text(value.to_owned()))
    }

    /// Same as `new`, taking the string by value.
    pub fn from_string(value: String) -> (r: Result<Text, MessageError>)
        ensures
            match r {
                Ok(text) => !is_blank(value@) && text@ == value@,
                Err(e) => is_blank(value@) && e == (MessageError::Blank { field: "text" }),
            },
    {
        if blank_str(value.as_str()) {
            return Err(MessageError::Blank { field: "text" });
        }
        Ok(Text(value))
    }

    pub fn as_str(&self) -> (r: &str)
        ensures
            r@ == self@,
            !is_blank(r@),
    {
        proof {
            use_type_invariant(self);
        }
        self.0.as_str()
    }

    pub fn to_string(&self) -> (r: String)
        ensures
            r@ == self@,
    {
        self.0.clone()
    }

    pub fn into_string(self) -> (r: String)
        ensures
            r@ == self@,
    {
        self.0
    }
}

} // verus!
