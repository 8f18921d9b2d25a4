//! What can go wrong.

use vstd::prelude::*;
use vstd::string::StringExecFns;

verus! {

/// Why the decode of a value failed.
#[derive(Clone, Copy, Debug, PartialEq, Eq, Structural)]
pub enum DecodeError {
    /// A value carries a tag other than the link tag.
    UnexpectedTag(u64),
    /// The link tag wraps something that did not decode to a byte string.
    BytesExpected,
    /// A tagged value was announced while no tag was active.
    TagExpected,
    /// A mapping has a key that is not text.
    TextKeyExpected,
}

/// Why the decode of a link failed.
#[derive(Debug)]
pub enum LinkError {
    /// The engine could not read the input as a byte string; its own error, as it gave it.
    Engine(serde_cbor::Error),
    /// The byte string carries a tag other than the link tag.
    UnexpectedTag(u64),
}

/// Why an encode failed.
#[derive(Debug)]
pub enum EncodeError {
    /// The engine could not write the value; its own error, as it gave it.
    Engine(serde_cbor::Error),
}

/// The decimal digit for `d`.
pub open spec fn digit(d: nat) -> char
    recommends
        d < 10,
{
    if d == 0 {
        '0'
    } else if d == 1 {
        '1'
    } else if d == 2 {
        '2'
    } else if d == 3 {
        '3'
    } else if d == 4 {
        '4'
    } else if d == 5 {
        '5'
    } else if d == 6 {
        '6'
    } else if d == 7 {
        '7'
    } else if d == 8 {
        '8'
    } else {
        '9'
    }
}

/// `n` in decimal, without leading zeros.
pub open spec fn decimal(n: nat) -> Seq<char>
    decreases n,
{
    if n < 10 {
        seq![digit(n)]
    } else {
        decimal(n / 10).push(digit(n % 10))
    }
}

/// The digit for `d` as a text of one character.
fn digit_text(d: u64) -> (r: &'static str)
    requires
        d < 10,
    ensures
        r@ == seq![digit(d as nat)],
{
    proof {
        reveal_strlit("0");
        reveal_strlit("1");
        reveal_strlit("2");
        reveal_strlit("3");
        reveal_strlit("4");
        reveal_strlit("5");
        reveal_strlit("6");
        reveal_strlit("7");
        reveal_strlit("8");
        reveal_strlit("9");
    }
    if d == 0 {
        "0"
    } else if d == 1 {
        "1"
    } else if d == 2 {
        "2"
    } else if d == 3 {
        "3"
    } else if d == 4 {
        "4"
    } else if d == 5 {
        "5"
    } else if d == 6 {
        "6"
    } else if d == 7 {
        "7"
    } else if d == 8 {
        "8"
    } else {
        "9"
    }
}

/// Appends `n` in decimal to `text`.
fn push_decimal(text: &mut String, n: u64)
    ensures
        final(text)@ == old(text)@ + decimal(n as nat),
    decreases n,
{
    if n >= 10 {
        push_decimal(text, n / 10);
    }
    text.append(digit_text(n % 10));
}

impl DecodeError {
    /// The text of the error.
    pub open spec fn text(self) -> Seq<char> {
        match self {
            DecodeError::UnexpectedTag(tag) => "unexpected tag ("@ + decimal(tag as nat) + ")"@,
            DecodeError::BytesExpected => "bytes expected"@,
            DecodeError::TagExpected => "tag expected"@,
            DecodeError::TextKeyExpected => "text key expected"@,
        }
    }

    /// The error in words.
    pub fn message(&self) -> (r: String)
        ensures
            r@ == self.text(),
    {
        match self {
            DecodeError::UnexpectedTag(tag) => {
                let mut r = String::from_str("unexpected tag (");
                push_decimal(&mut r, *tag);
                r.append(")");
                r
            },
            DecodeError::BytesExpected => String::from_str("bytes expected"),
            DecodeError::TagExpected => String::from_str("tag expected"),
            DecodeError::TextKeyExpected => String::from_str("text key expected"),
        }
    }
}

impl LinkError {
    /// The error in words: for another tag always the same two words, without the tag's
    /// number; for an engine error the engine's.
    pub fn message(&self) -> (r: String)
        ensures
            self is UnexpectedTag ==> r@ == "unexpected tag"@,
    {
        match self {
            LinkError::Engine(e) => e.to_string(),
            LinkError::UnexpectedTag(_) => String::from_str("unexpected tag"),
        }
    }
}

} // verus!
