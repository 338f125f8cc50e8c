//! A single symbol of text: either a letter of the ring `A`..`Z`, or a
//! separator that every cipher operation passes through unchanged.
use vstd::prelude::*;
use vstd::string::StringSliceAdditionalSpecFns;
use vstd::utf8::{
    decode_utf8, encode_utf8, encode_utf8_decode_utf8, encode_utf8_valid_utf8, is_ascii_chars,
    is_ascii_chars_encode_utf8, valid_utf8,
};

verus! {

/// The byte that stands for a separator produced by the ring operations.
pub const SPACE: u8 = 32;

/// A byte of text, read as a letter when it lies in `A`..`Z` and as a
/// separator otherwise.
#[derive(Clone, Copy, Debug, PartialEq, Eq, Structural)]
pub struct Alpha(pub u8);

/// The symbols of a byte sequence, one per byte.
pub open spec fn alphas_of(bytes: Seq<u8>) -> Seq<Alpha> {
    bytes.map_values(|b: u8| Alpha(b))
}

/// The bytes of a symbol sequence, one per symbol.
pub open spec fn bytes_of(text: Seq<Alpha>) -> Seq<u8> {
    text.map_values(|a: Alpha| a.0)
}

impl Alpha {
    /// Whether the symbol is a letter of the ring.
    pub open spec fn is_letter(self) -> bool {
        65 <= self.0 && self.0 <= 90
    }

    /// The ring value of a letter, 0 for `A` up to 25 for `Z`.
    pub open spec fn value(self) -> int {
        self.0 - 65
    }

    /// The letter whose ring value is `n`, or the separator when `n` lies
    /// outside `0..26`.
    pub open spec fn of_num(n: int) -> Alpha {
        if 0 <= n && n < 26 {
            Alpha((n + 65) as u8)
        } else {
            Alpha(SPACE)
        }
    }

    /// Ring addition; a separator on either side gives the separator.
    pub open spec fn plus(self, rhs: Alpha) -> Alpha {
        if self.is_letter() && rhs.is_letter() {
            Alpha::of_num((self.value() + rhs.value()) % 26)
        } else {
            Alpha(SPACE)
        }
    }

    /// Ring subtraction, with a remainder that is never negative; a
    /// separator on either side gives the separator.
    pub open spec fn minus(self, rhs: Alpha) -> Alpha {
        if self.is_letter() && rhs.is_letter() {
            Alpha::of_num((self.value() - rhs.value()) % 26)
        } else {
            Alpha(SPACE)
        }
    }

    pub fn space() -> (r: Self)
        ensures
            r == Alpha(SPACE),
            !r.is_letter(),
    {
        Alpha(SPACE)
    }

    /// The symbols of the UTF-8 bytes of `value`.
    pub fn from_str(value: &str) -> (r: Vec<Self>)
        ensures
            r@ == alphas_of(value.spec_bytes()),
    {
        let bytes = value.as_bytes();
        let mut r: Vec<Self> = Vec::new();
        let mut i: usize = 0;
        while i < bytes.len()
            invariant
                bytes@ == value.spec_bytes(),
                i <= bytes@.len(),
                r@ == alphas_of(bytes@.take(i as int)),
            decreases bytes@.len() - i,
        {
            r.push(Alpha(bytes[i]));
            i = i + 1;
            assert(alphas_of(bytes@.take(i as int)) =~= r@);
        }
        assert(bytes@.take(i as int) =~= bytes@);
        r
    }

    /// The text whose UTF-8 bytes are the symbols of `value`.
    pub fn to_str(value: &[Self]) -> (r: String)
        requires
            valid_utf8(bytes_of(value@)),
        ensures
            r@ == decode_utf8(bytes_of(value@)),
    {
        let mut bytes: Vec<u8> = Vec::new();
        let mut i: usize = 0;
        while i < value.len()
            invariant
                i <= value@.len(),
                bytes@ == bytes_of(value@.take(i as int)),
            decreases value@.len() - i,
        {
            bytes.push(value[i].0);
            i = i + 1;
            assert(bytes_of(value@.take(i as int)) =~= bytes@);
        }
        assert(value@.take(i as int) =~= value@);
        match utf8_string(bytes) {
            Some(s) => s,
            None => String::new(),
        }
    }

    /// The letter of ring value `value`, or the separator when `value` lies
    /// outside `0..26`.
    pub fn from_num(value: i32) -> (r: Self)
        ensures
            r == Alpha::of_num(value as int),
    {
        if value >= 0 && value < 26 {
            Alpha(value as u8 + 65)
        } else {
            Self::space()
        }
    }

    pub fn from_ascii(value: u8) -> (r: Self)
        ensures
            r == Alpha(value),
    {
        Alpha(value)
    }

    /// The ring value of a letter, `None` for a separator.
    pub fn to_num(self) -> (r: Option<i32>)
        ensures
            self.is_letter() ==> r == Some(self.value() as i32),
            !self.is_letter() ==> r is None,
    {
        if self.0 >= 65 && self.0 - 65 < 26 {
            Some((self.0 - 65) as i32)
        } else {
            None
        }
    }

    pub fn to_ascii(self) -> (r: u8)
        ensures
            r == self.0,
    {
        self.0
    }

    /// Ring addition of two symbols.
    pub fn add(self, rhs: Self) -> (r: Self)
        ensures
            r == self.plus(rhs),
    {
        match (self.to_num(), rhs.to_num()) {
            (Some(lhs), Some(rhs)) => Self::from_num((lhs + rhs) % 26),
            _ => Self::space(),
        }
    }

    /// Ring subtraction of two symbols.
    pub fn sub(self, rhs: Self) -> (r: Self)
        ensures
            r == self.minus(rhs),
    {
        match (self.to_num(), rhs.to_num()) {
            (Some(lhs), Some(rhs)) => {
                let d: i32 = lhs - rhs;
                let m: i32 = if d < 0 { d + 26 } else { d };
                assert(m as int == (lhs as int - rhs as int) % 26);
                Self::from_num(m)
            },
            _ => Self::space(),
        }
    }
}

/// Bytes below 128 are valid UTF-8, and encode one character each.
pub proof fn lemma_ascii_utf8(bytes: Seq<u8>)
    requires
        forall|i: int| 0 <= i < bytes.len() ==> #[trigger] bytes[i] < 128,
    ensures
        valid_utf8(bytes),
        decode_utf8(bytes) == bytes.map_values(|b: u8| b as char),
{
    let chars = bytes.map_values(|b: u8| b as char);
    assert(is_ascii_chars(chars));
    is_ascii_chars_encode_utf8(chars);
    assert(encode_utf8(chars) =~= bytes);
    encode_utf8_valid_utf8(chars);
    encode_utf8_decode_utf8(chars);
}

/// Relies on `String::from_utf8`: it succeeds exactly on valid UTF-8, and
/// the text then holds the characters those bytes encode.
#[verifier::external_body]
fn utf8_string(bytes: Vec<u8>) -> (r: Option<String>)
    ensures
        r is Some <==> valid_utf8(bytes@),
        r matches Some(s) ==> s@ == decode_utf8(bytes@),
{
    String::from_utf8(bytes).ok()
}

} // verus!
