//! Hex encoding for the ids that cross tandem's boundaries.
//!
//! jj ids are bytes, but every boundary tandem writes them to (bucket keys,
//! filesystem paths, log lines, etag strings) wants text. One pair of functions
//! keeps that conversion in one place.
use vstd::prelude::*;
use vstd::string::*;
use vstd::utf8::*;

use crate::text::models;

verus! {

/// Why a text is not the hex form of a byte string.
#[derive(Debug, Clone, Copy, PartialEq, Eq)]
pub enum HexError {
    /// The text has an odd number of bytes.
    OddLength,
    /// Some pair of bytes is not a number in base 16.
    BadDigit,
}

impl HexError {
    pub open spec fn text(self) -> Seq<char> {
        match self {
            HexError::OddLength => "odd-length hex string"@,
            HexError::BadDigit => "bad hex: invalid digit found in string"@,
        }
    }

    /// The sentence that names the error.
    pub fn message(&self) -> (s: &'static str)
        ensures
            s@ == self.text(),
    {
        match self {
            HexError::OddLength => "odd-length hex string",
            HexError::BadDigit => "bad hex: invalid digit found in string",
        }
    }
}

/// The lowercase digit of a number below 16.
pub open spec fn nibble_char(n: nat) -> char {
    if n < 10 {
        (48 + n) as char
    } else {
        (87 + n) as char
    }
}

/// Two lowercase digits for each byte.
pub open spec fn hex_text(bytes: Seq<u8>) -> Seq<char> {
    Seq::new(
        2 * bytes.len(),
        |i: int|
            if i % 2 == 0 {
                nibble_char(bytes[i / 2] as nat / 16)
            } else {
                nibble_char(bytes[i / 2] as nat % 16)
            },
    )
}

/// The value of a hex digit of either case.
pub open spec fn nibble_value(b: u8) -> Option<nat> {
    if 48 <= b <= 57 {
        Some((b - 48) as nat)
    } else if 97 <= b <= 102 {
        Some((b - 87) as nat)
    } else if 65 <= b <= 70 {
        Some((b - 55) as nat)
    } else {
        None
    }
}

/// The number that two bytes denote in base 16: two digits, or a plus sign
/// and a digit.
pub open spec fn pair_value(a: u8, b: u8) -> Option<u8> {
    match (nibble_value(a), nibble_value(b)) {
        (Some(x), Some(y)) => Some((x * 16 + y) as u8),
        (None, Some(y)) => if a == 43 {
            Some(y as u8)
        } else {
            None
        },
        _ => None,
    }
}

/// Whether every pair of the first `n` pairs denotes a number.
pub open spec fn pairs_denote(s: Seq<u8>, n: int) -> bool {
    forall|i: int| 0 <= i < n ==> (#[trigger] pair_value(s[2 * i], s[2 * i + 1])) is Some
}

/// The numbers that the first `n` pairs denote.
pub open spec fn pairs_decoded(s: Seq<u8>, n: int) -> Seq<u8> {
    Seq::new(n as nat, |i: int| pair_value(s[2 * i], s[2 * i + 1])->0)
}

/// The bytes that a text denotes, given as the bytes of the text.
pub open spec fn hex_decoded(s: Seq<u8>) -> Result<Seq<u8>, HexError> {
    if s.len() % 2 != 0 {
        Err(HexError::OddLength)
    } else if pairs_denote(s, s.len() as int / 2) {
        Ok(pairs_decoded(s, s.len() as int / 2))
    } else {
        Err(HexError::BadDigit)
    }
}

/// The bytes that a text denotes.
pub open spec fn hex_value(s: Seq<char>) -> Result<Seq<u8>, HexError> {
    hex_decoded(encode_utf8(s))
}

fn digit(n: u8) -> (c: char)
    requires
        n < 16,
    ensures
        c == nibble_char(n as nat),
{
    if n < 10 {
        (48u8 + n) as char
    } else {
        (87u8 + n) as char
    }
}

fn digit_value(b: u8) -> (r: Option<u8>)
    ensures
        match r {
            Some(n) => n < 16 && nibble_value(b) == Some(n as nat),
            None => nibble_value(b) is None,
        },
{
    if 48 <= b && b <= 57 {
        Some(b - 48)
    } else if 97 <= b && b <= 102 {
        Some(b - 87)
    } else if 65 <= b && b <= 70 {
        Some(b - 55)
    } else {
        None
    }
}

/// Convert raw bytes to a lowercase hex string.
pub fn to_hex(bytes: &[u8]) -> (s: String)
    ensures
        s@ == hex_text(bytes@),
{
    let mut s = String::new();
    let mut i: usize = 0;
    while i < bytes.len()
        invariant
            i <= bytes@.len(),
            s@ == hex_text(bytes@.take(i as int)),
        decreases bytes@.len() - i,
    {
        let b: u8 = bytes[i];
        s.push(digit(b / 16));
        s.push(digit(b % 16));
        proof {
            let longer = bytes@.take(i + 1);
            assert(s@ =~= hex_text(longer)) by {
                assert forall|k: int| 0 <= k < 2 * i implies hex_text(longer)[k] == #[trigger] hex_text(
                    bytes@.take(i as int),
                )[k] by {
                    assert(longer[k / 2] == bytes@.take(i as int)[k / 2]);
                }
                assert(longer[(2 * i) / 2] == b);
                assert(longer[(2 * i + 1) / 2] == b);
            }
        }
        i = i + 1;
    }
    assert(bytes@.take(i as int) =~= bytes@);
    s
}

/// Convert a hex string back to raw bytes.
///
/// A character outside ASCII is no digit, wherever the pairs cut it.
pub fn from_hex(hex: &str) -> (r: Result<Vec<u8>, HexError>)
    ensures
        match r {
            Ok(v) => hex_value(hex@) == Ok::<Seq<u8>, HexError>(v@),
            Err(e) => hex_value(hex@) == Err::<Seq<u8>, HexError>(e),
        },
{
    let s = hex.as_bytes();
    if s.len() % 2 != 0 {
        return Err(HexError::OddLength);
    }
    let mut out: Vec<u8> = Vec::new();
    let n: usize = s.len() / 2;
    let mut i: usize = 0;
    while i < n
        invariant
            i <= n,
            n == s@.len() / 2,
            s@.len() % 2 == 0,
            s@ == encode_utf8(hex@),
            pairs_denote(s@, i as int),
            out@ == pairs_decoded(s@, i as int),
        decreases n - i,
    {
        let a: u8 = s[2 * i];
        let b: u8 = s[2 * i + 1];
        let ghost pair = pair_value(s@[2 * i as int], s@[2 * i as int + 1]);
        match (digit_value(a), digit_value(b)) {
            (Some(x), Some(y)) => {
                out.push(x * 16 + y);
            },
            (None, Some(y)) => {
                if a != 43 {
                    assert(pair is None);
                    return Err(HexError::BadDigit);
                }
                out.push(y);
            },
            _ => {
                assert(pair is None);
                return Err(HexError::BadDigit);
            },
        }
        assert(out@ =~= pairs_decoded(s@, i + 1));
        i = i + 1;
    }
    Ok(out)
}

pub proof fn hex_text_is_ascii(bytes: Seq<u8>)
    ensures
        is_ascii_chars(hex_text(bytes)),
        encode_utf8(hex_text(bytes)) == Seq::new(
            2 * bytes.len(),
            |i: int| hex_text(bytes)[i] as u8,
        ),
{
    let t = hex_text(bytes);
    assert forall|i: int| 0 <= i < t.len() implies (#[trigger] t[i] as nat) < 128 by {}
    is_ascii_chars_encode_utf8(t);
    assert(encode_utf8(t) =~= Seq::new(2 * bytes.len(), |i: int| t[i] as u8));
}

/// Reading back an id that was written in hex gives the id.
pub proof fn hex_reads_back(bytes: Seq<u8>)
    ensures
        hex_value(hex_text(bytes)) == Ok::<Seq<u8>, HexError>(bytes),
{
    hex_text_is_ascii(bytes);
    let t = hex_text(bytes);
    let s = encode_utf8(t);
    let n = bytes.len() as int;
    assert forall|i: int| 0 <= i < n implies (#[trigger] pair_value(s[2 * i], s[2 * i + 1])) == Some(
        bytes[i],
    ) by {
        assert((2 * i) / 2 == i && (2 * i + 1) / 2 == i);
        assert(t[2 * i] == nibble_char(bytes[i] as nat / 16));
        assert(t[2 * i + 1] == nibble_char(bytes[i] as nat % 16));
        assert(s[2 * i] == t[2 * i] as u8);
        assert(s[2 * i + 1] == t[2 * i + 1] as u8);
    }
    assert(pairs_decoded(s, n) =~= bytes);
}

/// Different ids have different hex forms.
pub proof fn hex_text_is_injective(a: Seq<u8>, b: Seq<u8>)
    requires
        hex_text(a) == hex_text(b),
    ensures
        a == b,
{
    hex_reads_back(a);
    hex_reads_back(b);
}

/// Every hex digit is one of the digits and lowercase letters that a bucket key
/// or a URL segment may hold.
pub proof fn hex_text_digits(bytes: Seq<u8>)
    ensures
        forall|i: int|
            0 <= i < hex_text(bytes).len() ==> {
                let c = #[trigger] hex_text(bytes)[i];
                ('0' <= c && c <= '9') || ('a' <= c && c <= 'f')
            },
{
}

/// A byte is written as two digits, the one for sixteen times its value first.
pub proof fn a_byte_is_two_digits(bytes: Seq<u8>, i: int)
    requires
        0 <= i < bytes.len(),
    ensures
        hex_text(bytes).len() == 2 * bytes.len(),
        nibble_value(hex_text(bytes)[2 * i] as u8) matches Some(high) && nibble_value(
            hex_text(bytes)[2 * i + 1] as u8,
        ) matches Some(low) && bytes[i] == 16 * high + low && high < 16 && low < 16,
{
    hex_text_digits(bytes);
    assert((2 * i) / 2 == i && (2 * i) % 2 == 0 && (2 * i + 1) / 2 == i && (2 * i + 1) % 2 == 1);
}

/// The digits are `0` to `9` and `a` to `f`, in either case, with the values zero to
/// fifteen in that order; no other byte is one.
pub proof fn digits_count_up(b: u8)
    ensures
        nibble_value(b) is Some <==> ('0' as u8 <= b <= '9' as u8) || ('a' as u8 <= b <= 'f' as u8)
            || ('A' as u8 <= b <= 'F' as u8),
        '0' as u8 <= b <= '9' as u8 ==> nibble_value(b) == Some((b - '0' as u8) as nat),
        'a' as u8 <= b <= 'f' as u8 ==> nibble_value(b) == Some((b - 'a' as u8 + 10) as nat),
        'A' as u8 <= b <= 'F' as u8 ==> nibble_value(b) == Some((b - 'A' as u8 + 10) as nat),
{
}

/// The hex of several ids is that of each, in their order.
pub proof fn ids_are_written_one_by_one(ids: Seq<Seq<u8>>, i: int)
    requires
        0 <= i < ids.len(),
    ensures
        hex_texts(ids).len() == ids.len(),
        hex_texts(ids)[i] == hex_text(ids[i]),
{
}

/// Each id in hex.
pub open spec fn hex_texts(ids: Seq<Seq<u8>>) -> Seq<Seq<char>> {
    ids.map_values(|id: Seq<u8>| hex_text(id))
}

/// The hex text of each id, in order.
pub fn to_hex_all(ids: &[Vec<u8>]) -> (texts: Vec<String>)
    ensures
        models(texts@) == hex_texts(models(ids@)),
{
    let mut texts: Vec<String> = Vec::new();
    let mut i: usize = 0;
    while i < ids.len()
        invariant
            i <= ids@.len(),
            texts@.len() == i,
            forall|j: int| 0 <= j < i ==> (#[trigger] texts@[j])@ == hex_text(ids@[j]@),
        decreases ids@.len() - i,
    {
        texts.push(to_hex(ids[i].as_slice()));
        i = i + 1;
    }
    assert(models(texts@) =~= hex_texts(models(ids@)));
    texts
}

} // verus!
