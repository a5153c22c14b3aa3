//! Hex display boundary for [`Distinction`] and [`RawDistinctionId`].
//!
//! Identity is bytes; hex is how bytes go on a page or a wire. Both
//! `from_hex` constructors parse the same 32-character lowercase grammar
//! through one kernel, so they share one [`ParseError`] surface.

use vstd::prelude::*;
use vstd::string::StringSliceAdditionalSpecFns;
use crate::distinction::{Distinction, RawDistinctionId, arr16, lemma_arr16};
use crate::bindings::{hex_encode, hex_chars, hex_digit};
use vstd::utf8::{encode_utf8, is_ascii_chars, is_ascii_chars_encode_utf8};

verus! {

broadcast use crate::distinction::group_distinction;

/// Errors produced by `from_hex`.
#[derive(Debug, Clone, Copy, PartialEq, Eq)]
pub enum ParseError {
    /// Input length (in bytes) was not exactly 32.
    InvalidLength(usize),
    /// An ASCII byte outside `[0-9a-f]` (uppercase is rejected).
    InvalidChar {
        /// Byte position of the offending character.
        position: usize,
        /// The character found.
        found: char,
    },
    /// A non-ASCII byte.
    NonAscii {
        /// Byte position of the non-ASCII byte.
        position: usize,
    },
}

/// A lowercase hex digit byte.
pub open spec fn is_hex_byte(b: u8) -> bool {
    (48 <= b <= 57) || (97 <= b <= 102)
}

/// The value of a lowercase hex digit byte.
pub open spec fn nibble_value(b: u8) -> u8 {
    if b <= 57 {
        (b - 48) as u8
    } else {
        (b - 87) as u8
    }
}

/// The error reported for a byte that is not a lowercase hex digit.
pub open spec fn nibble_error(b: u8, position: int) -> ParseError {
    if b >= 128 {
        ParseError::NonAscii { position: position as usize }
    } else {
        ParseError::InvalidChar { position: position as usize, found: b as char }
    }
}

/// `p` is the first position of `s` holding a byte that is not a
/// lowercase hex digit.
pub open spec fn first_bad_at(s: Seq<u8>, p: int) -> bool {
    &&& 0 <= p < s.len()
    &&& !is_hex_byte(s[p])
    &&& forall|q: int| 0 <= q < p ==> is_hex_byte(#[trigger] s[q])
}

/// The 16 bytes that 32 lowercase hex digits denote, high nibble first.
pub open spec fn hex_value(s: Seq<u8>) -> [u8; 16] {
    arr16(Seq::new(16, |i: int| (nibble_value(s[2 * i]) * 16 + nibble_value(s[2 * i + 1])) as u8))
}

/// The grammar both `from_hex` constructors accept: exactly 32 bytes, all
/// lowercase hex digits. Otherwise the length error, or the error for the
/// first offending byte.
pub open spec fn spec_decode_hex_16(s: Seq<u8>) -> Result<[u8; 16], ParseError> {
    if s.len() != 32 {
        Err(ParseError::InvalidLength(s.len() as usize))
    } else if exists|p: int| first_bad_at(s, p) {
        let p = choose|p: int| first_bad_at(s, p);
        Err(nibble_error(s[p], p))
    } else {
        Ok(hex_value(s))
    }
}

/// The first bad position is unique.
proof fn lemma_first_bad_unique(s: Seq<u8>, p: int, q: int)
    requires
        first_bad_at(s, p),
        first_bad_at(s, q),
    ensures
        p == q,
{
    if p < q {
        assert(is_hex_byte(s[p]));
    } else if q < p {
        assert(is_hex_byte(s[q]));
    }
}

/// Decode one byte to its nibble value, with a position-aware error.
fn decode_nibble(byte: u8, position: usize) -> (r: Result<u8, ParseError>)
    ensures
        is_hex_byte(byte) ==> r == Ok::<u8, ParseError>(nibble_value(byte)),
        !is_hex_byte(byte) ==> r == Err::<u8, ParseError>(nibble_error(byte, position as int)),
{
    if byte >= 128 {
        return Err(ParseError::NonAscii { position });
    }
    if 48 <= byte && byte <= 57 {
        Ok(byte - 48)
    } else if 97 <= byte && byte <= 102 {
        Ok(byte - 87)
    } else {
        Err(ParseError::InvalidChar { position, found: byte as char })
    }
}

/// Decode a 32-character lowercase-hex string into 16 raw bytes: the
/// shared parse kernel of both `from_hex` constructors.
pub(crate) fn decode_hex_16(s: &str) -> (r: Result<[u8; 16], ParseError>)
    ensures
        r == spec_decode_hex_16(s.spec_bytes()),
{
    broadcast use vstd::array::group_array_axioms;

    let bytes = s.as_bytes();
    let ghost sb = s.spec_bytes();
    let len = bytes.len();
    if len != 32 {
        return Err(ParseError::InvalidLength(len));
    }
    let mut out = [0u8; 16];
    let mut i: usize = 0;
    while i < 16
        invariant
            bytes@ == sb,
            sb == s.spec_bytes(),
            sb.len() == 32,
            0 <= i <= 16,
            forall|q: int| 0 <= q < 2 * i ==> is_hex_byte(#[trigger] sb[q]),
            forall|j: int| #![trigger out[j]] 0 <= j < i ==> out[j] == (nibble_value(sb[2 * j]) * 16
                + nibble_value(sb[2 * j + 1])) as u8,
        decreases 16 - i,
    {
        let hi_pos = i * 2;
        let lo_pos = hi_pos + 1;
        let hi = match decode_nibble(bytes[hi_pos], hi_pos) {
            Ok(v) => v,
            Err(e) => {
                proof {
                    assert(first_bad_at(sb, hi_pos as int));
                    let p = choose|p: int| first_bad_at(sb, p);
                    lemma_first_bad_unique(sb, p, hi_pos as int);
                }
                return Err(e);
            },
        };
        let lo = match decode_nibble(bytes[lo_pos], lo_pos) {
            Ok(v) => v,
            Err(e) => {
                proof {
                    assert(first_bad_at(sb, lo_pos as int));
                    let p = choose|p: int| first_bad_at(sb, p);
                    lemma_first_bad_unique(sb, p, lo_pos as int);
                }
                return Err(e);
            },
        };
        assert(hi < 16 && lo < 16);
        out[i] = hi * 16 + lo;
        i = i + 1;
    }
    proof {
        assert(!exists|p: int| first_bad_at(sb, p));
        let target = Seq::new(16, |j: int| (nibble_value(sb[2 * j]) * 16 + nibble_value(sb[2 * j + 1])) as u8);
        lemma_arr16(target);
        assert(out@ =~= target);
        assert(out =~= hex_value(sb));
    }
    Ok(out)
}

/// Shape of the hex rendering: two digits per byte, high nibble first.
pub(crate) proof fn lemma_hex_chars_shape(b: Seq<u8>)
    ensures
        hex_chars(b).len() == 2 * b.len(),
        forall|i: int| #![trigger b[i]] 0 <= i < b.len() ==> hex_chars(b)[2 * i] == hex_digit(b[i] / 16)
            && hex_chars(b)[2 * i + 1] == hex_digit(b[i] % 16),
    decreases b.len(),
{
    if b.len() > 0 {
        lemma_hex_chars_shape(b.drop_first());
        assert forall|i: int| #![trigger b[i]] 0 <= i < b.len() implies hex_chars(b)[2 * i] == hex_digit(
            b[i] / 16,
        ) && hex_chars(b)[2 * i + 1] == hex_digit(b[i] % 16) by {
            if i > 0 {
                assert(b.drop_first()[i - 1] == b[i]);
            }
        }
    }
}

/// A hex digit is an ASCII byte that decodes back to its nibble.
proof fn lemma_hex_digit(n: u8)
    requires
        n < 16,
    ensures
        '\0' <= hex_digit(n) <= '\u{7f}',
        is_hex_byte(hex_digit(n) as u8),
        nibble_value(hex_digit(n) as u8) == n,
{
}

/// Law: hex is lossless on identities. Rendering 16 bytes and parsing
/// the rendering's UTF-8 bytes gives back the same 16 bytes.
pub proof fn lemma_hex_round_trip(bytes: [u8; 16])
    ensures
        is_ascii_chars(hex_chars(bytes@)),
        spec_decode_hex_16(encode_utf8(hex_chars(bytes@))) == Ok::<[u8; 16], ParseError>(bytes),
{
    broadcast use vstd::array::group_array_axioms;

    let b = bytes@;
    let h = hex_chars(b);
    lemma_hex_chars_shape(b);
    assert forall|j: int| 0 <= j < h.len() implies '\0' <= #[trigger] h[j] <= '\u{7f}' by {
        let i = j / 2;
        assert(b[i] == b[i]);
        lemma_hex_digit(b[i] / 16);
        lemma_hex_digit(b[i] % 16);
        if j % 2 == 0 {
            assert(j == 2 * i);
        } else {
            assert(j == 2 * i + 1);
        }
    }
    is_ascii_chars_encode_utf8(h);
    let e = encode_utf8(h);
    assert forall|j: int| 0 <= j < 32 implies is_hex_byte(#[trigger] e[j]) by {
        let i = j / 2;
        assert(b[i] == b[i]);
        lemma_hex_digit(b[i] / 16);
        lemma_hex_digit(b[i] % 16);
        assert(e[j] == h[j] as u8);
        if j % 2 == 0 {
            assert(j == 2 * i);
        } else {
            assert(j == 2 * i + 1);
        }
    }
    assert(!exists|p: int| first_bad_at(e, p));
    let target = Seq::new(16, |i: int| (nibble_value(e[2 * i]) * 16 + nibble_value(e[2 * i + 1])) as u8);
    assert forall|i: int| 0 <= i < 16 implies #[trigger] target[i] == b[i] by {
        assert(b[i] == b[i]);
        lemma_hex_digit(b[i] / 16);
        lemma_hex_digit(b[i] % 16);
        assert(e[2 * i] == h[2 * i] as u8);
        assert(e[2 * i + 1] == h[2 * i + 1] as u8);
    }
    lemma_arr16(target);
    assert(hex_value(e)@ =~= b);
    assert(hex_value(e) =~= bytes);
}

/// Some byte of `s` is not a hex digit, so a first such byte exists.
proof fn lemma_first_bad_exists(s: Seq<u8>, q: int)
    requires
        0 <= q < s.len(),
        !is_hex_byte(s[q]),
    ensures
        exists|p: int| first_bad_at(s, p),
    decreases q,
{
    if exists|q2: int| 0 <= q2 < q && !is_hex_byte(#[trigger] s[q2]) {
        let q2 = choose|q2: int| 0 <= q2 < q && !is_hex_byte(#[trigger] s[q2]);
        lemma_first_bad_exists(s, q2);
    } else {
        assert(first_bad_at(s, q));
    }
}

/// A string that parses has no byte outside the lowercase hex digits.
proof fn lemma_parsed_all_hex(s: Seq<u8>)
    requires
        spec_decode_hex_16(s) is Ok,
    ensures
        s.len() == 32,
        forall|j: int| 0 <= j < 32 ==> is_hex_byte(#[trigger] s[j]),
{
    assert forall|j: int| 0 <= j < 32 implies is_hex_byte(#[trigger] s[j]) by {
        if !is_hex_byte(s[j]) {
            lemma_first_bad_exists(s, j);
        }
    }
}

/// Law: hex is a bijection on identities. Only the canonical lowercase
/// rendering of 16 bytes parses to them: every other spelling, uppercase
/// included, is rejected or names other bytes.
pub proof fn lemma_hex_parse_canonical(s: Seq<u8>, bytes: [u8; 16])
    requires
        spec_decode_hex_16(s) == Ok::<[u8; 16], ParseError>(bytes),
    ensures
        s == encode_utf8(hex_chars(bytes@)),
{
    broadcast use vstd::array::group_array_axioms;

    let e = encode_utf8(hex_chars(bytes@));
    lemma_hex_round_trip(bytes);
    lemma_parsed_all_hex(s);
    lemma_parsed_all_hex(e);
    let ts = Seq::new(16, |i: int| (nibble_value(s[2 * i]) * 16 + nibble_value(s[2 * i + 1])) as u8);
    let te = Seq::new(16, |i: int| (nibble_value(e[2 * i]) * 16 + nibble_value(e[2 * i + 1])) as u8);
    lemma_arr16(ts);
    lemma_arr16(te);
    assert(hex_value(s) == bytes);
    assert(hex_value(e) == bytes);
    assert(ts =~= te) by {
        assert(ts.take(16) =~= ts);
        assert(te.take(16) =~= te);
    }
    assert forall|j: int| 0 <= j < 32 implies #[trigger] s[j] == e[j] by {
        let i = j / 2;
        assert(ts[i] == te[i]);
        let a1 = nibble_value(s[2 * i]);
        let a2 = nibble_value(s[2 * i + 1]);
        let c1 = nibble_value(e[2 * i]);
        let c2 = nibble_value(e[2 * i + 1]);
        assert(is_hex_byte(s[2 * i]) && is_hex_byte(s[2 * i + 1]));
        assert(is_hex_byte(e[2 * i]) && is_hex_byte(e[2 * i + 1]));
        assert(a1 < 16 && a2 < 16 && c1 < 16 && c2 < 16);
        assert(a1 * 16 + a2 == c1 * 16 + c2) by {
            assert(a1 * 16 + a2 < 256) by (nonlinear_arith)
                requires
                    a1 < 16,
                    a2 < 16,
            ;
            assert(c1 * 16 + c2 < 256) by (nonlinear_arith)
                requires
                    c1 < 16,
                    c2 < 16,
            ;
        }
        assert(a1 == c1 && a2 == c2) by (nonlinear_arith)
            requires
                a1 < 16,
                a2 < 16,
                c1 < 16,
                c2 < 16,
                a1 * 16 + a2 == c1 * 16 + c2,
        ;
        if j % 2 == 0 {
            assert(j == 2 * i);
        } else {
            assert(j == 2 * i + 1);
        }
    }
    assert(s =~= e);
}

impl Distinction {
    /// Parse a 32-character lowercase-hex string. The bytes are checked
    /// for length and charset only, not for engine membership.
    pub fn from_hex(s: &str) -> (r: Result<Distinction, ParseError>)
        ensures
            r matches Ok(d) ==> spec_decode_hex_16(s.spec_bytes()) == Ok::<[u8; 16], ParseError>(d@),
            r matches Err(e) ==> spec_decode_hex_16(s.spec_bytes()) == Err::<[u8; 16], ParseError>(e),
    {
        match RawDistinctionId::from_hex(s) {
            Ok(raw) => Ok(Distinction::from_bytes_unchecked(*raw.as_bytes())),
            Err(e) => Err(e),
        }
    }

    /// Render this distinction as 32 lowercase hex characters.
    pub fn to_hex(&self) -> (s: String)
        ensures
            s@ == hex_chars(self@@),
    {
        hex_encode(self.as_bytes())
    }

    /// The `Display` rendering: the 32-character lowercase hex form.
    pub fn to_display_string(&self) -> (s: String)
        ensures
            s@ == hex_chars(self@@),
    {
        self.to_hex()
    }

    /// The `Debug` rendering: `Distinction(<hex>)`.
    pub fn to_debug_string(&self) -> (s: String)
        ensures
            s@ == "Distinction("@ + hex_chars(self@@) + ")"@,
    {
        let mut s = String::from_str("Distinction(");
        let h = self.to_hex();
        s.append(h.as_str());
        s.append(")");
        s
    }
}

impl RawDistinctionId {
    /// Parse a 32-character lowercase-hex string into unverified bytes.
    pub fn from_hex(s: &str) -> (r: Result<RawDistinctionId, ParseError>)
        ensures
            r matches Ok(d) ==> spec_decode_hex_16(s.spec_bytes()) == Ok::<[u8; 16], ParseError>(d@),
            r matches Err(e) ==> spec_decode_hex_16(s.spec_bytes()) == Err::<[u8; 16], ParseError>(e),
    {
        match decode_hex_16(s) {
            Ok(bytes) => Ok(RawDistinctionId::from_bytes(bytes)),
            Err(e) => Err(e),
        }
    }

    /// Render these bytes as 32 lowercase hex characters.
    pub fn to_hex(&self) -> (s: String)
        ensures
            s@ == hex_chars(self@@),
    {
        hex_encode(self.as_bytes())
    }

    /// The `Display` rendering: the 32-character lowercase hex form.
    pub fn to_display_string(&self) -> (s: String)
        ensures
            s@ == hex_chars(self@@),
    {
        self.to_hex()
    }

    /// The `Debug` rendering: `RawDistinctionId(<hex>)`.
    pub fn to_debug_string(&self) -> (s: String)
        ensures
            s@ == "RawDistinctionId("@ + hex_chars(self@@) + ")"@,
    {
        let mut s = String::from_str("RawDistinctionId(");
        let h = self.to_hex();
        s.append(h.as_str());
        s.append(")");
        s
    }
}

impl std::str::FromStr for Distinction {
    type Err = ParseError;

    /// Parse the 32-character lowercase hex form.
    fn from_str(s: &str) -> (r: Result<Distinction, ParseError>)
        ensures
            r matches Ok(d) ==> spec_decode_hex_16(s.spec_bytes()) == Ok::<[u8; 16], ParseError>(d@),
            r matches Err(e) ==> spec_decode_hex_16(s.spec_bytes()) == Err::<[u8; 16], ParseError>(e),
    {
        Distinction::from_hex(s)
    }
}

impl std::str::FromStr for RawDistinctionId {
    type Err = ParseError;

    /// Parse the 32-character lowercase hex form.
    fn from_str(s: &str) -> (r: Result<RawDistinctionId, ParseError>)
        ensures
            r matches Ok(d) ==> spec_decode_hex_16(s.spec_bytes()) == Ok::<[u8; 16], ParseError>(d@),
            r matches Err(e) ==> spec_decode_hex_16(s.spec_bytes()) == Err::<[u8; 16], ParseError>(e),
    {
        RawDistinctionId::from_hex(s)
    }
}

} // verus!
