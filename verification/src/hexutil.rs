//! Hex framing: bytes to and from `0x`-prefixed hex strings.

use vstd::prelude::*;

use crate::ContentItemDecodeError;

verus! {

/// ASCII code of the lower-case hex digit for a nibble.
pub open spec fn hex_digit_byte(n: u8) -> u8
    recommends
        n < 16,
{
    if n < 10 {
        (n + 48) as u8
    } else {
        (n + 87) as u8
    }
}

/// The two ASCII bytes `0x`.
pub open spec fn hex_prefix_bytes() -> Seq<u8> {
    seq![48u8, 120u8]
}

/// Lower-case hex digits of a byte string, two per byte, as ASCII bytes.
pub open spec fn hex_bytes_of(b: Seq<u8>) -> Seq<u8> {
    Seq::new(2 * b.len(), |i: int| if i % 2 == 0 { hex_digit_byte(b[i / 2] / 16) } else { hex_digit_byte(b[i / 2] % 16) })
}

/// The full hex framing of a byte string: `0x` followed by its digits.
pub open spec fn hex_encoding_of(b: Seq<u8>) -> Seq<char> {
    (hex_prefix_bytes() + hex_bytes_of(b)).map_values(|x: u8| x as char)
}

/// Whether a character is a hex digit, either case.
pub open spec fn is_hex_digit(c: char) -> bool {
    ('0' <= c && c <= '9') || ('a' <= c && c <= 'f') || ('A' <= c && c <= 'F')
}

/// The value of a hex digit character.
pub open spec fn hex_digit_val(c: char) -> u8
    recommends
        is_hex_digit(c),
{
    if '0' <= c && c <= '9' {
        (c as u8 - 48) as u8
    } else if 'a' <= c && c <= 'f' {
        (c as u8 - 87) as u8
    } else {
        (c as u8 - 55) as u8
    }
}

/// Drops a leading `0x` or `0X`, if present.
pub open spec fn strip_hex_prefix(s: Seq<char>) -> Seq<char> {
    if s.len() >= 2 && s[0] == '0' && (s[1] == 'x' || s[1] == 'X') {
        s.skip(2)
    } else {
        s
    }
}

/// Whether a character sequence is a well-formed hex body: even length,
/// hex digits throughout.
pub open spec fn is_hex_body(s: Seq<char>) -> bool {
    &&& s.len() % 2 == 0
    &&& forall|i: int| 0 <= i < s.len() ==> is_hex_digit(#[trigger] s[i])
}

/// The bytes a well-formed hex body denotes.
pub open spec fn hex_val_of(s: Seq<char>) -> Seq<u8> {
    Seq::new(s.len() / 2, |i: int| (16 * hex_digit_val(s[2 * i]) + hex_digit_val(s[2 * i + 1])) as u8)
}

/// Relies on `String::from_utf8`: an all-ASCII byte vector converts to the
/// string with exactly those characters. The conversion cannot fail because
/// ASCII bytes are valid UTF-8.
#[verifier::external_body]
fn ascii_to_string(v: Vec<u8>) -> (r: String)
    requires
        forall|i: int| 0 <= i < v@.len() ==> v@[i] < 128,
    ensures
        r@ == v@.map_values(|x: u8| x as char),
{
    match String::from_utf8(v) {
        Ok(s) => s,
        Err(_) => String::new(),
    }
}

/// The lower-case hex digit byte for a nibble.
fn hex_digit_byte_exec(n: u8) -> (r: u8)
    requires
        n < 16,
    ensures
        r == hex_digit_byte(n),
{
    if n < 10 {
        n + 48
    } else {
        n + 87
    }
}

/// Encodes bytes as a `0x`-prefixed lower-case hex string.
pub fn hex_encode(bytes: &[u8]) -> (r: String)
    ensures
        r@ == hex_encoding_of(bytes@),
{
    let mut v: Vec<u8> = Vec::new();
    v.push(48);
    v.push(120);
    let mut i: usize = 0;
    while i < bytes.len()
        invariant
            i <= bytes@.len(),
            v@.len() == 2 + 2 * i,
            v@[0] == 48 && v@[1] == 120,
            forall|j: int| 2 <= j < v@.len() ==> v@[j] == hex_bytes_of(bytes@)[j - 2],
        decreases bytes@.len() - i,
    {
        let b = bytes[i];
        v.push(hex_digit_byte_exec(b / 16));
        v.push(hex_digit_byte_exec(b % 16));
        i = i + 1;
    }
    proof {
        assert(v@ =~= hex_prefix_bytes() + hex_bytes_of(bytes@));
        assert(forall|j: int| 0 <= j < v@.len() ==> v@[j] < 128) by {
            assert(forall|n: u8| n < 16 ==> hex_digit_byte(n) < 128);
        }
    }
    ascii_to_string(v)
}

/// The nibble value of an ASCII hex digit byte, if it is one.
fn hex_digit_of(x: u8) -> (r: Option<u8>)
    ensures
        r is Some <==> is_hex_digit(x as char),
        r matches Some(n) ==> n == hex_digit_val(x as char) && n < 16,
{
    proof {
        assert(x as char as u8 == x);
    }
    if 48 <= x && x <= 57 {
        Some(x - 48)
    } else if 97 <= x && x <= 102 {
        Some(x - 87)
    } else if 65 <= x && x <= 70 {
        Some(x - 55)
    } else {
        None
    }
}

/// Decodes a hex string, stripping a leading `0x` or `0X` if present.
/// Odd length or a non-hex digit is rejected.
pub fn hex_decode(s: &str) -> (r: Result<Vec<u8>, ContentItemDecodeError>)
    ensures
        r matches Ok(v) ==> v@ == hex_val_of(strip_hex_prefix(s@)),
        r is Ok <==> is_hex_body(strip_hex_prefix(s@)),
        r is Err ==> r == Err::<Vec<u8>, ContentItemDecodeError>(ContentItemDecodeError::InvalidHex),
{
    if !s.is_ascii() {
        proof {
            let ghost t = strip_hex_prefix(s@);
            let ghost k = choose|k: int| 0 <= k < s@.len() && !('\0' <= #[trigger] s@[k] <= '\u{7f}');
            assert(!is_hex_body(t)) by {
                if s@.len() >= 2 && s@[0] == '0' && (s@[1] == 'x' || s@[1] == 'X') {
                    assert(k >= 2);
                    assert(t[k - 2] == s@[k]);
                    assert(!is_hex_digit(t[k - 2]));
                } else {
                    assert(t[k] == s@[k]);
                    assert(!is_hex_digit(t[k]));
                }
            }
        }
        return Err(ContentItemDecodeError::InvalidHex);
    }
    let b = s.as_bytes();
    proof {
        vstd::utf8::is_ascii_chars_encode_utf8(s@);
        assert(b@.len() == s@.len());
        assert(forall|i: int| 0 <= i < s@.len() ==> #[trigger] b@[i] == s@[i] as u8);
        assert(forall|i: int| 0 <= i < s@.len() ==> #[trigger] s@[i] as u8 as char == s@[i]) by {
            assert(forall|c: char| '\0' <= c <= '\u{7f}' ==> #[trigger] (c as u8 as char) == c);
        }
    }
    let start: usize = if b.len() >= 2 && b[0] == 48 && (b[1] == 120 || b[1] == 88) {
        2
    } else {
        0
    };
    proof {
        assert(strip_hex_prefix(s@) == if start == 2 { s@.skip(2) } else { s@ }) by {
            assert('0' as u8 == 48 && 'x' as u8 == 120 && 'X' as u8 == 88);
        }
    }
    let ghost t = strip_hex_prefix(s@);
    proof {
        assert(t.len() == s@.len() - start);
        assert(forall|i: int| 0 <= i < t.len() ==> #[trigger] t[i] == s@[i + start]);
    }
    if (b.len() - start) % 2 != 0 {
        return Err(ContentItemDecodeError::InvalidHex);
    }
    let mut out: Vec<u8> = Vec::new();
    let mut i: usize = start;
    while i < b.len()
        invariant
            start <= i <= b@.len(),
            (i - start) % 2 == 0,
            (b@.len() - start) % 2 == 0,
            b@.len() == s@.len(),
            t == strip_hex_prefix(s@),
            t.len() == s@.len() - start,
            forall|j: int| 0 <= j < t.len() ==> #[trigger] t[j] == s@[j + start],
            forall|j: int| 0 <= j < s@.len() ==> #[trigger] b@[j] == s@[j] as u8,
            forall|j: int| 0 <= j < s@.len() ==> #[trigger] (s@[j] as u8 as char) == s@[j],
            forall|j: int| start <= j < i ==> is_hex_digit(#[trigger] s@[j]),
            out@.len() == (i - start) / 2,
            forall|j: int| 0 <= j < out@.len() ==> #[trigger] out@[j] == 16 * hex_digit_val(t[2 * j]) + hex_digit_val(t[2 * j + 1]),
        decreases b@.len() - i,
    {
        proof {
            assert((b@.len() - i) % 2 == 0);
        }
        let hi = match hex_digit_of(b[i]) {
            Some(n) => n,
            None => {
                proof {
                    assert(b@[i as int] as char == s@[i as int]);
                    assert(t[i - start] == s@[i as int]);
                    assert(!is_hex_digit(t[i - start]));
                }
                return Err(ContentItemDecodeError::InvalidHex);
            },
        };
        let lo = match hex_digit_of(b[i + 1]) {
            Some(n) => n,
            None => {
                proof {
                    assert(b@[i + 1] as char == s@[i + 1]);
                    assert(t[i + 1 - start] == s@[i + 1]);
                    assert(!is_hex_digit(t[i + 1 - start]));
                }
                return Err(ContentItemDecodeError::InvalidHex);
            },
        };
        out.push(16 * hi + lo);
        i = i + 2;
    }
    proof {
        assert(is_hex_body(t));
        assert(out@ =~= hex_val_of(t));
    }
    Ok(out)
}

/// Hex symmetry: decoding the hex framing of any byte string gives it back.
pub proof fn lemma_hex_round_trip(b: Seq<u8>)
    ensures
        strip_hex_prefix(hex_encoding_of(b)) == hex_bytes_of(b).map_values(|x: u8| x as char),
        is_hex_body(hex_bytes_of(b).map_values(|x: u8| x as char)),
        hex_val_of(hex_bytes_of(b).map_values(|x: u8| x as char)) == b,
{
    let e = hex_encoding_of(b);
    let body = hex_bytes_of(b).map_values(|x: u8| x as char);
    assert('0' as u8 == 48 && 'x' as u8 == 120);
    assert(e[0] == '0' && e[1] == 'x') by {
        assert((48u8 as char) == '0' && (120u8 as char) == 'x');
    }
    assert(e.skip(2) =~= body);
    assert(forall|n: u8| n < 16 ==> is_hex_digit(#[trigger] hex_digit_byte(n) as char) && hex_digit_val(hex_digit_byte(n) as char) == n) by {
        assert forall|n: u8| n < 16 implies is_hex_digit(#[trigger] hex_digit_byte(n) as char) && hex_digit_val(hex_digit_byte(n) as char) == n by {
            assert(('0' as u8 == 48) && ('9' as u8 == 57) && ('a' as u8 == 97) && ('f' as u8 == 102));
            assert(forall|x: u8| x < 128 ==> #[trigger] ((x as char) as u8) == x);
            if n < 10 {
                assert(hex_digit_byte(n) == n + 48);
                assert('0' <= (n + 48) as char <= '9');
            } else {
                assert(hex_digit_byte(n) == n + 87);
                assert('a' <= (n + 87) as char <= 'f');
            }
        }
    }
    assert(is_hex_body(body)) by {
        assert(forall|i: int| 0 <= i < body.len() ==> is_hex_digit(#[trigger] body[i])) by {
            assert forall|i: int| 0 <= i < body.len() implies is_hex_digit(#[trigger] body[i]) by {
                assert(body[i] == hex_bytes_of(b)[i] as char);
            }
        }
    }
    assert(hex_val_of(body) =~= b) by {
        assert forall|i: int| 0 <= i < b.len() implies hex_val_of(body)[i] == b[i] by {
            assert(body[2 * i] == hex_digit_byte(b[i] / 16) as char);
            assert(body[2 * i + 1] == hex_digit_byte(b[i] % 16) as char);
            assert(hex_digit_val(body[2 * i]) == b[i] / 16);
            assert(hex_digit_val(body[2 * i + 1]) == b[i] % 16);
            assert(16 * (b[i] / 16) + b[i] % 16 == b[i]) by (nonlinear_arith);
        }
    }
}

/// Prefix symmetry: a body that does not itself begin with the prefix
/// decodes the same with or without `0x` in front.
pub proof fn lemma_hex_prefix(h: Seq<char>)
    requires
        strip_hex_prefix(h) == h,
    ensures
        strip_hex_prefix(seq!['0', 'x'] + h) == h,
{
    let s = seq!['0', 'x'] + h;
    assert(s.len() >= 2 && s[0] == '0' && s[1] == 'x');
    assert(s.skip(2) =~= h);
}

} // verus!
