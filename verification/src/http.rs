//! Percent-encoding of query parameters (RFC 3986 unreserved set kept).
use vstd::prelude::*;

use crate::text::string_from_chars;
use vstd::string::StringSliceAdditionalSpecFns;

verus! {

/// The RFC 3986 unreserved bytes: ASCII letters, digits and `-_.~`.
pub open spec fn is_unreserved(b: u8) -> bool {
    (0x30 <= b && b <= 0x39) || (0x41 <= b && b <= 0x5a) || (0x61 <= b && b <= 0x7a) || b == 0x2d
        || b == 0x5f || b == 0x2e || b == 0x7e
}

/// Upper-case hexadecimal digit of `n < 16`.
pub open spec fn hex_upper(n: u8) -> char {
    if n < 10 {
        ((0x30 + n) as u8) as char
    } else {
        ((0x41 + n - 10) as u8) as char
    }
}

/// Encoding of one byte: itself when unreserved, else `%XX`.
pub open spec fn encode_byte(b: u8) -> Seq<char> {
    if is_unreserved(b) {
        seq![b as char]
    } else {
        seq!['%', hex_upper(b / 16), hex_upper(b % 16)]
    }
}

pub open spec fn byte_encoder() -> spec_fn(u8) -> Seq<char> {
    |b: u8| encode_byte(b)
}

/// Percent-encoding of a byte string.
pub open spec fn percent_encode(bytes: Seq<u8>) -> Seq<char> {
    bytes.map_values(byte_encoder()).flatten()
}

/// Value of a hexadecimal digit (either case), if it is one.
pub open spec fn hex_value(c: char) -> Option<u8> {
    if '0' <= c && c <= '9' {
        Some(((c as u32) - 0x30) as u8)
    } else if 'A' <= c && c <= 'F' {
        Some(((c as u32) - 0x41 + 10) as u8)
    } else if 'a' <= c && c <= 'f' {
        Some(((c as u32) - 0x61 + 10) as u8)
    } else {
        None
    }
}

/// Percent-decoding: `%XX` becomes the byte `XX`, any other char its low byte.
pub open spec fn percent_decode(s: Seq<char>) -> Seq<u8>
    decreases s.len(),
{
    if s.len() == 0 {
        seq![]
    } else if s[0] == '%' && s.len() >= 3 && hex_value(s[1]) is Some && hex_value(s[2]) is Some {
        seq![(hex_value(s[1])->0 * 16 + hex_value(s[2])->0) as u8] + percent_decode(s.skip(3))
    } else {
        seq![s[0] as u8] + percent_decode(s.drop_first())
    }
}

fn hex_digit(n: u8) -> (c: char)
    requires
        n < 16,
    ensures
        c == hex_upper(n),
{
    if n < 10 {
        (0x30u8 + n) as char
    } else {
        (0x41u8 + n - 10) as char
    }
}

/// Percent-encode every byte outside the RFC 3986 unreserved set.
pub fn urlencode(s: &str) -> (r: String)
    ensures
        r@ == percent_encode(s.spec_bytes()),
{
    let bytes = s.as_bytes();
    let mut out: Vec<char> = Vec::new();
    let mut i: usize = 0;
    while i < bytes.len()
        invariant
            i <= bytes@.len(),
            bytes@ == s.spec_bytes(),
            out@ == bytes@.take(i as int).map_values(byte_encoder()).flatten(),
        decreases bytes@.len() - i,
    {
        let b = bytes[i];
        proof {
            let pre = bytes@.take(i as int);
            assert(bytes@.take(i + 1) =~= pre.push(b));
            assert(byte_encoder()(b) == encode_byte(b));
            assert(pre.push(b).map_values(byte_encoder()) =~= pre.map_values(byte_encoder()).push(encode_byte(b)));
            pre.map_values(byte_encoder()).lemma_flatten_push(encode_byte(b));
        }
        if (b >= 0x30 && b <= 0x39) || (b >= 0x41 && b <= 0x5a) || (b >= 0x61 && b <= 0x7a) || b
            == 0x2d || b == 0x5f || b == 0x2e || b == 0x7e {
            out.push(b as char);
        } else {
            out.push('%');
            out.push(hex_digit(b / 16));
            out.push(hex_digit(b % 16));
        }
        i += 1;
    }
    proof {
        assert(bytes@.take(bytes@.len() as int) =~= bytes@);
    }
    string_from_chars(&out)
}

proof fn lemma_decode_encode_byte(b: u8, rest: Seq<char>)
    ensures
        percent_decode(encode_byte(b) + rest) == seq![b] + percent_decode(rest),
{
    let e = encode_byte(b) + rest;
    if is_unreserved(b) {
        assert(e[0] == b as char);
        assert((b as char) as u8 == b);
        assert(e.drop_first() =~= rest);
    } else {
        assert(e[0] == '%');
        assert(e[1] == hex_upper(b / 16));
        assert(e[2] == hex_upper(b % 16));
        assert(hex_value(hex_upper(b / 16)) == Some(b / 16));
        assert(hex_value(hex_upper(b % 16)) == Some(b % 16));
        assert(e.skip(3) =~= rest);
    }
}

/// Percent-decoding what `urlencode` produced gives back the original bytes.
pub proof fn law_urlencode_round_trip(s: &str)
    ensures
        percent_decode(percent_encode(s.spec_bytes())) == s.spec_bytes(),
{
    lemma_decode_encode_all(s.spec_bytes());
}

proof fn lemma_decode_encode_all(bytes: Seq<u8>)
    ensures
        percent_decode(percent_encode(bytes)) == bytes,
    decreases bytes.len(),
{
    if bytes.len() == 0 {
        assert(bytes.map_values(byte_encoder()) =~= Seq::<Seq<char>>::empty());
        assert(percent_encode(bytes) =~= Seq::<char>::empty());
    } else {
        let m = bytes.map_values(byte_encoder());
        let rest = bytes.drop_first();
        assert(m.drop_first() =~= rest.map_values(byte_encoder()));
        assert(m.first() == encode_byte(bytes[0]));
        assert(m.flatten() == m.first() + m.drop_first().flatten());
        lemma_decode_encode_byte(bytes[0], percent_encode(rest));
        lemma_decode_encode_all(rest);
        assert(seq![bytes[0]] + rest =~= bytes);
    }
}

/// Every char of an encoding is unreserved, `%`, or an upper-case hex digit.
pub proof fn law_urlencode_alphabet(s: &str, k: int)
    requires
        0 <= k < percent_encode(s.spec_bytes()).len(),
    ensures
        ({
            let c = percent_encode(s.spec_bytes())[k];
            c == '%' || ('0' <= c && c <= '9') || ('A' <= c && c <= 'Z') || ('a' <= c && c <= 'z')
                || c == '-' || c == '_' || c == '.' || c == '~'
        }),
{
    lemma_encode_alphabet(s.spec_bytes(), k);
}

proof fn lemma_encode_alphabet(bytes: Seq<u8>, k: int)
    requires
        0 <= k < percent_encode(bytes).len(),
    ensures
        ({
            let c = percent_encode(bytes)[k];
            c == '%' || ('0' <= c && c <= '9') || ('A' <= c && c <= 'Z') || ('a' <= c && c <= 'z')
                || c == '-' || c == '_' || c == '.' || c == '~'
        }),
    decreases bytes.len(),
{
    let m = bytes.map_values(byte_encoder());
    let rest = bytes.drop_first();
    if bytes.len() > 0 {
        assert(m.drop_first() =~= rest.map_values(byte_encoder()));
        assert(m.flatten() == m.first() + m.drop_first().flatten());
        let f = encode_byte(bytes[0]);
        if k < f.len() {
            let b = bytes[0];
            if !is_unreserved(b) {
                assert(b / 16 < 16 && b % 16 < 16);
            }
        } else {
            lemma_encode_alphabet(rest, k - f.len());
        }
    }
}

proof fn lemma_encode_cons(bytes: Seq<u8>)
    requires
        bytes.len() > 0,
    ensures
        percent_encode(bytes) == encode_byte(bytes[0]) + percent_encode(bytes.drop_first()),
{
    let m = bytes.map_values(byte_encoder());
    assert(m.drop_first() =~= bytes.drop_first().map_values(byte_encoder()));
    assert(m.flatten() == m.first() + m.drop_first().flatten());
}

/// An upper-case hexadecimal digit.
pub open spec fn is_upper_hex(c: char) -> bool {
    ('0' <= c && c <= '9') || ('A' <= c && c <= 'F')
}

/// Every `%` of an encoding is followed by two upper-case hex digits.
pub proof fn law_urlencode_escapes(s: &str, k: int)
    requires
        0 <= k < percent_encode(s.spec_bytes()).len(),
        percent_encode(s.spec_bytes())[k] == '%',
    ensures
        k + 2 < percent_encode(s.spec_bytes()).len(),
        is_upper_hex(percent_encode(s.spec_bytes())[k + 1]),
        is_upper_hex(percent_encode(s.spec_bytes())[k + 2]),
{
    lemma_encode_escapes(s.spec_bytes(), k);
}

proof fn lemma_encode_escapes(bytes: Seq<u8>, k: int)
    requires
        0 <= k < percent_encode(bytes).len(),
        percent_encode(bytes)[k] == '%',
    ensures
        k + 2 < percent_encode(bytes).len(),
        is_upper_hex(percent_encode(bytes)[k + 1]),
        is_upper_hex(percent_encode(bytes)[k + 2]),
    decreases bytes.len(),
{
    if bytes.len() == 0 {
        assert(bytes.map_values(byte_encoder()) =~= Seq::<Seq<char>>::empty());
        assert(percent_encode(bytes) =~= Seq::<char>::empty());
    } else {
        lemma_encode_cons(bytes);
        let b = bytes[0];
        let f = encode_byte(b);
        let rest = percent_encode(bytes.drop_first());
        if k < f.len() {
            if is_unreserved(b) {
                assert(f[0] == b as char);
            } else {
                assert(b / 16 < 16 && b % 16 < 16);
                assert(f[1] == hex_upper(b / 16));
                assert(f[2] == hex_upper(b % 16));
            }
        } else {
            assert(rest[k - f.len()] == percent_encode(bytes)[k]);
            lemma_encode_escapes(bytes.drop_first(), k - f.len());
            assert(rest[k - f.len() + 1] == percent_encode(bytes)[k + 1]);
            assert(rest[k - f.len() + 2] == percent_encode(bytes)[k + 2]);
        }
    }
}

pub open spec fn byte_chars(bytes: Seq<u8>) -> Seq<char> {
    bytes.map_values(|b: u8| b as char)
}

pub open spec fn all_unreserved(bytes: Seq<u8>) -> bool {
    forall|i: int| 0 <= i < bytes.len() ==> is_unreserved(#[trigger] bytes[i])
}

/// The encoding is the text itself, byte for byte, exactly when every byte is
/// unreserved: any other byte is escaped.
pub proof fn law_urlencode_identity(s: &str)
    ensures
        percent_encode(s.spec_bytes()) == byte_chars(s.spec_bytes()) <==> all_unreserved(
            s.spec_bytes(),
        ),
{
    let bytes = s.spec_bytes();
    if all_unreserved(bytes) {
        lemma_encode_unreserved(bytes);
    } else {
        lemma_encode_len(bytes);
        assert(byte_chars(bytes).len() == bytes.len());
    }
}

proof fn lemma_encode_unreserved(bytes: Seq<u8>)
    requires
        all_unreserved(bytes),
    ensures
        percent_encode(bytes) == byte_chars(bytes),
    decreases bytes.len(),
{
    if bytes.len() == 0 {
        assert(bytes.map_values(byte_encoder()) =~= Seq::<Seq<char>>::empty());
        assert(percent_encode(bytes) =~= byte_chars(bytes));
    } else {
        lemma_encode_cons(bytes);
        assert(is_unreserved(bytes[0]));
        lemma_encode_unreserved(bytes.drop_first());
        assert(byte_chars(bytes) =~= seq![bytes[0] as char] + byte_chars(bytes.drop_first()));
    }
}

proof fn lemma_encode_len(bytes: Seq<u8>)
    ensures
        percent_encode(bytes).len() >= bytes.len(),
        !all_unreserved(bytes) ==> percent_encode(bytes).len() >= bytes.len() + 2,
    decreases bytes.len(),
{
    if bytes.len() == 0 {
        assert(bytes.map_values(byte_encoder()) =~= Seq::<Seq<char>>::empty());
        assert(percent_encode(bytes) =~= Seq::<char>::empty());
    } else {
        lemma_encode_cons(bytes);
        let rest = bytes.drop_first();
        lemma_encode_len(rest);
        if !all_unreserved(bytes) && is_unreserved(bytes[0]) {
            let i = choose|i: int| 0 <= i < bytes.len() && !is_unreserved(#[trigger] bytes[i]);
            assert(!is_unreserved(rest[i - 1]));
        }
    }
}

} // verus!
