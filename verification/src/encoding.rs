//! Byte-level encodings shared by the object formats: ASCII decimal numbers
//! and lowercase hexadecimal.

use vstd::prelude::*;
use vstd::utf8::*;

verus! {

/// ASCII code of the decimal digit `d` (0..=9).
pub open spec fn digit_byte(d: nat) -> u8 {
    (d + 48) as u8
}

/// The shortest ASCII decimal spelling of `n` (no sign, no leading zeros).
pub open spec fn decimal(n: nat) -> Seq<u8>
    decreases n,
{
    if n < 10 {
        seq![digit_byte(n)]
    } else {
        decimal(n / 10).push(digit_byte(n % 10))
    }
}

/// Every byte of `s` is an ASCII digit.
pub open spec fn all_digits(s: Seq<u8>) -> bool {
    forall|i: int| 0 <= i < s.len() ==> 48 <= #[trigger] s[i] <= 57
}

/// The number that a run of ASCII digits spells (most significant first).
pub open spec fn digits_value(s: Seq<u8>) -> nat
    decreases s.len(),
{
    if s.len() == 0 {
        0
    } else {
        digits_value(s.drop_last()) * 10 + (s.last() - 48) as nat
    }
}

/// The digits of an unsigned number in the syntax of `str::parse::<usize>`:
/// an optional leading `+` is dropped.
pub open spec fn unsigned_digits(s: Seq<u8>) -> Seq<u8> {
    if s.len() > 0 && s[0] == 43u8 {
        s.drop_first()
    } else {
        s
    }
}

/// `s` is accepted by `str::parse::<usize>`: an optional `+`, then one or more
/// ASCII digits whose value fits in a `usize`.
pub open spec fn parses_as_usize(s: Seq<u8>) -> bool {
    let d = unsigned_digits(s);
    &&& d.len() > 0
    &&& all_digits(d)
    &&& digits_value(d) <= usize::MAX
}

/// The value `str::parse::<usize>` gives for an accepted spelling.
pub open spec fn usize_value(s: Seq<u8>) -> nat {
    digits_value(unsigned_digits(s))
}

/// The decimal spelling is digits only, never empty, and never starts with `+`.
pub proof fn lemma_decimal_shape(n: nat)
    ensures
        decimal(n).len() > 0,
        all_digits(decimal(n)),
        decimal(n)[0] != 43u8,
        digits_value(decimal(n)) == n,
    decreases n,
{
    if n >= 10 {
        lemma_decimal_shape(n / 10);
        let d = decimal(n / 10);
        assert(decimal(n).drop_last() =~= d);
        assert(decimal(n)[0] == d[0]);
        assert(decimal(n).last() == digit_byte(n % 10));
        assert((digit_byte(n % 10) - 48) as nat == n % 10);
        assert(n == (n / 10) * 10 + n % 10) by (nonlinear_arith);
        assert(digits_value(decimal(n)) == digits_value(d) * 10 + (n % 10));
    } else {
        assert(decimal(n).drop_last() =~= Seq::<u8>::empty());
        assert(digits_value(Seq::<u8>::empty()) == 0);
    }
}

/// Spelling a number in decimal and parsing it back gives the number.
pub proof fn lemma_decimal_parses(n: nat)
    requires
        n <= usize::MAX,
    ensures
        parses_as_usize(decimal(n)),
        usize_value(decimal(n)) == n,
{
    lemma_decimal_shape(n);
    assert(unsigned_digits(decimal(n)) == decimal(n));
}

/// Appends the decimal spelling of `n` to `out`.
pub fn push_decimal(out: &mut Vec<u8>, n: u64)
    ensures
        final(out)@ == old(out)@ + decimal(n as nat),
    decreases n,
{
    if n >= 10 {
        push_decimal(out, n / 10);
    }
    let d: u8 = (n % 10) as u8;
    out.push(d + 48);
    proof {
        if n >= 10 {
            assert(decimal(n as nat) == decimal((n / 10) as nat).push(digit_byte((n % 10) as nat)));
        }
    }
}


/// ASCII code of the lowercase hexadecimal digit for `d` (0..=15).
pub open spec fn hex_digit(d: u8) -> u8 {
    if d < 10 {
        (d + 48) as u8
    } else {
        (d + 87) as u8
    }
}

/// Lowercase hexadecimal spelling of `bytes`: two digits per byte, high
/// nibble first (the `{:02x}` format applied to each byte).
pub open spec fn hex_lower(bytes: Seq<u8>) -> Seq<u8> {
    Seq::new(
        (2 * bytes.len()) as nat,
        |i: int|
            if i % 2 == 0 {
                hex_digit(bytes[i / 2] / 16)
            } else {
                hex_digit(bytes[i / 2] % 16)
            },
    )
}

/// A byte is an ASCII hexadecimal digit (either case).
pub open spec fn is_hex_byte(b: u8) -> bool {
    (48 <= b <= 57) || (65 <= b <= 70) || (97 <= b <= 102)
}

/// The value of an ASCII hexadecimal digit.
pub open spec fn hex_value(b: u8) -> u8 {
    if 48 <= b <= 57 {
        (b - 48) as u8
    } else if 65 <= b <= 70 {
        (b - 55) as u8
    } else {
        (b - 87) as u8
    }
}

/// `text` is an even number of hexadecimal digits.
pub open spec fn is_hex_text(text: Seq<u8>) -> bool {
    &&& text.len() % 2 == 0
    &&& forall|i: int| 0 <= i < text.len() ==> is_hex_byte(#[trigger] text[i])
}

/// The bytes that a hexadecimal text spells: each pair of digits is one
/// byte, high nibble first.
pub open spec fn hex_bytes(text: Seq<u8>) -> Seq<u8> {
    Seq::new(
        text.len() / 2,
        |i: int| (hex_value(text[2 * i]) * 16 + hex_value(text[2 * i + 1])) as u8,
    )
}

/// Lowercase hexadecimal spelling of `bytes`.
pub fn to_hex_lower(bytes: &[u8]) -> (res: Vec<u8>)
    requires
        bytes@.len() * 2 <= usize::MAX,
    ensures
        res@ == hex_lower(bytes@),
{
    let mut out: Vec<u8> = Vec::new();
    let mut i: usize = 0;
    while i < bytes.len()
        invariant
            i <= bytes@.len(),
            bytes@.len() * 2 <= usize::MAX,
            out@.len() == 2 * i,
            forall|j: int| 0 <= j < 2 * i ==> out@[j] == #[trigger] hex_lower(bytes@)[j],
        decreases bytes@.len() - i,
    {
        let b = bytes[i];
        let hi: u8 = b / 16;
        let lo: u8 = b % 16;
        let hc: u8 = if hi < 10 { hi + 48 } else { hi + 87 };
        let lc: u8 = if lo < 10 { lo + 48 } else { lo + 87 };
        out.push(hc);
        out.push(lc);
        proof {
            let k = 2 * i as int;
            assert(k % 2 == 0 && k / 2 == i as int) by (nonlinear_arith)
                requires k == 2 * i as int;
            assert((k + 1) % 2 == 1 && (k + 1) / 2 == i as int) by (nonlinear_arith)
                requires k == 2 * i as int;
            assert(hex_lower(bytes@)[k] == hc);
            assert(hex_lower(bytes@)[k + 1] == lc);
        }
        i = i + 1;
    }
    assert(out@ =~= hex_lower(bytes@));
    out
}


/// The characters that a run of ASCII bytes stands for.
pub open spec fn ascii_chars(bytes: Seq<u8>) -> Seq<char> {
    Seq::new(bytes.len(), |i: int| bytes[i] as char)
}

/// Every byte is below 128.
pub open spec fn is_ascii_bytes(bytes: Seq<u8>) -> bool {
    forall|i: int| 0 <= i < bytes.len() ==> #[trigger] bytes[i] < 128
}

/// ASCII bytes are valid UTF-8 and decode to the same characters.
pub proof fn lemma_ascii_utf8(bytes: Seq<u8>)
    requires
        is_ascii_bytes(bytes),
    ensures
        valid_utf8(bytes),
        decode_utf8(bytes) == ascii_chars(bytes),
        encode_utf8(ascii_chars(bytes)) == bytes,
{
    let c = ascii_chars(bytes);
    assert forall|i: int| 0 <= i < c.len() implies '\0' <= #[trigger] c[i] <= '\u{7f}' by {
        let b = bytes[i];
        assert(b < 128);
    }
    assert(is_ascii_chars(c));
    is_ascii_chars_encode_utf8(c);
    assert forall|i: int| 0 <= i < c.len() implies #[trigger] encode_utf8(c)[i] == bytes[i] by {
        let b = bytes[i];
        assert((b as char) as u8 == b);
        assert(c[i] as u8 == encode_utf8(c)[i]);
    }
    assert(encode_utf8(c) =~= bytes);
    encode_utf8_valid_utf8(c);
    encode_utf8_decode_utf8(c);
}


/// `i` is the position of the first `b` in `s`.
pub open spec fn is_first_at(s: Seq<u8>, b: u8, i: int) -> bool {
    &&& 0 <= i < s.len()
    &&& s[i] == b
    &&& forall|j: int| 0 <= j < i ==> #[trigger] s[j] != b
}

/// Position of the first `b` in `s`, or -1 where `s` holds none.
pub open spec fn first_index(s: Seq<u8>, b: u8) -> int {
    if exists|i: int| is_first_at(s, b, i) {
        choose|i: int| is_first_at(s, b, i)
    } else {
        -1
    }
}

/// The first position is unique.
pub proof fn lemma_first_index(s: Seq<u8>, b: u8, i: int)
    requires
        is_first_at(s, b, i),
    ensures
        first_index(s, b) == i,
{
    let k = choose|k: int| is_first_at(s, b, k);
    assert(is_first_at(s, b, k));
    if k < i {
        assert(s[k] != b);
    } else if i < k {
        assert(s[i] != b);
    }
}

/// Without any `b`, there is no first position.
pub proof fn lemma_first_index_none(s: Seq<u8>, b: u8)
    requires
        forall|j: int| 0 <= j < s.len() ==> #[trigger] s[j] != b,
    ensures
        first_index(s, b) == -1,
{
    if exists|i: int| is_first_at(s, b, i) {
        let k = choose|k: int| is_first_at(s, b, k);
        assert(s[k] == b);
    }
}

/// Position of the first `b` in `s`.
pub fn find_byte(s: &[u8], b: u8) -> (res: Option<usize>)
    ensures
        match res {
            Some(i) => first_index(s@, b) == i as int && is_first_at(s@, b, i as int),
            None => first_index(s@, b) == -1,
        },
{
    let mut i: usize = 0;
    while i < s.len()
        invariant
            i <= s@.len(),
            forall|j: int| 0 <= j < i ==> #[trigger] s@[j] != b,
        decreases s@.len() - i,
    {
        if s[i] == b {
            proof {
                lemma_first_index(s@, b, i as int);
            }
            return Some(i);
        }
        i = i + 1;
    }
    proof {
        lemma_first_index_none(s@, b);
    }
    None
}

/// Appends `bytes` to `out`.
pub fn push_slice(out: &mut Vec<u8>, bytes: &[u8])
    ensures
        final(out)@ == old(out)@ + bytes@,
{
    let mut i: usize = 0;
    while i < bytes.len()
        invariant
            i <= bytes@.len(),
            out@ == old(out)@ + bytes@.take(i as int),
        decreases bytes@.len() - i,
    {
        out.push(bytes[i]);
        proof {
            assert(bytes@.take(i + 1) == bytes@.take(i as int).push(bytes@[i as int]));
        }
        i = i + 1;
    }
    assert(bytes@.take(bytes@.len() as int) == bytes@);
}

/// The UTF-8 encoding of characters that are all different from the ASCII
/// character `b` holds no byte `b`: multi-byte encodings use only bytes at or
/// above 0x80.
pub proof fn lemma_encode_avoids(chars: Seq<char>, b: u8)
    requires
        b < 128,
        forall|i: int| 0 <= i < chars.len() ==> #[trigger] chars[i] as u32 != b as u32,
    ensures
        forall|i: int| 0 <= i < encode_utf8(chars).len() ==> #[trigger] encode_utf8(chars)[i] != b,
    decreases chars.len(),
{
    if chars.len() > 0 {
        let c = chars[0] as u32;
        let rest = chars.drop_first();
        lemma_encode_avoids(rest, b);
        let head = encode_scalar(c);
        assert(encode_utf8(chars) == head + encode_utf8(rest));
        assert forall|i: int| 0 <= i < head.len() implies #[trigger] head[i] != b by {
            if has_width_1_encoding(c) {
                assert((c & 0x7F) as u8 == c as u8) by (bit_vector)
                    requires c <= 0x7F;
                assert(c != b as u32);
                assert(c as u8 != b) by (bit_vector)
                    requires c <= 0x7F, c != b as u32;
            } else {
                assert(leading_byte_width_2(c) >= 0x80 && leading_byte_width_3(c) >= 0x80
                    && leading_byte_width_4(c) >= 0x80 && last_continuation_byte(c) >= 0x80
                    && second_last_continuation_byte(c) >= 0x80
                    && third_last_continuation_byte(c) >= 0x80) by (bit_vector);
                assert(head[i] >= 0x80);
            }
        }
        assert forall|i: int| 0 <= i < encode_utf8(chars).len() implies #[trigger] encode_utf8(chars)[i] != b by {
            if i < head.len() {
                assert(encode_utf8(chars)[i] == head[i]);
            } else {
                assert(encode_utf8(chars)[i] == encode_utf8(rest)[i - head.len()]);
            }
        }
    }
}


/// The string whose characters are the given ASCII bytes.
pub fn ascii_string(bytes: &[u8]) -> (res: String)
    requires
        is_ascii_bytes(bytes@),
    ensures
        res@ == ascii_chars(bytes@),
{
    proof {
        lemma_ascii_utf8(bytes@);
    }
    match crate::outside::utf8_str(bytes) {
        Ok(s) => s.to_owned(),
        Err(_) => String::new(),
    }
}

/// The decimal spelling of `n` as a string.
pub fn decimal_string(n: u64) -> (res: String)
    ensures
        res@ == ascii_chars(decimal(n as nat)),
{
    let mut digits: Vec<u8> = Vec::new();
    push_decimal(&mut digits, n);
    proof {
        assert(digits@ =~= decimal(n as nat));
        lemma_decimal_shape(n as nat);
    }
    ascii_string(digits.as_slice())
}

} // verus!
