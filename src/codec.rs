use vstd::prelude::*;
use vstd::string::*;
use vstd::utf8::*;
use crate::error::NameError;
use crate::text::{string_from_chars, string_from_utf8};

verus! {

/// A character allowed in a registered label.
pub open spec fn is_label_char(c: char) -> bool {
    ('a' <= c && c <= 'z') || ('0' <= c && c <= '9') || c == '-' || c == '_'
}

/// Every character of `s` is allowed in a registered label.
pub open spec fn is_label(s: Seq<char>) -> bool {
    forall|i: int| 0 <= i < s.len() ==> is_label_char(#[trigger] s[i])
}

pub open spec fn pow256(n: nat) -> nat
    decreases n,
{
    if n == 0 { 1 } else { 256 * pow256((n - 1) as nat) }
}

/// The number whose little-endian bytes are `b`.
pub open spec fn le_value(b: Seq<u8>) -> nat
    decreases b.len(),
{
    if b.len() == 0 { 0 } else { b[0] as nat + 256 * le_value(b.drop_first()) }
}

/// `b` followed by zero bytes up to `width`.
pub open spec fn zero_padded(b: Seq<u8>, width: nat) -> Seq<u8> {
    b + Seq::new((width - b.len()) as nat, |i: int| 0u8)
}

/// The `k`-th 16-byte little-endian word of `b`.
pub open spec fn word_of(b: Seq<u8>, k: int) -> u128 {
    le_value(b.subrange(16 * k, 16 * k + 16)) as u128
}

/// The four words of a 64-byte string, first word from the first 16 bytes.
pub open spec fn words_of(b: Seq<u8>) -> Seq<u128> {
    seq![word_of(b, 0), word_of(b, 1), word_of(b, 2), word_of(b, 3)]
}

/// The four-word encoding of a label, or why it has none. With `checked`,
/// only `[a-z0-9_-]` is allowed; in any case at most 64 bytes.
pub open spec fn encode_long_spec(s: Seq<char>, checked: bool) -> Result<Seq<u128>, NameError> {
    if checked && !is_label(s) {
        Err(NameError::InvalidCharacter)
    } else if encode_utf8(s).len() > 64 {
        Err(NameError::TooLong)
    } else {
        Ok(words_of(zero_padded(encode_utf8(s), 64)))
    }
}

/// The `n` little-endian bytes of `w`.
pub open spec fn word_bytes(w: nat, n: nat) -> Seq<u8>
    decreases n,
{
    if n == 0 {
        seq![]
    } else {
        seq![(w % 256) as u8] + word_bytes(w / 256, (n - 1) as nat)
    }
}

/// The 64 bytes that four words stand for.
pub open spec fn words_bytes(ws: Seq<u128>) -> Seq<u8> {
    word_bytes(ws[0] as nat, 16) + word_bytes(ws[1] as nat, 16) + word_bytes(ws[2] as nat, 16)
        + word_bytes(ws[3] as nat, 16)
}

/// `b` without its trailing zero bytes.
pub open spec fn trim_zeros(b: Seq<u8>) -> Seq<u8>
    decreases b.len(),
{
    if b.len() > 0 && b.last() == 0 {
        trim_zeros(b.drop_last())
    } else {
        b
    }
}

/// The label that four words hold: their bytes without trailing zeros, read as
/// UTF-8.
pub open spec fn decode_long_spec(ws: Seq<u128>) -> Result<Seq<char>, NameError> {
    let t = trim_zeros(words_bytes(ws));
    if valid_utf8(t) {
        Ok(decode_utf8(t))
    } else {
        Err(NameError::InvalidEncoding)
    }
}

/// The decimal digit `d`.
pub open spec fn digit(d: nat) -> char {
    ((d + 48) as u8) as char
}

/// The decimal numeral of `n`, without leading zeros.
pub open spec fn decimal(n: nat) -> Seq<char>
    decreases n,
{
    if n < 10 {
        seq![digit(n)]
    } else {
        decimal(n / 10) + seq![digit(n % 10)]
    }
}

/// `w` as a ledger literal of type u128, such as `42u128`.
pub open spec fn u128_literal(w: u128) -> Seq<char> {
    decimal(w as nat) + seq!['u', '1', '2', '8']
}

/// Four words as a ledger array literal: `[1u128, 2u128, 3u128, 4u128]`.
pub open spec fn words_literal(ws: Seq<u128>) -> Seq<char> {
    seq!['['] + u128_literal(ws[0]) + seq![',', ' '] + u128_literal(ws[1]) + seq![',', ' ']
        + u128_literal(ws[2]) + seq![',', ' '] + u128_literal(ws[3]) + seq![']']
}

/// The single-word encoding of `s`, or why it has none.
pub open spec fn encode_short_spec(s: Seq<char>) -> Result<u128, NameError> {
    if !is_label(s) {
        Err(NameError::InvalidCharacter)
    } else if encode_utf8(s).len() > 16 {
        Err(NameError::TooLong)
    } else {
        Ok(word_of(zero_padded(encode_utf8(s), 16), 0))
    }
}

proof fn lemma_pow256_16()
    ensures
        pow256(16) == 0x1_0000_0000_0000_0000_0000_0000_0000_0000,
{
    reveal_with_fuel(pow256, 17);
}

proof fn lemma_pow256_mono(a: nat, b: nat)
    requires
        a <= b,
    ensures
        pow256(a) <= pow256(b),
    decreases b,
{
    if a < b {
        lemma_pow256_mono(a, (b - 1) as nat);
    }
}

/// Reads the 16 bytes of `b` from `lo` as a little-endian word.
fn read_word(b: &Vec<u8>, lo: usize) -> (w: u128)
    requires
        lo + 16 <= b@.len(),
    ensures
        w as nat == le_value(b@.subrange(lo as int, lo + 16)),
{
    let n = b.len();
    let mut w: u128 = 0;
    let mut j: usize = 16;
    proof {
        lemma_pow256_16();
        assert(b@.subrange(lo + 16, lo + 16).len() == 0);
    }
    while j > 0
        invariant
            j <= 16,
            lo + 16 <= b@.len(),
            n == b@.len(),
            w as nat == le_value(b@.subrange(lo + j, lo + 16)),
            (w as nat) < pow256((16 - j) as nat),
            pow256(16) == 0x1_0000_0000_0000_0000_0000_0000_0000_0000,
        decreases j,
    {
        j = j - 1;
        proof {
            assert(b@.subrange(lo + j, lo + 16).drop_first() =~= b@.subrange(lo + j + 1, lo + 16));
            lemma_pow256_mono((16 - j) as nat, 16);
        }
        w = b[lo + j] as u128 + 256 * w;
    }
    w
}

/// Whether every character of `s` is allowed in a registered label.
fn check_label(s: &str) -> (ok: bool)
    ensures
        ok == is_label(s@),
{
    let n = s.unicode_len();
    let mut i: usize = 0;
    while i < n
        invariant
            n == s@.len(),
            i <= n,
            forall|k: int| 0 <= k < i ==> is_label_char(#[trigger] s@[k]),
        decreases n - i,
    {
        let c = s.get_char(i);
        if !(('a' <= c && c <= 'z') || ('0' <= c && c <= '9') || c == '-' || c == '_') {
            return false;
        }
        i = i + 1;
    }
    true
}

/// The bytes of `s`, zero-padded to `width`, or `None` if they do not fit.
fn padded_bytes(s: &str, width: usize) -> (r: Option<Vec<u8>>)
    ensures
        match r {
            Some(b) => encode_utf8(s@).len() <= width && b@ == zero_padded(encode_utf8(s@), width as nat),
            None => encode_utf8(s@).len() > width,
        },
{
    let mut b = s.as_bytes_vec();
    if b.len() > width {
        return None;
    }
    let ghost text = b@;
    while b.len() < width
        invariant
            text.len() <= b@.len() <= width,
            b@ == zero_padded(text, b@.len() as nat),
        decreases width - b.len(),
    {
        b.push(0);
        proof {
            assert(b@ =~= zero_padded(text, b@.len() as nat));
        }
    }
    Some(b)
}

/// Packs a category name into one word: the name's bytes, zero-padded to 16,
/// read little-endian. Only `[a-z0-9_-]` is allowed, and at most 16 bytes.
pub fn string_to_u128(s: &str) -> (r: Result<u128, NameError>)
    ensures
        r == encode_short_spec(s@),
{
    if !check_label(s) {
        return Err(NameError::InvalidCharacter);
    }
    match padded_bytes(s, 16) {
        None => Err(NameError::TooLong),
        Some(b) => {
            let w = read_word(&b, 0);
            Ok(w)
        },
    }
}

/// Packs a label into four words: its bytes, zero-padded to 64, cut into four
/// 16-byte little-endian words, first word first. With `checked`, only
/// `[a-z0-9_-]` is allowed; in any case at most 64 bytes.
pub fn encode_long(s: &str, checked: bool) -> (r: Result<[u128; 4], NameError>)
    ensures
        match r {
            Ok(w) => encode_long_spec(s@, checked) == Ok::<Seq<u128>, NameError>(w@),
            Err(e) => encode_long_spec(s@, checked) == Err::<Seq<u128>, NameError>(e),
        },
{
    if checked && !check_label(s) {
        return Err(NameError::InvalidCharacter);
    }
    match padded_bytes(s, 64) {
        None => Err(NameError::TooLong),
        Some(b) => {
            let w0 = read_word(&b, 0);
            let w1 = read_word(&b, 16);
            let w2 = read_word(&b, 32);
            let w3 = read_word(&b, 48);
            let w = [w0, w1, w2, w3];
            assert(w@ =~= words_of(b@));
            Ok(w)
        },
    }
}

/// Appends the decimal numeral of `n`.
pub(crate) fn push_decimal(out: &mut Vec<char>, n: u128)
    ensures
        final(out)@ == old(out)@ + decimal(n as nat),
    decreases n,
{
    if n >= 10 {
        push_decimal(out, n / 10);
    }
    let d: u8 = (n % 10) as u8;
    let c = (d + 48) as char;
    out.push(c);
    proof {
        assert(final(out)@ =~= old(out)@ + decimal(n as nat));
    }
}

/// Appends `w` as a u128 literal.
fn push_u128_literal(out: &mut Vec<char>, w: u128)
    ensures
        final(out)@ == old(out)@ + u128_literal(w),
{
    push_decimal(out, w);
    out.push('u');
    out.push('1');
    out.push('2');
    out.push('8');
    proof {
        assert(final(out)@ =~= old(out)@ + u128_literal(w));
    }
}

/// Appends four words as a ledger array literal.
pub(crate) fn push_words_literal(out: &mut Vec<char>, w: &[u128; 4])
    ensures
        final(out)@ == old(out)@ + words_literal(w@),
{
    let ghost start = out@;
    out.push('[');
    push_u128_literal(out, w[0]);
    out.push(',');
    out.push(' ');
    push_u128_literal(out, w[1]);
    out.push(',');
    out.push(' ');
    push_u128_literal(out, w[2]);
    out.push(',');
    out.push(' ');
    push_u128_literal(out, w[3]);
    out.push(']');
    proof {
        assert(out@ =~= start + words_literal(w@));
    }
}

/// Encodes a label as `encode_long` does and writes the four words as the
/// ledger's array literal, `[w0u128, w1u128, w2u128, w3u128]`.
pub fn parse_label_string(name: &str, valid: bool) -> (r: Result<String, NameError>)
    ensures
        match r {
            Ok(t) => encode_long_spec(name@, valid) is Ok && t@ == words_literal(
                encode_long_spec(name@, valid)->Ok_0,
            ),
            Err(e) => encode_long_spec(name@, valid) == Err::<Seq<u128>, NameError>(e),
        },
{
    let w = encode_long(name, valid)?;
    let mut out: Vec<char> = Vec::new();
    push_words_literal(&mut out, &w);
    Ok(string_from_chars(&out))
}

/// Appends the 16 little-endian bytes of `w`.
fn push_word_bytes(out: &mut Vec<u8>, w: u128)
    ensures
        final(out)@ == old(out)@ + word_bytes(w as nat, 16),
{
    let ghost start = out@;
    let mut x: u128 = w;
    let mut i: usize = 0;
    while i < 16
        invariant
            i <= 16,
            out@.len() == start.len() + i,
            out@.subrange(0, start.len() as int) == start,
            out@.subrange(start.len() as int, out@.len() as int) + word_bytes(x as nat, (16 - i) as nat)
                == word_bytes(w as nat, 16),
        decreases 16 - i,
    {
        let ghost before = out@;
        out.push((x % 256) as u8);
        proof {
            assert(word_bytes(x as nat, (16 - i) as nat) == seq![(x % 256) as u8] + word_bytes(
                (x / 256) as nat,
                (16 - i - 1) as nat,
            ));
            assert(out@.subrange(start.len() as int, out@.len() as int) =~= before.subrange(
                start.len() as int,
                before.len() as int,
            ) + seq![(x % 256) as u8]);
            assert(out@.subrange(0, start.len() as int) =~= before.subrange(0, start.len() as int));
        }
        x = x / 256;
        i = i + 1;
        proof {
            assert(out@.subrange(start.len() as int, out@.len() as int) + word_bytes(x as nat, (16 - i) as nat)
                =~= word_bytes(w as nat, 16));
        }
    }
    proof {
        assert(word_bytes(x as nat, 0) =~= seq![]);
        assert(out@ =~= start + word_bytes(w as nat, 16));
    }
}

/// Unpacks four words into the label they hold: their 64 bytes, word by word,
/// without the trailing zero bytes, read as UTF-8. Fails with `InvalidEncoding`
/// where those bytes are not UTF-8.
pub fn reverse_parse_label(n1: u128, n2: u128, n3: u128, n4: u128) -> (r: Result<String, NameError>)
    ensures
        match r {
            Ok(t) => decode_long_spec(seq![n1, n2, n3, n4]) == Ok::<Seq<char>, NameError>(t@),
            Err(e) => decode_long_spec(seq![n1, n2, n3, n4]) == Err::<Seq<char>, NameError>(e),
        },
{
    let ghost ws = seq![n1, n2, n3, n4];
    let mut b: Vec<u8> = Vec::new();
    push_word_bytes(&mut b, n1);
    push_word_bytes(&mut b, n2);
    push_word_bytes(&mut b, n3);
    push_word_bytes(&mut b, n4);
    assert(b@ =~= words_bytes(ws));
    let mut e: usize = b.len();
    assert(b@.subrange(0, e as int) =~= b@);
    while e > 0 && b[e - 1] == 0
        invariant
            e <= b@.len(),
            trim_zeros(b@.subrange(0, e as int)) == trim_zeros(words_bytes(ws)),
            b@ == words_bytes(ws),
        decreases e,
    {
        assert(b@.subrange(0, e as int).drop_last() =~= b@.subrange(0, e - 1));
        e = e - 1;
    }
    assert(b@.subrange(0, e as int) =~= words_bytes(ws).subrange(0, e as int));
    b.truncate(e);
    assert(trim_zeros(b@) == b@);
    match string_from_utf8(b) {
        Some(t) => Ok(t),
        None => Err(NameError::InvalidEncoding),
    }
}

proof fn lemma_le_value_bound(c: Seq<u8>)
    ensures
        le_value(c) < pow256(c.len()),
    decreases c.len(),
{
    if c.len() > 0 {
        lemma_le_value_bound(c.drop_first());
        assert(pow256(c.len()) == 256 * pow256((c.len() - 1) as nat));
    }
}

proof fn lemma_word_bytes_of_le_value(c: Seq<u8>)
    ensures
        word_bytes(le_value(c), c.len()) == c,
    decreases c.len(),
{
    if c.len() > 0 {
        let rest = c.drop_first();
        lemma_word_bytes_of_le_value(rest);
        let v = le_value(c);
        let r = le_value(rest);
        assert(v == c[0] as nat + 256 * r);
        assert(v % 256 == c[0] as nat && v / 256 == r) by (nonlinear_arith)
            requires
                v == c[0] as nat + 256 * r,
                c[0] < 256,
        ;
        assert(word_bytes(v, c.len()) =~= c);
    }
}

proof fn lemma_word_round_trip(p: Seq<u8>, k: int)
    requires
        0 <= k,
        16 * k + 16 <= p.len(),
    ensures
        word_bytes(word_of(p, k) as nat, 16) == p.subrange(16 * k, 16 * k + 16),
{
    let c = p.subrange(16 * k, 16 * k + 16);
    lemma_le_value_bound(c);
    lemma_pow256_16();
    lemma_word_bytes_of_le_value(c);
}

proof fn lemma_trim_padding(b: Seq<u8>, m: nat)
    requires
        b.len() == 0 || b.last() != 0,
    ensures
        trim_zeros(b + Seq::new(m, |i: int| 0u8)) == b,
    decreases m,
{
    let z = Seq::new(m, |i: int| 0u8);
    if m == 0 {
        assert(b + z =~= b);
    } else {
        let z1 = Seq::new((m - 1) as nat, |i: int| 0u8);
        assert((b + z).drop_last() =~= b + z1);
        lemma_trim_padding(b, (m - 1) as nat);
    }
}

proof fn lemma_encode_utf8_last(s: Seq<char>)
    requires
        s.len() > 0,
    ensures
        encode_utf8(s) == encode_utf8(s.drop_last()) + encode_scalar(s.last() as u32),
    decreases s.len(),
{
    if s.len() == 1 {
        assert(s.drop_last() =~= Seq::<char>::empty());
        assert(encode_utf8(s.drop_first()) == Seq::<u8>::empty()) by {
            assert(s.drop_first().len() == 0);
        }
        assert(encode_utf8(s) =~= encode_scalar(s[0] as u32));
    } else {
        let t = s.drop_first();
        lemma_encode_utf8_last(t);
        assert(t.drop_last() =~= s.drop_last().drop_first());
        assert(t.last() == s.last());
        assert(encode_utf8(s.drop_last()) == encode_scalar(s.drop_last()[0] as u32) + encode_utf8(
            s.drop_last().drop_first(),
        ));
        assert(s.drop_last()[0] == s[0]);
        assert(encode_utf8(s) =~= encode_utf8(s.drop_last()) + encode_scalar(s.last() as u32));
    }
}

proof fn lemma_encode_scalar_last_nonzero(c: u32)
    requires
        c != 0,
    ensures
        encode_scalar(c).len() > 0,
        encode_scalar(c).last() != 0,
{
    if has_width_1_encoding(c) {
        assert((c & 0x7F) as u8 != 0) by (bit_vector)
            requires
                c != 0,
                c <= 0x7F,
        ;
    } else {
        assert((0x80 | (c & 0x3F) as u8) as u8 != 0) by (bit_vector);
    }
}

/// Decoding gives back the label that was encoded: for every label of at most
/// 64 UTF-8 bytes whose last character is not NUL (and, when checked, whose
/// characters are all allowed), encoding succeeds and decoding its words
/// returns the label.
pub proof fn lemma_label_round_trip(s: Seq<char>, checked: bool)
    requires
        encode_utf8(s).len() <= 64,
        s.len() == 0 || s.last() != '\0',
        checked ==> is_label(s),
    ensures
        encode_long_spec(s, checked) is Ok,
        decode_long_spec(encode_long_spec(s, checked)->Ok_0) == Ok::<Seq<char>, NameError>(s),
{
    let b = encode_utf8(s);
    if s.len() > 0 {
        lemma_encode_utf8_last(s);
        assert(s.last() as u32 != 0) by {
            if s.last() as u32 == 0 {
                char_u32_cast(s.last(), 0u32);
                assert((0u32 as char) == '\0');
            }
        }
        lemma_encode_scalar_last_nonzero(s.last() as u32);
        assert(b.last() == encode_scalar(s.last() as u32).last());
    }
    let p = zero_padded(b, 64);
    let ws = words_of(p);
    lemma_word_round_trip(p, 0);
    lemma_word_round_trip(p, 1);
    lemma_word_round_trip(p, 2);
    lemma_word_round_trip(p, 3);
    assert(words_bytes(ws) =~= p);
    lemma_trim_padding(b, (64 - b.len()) as nat);
    encode_utf8_valid_utf8(s);
    encode_utf8_decode_utf8(s);
}

/// Distinct labels get distinct words: two allowed labels that both encode
/// are packed alike only if they are the same label.
pub proof fn lemma_encoding_tells_labels_apart(s1: Seq<char>, s2: Seq<char>)
    requires
        encode_long_spec(s1, true) is Ok,
        encode_long_spec(s2, true) is Ok,
        s1 != s2,
    ensures
        encode_long_spec(s1, true)->Ok_0 != encode_long_spec(s2, true)->Ok_0,
{
    lemma_label_ends_printable(s1);
    lemma_label_ends_printable(s2);
    lemma_label_round_trip(s1, true);
    lemma_label_round_trip(s2, true);
}

proof fn lemma_label_ends_printable(s: Seq<char>)
    requires
        encode_long_spec(s, true) is Ok,
    ensures
        encode_utf8(s).len() <= 64,
        s.len() == 0 || s.last() != '\0',
{
    assert(is_label(s));
    if s.len() > 0 {
        assert(is_label_char(s[s.len() - 1]));
    }
}

/// A label fits its four words exactly when its UTF-8 bytes number at most 64:
/// an allowed label of 63 or 64 bytes encodes, one of 65 or more fails with
/// `TooLong`.
pub proof fn lemma_long_length_boundary(s: Seq<char>, checked: bool)
    requires
        checked ==> is_label(s),
    ensures
        encode_utf8(s).len() <= 64 ==> encode_long_spec(s, checked) is Ok,
        encode_utf8(s).len() > 64 ==> encode_long_spec(s, checked) == Err::<Seq<u128>, NameError>(
            NameError::TooLong,
        ),
{
}

} // verus!
