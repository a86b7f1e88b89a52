use vstd::prelude::*;
use vstd::utf8::*;
use crate::codec::{decimal, encode_short_spec, push_decimal, string_to_u128};
use crate::error::NameError;
use crate::hash::{hash_name_spec, parse_name_hash};
use crate::text::{chars_of, push_all, string_from_chars};

verus! {

/// A byte that percent-encoding leaves as it is.
pub open spec fn url_safe(b: u8) -> bool {
    (48 <= b <= 57) || (65 <= b <= 90) || (97 <= b <= 122) || b == 45 || b == 46 || b == 95 || b == 126
}

/// The upper-case hexadecimal digit `d`.
pub open spec fn hex_digit(d: u8) -> char {
    if d < 10 { ((48 + d) as u8) as char } else { ((55 + d) as u8) as char }
}

/// `b` percent-encoded: safe bytes as they are, each other byte as `%XY`.
pub open spec fn percent_encoded(b: Seq<u8>) -> Seq<char>
    decreases b.len(),
{
    if b.len() == 0 {
        seq![]
    } else {
        (if url_safe(b[0]) {
            seq![b[0] as char]
        } else {
            seq!['%', hex_digit(b[0] / 16), hex_digit(b[0] % 16)]
        }) + percent_encoded(b.drop_first())
    }
}

/// Relies on `urlencoding::encode`: every byte of the UTF-8 text but ASCII
/// letters, digits and `-._~` becomes `%` and two upper-case hex digits.
#[verifier::external_body]
fn url_encode(s: &str) -> (r: String)
    ensures
        r@ == percent_encoded(encode_utf8(s@)),
{
    urlencoding::encode(s).into_owned()
}

/// The ledger key of a resolver: `{name:<id>, category:<c>u128, version: 1u64}`.
pub open spec fn resolver_key_text(id: Seq<char>, category: u128) -> Seq<char> {
    seq!['{', 'n', 'a', 'm', 'e', ':'] + id + seq![
        ',',
        ' ',
        'c',
        'a',
        't',
        'e',
        'g',
        'o',
        'r',
        'y',
        ':',
    ] + decimal(category as nat) + seq![
        'u',
        '1',
        '2',
        '8',
        ',',
        ' ',
        'v',
        'e',
        'r',
        's',
        'i',
        'o',
        'n',
        ':',
        ' ',
        '1',
        'u',
        '6',
        '4',
        '}',
    ]
}

/// The percent-encoded ledger key under which a name's resolver of a
/// category is stored, or the first error: the name's, then the category's.
pub open spec fn resolver_query_spec(category: Seq<char>, name: Seq<char>) -> Result<Seq<char>, NameError> {
    match hash_name_spec(name) {
        Err(e) => Err(e),
        Ok(id) => match encode_short_spec(category) {
            Err(e) => Err(e),
            Ok(c) => Ok(percent_encoded(encode_utf8(resolver_key_text(id, c)))),
        },
    }
}

/// The percent-encoded ledger key under which the resolver of `name` for
/// `category` is stored: the name's identifier and the category's word,
/// written as the ledger's struct literal.
pub fn resolver_query_key(category: &str, name: &str) -> (r: Result<String, NameError>)
    ensures
        match r {
            Ok(k) => resolver_query_spec(category@, name@) == Ok::<Seq<char>, NameError>(k@),
            Err(e) => resolver_query_spec(category@, name@) == Err::<Seq<char>, NameError>(e),
        },
{
    let id = parse_name_hash(name)?;
    let c = string_to_u128(category)?;
    let mut key: Vec<char> = vec!['{', 'n', 'a', 'm', 'e', ':'];
    let idc = chars_of(id.as_str());
    push_all(&mut key, &idc);
    let mid = vec![',', ' ', 'c', 'a', 't', 'e', 'g', 'o', 'r', 'y', ':'];
    push_all(&mut key, &mid);
    push_decimal(&mut key, c);
    let tail = vec!['u', '1', '2', '8', ',', ' ', 'v', 'e', 'r', 's', 'i', 'o', 'n', ':', ' ', '1', 'u', '6', '4', '}'];
    push_all(&mut key, &tail);
    assert(key@ =~= resolver_key_text(id@, c));
    let text = string_from_chars(&key);
    Ok(url_encode(text.as_str()))
}

} // verus!
