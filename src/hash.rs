use vstd::prelude::*;
use crate::codec::{
    decimal, digit, encode_long, encode_long_spec, lemma_encoding_tells_labels_apart, push_words_literal,
    u128_literal, words_literal,
};
use crate::error::NameError;
use crate::transcode::is_digits;
use crate::text::{chars_of, push_all, string_from_chars};

verus! {

/// The identifier that the registry's hash gives the record literal `record`,
/// or `None` where the hash refuses it.
pub uninterp spec fn record_hash(record: Seq<char>) -> Option<Seq<char>>;

/// A field literal as a field displays itself: a decimal numeral without
/// leading zeros followed by `field`, as in `0field`.
pub open spec fn is_field_literal(s: Seq<char>) -> bool {
    s.len() > 5 && s.subrange(s.len() - 5, s.len() as int) == seq!['f', 'i', 'e', 'l', 'd'] && is_digits(
        s.subrange(0, s.len() - 5),
    ) && (s.len() == 6 || s[0] != '0')
}

/// Relies on snarkVM (Testnet3): `Value::from_str` parses the record literal,
/// `ToFields::to_fields` lays it out as field elements, `Network::hash_psd2`
/// hashes them (Poseidon, input rate 2), and the field's `Display` writes the
/// identifier as its decimal value (no leading zeros) followed by `field`.
/// Each step is a function of its input, so the outcome is a function of the
/// text. The text is held to a two-member struct of four u128 words and a
/// field literal: the parsers recurse on nesting and the bit layout halts on
/// very large values, neither of which such a record reaches. On that text the
/// parse succeeds (whitespace is skipped round members and separators, and a
/// numeral without leading zeros is read modulo the field), the few hundred
/// bits stay far under the size cap of `to_fields`, and `hash_psd2` always
/// returns `Ok`, so the hash succeeds.
#[verifier::external_body]
fn hash_record(record: &str) -> (r: Option<String>)
    requires
        exists|ws: Seq<u128>, p: Seq<char>|
            ws.len() == 4 && is_field_literal(p) && record@ == #[trigger] record_text(ws, p),
    ensures
        r is Some,
        match r {
            Some(h) => record_hash(record@) == Some(h@) && is_field_literal(h@),
            None => record_hash(record@) is None,
        },
{
    let value = <snarkvm_console_program::Value<snarkvm_console_network::Testnet3> as std::str::FromStr>::from_str(record).ok()?;
    let fields = snarkvm_console_network::ToFields::to_fields(&value).ok()?;
    let hash = <snarkvm_console_network::Testnet3 as snarkvm_console_network::Network>::hash_psd2(&fields).ok()?;
    Some(hash.to_string())
}

/// The identifier of the root, which has no parent: the zero field element.
pub open spec fn root_hash() -> Seq<char> {
    seq!['0', 'f', 'i', 'e', 'l', 'd']
}

/// The parts finished and the part begun after reading the first `k`
/// characters of `s`, cut at each dot.
pub open spec fn dot_prefix(s: Seq<char>, k: nat) -> (Seq<Seq<char>>, Seq<char>)
    decreases k,
{
    if k == 0 || k > s.len() {
        (seq![], seq![])
    } else {
        let (done, cur) = dot_prefix(s, (k - 1) as nat);
        if s[k - 1] == '.' {
            (done.push(cur), seq![])
        } else {
            (done, cur.push(s[k - 1]))
        }
    }
}

/// The labels of a dotted name, leaf first, as written.
pub open spec fn labels(name: Seq<char>) -> Seq<Seq<char>> {
    let (done, cur) = dot_prefix(name, name.len());
    done.push(cur)
}

/// The record literal hashed for a label under a parent:
/// `{name: [..], parent: <parent>}`.
pub open spec fn record_text(words: Seq<u128>, parent: Seq<char>) -> Seq<char> {
    seq!['{', 'n', 'a', 'm', 'e', ':', ' '] + words_literal(words) + seq![
        ',',
        ' ',
        'p',
        'a',
        'r',
        'e',
        'n',
        't',
        ':',
        ' ',
    ] + parent + seq!['}']
}

/// One step of the hash: the label, checked and packed, hashed together with
/// its parent's identifier.
pub open spec fn hash_step(label: Seq<char>, parent: Seq<char>) -> Result<Seq<char>, NameError> {
    match encode_long_spec(label, true) {
        Err(e) => Err(e),
        Ok(ws) => match record_hash(record_text(ws, parent)) {
            Some(h) => Ok(h),
            None => Err(NameError::HashPrimitiveError),
        },
    }
}

/// The identifier after hashing the `k` labels nearest the root of `ls`
/// (which lists them leaf first), starting from the root's.
pub open spec fn hash_top(ls: Seq<Seq<char>>, k: nat) -> Result<Seq<char>, NameError>
    decreases k,
{
    if k == 0 || k > ls.len() {
        Ok(root_hash())
    } else {
        match hash_top(ls, (k - 1) as nat) {
            Err(e) => Err(e),
            Ok(p) => hash_step(ls[ls.len() - k], p),
        }
    }
}

/// Every label of a dotted name is allowed and fits its four words.
pub open spec fn valid_name(name: Seq<char>) -> bool {
    forall|i: int| 0 <= i < labels(name).len() ==> (#[trigger] encode_long_spec(labels(name)[i], true)) is Ok
}

/// The identifier of a dotted name, or the first error met going from the
/// root to the leaf.
pub open spec fn hash_name_spec(name: Seq<char>) -> Result<Seq<char>, NameError> {
    hash_top(labels(name), labels(name).len())
}

/// Cuts `s` at each dot.
fn split_dots(s: &Vec<char>) -> (r: Vec<Vec<char>>)
    ensures
        r@.map_values(|l: Vec<char>| l@) == labels(s@),
{
    let n = s.len();
    let mut done: Vec<Vec<char>> = Vec::new();
    let mut cur: Vec<char> = Vec::new();
    let mut i: usize = 0;
    while i < n
        invariant
            i <= n == s@.len(),
            dot_prefix(s@, i as nat) == (done@.map_values(|l: Vec<char>| l@), cur@),
        decreases n - i,
    {
        if s[i] == '.' {
            let part = cur;
            cur = Vec::new();
            done.push(part);
        } else {
            cur.push(s[i]);
        }
        proof {
            assert(done@.map_values(|l: Vec<char>| l@) =~= dot_prefix(s@, (i + 1) as nat).0);
        }
        i = i + 1;
    }
    done.push(cur);
    proof {
        assert(done@.map_values(|l: Vec<char>| l@) =~= labels(s@));
    }
    done
}

/// Hashes one label under its parent's identifier.
fn hash_label(label: &Vec<char>, parent: &Vec<char>) -> (r: Result<Vec<char>, NameError>)
    requires
        is_field_literal(parent@),
    ensures
        encode_long_spec(label@, true) is Ok ==> r is Ok,
        match r {
            Ok(h) => hash_step(label@, parent@) == Ok::<Seq<char>, NameError>(h@) && is_field_literal(h@),
            Err(e) => hash_step(label@, parent@) == Err::<Seq<char>, NameError>(e),
        },
{
    let text = string_from_chars(label);
    let words = encode_long(text.as_str(), true)?;
    let mut rec: Vec<char> = vec!['{', 'n', 'a', 'm', 'e', ':', ' '];
    push_words_literal(&mut rec, &words);
    let tail = vec![',', ' ', 'p', 'a', 'r', 'e', 'n', 't', ':', ' '];
    push_all(&mut rec, &tail);
    push_all(&mut rec, parent);
    rec.push('}');
    assert(rec@ =~= record_text(words@, parent@));
    assert(words@.len() == 4);
    let rec_text = string_from_chars(&rec);
    match hash_record(rec_text.as_str()) {
        Some(h) => Ok(chars_of(h.as_str())),
        None => Err(NameError::HashPrimitiveError),
    }
}

/// The identifier of a dotted name: its labels are taken from the root down,
/// each checked (`[a-z0-9_-]`, at most 64 bytes) and packed into four words,
/// and hashed together with the identifier so far, which starts as the root's
/// (`0field`). The result is a function of the name alone, and a name whose
/// labels are all valid always hashes.
pub fn parse_name_hash(name: &str) -> (r: Result<String, NameError>)
    ensures
        valid_name(name@) ==> r is Ok,
        match r {
            Ok(h) => hash_name_spec(name@) == Ok::<Seq<char>, NameError>(h@),
            Err(e) => hash_name_spec(name@) == Err::<Seq<char>, NameError>(e),
        },
{
    let chars = chars_of(name);
    let parts = split_dots(&chars);
    let ghost ls = parts@.map_values(|l: Vec<char>| l@);
    let n = parts.len();
    let mut running: Vec<char> = vec!['0', 'f', 'i', 'e', 'l', 'd'];
    assert(running@ =~= root_hash());
    assert(running@.subrange(1, 6) =~= seq!['f', 'i', 'e', 'l', 'd']);
    assert(running@.subrange(0, 1) =~= seq!['0']);
    assert(is_field_literal(running@));
    let mut k: usize = 0;
    while k < n
        invariant
            k <= n == parts@.len() == ls.len(),
            ls == parts@.map_values(|l: Vec<char>| l@),
            ls == labels(name@),
            hash_top(ls, k as nat) == Ok::<Seq<char>, NameError>(running@),
            is_field_literal(running@),
        decreases n - k,
    {
        assert(parts@[n - 1 - k]@ == ls[ls.len() - (k + 1)]);
        assert(valid_name(name@) ==> encode_long_spec(ls[n - 1 - k], true) is Ok);
        match hash_label(&parts[n - 1 - k], &running) {
            Ok(h) => {
                running = h;
            },
            Err(e) => {
                proof {
                    lemma_hash_top_stuck(ls, (k + 1) as nat, ls.len(), e);
                }
                return Err(e);
            },
        }
        k = k + 1;
    }
    Ok(string_from_chars(&running))
}

/// The record literal whose hash is a name's identifier: its leaf label's
/// words under its parent's identifier.
pub open spec fn leaf_record(name: Seq<char>) -> Seq<char> {
    let ls = labels(name);
    record_text(
        encode_long_spec(ls[0], true)->Ok_0,
        hash_top(ls, (ls.len() - 1) as nat)->Ok_0,
    )
}

/// Names whose leaf labels differ are hashes of different records: where both
/// names hash, each identifier is the hash of its leaf record, and the two
/// records differ. So `a.b`, `b.a` and `ab` get distinct identifiers unless
/// the hash collides.
pub proof fn lemma_distinct_leaves_distinct_records(n1: Seq<char>, n2: Seq<char>)
    requires
        hash_name_spec(n1) is Ok,
        hash_name_spec(n2) is Ok,
        labels(n1)[0] != labels(n2)[0],
    ensures
        record_hash(leaf_record(n1)) == Some(hash_name_spec(n1)->Ok_0),
        record_hash(leaf_record(n2)) == Some(hash_name_spec(n2)->Ok_0),
        leaf_record(n1) != leaf_record(n2),
{
    lemma_last_step(n1);
    lemma_last_step(n2);
    let w1 = encode_long_spec(labels(n1)[0], true)->Ok_0;
    let w2 = encode_long_spec(labels(n2)[0], true)->Ok_0;
    lemma_encoding_tells_labels_apart(labels(n1)[0], labels(n2)[0]);
    let p1 = hash_top(labels(n1), (labels(n1).len() - 1) as nat)->Ok_0;
    let p2 = hash_top(labels(n2), (labels(n2).len() - 1) as nat)->Ok_0;
    if record_text(w1, p1) == record_text(w2, p2) {
        lemma_record_text_injective(w1, p1, w2, p2);
    }
}

proof fn lemma_last_step(n: Seq<char>)
    requires
        hash_name_spec(n) is Ok,
    ensures
        labels(n).len() >= 1,
        hash_top(labels(n), (labels(n).len() - 1) as nat) is Ok,
        encode_long_spec(labels(n)[0], true) is Ok,
        record_hash(leaf_record(n)) == Some(hash_name_spec(n)->Ok_0),
        encode_long_spec(labels(n)[0], true)->Ok_0.len() == 4,
{
    let ls = labels(n);
    assert(ls.len() >= 1);
    assert(ls[ls.len() - ls.len()] == ls[0]);
}

proof fn lemma_decimal_digits(n: nat)
    ensures
        decimal(n).len() >= 1,
        n >= 10 ==> decimal(n).len() >= 2,
        forall|i: int| 0 <= i < decimal(n).len() ==> '0' <= #[trigger] decimal(n)[i] <= '9',
    decreases n,
{
    if n >= 10 {
        lemma_decimal_digits(n / 10);
        assert(decimal(n) == decimal(n / 10) + seq![digit(n % 10)]);
    }
    assert forall|i: int| 0 <= i < decimal(n).len() implies '0' <= #[trigger] decimal(n)[i] <= '9' by {
        if n < 10 || i == decimal(n).len() - 1 {
            let d = if n < 10 { n } else { n % 10 };
            assert(decimal(n)[i] == digit(d));
            assert(48 <= d + 48 <= 57);
        } else {
            assert(decimal(n)[i] == decimal(n / 10)[i]);
        }
    }
}

proof fn lemma_decimal_injective(a: nat, b: nat)
    requires
        decimal(a) == decimal(b),
    ensures
        a == b,
    decreases a,
{
    lemma_decimal_digits(a);
    lemma_decimal_digits(b);
    if a < 10 && b < 10 {
        assert(decimal(a)[0] == digit(a) && decimal(b)[0] == digit(b));
        assert(((a + 48) as u8) as u32 == ((b + 48) as u8) as u32);
    } else if a >= 10 && b >= 10 {
        let la = decimal(a).len() - 1;
        assert(decimal(a) == decimal(a / 10) + seq![digit(a % 10)]);
        assert(decimal(b) == decimal(b / 10) + seq![digit(b % 10)]);
        assert(decimal(a)[la] == digit(a % 10) && decimal(b)[la] == digit(b % 10));
        assert(((a % 10 + 48) as u8) as u32 == ((b % 10 + 48) as u8) as u32);
        assert(decimal(a / 10) =~= decimal(a).subrange(0, la));
        assert(decimal(b / 10) =~= decimal(b).subrange(0, la));
        lemma_decimal_injective(a / 10, b / 10);
    }
}

/// A numeral followed by `u` determines the number and what follows.
proof fn lemma_peel_numeral(a: nat, x: Seq<char>, b: nat, y: Seq<char>)
    requires
        decimal(a) + seq!['u'] + x == decimal(b) + seq!['u'] + y,
    ensures
        a == b,
        x == y,
{
    lemma_decimal_digits(a);
    lemma_decimal_digits(b);
    let da = decimal(a);
    let db = decimal(b);
    let l = decimal(a) + seq!['u'] + x;
    if da.len() < db.len() {
        assert(l[da.len() as int] == 'u');
        assert((decimal(b) + seq!['u'] + y)[da.len() as int] == db[da.len() as int]);
    } else if da.len() > db.len() {
        assert((decimal(b) + seq!['u'] + y)[db.len() as int] == 'u');
        assert(l[db.len() as int] == da[db.len() as int]);
    }
    assert(da =~= l.subrange(0, da.len() as int));
    assert(db =~= (decimal(b) + seq!['u'] + y).subrange(0, db.len() as int));
    lemma_decimal_injective(a, b);
    assert(x =~= l.subrange(da.len() as int + 1, l.len() as int));
    assert(y =~= (decimal(b) + seq!['u'] + y).subrange(db.len() as int + 1, l.len() as int));
}

/// The text after a word's numeral in a record literal.
spec fn after_word(ws: Seq<u128>, p: Seq<char>, k: int) -> Seq<char>
    decreases 3 - k,
{
    if k >= 3 || k < 0 {
        seq!['1', '2', '8', ']', ',', ' ', 'p', 'a', 'r', 'e', 'n', 't', ':', ' '] + p + seq!['}']
    } else {
        seq!['1', '2', '8', ',', ' '] + decimal(ws[k + 1] as nat) + seq!['u'] + after_word(ws, p, k + 1)
    }
}

#[verifier::rlimit(100)]
proof fn lemma_record_text_shape(ws: Seq<u128>, p: Seq<char>)
    requires
        ws.len() == 4,
    ensures
        record_text(ws, p) == seq!['{', 'n', 'a', 'm', 'e', ':', ' ', '['] + decimal(ws[0] as nat) + seq!['u']
            + after_word(ws, p, 0),
{
    let sep = seq![',', ' '];
    let tail = seq![',', ' ', 'p', 'a', 'r', 'e', 'n', 't', ':', ' '] + p + seq!['}'];
    let t3 = u128_literal(ws[3]) + seq![']'] + tail;
    assert(t3 =~= decimal(ws[3] as nat) + seq!['u'] + after_word(ws, p, 3));
    let t2 = u128_literal(ws[2]) + sep + t3;
    assert(t2 =~= decimal(ws[2] as nat) + seq!['u'] + after_word(ws, p, 2));
    let t1 = u128_literal(ws[1]) + sep + t2;
    assert(t1 =~= decimal(ws[1] as nat) + seq!['u'] + after_word(ws, p, 1));
    let t0 = u128_literal(ws[0]) + sep + t1;
    assert(t0 =~= decimal(ws[0] as nat) + seq!['u'] + after_word(ws, p, 0));
    assert(words_literal(ws) + tail =~= seq!['['] + t0);
    assert(record_text(ws, p) =~= seq!['{', 'n', 'a', 'm', 'e', ':', ' '] + (words_literal(ws) + tail));
}

proof fn lemma_after_word_injective(w1: Seq<u128>, p1: Seq<char>, w2: Seq<u128>, p2: Seq<char>, k: int)
    requires
        0 <= k <= 3,
        after_word(w1, p1, k) == after_word(w2, p2, k),
    ensures
        forall|j: int| k < j <= 3 ==> w1[j] == w2[j],
    decreases 3 - k,
{
    if k < 3 {
        let pre = seq!['1', '2', '8', ',', ' '];
        let a = after_word(w1, p1, k);
        let b = after_word(w2, p2, k);
        let x = decimal(w1[k + 1] as nat) + seq!['u'] + after_word(w1, p1, k + 1);
        let y = decimal(w2[k + 1] as nat) + seq!['u'] + after_word(w2, p2, k + 1);
        assert(a =~= pre + x);
        assert(b =~= pre + y);
        assert(x =~= a.subrange(5, a.len() as int));
        assert(y =~= b.subrange(5, b.len() as int));
        lemma_peel_numeral(w1[k + 1] as nat, after_word(w1, p1, k + 1), w2[k + 1] as nat, after_word(w2, p2, k + 1));
        lemma_after_word_injective(w1, p1, w2, p2, k + 1);
    }
}

proof fn lemma_record_text_injective(w1: Seq<u128>, p1: Seq<char>, w2: Seq<u128>, p2: Seq<char>)
    requires
        w1.len() == 4,
        w2.len() == 4,
        record_text(w1, p1) == record_text(w2, p2),
    ensures
        w1 == w2,
{
    lemma_record_text_shape(w1, p1);
    lemma_record_text_shape(w2, p2);
    let pre = seq!['{', 'n', 'a', 'm', 'e', ':', ' ', '['];
    let t = record_text(w1, p1);
    let x = decimal(w1[0] as nat) + seq!['u'] + after_word(w1, p1, 0);
    let y = decimal(w2[0] as nat) + seq!['u'] + after_word(w2, p2, 0);
    assert(t =~= pre + x);
    assert(record_text(w2, p2) =~= pre + y);
    assert(x =~= t.subrange(8, t.len() as int));
    assert(y =~= (pre + y).subrange(8, t.len() as int));
    lemma_peel_numeral(w1[0] as nat, after_word(w1, p1, 0), w2[0] as nat, after_word(w2, p2, 0));
    lemma_after_word_injective(w1, p1, w2, p2, 0);
    assert(w1 =~= w2);
}

proof fn lemma_hash_top_stuck(ls: Seq<Seq<char>>, k: nat, m: nat, e: NameError)
    requires
        hash_top(ls, k) == Err::<Seq<char>, NameError>(e),
        1 <= k <= m <= ls.len(),
    ensures
        hash_top(ls, m) == Err::<Seq<char>, NameError>(e),
    decreases m - k,
{
    if k < m {
        lemma_hash_top_stuck(ls, (k + 1) as nat, m, e);
    }
}

} // verus!
