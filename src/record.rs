use vstd::prelude::*;
use crate::error::NameError;
use crate::transcode::{Line, LineView, is_digits, lines_view, parse_document, parse_spec, trim_both, trimmed};
use crate::codec::{decode_long_spec, reverse_parse_label};
use crate::text::{chars_of, copy_range, same_chars};
use crate::text::string_from_chars;

verus! {

/// A name as the registry stores it: its label packed in four words, the
/// identifier of its parent (the root's is `0field`), and its resolver.
pub struct NameStruct {
    pub name: [u128; 4],
    pub parent: String,
    pub resolver: u128,
}

/// What a name record holds, as plain values.
pub struct NameRecordView {
    pub name: Seq<u128>,
    pub parent: Seq<char>,
    pub resolver: u128,
}

impl View for NameStruct {
    type V = NameRecordView;

    open spec fn view(&self) -> NameRecordView {
        NameRecordView { name: self.name@, parent: self.parent@, resolver: self.resolver }
    }
}

/// The number that a run of decimal digits writes.
pub open spec fn digits_value(d: Seq<char>) -> nat
    decreases d.len(),
{
    if d.len() == 0 {
        0
    } else {
        10 * digits_value(d.drop_last()) + ((d.last() as nat) - ('0' as nat)) as nat
    }
}

/// The key that a line carries, if any.
pub open spec fn line_key(t: LineView) -> Option<Seq<char>> {
    match t {
        LineView::Open { key, .. } => key,
        LineView::Field { key, .. } => Some(key),
        _ => None,
    }
}

/// How a line changes the bracket depth.
pub open spec fn depth_change(t: LineView) -> int {
    match t {
        LineView::Open { .. } => 1,
        LineView::Close { .. } => -1,
        _ => 0,
    }
}

/// The bracket depth before line `i`.
pub open spec fn depth_before(ts: Seq<LineView>, i: nat) -> int
    decreases i,
{
    if i == 0 || i > ts.len() {
        0
    } else {
        depth_before(ts, (i - 1) as nat) + depth_change(ts[i - 1])
    }
}

/// Line `i` is one of the record's own lines, at most one bracket deep, and
/// carries `key`; lines of a nested array or struct do not count.
pub open spec fn own_key_at(ts: Seq<LineView>, key: Seq<char>, i: int) -> bool {
    0 <= i < ts.len() && depth_before(ts, i as nat) <= 1 && line_key(ts[i]) == Some(key)
}

/// Where the first of the record's own lines with key `key` stands, or -1.
#[verifier::opaque]
pub open spec fn key_index(ts: Seq<LineView>, key: Seq<char>) -> int {
    if exists|i: int| own_key_at(ts, key, i) {
        choose|i: int| own_key_at(ts, key, i) && forall|j: int| 0 <= j < i ==> !own_key_at(ts, key, j)
    } else {
        -1
    }
}

/// The array entry at `i` as a word, if it is one that fits.
pub open spec fn item_word(ts: Seq<LineView>, i: int) -> Option<u128> {
    if 0 <= i < ts.len() {
        match ts[i] {
            LineView::Item { digits, .. } => if is_digits(digits) && digits_value(digits) <= u128::MAX {
                Some(digits_value(digits) as u128)
            } else {
                None
            },
            _ => None,
        }
    } else {
        None
    }
}

/// The four words of the array that opens at `i`: an opening bracket, four
/// integer entries that fit in 128 bits, a closing bracket.
pub open spec fn words_at(ts: Seq<LineView>, i: int) -> Option<Seq<u128>> {
    if 0 <= i && i + 5 < ts.len() && (ts[i] matches LineView::Open { array: true, .. })
        && ts[i + 5] == (LineView::Close { array: true }) && item_word(ts, i + 1) is Some
        && item_word(ts, i + 2) is Some && item_word(ts, i + 3) is Some && item_word(ts, i + 4) is Some {
        Some(
            seq![
                item_word(ts, i + 1)->Some_0,
                item_word(ts, i + 2)->Some_0,
                item_word(ts, i + 3)->Some_0,
                item_word(ts, i + 4)->Some_0,
            ],
        )
    } else {
        None
    }
}

/// The field `key`, if it holds a quoted text: that text.
pub open spec fn text_field(ts: Seq<LineView>, key: Seq<char>) -> Option<Seq<char>> {
    let i = key_index(ts, key);
    if i >= 0 && (ts[i] matches LineView::Field { quoted: true, .. }) {
        match ts[i] {
            LineView::Field { value, .. } => Some(value),
            _ => None,
        }
    } else {
        None
    }
}

/// The field `key`, if it holds a bare number that fits in 128 bits.
pub open spec fn number_field(ts: Seq<LineView>, key: Seq<char>) -> Option<u128> {
    let i = key_index(ts, key);
    if i >= 0 && (ts[i] matches LineView::Field { quoted: false, .. }) {
        match ts[i] {
            LineView::Field { value, .. } => if is_digits(value) && digits_value(value) <= u128::MAX {
                Some(digits_value(value) as u128)
            } else {
                None
            },
            _ => None,
        }
    } else {
        None
    }
}

pub open spec fn name_key() -> Seq<char> {
    seq!['n', 'a', 'm', 'e']
}

pub open spec fn parent_key() -> Seq<char> {
    seq!['p', 'a', 'r', 'e', 'n', 't']
}

pub open spec fn resolver_key() -> Seq<char> {
    seq!['r', 'e', 's', 'o', 'l', 'v', 'e', 'r']
}

/// The name record a document holds: the array under `name`, the text under
/// `parent` and the number under `resolver`, each the first line with that key.
pub open spec fn name_record_spec(ts: Seq<LineView>) -> Option<NameRecordView> {
    let i = key_index(ts, name_key());
    if i >= 0 && (ts[i] matches LineView::Open { .. }) && words_at(ts, i) is Some && text_field(
        ts,
        parent_key(),
    ) is Some && number_field(ts, resolver_key()) is Some {
        Some(
            NameRecordView {
                name: words_at(ts, i)->Some_0,
                parent: text_field(ts, parent_key())->Some_0,
                resolver: number_field(ts, resolver_key())->Some_0,
            },
        )
    } else {
        None
    }
}

/// The number that `d` writes, or `None` if it is not a run of digits that
/// fits in 128 bits.
fn digits_to_u128(d: &Vec<char>) -> (r: Option<u128>)
    ensures
        r is Some <==> is_digits(d@) && digits_value(d@) <= u128::MAX,
        r matches Some(v) ==> v == digits_value(d@),
{
    if d.len() == 0 {
        return None;
    }
    let mut v: u128 = 0;
    let mut i: usize = 0;
    while i < d.len()
        invariant
            i <= d@.len(),
            v == digits_value(d@.subrange(0, i as int)),
            forall|k: int| 0 <= k < i ==> '0' <= #[trigger] d@[k] <= '9',
        decreases d@.len() - i,
    {
        let c = d[i];
        if !('0' <= c && c <= '9') {
            assert(!('0' <= d@[i as int] <= '9'));
            return None;
        }
        let x: u128 = (c as u32 - '0' as u32) as u128;
        assert(d@.subrange(0, i + 1).drop_last() =~= d@.subrange(0, i as int));
        if v > (u128::MAX - x) / 10 {
            proof {
                lemma_digits_value_grows(d@, i + 1);
                assert(digits_value(d@.subrange(0, i + 1)) > u128::MAX) by (nonlinear_arith)
                    requires
                        v > (u128::MAX - x) / 10,
                        digits_value(d@.subrange(0, i + 1)) == 10 * v + x,
                ;
            }
            return None;
        }
        assert(v * 10 + x <= u128::MAX) by (nonlinear_arith)
            requires
                v <= (u128::MAX - x) / 10,
                x <= 9,
        ;
        v = v * 10 + x;
        i = i + 1;
    }
    assert(is_digits(d@));
    assert(d@.subrange(0, i as int) =~= d@);
    Some(v)
}

proof fn lemma_digits_value_grows(d: Seq<char>, j: int)
    requires
        0 <= j <= d.len(),
        forall|k: int| 0 <= k < j ==> '0' <= #[trigger] d[k] <= '9',
    ensures
        digits_value(d.subrange(0, j)) <= digits_value(d) || exists|k: int| 0 <= k < d.len() && !('0' <= #[trigger] d[k] <= '9'),
    decreases d.len() - j,
{
    if j < d.len() {
        if '0' <= d[j] <= '9' {
            assert(d.subrange(0, j + 1).drop_last() =~= d.subrange(0, j));
            lemma_digits_value_grows(d, j + 1);
        }
    } else {
        assert(d.subrange(0, j) =~= d);
    }
}

/// Where the first of a document's own lines with key `key` stands.
fn find_key(ts: &Vec<Line>, key: &Vec<char>) -> (r: Option<usize>)
    ensures
        match r {
            Some(i) => key_index(lines_view(ts@), key@) == i as int && i < ts@.len(),
            None => key_index(lines_view(ts@), key@) == -1,
        },
{
    let ghost tv = lines_view(ts@);
    let n = ts.len();
    let mut i: usize = 0;
    let mut d: i128 = 0;
    while i < n
        invariant
            i <= n == ts@.len() == tv.len(),
            tv == lines_view(ts@),
            d == depth_before(tv, i as nat),
            -(i as int) <= d <= i as int,
            forall|j: int| 0 <= j < i ==> !own_key_at(tv, key@, j),
        decreases n - i,
    {
        assert(tv[i as int] == ts@[i as int]@);
        let k: Option<&Vec<char>> = match &ts[i] {
            Line::Open { key: Some(k), .. } => Some(k),
            Line::Field { key: k, .. } => Some(k),
            _ => None,
        };
        let hit = d <= 1 && match k {
            Some(k) => same_chars(k, key),
            None => false,
        };
        if hit {
            proof {
                reveal(key_index);
                assert(own_key_at(tv, key@, i as int));
                assert(exists|c: int|
                    own_key_at(tv, key@, c) && forall|j: int| 0 <= j < c ==> !own_key_at(tv, key@, j));
                let c = choose|c: int|
                    own_key_at(tv, key@, c) && forall|j: int| 0 <= j < c ==> !own_key_at(tv, key@, j);
                assert(c == i) by {
                    if c > i {
                        assert(!own_key_at(tv, key@, i as int));
                    }
                }
            }
            return Some(i);
        }
        assert(!own_key_at(tv, key@, i as int));
        d = match &ts[i] {
            Line::Open { .. } => d + 1,
            Line::Close { .. } => d - 1,
            _ => d,
        };
        i = i + 1;
    }
    assert(!exists|j: int| own_key_at(tv, key@, j));
    proof {
        reveal(key_index);
    }
    None
}

fn item_word_exec(ts: &Vec<Line>, i: usize) -> (r: Option<u128>)
    ensures
        r == item_word(lines_view(ts@), i as int),
{
    if i >= ts.len() {
        return None;
    }
    match &ts[i] {
        Line::Item { digits, .. } => digits_to_u128(digits),
        _ => None,
    }
}

/// The four words of the array that opens at `i`.
fn words_at_exec(ts: &Vec<Line>, i: usize) -> (r: Option<[u128; 4]>)
    ensures
        match r {
            Some(w) => words_at(lines_view(ts@), i as int) == Some(w@),
            None => words_at(lines_view(ts@), i as int) is None,
        },
{
    let ghost tv = lines_view(ts@);
    if i >= ts.len() || ts.len() - i <= 5 {
        return None;
    }
    let opens = match &ts[i] {
        Line::Open { array, .. } => *array,
        _ => false,
    };
    let closes = match &ts[i + 5] {
        Line::Close { array } => *array,
        _ => false,
    };
    assert(tv[i as int] == ts@[i as int]@ && tv[i + 5] == ts@[i + 5]@);
    if !opens || !closes {
        return None;
    }
    let w1 = item_word_exec(ts, i + 1);
    let w2 = item_word_exec(ts, i + 2);
    let w3 = item_word_exec(ts, i + 3);
    let w4 = item_word_exec(ts, i + 4);
    match (w1, w2, w3, w4) {
        (Some(a), Some(b), Some(c), Some(d)) => {
            let w = [a, b, c, d];
            assert(w@ =~= words_at(tv, i as int)->Some_0);
            Some(w)
        },
        _ => None,
    }
}

fn name_key_exec() -> (r: Vec<char>)
    ensures
        r@ == name_key(),
{
    let r = vec!['n', 'a', 'm', 'e'];
    assert(r@ =~= name_key());
    r
}

fn parent_key_exec() -> (r: Vec<char>)
    ensures
        r@ == parent_key(),
{
    let r = vec!['p', 'a', 'r', 'e', 'n', 't'];
    assert(r@ =~= parent_key());
    r
}

fn resolver_key_exec() -> (r: Vec<char>)
    ensures
        r@ == resolver_key(),
{
    let r = vec!['r', 'e', 's', 'o', 'l', 'v', 'e', 'r'];
    assert(r@ =~= resolver_key());
    r
}

/// The text of the field `key`, if the field is there and quoted.
fn text_field_exec(ts: &Vec<Line>, key: &Vec<char>) -> (r: Option<Vec<char>>)
    ensures
        match r {
            Some(v) => text_field(lines_view(ts@), key@) == Some(v@),
            None => text_field(lines_view(ts@), key@) is None,
        },
{
    match find_key(ts, key) {
        None => None,
        Some(i) => {
            assert(lines_view(ts@)[i as int] == ts@[i as int]@);
            match &ts[i] {
                Line::Field { value, quoted: true, .. } => Some(copy_range(value, 0, value.len())),
                _ => None,
            }
        },
    }
}

/// The number in the field `key`, if the field is there, bare, and fits.
fn number_field_exec(ts: &Vec<Line>, key: &Vec<char>) -> (r: Option<u128>)
    ensures
        r == number_field(lines_view(ts@), key@),
{
    match find_key(ts, key) {
        None => None,
        Some(i) => {
            assert(lines_view(ts@)[i as int] == ts@[i as int]@);
            match &ts[i] {
                Line::Field { value, quoted: false, .. } => digits_to_u128(value),
                _ => None,
            }
        },
    }
}

/// Reads a name record from a document: the four-word array under `name`,
/// the quoted identifier under `parent` and the number under `resolver`.
/// Fails with `ShapeMismatch` where one is missing or of the wrong kind.
pub fn decode_name_record(ts: &Vec<Line>) -> (r: Result<NameStruct, NameError>)
    ensures
        match r {
            Ok(rec) => name_record_spec(lines_view(ts@)) == Some(rec@),
            Err(e) => e == NameError::ShapeMismatch && name_record_spec(lines_view(ts@)) is None,
        },
{
    let ghost tv = lines_view(ts@);
    let nk = name_key_exec();
    let i = match find_key(ts, &nk) {
        Some(i) => i,
        None => return Err(NameError::ShapeMismatch),
    };
    assert(tv[i as int] == ts@[i as int]@);
    let name = match words_at_exec(ts, i) {
        Some(w) => w,
        None => return Err(NameError::ShapeMismatch),
    };
    let pk = parent_key_exec();
    let parent = match text_field_exec(ts, &pk) {
        Some(p) => p,
        None => return Err(NameError::ShapeMismatch),
    };
    let rk = resolver_key_exec();
    let resolver = match number_field_exec(ts, &rk) {
        Some(v) => v,
        None => return Err(NameError::ShapeMismatch),
    };
    Ok(NameStruct { name, parent: string_from_chars(&parent), resolver })
}

/// The four words of a document that is one bare array of four integers.
pub open spec fn label_words_spec(ts: Seq<LineView>) -> Option<Seq<u128>> {
    if ts.len() == 6 && ts[0] == (LineView::Open { key: None, array: true }) {
        words_at(ts, 0)
    } else {
        None
    }
}

/// The owner's address in a document that is one bare word.
pub open spec fn owner_spec(ts: Seq<LineView>) -> Option<Seq<char>> {
    if ts.len() == 1 {
        match ts[0] {
            LineView::Word { text } => Some(text),
            _ => None,
        }
    } else {
        None
    }
}

/// Reads the four words of a document that is one bare array of four
/// integers, as the ledger stores a resolver's content. Fails with
/// `ShapeMismatch` otherwise.
pub fn decode_label_words(ts: &Vec<Line>) -> (r: Result<[u128; 4], NameError>)
    ensures
        match r {
            Ok(w) => label_words_spec(lines_view(ts@)) == Some(w@),
            Err(e) => e == NameError::ShapeMismatch && label_words_spec(lines_view(ts@)) is None,
        },
{
    let ghost tv = lines_view(ts@);
    if ts.len() != 6 {
        return Err(NameError::ShapeMismatch);
    }
    let bare = match &ts[0] {
        Line::Open { key: None, array: true } => true,
        _ => false,
    };
    assert(tv[0] == ts@[0]@);
    if !bare {
        return Err(NameError::ShapeMismatch);
    }
    match words_at_exec(ts, 0) {
        Some(w) => Ok(w),
        None => Err(NameError::ShapeMismatch),
    }
}

/// Reads an owner's address from a document that is one bare word. Fails
/// with `ShapeMismatch` otherwise.
pub fn decode_owner(ts: &Vec<Line>) -> (r: Result<String, NameError>)
    ensures
        match r {
            Ok(a) => owner_spec(lines_view(ts@)) == Some(a@),
            Err(e) => e == NameError::ShapeMismatch && owner_spec(lines_view(ts@)) is None,
        },
{
    if ts.len() != 1 {
        return Err(NameError::ShapeMismatch);
    }
    assert(lines_view(ts@)[0] == ts@[0]@);
    match &ts[0] {
        Line::Word { text } => Ok(string_from_chars(text)),
        _ => Err(NameError::ShapeMismatch),
    }
}

/// The name record that a raw ledger record holds, or why it holds none.
pub open spec fn name_record_from_raw_spec(raw: Seq<char>) -> Result<NameRecordView, NameError> {
    match parse_spec(raw) {
        None => Err(NameError::TranscodeError),
        Some(ts) => match name_record_spec(ts) {
            Some(v) => Ok(v),
            None => Err(NameError::ShapeMismatch),
        },
    }
}

/// The owner that a raw ledger record names, or why it names none.
pub open spec fn owner_from_raw_spec(raw: Seq<char>) -> Result<Seq<char>, NameError> {
    match parse_spec(raw) {
        None => Err(NameError::TranscodeError),
        Some(ts) => match owner_spec(ts) {
            Some(v) => Ok(v),
            None => Err(NameError::ShapeMismatch),
        },
    }
}

/// The resolver content that a raw ledger record holds, or why it holds none.
pub open spec fn resolver_content_from_raw_spec(raw: Seq<char>) -> Result<Seq<char>, NameError> {
    match parse_spec(raw) {
        None => Err(NameError::TranscodeError),
        Some(ts) => match label_words_spec(ts) {
            Some(ws) => decode_long_spec(ws),
            None => Err(NameError::ShapeMismatch),
        },
    }
}

/// Reads a name record from the raw text the ledger returns for it.
pub fn name_record_from_raw(raw: &str) -> (r: Result<NameStruct, NameError>)
    ensures
        match r {
            Ok(rec) => name_record_from_raw_spec(raw@) == Ok::<NameRecordView, NameError>(rec@),
            Err(e) => name_record_from_raw_spec(raw@) == Err::<NameRecordView, NameError>(e),
        },
{
    let ts = parse_document(raw)?;
    decode_name_record(&ts)
}

/// Reads an owner's address from the raw text the ledger returns for it.
pub fn owner_from_raw(raw: &str) -> (r: Result<String, NameError>)
    ensures
        match r {
            Ok(a) => owner_from_raw_spec(raw@) == Ok::<Seq<char>, NameError>(a@),
            Err(e) => owner_from_raw_spec(raw@) == Err::<Seq<char>, NameError>(e),
        },
{
    let ts = parse_document(raw)?;
    decode_owner(&ts)
}

/// Reads a resolver's content from the raw text the ledger returns for it:
/// four words, unpacked into their label.
pub fn resolver_content_from_raw(raw: &str) -> (r: Result<String, NameError>)
    ensures
        match r {
            Ok(c) => resolver_content_from_raw_spec(raw@) == Ok::<Seq<char>, NameError>(c@),
            Err(e) => resolver_content_from_raw_spec(raw@) == Err::<Seq<char>, NameError>(e),
        },
{
    let ts = parse_document(raw)?;
    let w = decode_label_words(&ts)?;
    reverse_parse_label(w[0], w[1], w[2], w[3])
}

/// The word the ledger answers with where a mapping holds no value.
pub open spec fn null_word() -> Seq<char> {
    seq!['n', 'u', 'l', 'l']
}

/// Tells a ledger answer that holds a value from one that says there is
/// none: `null`, give or take white space round it, is `NotFound`; anything
/// else is handed back.
pub fn ledger_value(raw: String) -> (r: Result<String, NameError>)
    ensures
        trim_both(raw@, false) == null_word() ==> r == Err::<String, NameError>(NameError::NotFound),
        trim_both(raw@, false) != null_word() ==> (r matches Ok(v) && v@ == raw@),
{
    let v = chars_of(raw.as_str());
    let t = trimmed(&v, false);
    let null = vec!['n', 'u', 'l', 'l'];
    assert(null@ =~= null_word());
    if same_chars(&t, &null) {
        Err(NameError::NotFound)
    } else {
        Ok(raw)
    }
}

/// Reads the identifier of an address's primary name from the raw text the
/// ledger returns: the text without its first and last characters, the quotes
/// round it. Fails with `ShapeMismatch` on text of fewer than two characters.
pub fn primary_name_hash_from_raw(raw: &str) -> (r: Result<String, NameError>)
    ensures
        match r {
            Ok(h) => raw@.len() >= 2 && h@ == raw@.subrange(1, raw@.len() - 1),
            Err(e) => e == NameError::ShapeMismatch && raw@.len() < 2,
        },
{
    let v = chars_of(raw);
    if v.len() < 2 {
        return Err(NameError::ShapeMismatch);
    }
    let inner = copy_range(&v, 1, v.len() - 1);
    Ok(string_from_chars(&inner))
}

/// Without a `parent` field no document holds a name record.
pub proof fn lemma_name_record_needs_parent(ts: Seq<LineView>)
    requires
        key_index(ts, parent_key()) < 0,
    ensures
        name_record_spec(ts) is None,
{
}

} // verus!
