use vstd::prelude::*;
use crate::error::NameError;
use crate::text::{chars_of, copy_range, push_all, string_from_chars};

verus! {

/// One line of a transcoded document, as its characters stand.
pub enum LineView {
    Open { key: Option<Seq<char>>, array: bool },
    Close { array: bool },
    Field { key: Seq<char>, value: Seq<char>, quoted: bool, comma: bool },
    Item { digits: Seq<char>, comma: bool },
    Word { text: Seq<char> },
}

/// One line of a transcoded document.
pub enum Line {
    /// `{` or `[`, after the key that names it if there is one.
    Open { key: Option<Vec<char>>, array: bool },
    /// `}` or `]`.
    Close { array: bool },
    /// `key: value`, the value a quoted string or a bare number.
    Field { key: Vec<char>, value: Vec<char>, quoted: bool, comma: bool },
    /// An integer entry of an array.
    Item { digits: Vec<char>, comma: bool },
    /// A bare word that is the whole document.
    Word { text: Vec<char> },
}

impl View for Line {
    type V = LineView;

    open spec fn view(&self) -> LineView {
        match self {
            Line::Open { key, array } => LineView::Open {
                key: match key {
                    Some(k) => Some(k@),
                    None => None,
                },
                array: *array,
            },
            Line::Close { array } => LineView::Close { array: *array },
            Line::Field { key, value, quoted, comma } => LineView::Field {
                key: key@,
                value: value@,
                quoted: *quoted,
                comma: *comma,
            },
            Line::Item { digits, comma } => LineView::Item { digits: digits@, comma: *comma },
            Line::Word { text } => LineView::Word { text: text@ },
        }
    }
}

// ---------------------------------------------------------------------------
// Splitting the escaped text into lines, and trimming them
// ---------------------------------------------------------------------------

/// The lines finished and the line begun after reading the first `k`
/// characters of `s`, where a backslash followed by `n` ends a line.
pub open spec fn split_prefix(s: Seq<char>, k: nat) -> (Seq<Seq<char>>, Seq<char>)
    decreases k,
{
    if k == 0 || k > s.len() {
        (seq![], seq![])
    } else {
        let (done, cur) = split_prefix(s, (k - 1) as nat);
        if k >= 2 && s[k - 1] == 'n' && s[k - 2] == '\\' {
            (done.push(cur.drop_last()), seq![])
        } else {
            (done, cur.push(s[k - 1]))
        }
    }
}

/// `s` cut at every escaped line break (the two characters `\\` and `n`).
pub open spec fn escaped_lines(s: Seq<char>) -> Seq<Seq<char>> {
    let (done, cur) = split_prefix(s, s.len());
    done.push(cur)
}

/// A character that `str::trim` removes: Unicode's White_Space.
pub open spec fn is_space(c: char) -> bool {
    ('\u{9}' <= c && c <= '\u{d}') || c == ' ' || c == '\u{85}' || c == '\u{a0}' || c == '\u{1680}'
        || ('\u{2000}' <= c && c <= '\u{200a}') || c == '\u{2028}' || c == '\u{2029}'
        || c == '\u{202f}' || c == '\u{205f}' || c == '\u{3000}'
}

/// The character that `trim_pred` removes: white space, or with `quote` the
/// double quote.
pub open spec fn trims(c: char, quote: bool) -> bool {
    if quote { c == '"' } else { is_space(c) }
}

pub open spec fn trim_start(s: Seq<char>, quote: bool) -> Seq<char>
    decreases s.len(),
{
    if s.len() > 0 && trims(s[0], quote) { trim_start(s.drop_first(), quote) } else { s }
}

pub open spec fn trim_end(s: Seq<char>, quote: bool) -> Seq<char>
    decreases s.len(),
{
    if s.len() > 0 && trims(s.last(), quote) { trim_end(s.drop_last(), quote) } else { s }
}

/// `s` without the leading and trailing characters that `trims` names.
pub open spec fn trim_both(s: Seq<char>, quote: bool) -> Seq<char> {
    trim_end(trim_start(s, quote), quote)
}

fn trims_exec(c: char, quote: bool) -> (r: bool)
    ensures
        r == trims(c, quote),
{
    if quote {
        c == '"'
    } else {
        ('\u{9}' <= c && c <= '\u{d}') || c == ' ' || c == '\u{85}' || c == '\u{a0}' || c == '\u{1680}'
            || ('\u{2000}' <= c && c <= '\u{200a}') || c == '\u{2028}' || c == '\u{2029}'
            || c == '\u{202f}' || c == '\u{205f}' || c == '\u{3000}'
    }
}

/// `v` trimmed at both ends, as a vector of its own.
pub(crate) fn trimmed(v: &Vec<char>, quote: bool) -> (r: Vec<char>)
    ensures
        r@ == trim_both(v@, quote),
{
    let n = v.len();
    let mut a: usize = 0;
    assert(v@.subrange(0, n as int) =~= v@);
    while a < n && trims_exec(v[a], quote)
        invariant
            a <= n == v@.len(),
            trim_start(v@.subrange(a as int, n as int), quote) == trim_start(v@, quote),
        decreases n - a,
    {
        assert(v@.subrange(a as int, n as int).drop_first() =~= v@.subrange(a + 1, n as int));
        a = a + 1;
    }
    let mut b: usize = n;
    assert(v@.subrange(a as int, n as int) == trim_start(v@, quote));
    while b > a && trims_exec(v[b - 1], quote)
        invariant
            a <= b <= n == v@.len(),
            trim_end(v@.subrange(a as int, b as int), quote) == trim_both(v@, quote),
        decreases b,
    {
        assert(v@.subrange(a as int, b as int).drop_last() =~= v@.subrange(a as int, b - 1));
        b = b - 1;
    }
    copy_range(v, a, b)
}

/// The lines of `s`: cut at escaped line breaks, and each left as it stands.
fn split_escaped(s: &Vec<char>) -> (r: Vec<Vec<char>>)
    ensures
        r@.map_values(|l: Vec<char>| l@) == escaped_lines(s@),
{
    let n = s.len();
    let mut done: Vec<Vec<char>> = Vec::new();
    let mut cur: Vec<char> = Vec::new();
    let mut i: usize = 0;
    while i < n
        invariant
            i <= n == s@.len(),
            split_prefix(s@, i as nat) == (done@.map_values(|l: Vec<char>| l@), cur@),
            i >= 1 && s@[i - 1] == '\\' && !(i >= 2 && s@[i - 2] == '\\' && s@[i - 1] == 'n') ==> cur@.len() > 0 && cur@.last() == '\\',
        decreases n - i,
    {
        let c = s[i];
        if i >= 1 && c == 'n' && s[i - 1] == '\\' {
            cur.pop();
            let line = cur;
            cur = Vec::new();
            done.push(line);
            proof {
                assert(done@.map_values(|l: Vec<char>| l@) =~= split_prefix(s@, (i + 1) as nat).0);
            }
        } else {
            cur.push(c);
            proof {
                assert(done@.map_values(|l: Vec<char>| l@) =~= split_prefix(s@, (i + 1) as nat).0);
            }
        }
        i = i + 1;
    }
    done.push(cur);
    proof {
        assert(done@.map_values(|l: Vec<char>| l@) =~= escaped_lines(s@));
    }
    done
}

// ---------------------------------------------------------------------------
// Recognising one line
// ---------------------------------------------------------------------------

/// A character that the word class `\w` holds in ASCII.
pub open spec fn is_word_char(c: char) -> bool {
    ('a' <= c && c <= 'z') || ('A' <= c && c <= 'Z') || ('0' <= c && c <= '9') || c == '_'
}

pub open spec fn is_digit(c: char) -> bool {
    '0' <= c && c <= '9'
}

/// A nonempty run of word characters.
pub open spec fn is_word(s: Seq<char>) -> bool {
    s.len() > 0 && forall|i: int| 0 <= i < s.len() ==> is_word_char(#[trigger] s[i])
}

/// A nonempty run of decimal digits.
pub open spec fn is_digits(s: Seq<char>) -> bool {
    s.len() > 0 && forall|i: int| 0 <= i < s.len() ==> is_digit(#[trigger] s[i])
}

/// The width tag of `v` starts at `u`: a `u` after at least one character,
/// followed by digits to the end, as in `3u64`.
pub open spec fn tag_at(v: Seq<char>, u: int) -> bool {
    0 < u < v.len() && v[u] == 'u' && is_digits(v.subrange(u + 1, v.len() as int))
}

pub open spec fn has_tag(v: Seq<char>) -> bool {
    exists|u: int| tag_at(v, u)
}

/// `v` without its width tag.
pub open spec fn untagged(v: Seq<char>) -> Seq<char> {
    v.subrange(0, choose|u: int| tag_at(v, u))
}

/// A field's value as it is written out, and whether it is quoted: a tagged
/// value loses its tag and is quoted unless digits remain; an untagged value
/// is quoted unless it is all digits. `None` if it is not a word.
pub open spec fn field_value(v: Seq<char>) -> Option<(Seq<char>, bool)> {
    if !is_word(v) {
        None
    } else if has_tag(v) {
        Some((untagged(v), !is_digits(untagged(v))))
    } else {
        Some((v, !is_digits(v)))
    }
}

/// `l` without one trailing comma, and whether it had one.
pub open spec fn strip_comma(l: Seq<char>) -> (Seq<char>, bool) {
    if l.len() > 0 && l.last() == ',' { (l.drop_last(), true) } else { (l, false) }
}

pub open spec fn bracket(array: bool, open: bool) -> char {
    if array {
        if open { '[' } else { ']' }
    } else {
        if open { '{' } else { '}' }
    }
}

/// A line that ends in an opening bracket: the bracket alone, or
/// `key: ` before it.
pub open spec fn open_line(l: Seq<char>, array: bool) -> Option<LineView> {
    let n = l.len();
    if n == 1 {
        Some(LineView::Open { key: None, array })
    } else if n >= 4 && l[n - 2] == ' ' && l[n - 3] == ':' && is_word(l.subrange(0, n - 3)) {
        Some(LineView::Open { key: Some(l.subrange(0, n - 3)), array })
    } else {
        None
    }
}

/// A closing bracket, alone or with a comma.
pub open spec fn close_line(l: Seq<char>, array: bool) -> Option<LineView> {
    if l == seq![bracket(array, false)] || l == seq![bracket(array, false), ','] {
        Some(LineView::Close { array })
    } else {
        None
    }
}

/// The key of a field line ends at `i`, its first colon.
pub open spec fn colon_at(body: Seq<char>, i: int) -> bool {
    0 <= i < body.len() && body[i] == ':' && is_word(body.subrange(0, i))
}

/// `key: value`, with an optional comma.
pub open spec fn field_line(l: Seq<char>) -> Option<LineView> {
    let (body, comma) = strip_comma(l);
    if exists|i: int| colon_at(body, i) {
        let i = choose|i: int| colon_at(body, i);
        if i + 1 < body.len() && body[i + 1] == ' ' {
            match field_value(body.subrange(i + 2, body.len() as int)) {
                Some((value, quoted)) => Some(
                    LineView::Field { key: body.subrange(0, i), value, quoted, comma },
                ),
                None => None,
            }
        } else {
            None
        }
    } else {
        None
    }
}

/// An array entry: digits, maybe with a width tag, maybe with a comma.
pub open spec fn item_line(l: Seq<char>) -> Option<LineView> {
    let (body, comma) = strip_comma(l);
    if is_digits(body) {
        Some(LineView::Item { digits: body, comma })
    } else if is_word(body) && has_tag(body) && is_digits(untagged(body)) {
        Some(LineView::Item { digits: untagged(body), comma })
    } else {
        None
    }
}

/// What a trimmed line is, inside an array or not; `None` for a line of no
/// known shape. A bare word stands only as a document of one line.
pub open spec fn classify(l: Seq<char>, in_array: bool, alone: bool) -> Option<LineView> {
    let n = l.len();
    if n > 0 && l.last() == '[' {
        open_line(l, true)
    } else if n > 0 && l[0] == ']' {
        close_line(l, true)
    } else if in_array {
        item_line(l)
    } else if n > 0 && l.last() == '{' {
        open_line(l, false)
    } else if n > 0 && l[0] == '}' {
        close_line(l, false)
    } else if l.contains(':') {
        field_line(l)
    } else if alone && is_word(l) {
        Some(LineView::Word { text: l })
    } else {
        None
    }
}

fn is_word_char_exec(c: char) -> (r: bool)
    ensures
        r == is_word_char(c),
{
    ('a' <= c && c <= 'z') || ('A' <= c && c <= 'Z') || ('0' <= c && c <= '9') || c == '_'
}

/// Whether `v[a..b]` is a nonempty run of word characters or, with `digits`,
/// of decimal digits.
fn run_of(v: &Vec<char>, a: usize, b: usize, digits: bool) -> (r: bool)
    requires
        a <= b <= v@.len(),
    ensures
        r == if digits { is_digits(v@.subrange(a as int, b as int)) } else { is_word(v@.subrange(a as int, b as int)) },
{
    if a == b {
        return false;
    }
    let mut i: usize = a;
    while i < b
        invariant
            a <= i <= b <= v@.len(),
            forall|k: int| a <= k < i ==> if digits { is_digit(#[trigger] v@[k]) } else { is_word_char(v@[k]) },
        decreases b - i,
    {
        let c = v[i];
        let ok = if digits { '0' <= c && c <= '9' } else { is_word_char_exec(c) };
        if !ok {
            assert(v@.subrange(a as int, b as int)[i - a] == c);
            return false;
        }
        i = i + 1;
    }
    assert forall|k: int| 0 <= k < b - a implies if digits { is_digit(#[trigger] v@.subrange(a as int, b as int)[k]) } else { is_word_char(v@.subrange(a as int, b as int)[k]) } by {
        assert(v@.subrange(a as int, b as int)[k] == v@[a + k]);
    }
    true
}

/// Where the width tag of `v[0..b]` starts, if it has one.
fn find_tag(v: &Vec<char>, b: usize) -> (r: Option<usize>)
    requires
        b <= v@.len(),
    ensures
        r is Some <==> has_tag(v@.subrange(0, b as int)),
        r matches Some(u) ==> tag_at(v@.subrange(0, b as int), u as int),
{
    let ghost w = v@.subrange(0, b as int);
    let mut j: usize = b;
    while j > 0 && '0' <= v[j - 1] && v[j - 1] <= '9'
        invariant
            j <= b <= v@.len(),
            forall|k: int| j <= k < b ==> is_digit(#[trigger] v@[k]),
        decreases j,
    {
        j = j - 1;
    }
    assert forall|u: int| tag_at(w, u) implies u == j - 1 by {
        if u < j - 1 {
            assert(w.subrange(u + 1, w.len() as int)[j - 1 - (u + 1)] == w[j - 1]);
        } else if u > j - 1 {
            assert(w[u] == v@[u]);
        }
    }
    if j >= 2 && j < b && v[j - 1] == 'u' {
        let u = j - 1;
        assert forall|k: int| 0 <= k < w.subrange(u + 1, w.len() as int).len() implies is_digit(#[trigger] w.subrange(u + 1, w.len() as int)[k]) by {
            assert(w.subrange(u + 1, w.len() as int)[k] == v@[u + 1 + k]);
        }
        assert(tag_at(w, u as int));
        Some(u)
    } else {
        None
    }
}

/// Whether `v` holds `c`, and the first place it does.
fn find_char(v: &Vec<char>, c: char) -> (r: Option<usize>)
    ensures
        match r {
            Some(i) => i < v@.len() && v@[i as int] == c && forall|k: int| 0 <= k < i ==> v@[k] != c,
            None => forall|k: int| 0 <= k < v@.len() ==> v@[k] != c,
        },
{
    let mut i: usize = 0;
    while i < v.len()
        invariant
            i <= v@.len(),
            forall|k: int| 0 <= k < i ==> v@[k] != c,
        decreases v@.len() - i,
    {
        if v[i] == c {
            return Some(i);
        }
        i = i + 1;
    }
    None
}

/// The value of a field as it is written out, and whether it is quoted.
fn field_value_exec(v: &Vec<char>) -> (r: Option<(Vec<char>, bool)>)
    ensures
        match r {
            Some((w, q)) => field_value(v@) == Some((w@, q)),
            None => field_value(v@) is None,
        },
{
    let n = v.len();
    assert(v@.subrange(0, n as int) =~= v@);
    if !run_of(v, 0, n, false) {
        return None;
    }
    match find_tag(v, n) {
        Some(u) => {
            proof {
                assert(tag_at(v@, u as int));
                let c = choose|u: int| tag_at(v@, u);
                assert(c == u) by {
                    assert(tag_at(v@, c));
                    if c < u {
                        assert(v@.subrange(c + 1, n as int)[u - (c + 1)] == v@[u as int]);
                    } else if c > u {
                        assert(v@.subrange(u + 1, n as int)[c - (u + 1)] == v@[c]);
                    }
                }
            }
            let w = copy_range(v, 0, u);
            let d = run_of(v, 0, u, true);
            Some((w, !d))
        },
        None => {
            let d = run_of(v, 0, n, true);
            Some((copy_range(v, 0, n), !d))
        },
    }
}

/// Length of `l` without one trailing comma, and whether it had one.
fn strip_comma_exec(l: &Vec<char>) -> (r: (usize, bool))
    ensures
        r.0 <= l@.len(),
        strip_comma(l@) == (l@.subrange(0, r.0 as int), r.1),
{
    let n = l.len();
    if n > 0 && l[n - 1] == ',' {
        assert(l@.drop_last() =~= l@.subrange(0, n - 1));
        (n - 1, true)
    } else {
        assert(l@ =~= l@.subrange(0, n as int));
        (n, false)
    }
}

fn open_line_exec(l: &Vec<char>, array: bool) -> (r: Option<Line>)
    ensures
        match r {
            Some(t) => open_line(l@, array) == Some(t@),
            None => open_line(l@, array) is None,
        },
{
    let n = l.len();
    if n == 1 {
        Some(Line::Open { key: None, array })
    } else if n >= 4 && l[n - 2] == ' ' && l[n - 3] == ':' && run_of(l, 0, n - 3, false) {
        Some(Line::Open { key: Some(copy_range(l, 0, n - 3)), array })
    } else {
        None
    }
}

fn close_line_exec(l: &Vec<char>, array: bool) -> (r: Option<Line>)
    ensures
        match r {
            Some(t) => close_line(l@, array) == Some(t@),
            None => close_line(l@, array) is None,
        },
{
    let b = if array { ']' } else { '}' };
    let n = l.len();
    if (n == 1 && l[0] == b) || (n == 2 && l[0] == b && l[1] == ',') {
        proof {
            if n == 1 {
                assert(l@ =~= seq![bracket(array, false)]);
            } else {
                assert(l@ =~= seq![bracket(array, false), ',']);
            }
        }
        Some(Line::Close { array })
    } else {
        proof {
            if l@ == seq![bracket(array, false)] {
                assert(l@[0] == b);
            }
            if l@ == seq![bracket(array, false), ','] {
                assert(l@[0] == b && l@[1] == ',');
            }
        }
        None
    }
}

fn field_line_exec(l: &Vec<char>) -> (r: Option<Line>)
    ensures
        match r {
            Some(t) => field_line(l@) == Some(t@),
            None => field_line(l@) is None,
        },
{
    let (m, comma) = strip_comma_exec(l);
    let ghost body = l@.subrange(0, m as int);
    match find_char(l, ':') {
        None => {
            assert(!exists|i: int| colon_at(body, i)) by {
                if exists|i: int| colon_at(body, i) {
                    let i = choose|i: int| colon_at(body, i);
                    assert(l@[i] == ':');
                }
            }
            None
        },
        Some(i) => {
            if i >= m || !run_of(l, 0, i, false) {
                assert(!exists|j: int| colon_at(body, j)) by {
                    if exists|j: int| colon_at(body, j) {
                        let j = choose|j: int| colon_at(body, j);
                        assert(l@[j] == ':');
                        if j > i {
                            assert(body.subrange(0, j)[i as int] == ':');
                        } else {
                            assert(body.subrange(0, j) =~= l@.subrange(0, i as int));
                        }
                    }
                }
                return None;
            }
            proof {
                assert(body.subrange(0, i as int) =~= l@.subrange(0, i as int));
                assert(colon_at(body, i as int));
                let c = choose|j: int| colon_at(body, j);
                assert(c == i) by {
                    if c > i {
                        assert(body.subrange(0, c)[i as int] == ':');
                    }
                }
            }
            if i + 1 < m && l[i + 1] == ' ' {
                let v = copy_range(l, i + 2, m);
                assert(v@ =~= body.subrange(i + 2, body.len() as int));
                match field_value_exec(&v) {
                    Some((value, quoted)) => {
                        let key = copy_range(l, 0, i);
                        Some(Line::Field { key, value, quoted, comma })
                    },
                    None => None,
                }
            } else {
                None
            }
        },
    }
}

fn item_line_exec(l: &Vec<char>) -> (r: Option<Line>)
    ensures
        match r {
            Some(t) => item_line(l@) == Some(t@),
            None => item_line(l@) is None,
        },
{
    let (m, comma) = strip_comma_exec(l);
    let ghost body = l@.subrange(0, m as int);
    if run_of(l, 0, m, true) {
        return Some(Line::Item { digits: copy_range(l, 0, m), comma });
    }
    if !run_of(l, 0, m, false) {
        return None;
    }
    match find_tag(l, m) {
        None => None,
        Some(u) => {
            proof {
                let c = choose|u: int| tag_at(body, u);
                assert(c == u) by {
                    assert(tag_at(body, c));
                    if c < u {
                        assert(body.subrange(c + 1, m as int)[u - (c + 1)] == body[u as int]);
                    } else if c > u {
                        assert(body.subrange(u + 1, m as int)[c - (u + 1)] == body[c]);
                    }
                }
                assert(body.subrange(0, u as int) =~= l@.subrange(0, u as int));
            }
            if run_of(l, 0, u, true) {
                Some(Line::Item { digits: copy_range(l, 0, u), comma })
            } else {
                None
            }
        },
    }
}

/// What a trimmed line is, inside an array or not.
fn classify_exec(l: &Vec<char>, in_array: bool, alone: bool) -> (r: Option<Line>)
    ensures
        match r {
            Some(t) => classify(l@, in_array, alone) == Some(t@),
            None => classify(l@, in_array, alone) is None,
        },
{
    let n = l.len();
    if n > 0 && l[n - 1] == '[' {
        open_line_exec(l, true)
    } else if n > 0 && l[0] == ']' {
        close_line_exec(l, true)
    } else if in_array {
        item_line_exec(l)
    } else if n > 0 && l[n - 1] == '{' {
        open_line_exec(l, false)
    } else if n > 0 && l[0] == '}' {
        close_line_exec(l, false)
    } else {
        match find_char(l, ':') {
            Some(i) => {
                assert(l@.contains(':')) by {
                    assert(l@[i as int] == ':');
                }
                field_line_exec(l)
            },
            None => {
                assert(!l@.contains(':'));
                if alone && run_of(l, 0, n, false) {
                    assert(l@.subrange(0, n as int) =~= l@);
                    Some(Line::Word { text: copy_range(l, 0, n) })
                } else {
                    assert(l@.subrange(0, n as int) =~= l@);
                    None
                }
            },
        }
    }
}

// ---------------------------------------------------------------------------
// The whole document
// ---------------------------------------------------------------------------

/// Whether the lines after `t` sit inside an array.
pub open spec fn next_in_array(t: LineView, in_array: bool) -> bool {
    match t {
        LineView::Open { array, .. } => if array { true } else { in_array },
        LineView::Close { array } => if array { false } else { in_array },
        _ => in_array,
    }
}

/// The first `k` lines, each trimmed and recognised, and whether line `k`
/// starts inside an array; `None` once a line has no known shape.
pub open spec fn parse_prefix(ls: Seq<Seq<char>>, k: nat) -> Option<(Seq<LineView>, bool)>
    decreases k,
{
    if k == 0 || k > ls.len() {
        Some((seq![], false))
    } else {
        match parse_prefix(ls, (k - 1) as nat) {
            None => None,
            Some((ts, a)) => match classify(trim_both(ls[k - 1], false), a, ls.len() == 1) {
                None => None,
                Some(t) => Some((ts.push(t), next_in_array(t, a))),
            },
        }
    }
}

/// The lines of a raw ledger record: the quotes round it dropped, cut at its
/// escaped line breaks.
pub open spec fn raw_lines(raw: Seq<char>) -> Seq<Seq<char>> {
    escaped_lines(trim_both(raw, true))
}

/// The document a raw ledger record holds, or `None` if one of its lines has
/// no known shape.
pub open spec fn parse_spec(raw: Seq<char>) -> Option<Seq<LineView>> {
    let ls = raw_lines(raw);
    match parse_prefix(ls, ls.len()) {
        Some((ts, _)) => Some(ts),
        None => None,
    }
}

pub open spec fn quoted(s: Seq<char>) -> Seq<char> {
    seq!['"'] + s + seq!['"']
}

pub open spec fn comma_if(c: bool) -> Seq<char> {
    if c { seq![','] } else { seq![] }
}

/// A line as structured text: keys quoted, text values quoted, width tags
/// gone, and a comma after every closing bracket.
pub open spec fn render_line(t: LineView) -> Seq<char> {
    match t {
        LineView::Open { key: None, array } => seq![bracket(array, true)],
        LineView::Open { key: Some(k), array } => quoted(k) + seq![':', ' ', bracket(array, true)],
        LineView::Close { array } => seq![bracket(array, false), ','],
        LineView::Field { key, value, quoted: q, comma } => quoted(key) + seq![':', ' '] + (if q {
            quoted(value)
        } else {
            value
        }) + comma_if(comma),
        LineView::Item { digits, comma } => digits + comma_if(comma),
        LineView::Word { text } => text,
    }
}

/// Lines joined by line breaks.
pub open spec fn joined(ls: Seq<Seq<char>>) -> Seq<char>
    decreases ls.len(),
{
    if ls.len() == 0 {
        seq![]
    } else if ls.len() == 1 {
        ls[0]
    } else {
        joined(ls.drop_last()) + seq!['\n'] + ls.last()
    }
}

/// Whether line `i` is the last, or the next one closes a bracket: a comma
/// that ends such a line would dangle.
pub open spec fn before_close(ts: Seq<LineView>, i: int) -> bool {
    i + 1 >= ts.len() || ts[i + 1] is Close
}

/// Line `i` as it is written out: rendered, without its comma where that
/// would dangle.
pub open spec fn output_line(ts: Seq<LineView>, i: int) -> Seq<char> {
    let l = render_line(ts[i]);
    if before_close(ts, i) && l.len() > 0 && l.last() == ',' {
        l.drop_last()
    } else {
        l
    }
}

pub open spec fn lines_view(ts: Seq<Line>) -> Seq<LineView> {
    ts.map_values(|t: Line| t@)
}

/// A document as structured text.
pub open spec fn document_text(ts: Seq<LineView>) -> Seq<char> {
    joined(Seq::new(ts.len(), |i: int| output_line(ts, i)))
}

/// The structured text of a raw ledger record, or `TranscodeError`.
pub open spec fn transcode_spec(raw: Seq<char>) -> Result<Seq<char>, NameError> {
    match parse_spec(raw) {
        Some(ts) => Ok(document_text(ts)),
        None => Err(NameError::TranscodeError),
    }
}

/// Reads a raw ledger record into its lines: the surrounding quotes dropped,
/// cut at escaped line breaks, each line trimmed and recognised. Fails with
/// `TranscodeError` at the first line of no known shape.
pub fn parse_document(raw: &str) -> (r: Result<Vec<Line>, NameError>)
    ensures
        match r {
            Ok(ts) => parse_spec(raw@) == Some(lines_view(ts@)),
            Err(e) => e == NameError::TranscodeError && parse_spec(raw@) is None,
        },
{
    let chars = chars_of(raw);
    let inner = trimmed(&chars, true);
    let ls = split_escaped(&inner);
    let ghost lv = ls@.map_values(|l: Vec<char>| l@);
    assert(lv == raw_lines(raw@));
    let mut ts: Vec<Line> = Vec::new();
    let mut in_array = false;
    let mut i: usize = 0;
    while i < ls.len()
        invariant
            i <= ls@.len() == lv.len(),
            lv == ls@.map_values(|l: Vec<char>| l@),
            lv == raw_lines(raw@),
            parse_prefix(lv, i as nat) == Some((lines_view(ts@), in_array)),
        decreases ls@.len() - i,
    {
        let l = trimmed(&ls[i], false);
        assert(ls@[i as int]@ == lv[i as int]);
        match classify_exec(&l, in_array, ls.len() == 1) {
            None => {
                proof {
                    assert(l@ == trim_both(lv[i as int], false));
                    assert(parse_prefix(lv, (i + 1) as nat) is None);
                    lemma_parse_prefix_stuck(lv, (i + 1) as nat, lv.len());
                    assert(parse_prefix(lv, lv.len()) is None);
                    assert(parse_spec(raw@) is None);
                }
                return Err(NameError::TranscodeError);
            },
            Some(t) => {
                in_array = match &t {
                    Line::Open { array, .. } => if *array { true } else { in_array },
                    Line::Close { array } => if *array { false } else { in_array },
                    _ => in_array,
                };
                ts.push(t);
                assert(lines_view(ts@) =~= parse_prefix(lv, (i + 1) as nat)->Some_0.0);
            },
        }
        i = i + 1;
    }
    Ok(ts)
}

fn push_quoted(out: &mut Vec<char>, s: &Vec<char>)
    ensures
        final(out)@ == old(out)@ + quoted(s@),
{
    let ghost start = out@;
    out.push('"');
    push_all(out, s);
    out.push('"');
    assert(out@ =~= start + quoted(s@));
}

/// A line as structured text.
fn render_exec(t: &Line) -> (r: Vec<char>)
    ensures
        r@ == render_line(t@),
{
    let mut out: Vec<char> = Vec::new();
    match t {
        Line::Open { key, array } => {
            let b = if *array { '[' } else { '{' };
            match key {
                None => {
                    out.push(b);
                },
                Some(k) => {
                    push_quoted(&mut out, k);
                    out.push(':');
                    out.push(' ');
                    out.push(b);
                },
            }
        },
        Line::Close { array } => {
            out.push(if *array { ']' } else { '}' });
            out.push(',');
        },
        Line::Field { key, value, quoted: q, comma } => {
            push_quoted(&mut out, key);
            out.push(':');
            out.push(' ');
            if *q {
                push_quoted(&mut out, value);
            } else {
                push_all(&mut out, value);
            }
            if *comma {
                out.push(',');
            }
        },
        Line::Item { digits, comma } => {
            push_all(&mut out, digits);
            if *comma {
                out.push(',');
            }
        },
        Line::Word { text } => {
            push_all(&mut out, text);
        },
    }
    assert(out@ =~= render_line(t@));
    out
}

/// Writes a document as structured text: one line per line, keys and text
/// values quoted, width tags gone, a comma after each closing bracket, and no
/// comma at the end of the last line or of a line before a closing bracket.
pub fn render_document(ts: &Vec<Line>) -> (r: String)
    ensures
        r@ == document_text(lines_view(ts@)),
{
    let ghost tv = lines_view(ts@);
    let ghost ov = Seq::new(tv.len(), |i: int| output_line(tv, i));
    let n = ts.len();
    let mut out: Vec<char> = Vec::new();
    let mut j: usize = 0;
    while j < n
        invariant
            j <= n == ts@.len() == tv.len() == ov.len(),
            tv == lines_view(ts@),
            ov == Seq::new(tv.len(), |i: int| output_line(tv, i)),
            out@ == joined(ov.subrange(0, j as int)),
        decreases n - j,
    {
        let mut l = render_exec(&ts[j]);
        assert(tv[j as int] == ts@[j as int]@);
        let closes_next = j + 1 >= n || match &ts[j + 1] {
            Line::Close { .. } => true,
            _ => false,
        };
        proof {
            if j + 1 < n {
                assert(tv[j + 1] == ts@[j + 1]@);
            }
        }
        if closes_next && l.len() > 0 && l[l.len() - 1] == ',' {
            l.pop();
        }
        assert(l@ =~= ov[j as int]);
        if j > 0 {
            out.push('\n');
        }
        push_all(&mut out, &l);
        proof {
            assert(ov.subrange(0, j + 1).drop_last() =~= ov.subrange(0, j as int));
            if j == 0 {
                assert(out@ =~= joined(ov.subrange(0, 1)));
            } else {
                assert(out@ =~= joined(ov.subrange(0, j + 1)));
            }
        }
        j = j + 1;
    }
    assert(ov.subrange(0, j as int) =~= ov);
    string_from_chars(&out)
}

/// Turns a raw ledger record into structured text that a generic parser can
/// read: `parse_document`, then `render_document`. Text that holds a bracket
/// inside a value cannot be told from structure and fails, or is misread.
pub fn transcode(raw: &str) -> (r: Result<String, NameError>)
    ensures
        match r {
            Ok(t) => transcode_spec(raw@) == Ok::<Seq<char>, NameError>(t@),
            Err(e) => transcode_spec(raw@) == Err::<Seq<char>, NameError>(e),
        },
{
    let ts = parse_document(raw)?;
    Ok(render_document(&ts))
}

proof fn lemma_parse_prefix_stuck(ls: Seq<Seq<char>>, k: nat, m: nat)
    requires
        parse_prefix(ls, k) is None,
        k <= m <= ls.len(),
    ensures
        parse_prefix(ls, m) is None,
    decreases m - k,
{
    if k < m {
        lemma_parse_prefix_stuck(ls, (k + 1) as nat, m);
    }
}

} // verus!
