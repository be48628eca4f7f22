//! List markers: bullets and ordinals at the start of a line.
use super::model::ListMarker;
use super::numerals::{
    all_roman, law_numeral_reads_back, numeral, numeral_value, read_numeral, roman_digit,
    roman_digit_value,
};
use super::text::{
    chars_of, is_digit, is_lower, is_space, is_upper, is_whitespace, slice_chars, small, start_of,
    string_of, to_small, trim_start,
};
use super::text::{decimal, decimal_value, law_decimal_value};
use vstd::prelude::*;

verus! {

/// How a line is marked.
#[derive(Clone, Copy, Debug, PartialEq, Eq, Structural)]
pub enum Marker {
    Bullet(char),
    Decimal,
    LowerAlpha,
    UpperAlpha,
    LowerRoman,
    UpperRoman,
}

/// What closes an ordinal.
#[derive(Clone, Copy, Debug, PartialEq, Eq, Structural)]
pub enum Delim {
    Dot,
    Paren,
}

/// A marker with its delimiter and its value; bullets have neither.
#[derive(Clone, Copy, Debug, PartialEq, Eq, Structural)]
pub struct MarkerInfo {
    pub marker: Marker,
    pub delim: Option<Delim>,
    pub ordinal: Option<u32>,
}

/// The marker of a list whose first item is marked so.
pub open spec fn list_marker_of(m: Marker) -> ListMarker {
    match m {
        Marker::Bullet(c) => ListMarker::Bullet(c),
        Marker::Decimal => ListMarker::Decimal,
        Marker::LowerAlpha => ListMarker::LowerAlpha,
        Marker::UpperAlpha => ListMarker::UpperAlpha,
        Marker::LowerRoman => ListMarker::LowerRoman,
        Marker::UpperRoman => ListMarker::UpperRoman,
    }
}

/// The numbering scheme; all bullets share one.
pub open spec fn scheme(m: Marker) -> u8 {
    match m {
        Marker::Bullet(_) => 0,
        Marker::Decimal => 1,
        Marker::LowerAlpha => 2,
        Marker::UpperAlpha => 3,
        Marker::LowerRoman => 4,
        Marker::UpperRoman => 5,
    }
}

impl Marker {
    pub fn to_list_marker(&self) -> (r: ListMarker)
        ensures
            r == list_marker_of(*self),
    {
        match self {
            Marker::Bullet(c) => ListMarker::Bullet(*c),
            Marker::Decimal => ListMarker::Decimal,
            Marker::LowerAlpha => ListMarker::LowerAlpha,
            Marker::UpperAlpha => ListMarker::UpperAlpha,
            Marker::LowerRoman => ListMarker::LowerRoman,
            Marker::UpperRoman => ListMarker::UpperRoman,
        }
    }

    pub fn ordered(&self) -> (r: bool)
        ensures
            r == !(*self is Bullet),
    {
        match self {
            Marker::Bullet(_) => false,
            _ => true,
        }
    }

    pub fn style_key(&self) -> (r: u8)
        ensures
            r == scheme(*self),
    {
        match self {
            Marker::Bullet(_) => 0,
            Marker::Decimal => 1,
            Marker::LowerAlpha => 2,
            Marker::UpperAlpha => 3,
            Marker::LowerRoman => 4,
            Marker::UpperRoman => 5,
        }
    }
}

/// Two markers have the same scheme and delimiter.
pub open spec fn same_list(a: MarkerInfo, b: MarkerInfo) -> bool {
    scheme(a.marker) == scheme(b.marker) && a.delim == b.delim
}

impl MarkerInfo {
    /// Whether two markers can belong to one list: same scheme, same
    /// delimiter. Bullets match whatever their glyph.
    pub fn same_format(&self, other: &MarkerInfo) -> (r: bool)
        ensures
            r == same_list(*self, *other),
    {
        let same_delim: bool = match (self.delim, other.delim) {
            (None, None) => true,
            (Some(a), Some(b)) => a == b,
            _ => false,
        };
        self.marker.style_key() == other.marker.style_key() && same_delim
    }
}

// ── tokens ──────────────────────────────────────────────────────────────────

/// How many characters stand before the first white space.
pub open spec fn token_len(s: Seq<char>) -> nat
    decreases s.len(),
{
    if s.len() == 0 || is_space(s[0]) {
        0
    } else {
        1 + token_len(s.skip(1))
    }
}

/// The characters before the first white space.
pub open spec fn token(s: Seq<char>) -> Seq<char> {
    s.take(token_len(s) as int)
}

pub proof fn lemma_token(s: Seq<char>)
    ensures
        token_len(s) <= s.len(),
        forall|i: int| 0 <= i < token_len(s) ==> !is_space(#[trigger] s[i]),
        token_len(s) < s.len() ==> is_space(s[token_len(s) as int]),
    decreases s.len(),
{
    if s.len() > 0 && !is_space(s[0]) {
        let t = s.skip(1);
        lemma_token(t);
        assert forall|i: int| 0 <= i < token_len(s) implies !is_space(#[trigger] s[i]) by {
            if i > 0 {
                assert(s[i] == t[i - 1]);
            }
        }
    }
}

/// Where the token that starts at `from` ends.
fn token_end(v: &Vec<char>, from: usize) -> (to: usize)
    requires
        from <= v@.len(),
    ensures
        from <= to <= v@.len(),
        to - from == token_len(v@.skip(from as int)),
{
    let mut to: usize = from;
    let ghost s = v@.skip(from as int);
    assert(s.skip(0) =~= s);
    while to < v.len() && !is_whitespace(v[to])
        invariant
            from <= to <= v@.len(),
            s == v@.skip(from as int),
            token_len(s) == (to - from) + token_len(s.skip(to - from)),
        decreases v.len() - to,
    {
        assert(s.skip(to - from)[0] == v@[to as int]);
        assert(s.skip(to - from).skip(1) =~= s.skip(to - from + 1));
        to = to + 1;
    }
    proof {
        let r = s.skip(to - from);
        if to < v@.len() {
            assert(r[0] == v@[to as int]);
        }
    }
    to
}

// ── detection ───────────────────────────────────────────────────────────────

/// A glyph that is a bullet whatever follows it.
pub open spec fn is_solid_bullet(c: char) -> bool {
    c == '\u{2022}' || c == '\u{2023}' || c == '\u{25E6}' || c == '\u{25AA}' || c == '\u{B7}'
}

/// A glyph that is a bullet where white space follows it.
pub open spec fn is_dash_bullet(c: char) -> bool {
    c == '*' || c == '-' || c == '\u{2013}' || c == '\u{2014}'
}

pub open spec fn all_digits(s: Seq<char>) -> bool {
    forall|i: int| 0 <= i < s.len() ==> is_digit(#[trigger] s[i])
}

/// Every character is a capital roman digit.
pub open spec fn all_roman_capitals(s: Seq<char>) -> bool {
    forall|i: int|
        0 <= i < s.len() ==> is_upper(#[trigger] s[i]) && roman_digit(to_small(s[i])) is Some
}

/// The scheme of the label of an ordinal.
pub open spec fn label_scheme(label: Seq<char>) -> Option<Marker> {
    if label.len() == 0 {
        None
    } else if all_digits(label) {
        Some(Marker::Decimal)
    } else if label.len() == 1 && is_lower(label[0]) {
        Some(Marker::LowerAlpha)
    } else if label.len() == 1 && is_upper(label[0]) {
        Some(Marker::UpperAlpha)
    } else if label.len() >= 2 && all_roman(label) {
        Some(Marker::LowerRoman)
    } else if label.len() >= 2 && all_roman_capitals(label) {
        Some(Marker::UpperRoman)
    } else {
        None
    }
}

/// The marker of a token: a label closed by a dot or a parenthesis.
pub open spec fn ordinal_of(tok: Seq<char>) -> Option<Marker> {
    if tok.len() > 0 && (tok.last() == '.' || tok.last() == ')') {
        label_scheme(tok.drop_last())
    } else {
        None
    }
}

/// The text opens with a bullet.
pub open spec fn opens_with_bullet(t: Seq<char>) -> bool {
    t.len() > 0 && (is_solid_bullet(t[0]) || (is_dash_bullet(t[0]) && t.len() > 1 && is_space(
        t[1],
    )))
}

/// The marker at the start of a text, white space in front aside.
pub open spec fn marker_of(s: Seq<char>) -> Option<Marker> {
    let t = trim_start(s);
    if t.len() == 0 {
        None
    } else if opens_with_bullet(t) {
        Some(Marker::Bullet(t[0]))
    } else {
        ordinal_of(token(t))
    }
}

fn solid_bullet(c: char) -> (r: bool)
    ensures
        r == is_solid_bullet(c),
{
    c == '\u{2022}' || c == '\u{2023}' || c == '\u{25E6}' || c == '\u{25AA}' || c == '\u{B7}'
}

fn dash_bullet(c: char) -> (r: bool)
    ensures
        r == is_dash_bullet(c),
{
    c == '*' || c == '-' || c == '\u{2013}' || c == '\u{2014}'
}

fn digits_only(v: &Vec<char>) -> (r: bool)
    ensures
        r == all_digits(v@),
{
    let mut i: usize = 0;
    while i < v.len()
        invariant
            i <= v@.len(),
            forall|k: int| 0 <= k < i ==> is_digit(#[trigger] v@[k]),
        decreases v.len() - i,
    {
        if !('0' <= v[i] && v[i] <= '9') {
            assert(!is_digit(v@[i as int]));
            return false;
        }
        i = i + 1;
    }
    true
}

/// Whether a label is a roman numeral of two or more digits in the given case.
pub fn is_roman(label: &Vec<char>, lower: bool) -> (r: bool)
    ensures
        r == (label@.len() >= 2 && (if lower {
            all_roman(label@)
        } else {
            all_roman_capitals(label@)
        })),
{
    if label.len() < 2 {
        return false;
    }
    let mut i: usize = 0;
    while i < label.len()
        invariant
            i <= label@.len(),
            lower ==> forall|k: int| 0 <= k < i ==> roman_digit(#[trigger] label@[k]) is Some,
            !lower ==> forall|k: int|
                0 <= k < i ==> is_upper(#[trigger] label@[k]) && roman_digit(to_small(label@[k]))
                    is Some,
        decreases label.len() - i,
    {
        let c: char = label[i];
        let ghost k = i as int;
        if lower {
            if roman_digit_value(c).is_none() {
                assert(roman_digit(label@[k]) is None);
                return false;
            }
        } else {
            let capital: bool = 'A' <= c && c <= 'Z';
            if !capital || roman_digit_value(small(c)).is_none() {
                assert(!(is_upper(label@[k]) && roman_digit(to_small(label@[k])) is Some));
                return false;
            }
        }
        i = i + 1;
    }
    true
}

fn scheme_of_label(label: &Vec<char>) -> (r: Option<Marker>)
    ensures
        r == label_scheme(label@),
{
    if label.len() == 0 {
        return None;
    }
    if digits_only(label) {
        return Some(Marker::Decimal);
    }
    if label.len() == 1 {
        let c: char = label[0];
        if 'a' <= c && c <= 'z' {
            return Some(Marker::LowerAlpha);
        }
        if 'A' <= c && c <= 'Z' {
            return Some(Marker::UpperAlpha);
        }
    }
    if is_roman(label, true) {
        return Some(Marker::LowerRoman);
    }
    if is_roman(label, false) {
        return Some(Marker::UpperRoman);
    }
    None
}

/// The label of a text's first token, which ends in a dot or a parenthesis.
fn label_at(v: &Vec<char>, from: usize, to: usize) -> (r: Vec<char>)
    requires
        from < to <= v@.len(),
        to - from == token_len(v@.skip(from as int)),
    ensures
        r@ == token(v@.skip(from as int)).drop_last(),
{
    let r: Vec<char> = slice_chars(v, from, to - 1);
    assert(r@ =~= token(v@.skip(from as int)).drop_last());
    r
}

/// The marker at the start of some characters.
pub fn marker_in(v: &Vec<char>) -> (r: Option<Marker>)
    ensures
        r == marker_of(v@),
{
    let from: usize = start_of(v);
    let len: usize = v.len();
    let ghost t = v@.skip(from as int);
    if from >= len {
        return None;
    }
    let first: char = v[from];
    assert(t[0] == first);
    if solid_bullet(first) {
        return Some(Marker::Bullet(first));
    }
    if dash_bullet(first) && from + 1 < len && is_whitespace(v[from + 1]) {
        assert(t[1] == v@[from + 1]);
        return Some(Marker::Bullet(first));
    }
    proof {
        if from + 1 < len {
            assert(t[1] == v@[from + 1]);
        }
        assert(!opens_with_bullet(t));
    }
    let to: usize = token_end(v, from);
    let ghost tok = token(t);
    if to == from {
        assert(tok.len() == 0);
        return None;
    }
    let last: char = v[to - 1];
    proof {
        lemma_token(t);
        assert(tok.len() == to - from);
        assert(tok.last() == last);
    }
    if last == '.' || last == ')' {
        let label: Vec<char> = label_at(v, from, to);
        scheme_of_label(&label)
    } else {
        None
    }
}

/// The marker at the start of a text.
pub fn detect_marker(text: &str) -> (r: Option<Marker>)
    ensures
        r == marker_of(text@),
{
    let v: Vec<char> = chars_of(text);
    marker_in(&v)
}

// ── values ──────────────────────────────────────────────────────────────────

/// Every letter made small.
pub open spec fn lowered(s: Seq<char>) -> Seq<char> {
    Seq::new(s.len(), |i: int| to_small(s[i]))
}

/// A number without the plus sign that it may start with.
pub open spec fn unsigned(label: Seq<char>) -> Seq<char> {
    if label.len() > 0 && label[0] == '+' {
        label.skip(1)
    } else {
        label
    }
}

/// The value of a label: the number its digits write, the place of its letter
/// in the alphabet, the value of its numeral. A label that is none of these has
/// no value.
pub open spec fn label_value(marker: Marker, label: Seq<char>) -> Option<u32> {
    match marker {
        Marker::Decimal => {
            let d = unsigned(label);
            let n = decimal_value(d);
            if d.len() > 0 && all_digits(d) && n <= u32::MAX {
                Some(n as u32)
            } else {
                None
            }
        },
        Marker::LowerAlpha | Marker::UpperAlpha => if label.len() > 0 && is_lower(
            to_small(label[0]),
        ) {
            Some((to_small(label[0]) as u32 - 'a' as u32 + 1) as u32)
        } else {
            None
        },
        Marker::LowerRoman | Marker::UpperRoman => numeral_value(lowered(label)),
        Marker::Bullet(_) => None,
    }
}

/// The marker of a text with its delimiter and value.
pub open spec fn info_of(s: Seq<char>) -> Option<MarkerInfo> {
    match marker_of(s) {
        None => None,
        Some(Marker::Bullet(c)) => Some(
            MarkerInfo { marker: Marker::Bullet(c), delim: None, ordinal: None },
        ),
        Some(m) => {
            let tok = token(trim_start(s));
            Some(
                MarkerInfo {
                    marker: m,
                    delim: Some(
                        if tok.last() == '.' {
                            Delim::Dot
                        } else {
                            Delim::Paren
                        },
                    ),
                    ordinal: label_value(m, tok.drop_last()),
                },
            )
        },
    }
}

proof fn lemma_decimal_value_grows(s: Seq<char>, n: int)
    requires
        0 <= n <= s.len(),
        all_digits(s),
    ensures
        decimal_value(s.take(n)) <= decimal_value(s),
    decreases s.len(),
{
    if n == s.len() {
        assert(s.take(n) =~= s);
    } else {
        let t = s.drop_last();
        assert forall|i: int| 0 <= i < t.len() implies is_digit(#[trigger] t[i]) by {
            assert(t[i] == s[i]);
        }
        lemma_decimal_value_grows(t, n);
        assert(t.take(n) =~= s.take(n));
        assert(is_digit(s[s.len() - 1]));
    }
}

fn decimal_of(v: &Vec<char>) -> (r: Option<u32>)
    ensures
        r == label_value(Marker::Decimal, v@),
{
    let from: usize = if v.len() > 0 && v[0] == '+' {
        1
    } else {
        0
    };
    let ghost d = unsigned(v@);
    assert(d.len() == v@.len() - from);
    if from == v.len() {
        return None;
    }
    let mut n: u64 = 0;
    let mut i: usize = from;
    assert(d.take(0) =~= Seq::empty());
    while i < v.len()
        invariant
            from <= i <= v@.len(),
            d == unsigned(v@),
            d.len() == v@.len() - from > 0,
            forall|k: int| 0 <= k < d.len() ==> #[trigger] d[k] == v@[k + from],
            forall|k: int| 0 <= k < i - from ==> is_digit(#[trigger] d[k]),
            n == decimal_value(d.take(i - from)),
            n <= u32::MAX,
        decreases v.len() - i,
    {
        let c: char = v[i];
        let ghost k = i - from;
        assert(d[k] == c);
        if !('0' <= c && c <= '9') {
            assert(!is_digit(d[k]));
            return None;
        }
        assert(d.take(k + 1).drop_last() =~= d.take(k));
        n = 10 * n + (c as u32 - '0' as u32) as u64;
        i = i + 1;
        if n > 0xffff_ffff {
            proof {
                if all_digits(d) {
                    lemma_decimal_value_grows(d, i - from);
                }
            }
            return None;
        }
    }
    assert(d.take(d.len() as int) =~= d);
    Some(n as u32)
}

fn lower_all(v: &Vec<char>) -> (r: Vec<char>)
    ensures
        r@ == lowered(v@),
{
    let mut r: Vec<char> = Vec::new();
    let mut i: usize = 0;
    while i < v.len()
        invariant
            i <= v@.len(),
            r@.len() == i,
            forall|k: int| 0 <= k < i ==> r@[k] == to_small(#[trigger] v@[k]),
        decreases v.len() - i,
    {
        r.push(small(v[i]));
        i = i + 1;
    }
    assert(r@ =~= lowered(v@));
    r
}

/// The value of the label of an ordinal, counted from one; none where it cannot
/// be valued.
pub fn marker_ordinal(marker: &Marker, label: &Vec<char>) -> (r: Option<u32>)
    ensures
        r == label_value(*marker, label@),
{
    match marker {
        Marker::Decimal => decimal_of(label),
        Marker::LowerAlpha | Marker::UpperAlpha => {
            if label.len() == 0 {
                return None;
            }
            let c: char = small(label[0]);
            if 'a' <= c && c <= 'z' {
                Some(c as u32 - 'a' as u32 + 1)
            } else {
                None
            }
        },
        Marker::LowerRoman | Marker::UpperRoman => {
            let low: Vec<char> = lower_all(label);
            read_numeral(&low)
        },
        Marker::Bullet(_) => None,
    }
}

/// The marker of some characters with its delimiter and value.
pub fn info_in(v: &Vec<char>) -> (r: Option<MarkerInfo>)
    ensures
        r == info_of(v@),
{
    let marker: Marker = match marker_in(v) {
        None => {
            return None;
        },
        Some(m) => m,
    };
    if let Marker::Bullet(_) = marker {
        return Some(MarkerInfo { marker, delim: None, ordinal: None });
    }
    let from: usize = start_of(v);
    let to: usize = token_end(v, from);
    let ghost t = v@.skip(from as int);
    proof {
        lemma_token(t);
        assert(token(t).len() == to - from);
    }
    let last: char = v[to - 1];
    assert(token(t).last() == last);
    let delim: Delim = if last == '.' {
        Delim::Dot
    } else {
        Delim::Paren
    };
    let label: Vec<char> = label_at(v, from, to);
    let ordinal: Option<u32> = marker_ordinal(&marker, &label);
    Some(MarkerInfo { marker, delim: Some(delim), ordinal })
}

/// The marker of a text with its delimiter and value.
pub fn classify_marker(text: &str) -> (r: Option<MarkerInfo>)
    ensures
        r == info_of(text@),
{
    let v: Vec<char> = chars_of(text);
    info_in(&v)
}

// ── stripping ───────────────────────────────────────────────────────────────

/// How many characters the marker of a text without white space in front has.
pub open spec fn marker_len(t: Seq<char>) -> nat {
    match marker_of(t) {
        None => 0,
        Some(Marker::Bullet(_)) => 1,
        Some(_) => token_len(t),
    }
}

/// The text after its marker and the white space around it.
pub open spec fn stripped(s: Seq<char>) -> Seq<char> {
    let t = trim_start(s);
    if marker_of(s) is None {
        t
    } else {
        trim_start(t.skip(marker_len(t) as int))
    }
}

proof fn lemma_trim_start_again(s: Seq<char>)
    ensures
        trim_start(trim_start(s)) == trim_start(s),
        marker_of(trim_start(s)) == marker_of(s),
{
    super::text::lemma_trim_start(s);
    assert(trim_start(trim_start(s)) == trim_start(s));
}

/// The number of characters of the marker of a text; zero without one. The
/// text has no white space in front.
pub fn marker_token_len_chars(trimmed: &str) -> (n: usize)
    requires
        trimmed@.len() > 0 ==> !is_space(trimmed@[0]),
    ensures
        n == marker_len(trimmed@),
{
    let v: Vec<char> = chars_of(trimmed);
    match marker_in(&v) {
        None => 0,
        Some(Marker::Bullet(_)) => 1,
        Some(_) => {
            assert(v@.skip(0) =~= v@);
            token_end(&v, 0)
        },
    }
}

/// The characters after their marker.
pub fn strip_chars(v: &Vec<char>) -> (r: Vec<char>)
    ensures
        r@ == stripped(v@),
{
    let from: usize = start_of(v);
    let len: usize = v.len();
    let ghost t = v@.skip(from as int);
    proof {
        lemma_trim_start_again(v@);
    }
    match marker_in(v) {
        None => {
            let r: Vec<char> = slice_chars(v, from, len);
            assert(r@ =~= t);
            r
        },
        Some(m) => {
            let end: usize = match m {
                Marker::Bullet(_) => from + 1,
                _ => token_end(v, from),
            };
            proof {
                lemma_token(t);
            }
            let rest: Vec<char> = slice_chars(v, end, len);
            assert(rest@ =~= t.skip(marker_len(t) as int));
            let skip: usize = start_of(&rest);
            let n: usize = rest.len();
            let r: Vec<char> = slice_chars(&rest, skip, n);
            assert(r@ =~= rest@.skip(skip as int));
            r
        },
    }
}

/// The text after its marker and the white space around it.
pub fn strip_marker(text: &str) -> (r: String)
    ensures
        r@ == stripped(text@),
{
    let v: Vec<char> = chars_of(text);
    let r: Vec<char> = strip_chars(&v);
    string_of(&r)
}

/// Nothing but white space.
pub open spec fn all_blank(s: Seq<char>) -> bool {
    forall|i: int| 0 <= i < s.len() ==> is_space(#[trigger] s[i])
}

/// The text is a marker and nothing else.
pub open spec fn only_marker(s: Seq<char>) -> bool {
    marker_of(s) is Some && all_blank(s.skip(token_len(s) as int))
}

/// Whether a text without white space in front is a marker and nothing else.
pub fn is_marker_only_run(trimmed: &str) -> (r: bool)
    ensures
        r == only_marker(trimmed@),
{
    let v: Vec<char> = chars_of(trimmed);
    if marker_in(&v).is_none() {
        return false;
    }
    let len: usize = v.len();
    assert(v@.skip(0) =~= v@);
    let from: usize = token_end(&v, 0);
    let ghost rest = v@.skip(from as int);
    let mut i: usize = from;
    while i < len
        invariant
            from <= i <= len,
            len == v@.len(),
            v@ == trimmed@,
            from == token_len(trimmed@),
            rest == v@.skip(from as int),
            forall|k: int| 0 <= k < i - from ==> is_space(#[trigger] rest[k]),
        decreases len - i,
    {
        assert(rest[i - from] == v@[i as int]);
        if !is_whitespace(v[i]) {
            assert(!is_space(rest[i - from]));
            return false;
        }
        i = i + 1;
    }
    true
}

/// Stripping takes the marker off and nothing else: what stays is the end of
/// the text, with no white space in front.
pub proof fn law_strip_keeps_the_rest(s: Seq<char>)
    ensures
        stripped(s).len() <= s.len(),
        stripped(s) == s.skip(s.len() - stripped(s).len()),
        stripped(s).len() > 0 ==> !is_space(stripped(s)[0]),
{
    super::text::lemma_trim_start(s);
    let t = trim_start(s);
    lemma_trim_start_again(s);
    if marker_of(s) is Some {
        lemma_token(t);
        let u = t.skip(marker_len(t) as int);
        super::text::lemma_trim_start(u);
    }
    assert(stripped(s) =~= s.skip(s.len() - stripped(s).len()));
}

// ── letters that are numerals ───────────────────────────────────────────────

/// The numeral that the letter at a place of the alphabet is too.
pub open spec fn letter_numeral(place: u32) -> Option<int> {
    if 1 <= place <= 26 {
        roman_digit((place + 96) as char)
    } else {
        None
    }
}

/// The marker with its letter read as a numeral.
pub open spec fn as_roman(info: MarkerInfo) -> Option<MarkerInfo> {
    let marker = match info.marker {
        Marker::LowerAlpha => Some(Marker::LowerRoman),
        Marker::UpperAlpha => Some(Marker::UpperRoman),
        _ => None,
    };
    match (marker, info.ordinal) {
        (Some(m), Some(place)) => match letter_numeral(place) {
            Some(n) => Some(MarkerInfo { marker: m, delim: info.delim, ordinal: Some(n as u32) }),
            None => None,
        },
        _ => None,
    }
}

pub open spec fn is_roman_marker(m: Marker) -> bool {
    m is LowerRoman || m is UpperRoman
}

/// The first marker from `k` on, before `b`, nested no deeper than `level`.
pub open spec fn next_beside(
    infos: Seq<Option<MarkerInfo>>,
    levels: Seq<u8>,
    level: u8,
    k: int,
    b: int,
) -> Option<MarkerInfo>
    decreases b - k,
{
    if k >= b {
        None
    } else if infos[k] is Some && levels[k] <= level {
        infos[k]
    } else {
        next_beside(infos, levels, level, k + 1, b)
    }
}

/// The last marker from `a` on, before `k`, nested no deeper than `level`.
pub open spec fn last_beside(
    infos: Seq<Option<MarkerInfo>>,
    levels: Seq<u8>,
    level: u8,
    a: int,
    k: int,
) -> Option<MarkerInfo>
    decreases k - a,
{
    if k <= a {
        None
    } else if infos[k - 1] is Some && levels[k - 1] <= level {
        infos[k - 1]
    } else {
        last_beside(infos, levels, level, a, k - 1)
    }
}

/// One marker is the next after another of the same list.
pub open spec fn goes_on(a: MarkerInfo, b: MarkerInfo) -> bool {
    same_list(a, b) && a.ordinal is Some && b.ordinal is Some && b.ordinal->0 == a.ordinal->0 + 1
}

/// Markers ask for a letter that stands between them to be read as the numeral
/// `own`: the last is the numeral before it; or the next is the numeral after
/// it, and the letter does not go on from a letter.
pub open spec fn asks_for_numeral(
    last: Option<MarkerInfo>,
    letter: MarkerInfo,
    own: MarkerInfo,
    next: Option<MarkerInfo>,
) -> bool {
    ||| last is Some && goes_on(last->0, own)
    ||| next is Some && goes_on(own, next->0) && !(last is Some && goes_on(last->0, letter))
}

/// Marker `k` of the run from `a` up to `b`, as it is read there: a lone letter
/// is a letter; among numerals it is a numeral.
pub open spec fn read_at(
    infos: Seq<Option<MarkerInfo>>,
    levels: Seq<u8>,
    a: int,
    b: int,
    k: int,
) -> Option<MarkerInfo> {
    match infos[k] {
        None => None,
        Some(info) => match as_roman(info) {
            Some(own) => if asks_for_numeral(
                last_beside(infos, levels, levels[k], a, k),
                info,
                own,
                next_beside(infos, levels, levels[k], k + 1, b),
            ) {
                Some(own)
            } else {
                Some(info)
            },
            None => Some(info),
        },
    }
}

/// The markers, those of the run from `a` up to `b` as they are read there.
pub open spec fn read_run(
    infos: Seq<Option<MarkerInfo>>,
    levels: Seq<u8>,
    a: int,
    b: int,
) -> Seq<Option<MarkerInfo>> {
    Seq::new(
        infos.len(),
        |k: int|
            if a <= k < b {
                read_at(infos, levels, a, b, k)
            } else {
                infos[k]
            },
    )
}

fn numeral_of_letter(place: u32) -> (r: Option<u32>)
    ensures
        match r {
            Some(n) => letter_numeral(place) == Some(n as int) && n <= 1000,
            None => letter_numeral(place) is None,
        },
{
    if place == 9 {
        Some(1)
    } else if place == 22 {
        Some(5)
    } else if place == 24 {
        Some(10)
    } else if place == 12 {
        Some(50)
    } else if place == 3 {
        Some(100)
    } else if place == 4 {
        Some(500)
    } else if place == 13 {
        Some(1000)
    } else {
        None
    }
}

fn roman_reading(info: &MarkerInfo) -> (r: Option<MarkerInfo>)
    ensures
        r == as_roman(*info),
{
    let marker: Marker = match info.marker {
        Marker::LowerAlpha => Marker::LowerRoman,
        Marker::UpperAlpha => Marker::UpperRoman,
        _ => {
            return None;
        },
    };
    match info.ordinal {
        None => None,
        Some(place) => match numeral_of_letter(place) {
            None => None,
            Some(n) => Some(MarkerInfo { marker, delim: info.delim, ordinal: Some(n) }),
        },
    }
}

fn find_next(
    infos: &[Option<MarkerInfo>],
    levels: &[u8],
    level: u8,
    from: usize,
    b: usize,
) -> (r: Option<MarkerInfo>)
    requires
        from <= b <= infos@.len(),
        levels@.len() == infos@.len(),
    ensures
        r == next_beside(infos@, levels@, level, from as int, b as int),
{
    let mut k: usize = from;
    while k < b
        invariant
            from <= k <= b <= infos@.len(),
            levels@.len() == infos@.len(),
            next_beside(infos@, levels@, level, from as int, b as int) == next_beside(
                infos@,
                levels@,
                level,
                k as int,
                b as int,
            ),
        decreases b - k,
    {
        if infos[k].is_some() && levels[k] <= level {
            return infos[k];
        }
        k = k + 1;
    }
    None
}

fn find_last(
    infos: &[Option<MarkerInfo>],
    levels: &[u8],
    level: u8,
    a: usize,
    to: usize,
) -> (r: Option<MarkerInfo>)
    requires
        a <= to <= infos@.len(),
        levels@.len() == infos@.len(),
    ensures
        r == last_beside(infos@, levels@, level, a as int, to as int),
{
    let mut k: usize = to;
    while k > a
        invariant
            a <= k <= to <= infos@.len(),
            levels@.len() == infos@.len(),
            last_beside(infos@, levels@, level, a as int, to as int) == last_beside(
                infos@,
                levels@,
                level,
                a as int,
                k as int,
            ),
        decreases k - a,
    {
        if infos[k - 1].is_some() && levels[k - 1] <= level {
            return infos[k - 1];
        }
        k = k - 1;
    }
    None
}

/// Whether one marker is the next after another of the same list.
fn follows(a: &MarkerInfo, b: &MarkerInfo) -> (r: bool)
    ensures
        r == goes_on(*a, *b),
{
    match (a.ordinal, b.ordinal) {
        (Some(v), Some(w)) => a.same_format(b) && v < w && w - v == 1,
        _ => false,
    }
}

/// Marker `k` of the run from `a` up to `b`, as it is read there: a letter among
/// roman numerals is a numeral.
pub fn read_marker(
    infos: &[Option<MarkerInfo>],
    levels: &[u8],
    a: usize,
    b: usize,
    k: usize,
) -> (r: Option<MarkerInfo>)
    requires
        a <= k < b <= infos@.len(),
        levels@.len() == infos@.len(),
    ensures
        r == read_at(infos@, levels@, a as int, b as int, k as int),
{
    let info: MarkerInfo = match infos[k] {
        None => {
            return None;
        },
        Some(info) => info,
    };
    let own: MarkerInfo = match roman_reading(&info) {
        None => {
            return Some(info);
        },
        Some(own) => own,
    };
    if let Some(p) = find_last(infos, levels, levels[k], a, k) {
        if follows(&p, &own) {
            return Some(own);
        }
        if follows(&p, &info) {
            return Some(info);
        }
    }
    match find_next(infos, levels, levels[k], k + 1, b) {
        Some(n) if follows(&own, &n) => Some(own),
        _ => Some(info),
    }
}

/// The markers, those of the run from `a` up to `b` as they are read there.
pub fn read_markers(
    infos: &[Option<MarkerInfo>],
    levels: &[u8],
    a: usize,
    b: usize,
) -> (r: Vec<Option<MarkerInfo>>)
    requires
        a <= b <= infos@.len(),
        levels@.len() == infos@.len(),
    ensures
        r@ == read_run(infos@, levels@, a as int, b as int),
{
    let len: usize = infos.len();
    let mut r: Vec<Option<MarkerInfo>> = Vec::new();
    let mut k: usize = 0;
    while k < len
        invariant
            k <= len,
            len == infos@.len(),
            levels@.len() == infos@.len(),
            a <= b <= len,
            r@ =~= read_run(infos@, levels@, a as int, b as int).take(k as int),
        decreases len - k,
    {
        if a <= k && k < b {
            r.push(read_marker(infos, levels, a, b, k));
        } else {
            r.push(infos[k]);
        }
        k = k + 1;
    }
    assert(r@ =~= read_run(infos@, levels@, a as int, b as int));
    r
}

/// A letter with no roman numeral beside it is read as a letter.
pub proof fn law_lone_letter_is_a_letter(
    infos: Seq<Option<MarkerInfo>>,
    levels: Seq<u8>,
    a: int,
    b: int,
    k: int,
)
    requires
        a <= k < b,
        forall|i: int|
            a <= i < b && i != k ==> !(#[trigger] infos[i] matches Some(m) && is_roman_marker(
                m.marker,
            )),
    ensures
        read_at(infos, levels, a, b, k) == infos[k],
{
    lemma_next_beside(infos, levels, levels[k], k + 1, b);
    lemma_last_beside(infos, levels, levels[k], a, k);
}

proof fn lemma_next_beside(
    infos: Seq<Option<MarkerInfo>>,
    levels: Seq<u8>,
    level: u8,
    k: int,
    b: int,
)
    ensures
        next_beside(infos, levels, level, k, b) is Some ==> exists|i: int|
            k <= i < b && #[trigger] infos[i] == next_beside(infos, levels, level, k, b),
    decreases b - k,
{
    if k < b && !(infos[k] is Some && levels[k] <= level) {
        lemma_next_beside(infos, levels, level, k + 1, b);
    }
}

proof fn lemma_last_beside(
    infos: Seq<Option<MarkerInfo>>,
    levels: Seq<u8>,
    level: u8,
    a: int,
    k: int,
)
    ensures
        last_beside(infos, levels, level, a, k) is Some ==> exists|i: int|
            a <= i < k && #[trigger] infos[i] == last_beside(infos, levels, level, a, k),
    decreases k - a,
{
    if k > a && !(infos[k - 1] is Some && levels[k - 1] <= level) {
        lemma_last_beside(infos, levels, level, a, k - 1);
    }
}

/// A letter that goes on from a letter is read as a letter, whatever follows.
pub proof fn law_letters_go_on(
    infos: Seq<Option<MarkerInfo>>,
    levels: Seq<u8>,
    a: int,
    b: int,
    k: int,
)
    requires
        a <= k < b,
        infos[k] is Some,
        infos[k]->0.marker is LowerAlpha || infos[k]->0.marker is UpperAlpha,
        last_beside(infos, levels, levels[k], a, k) matches Some(p) && goes_on(p, infos[k]->0),
    ensures
        read_at(infos, levels, a, b, k) == infos[k],
{
}

/// The letter `i` before the numeral two, where it does not go on from `h`, is
/// the numeral one of the same list.
pub proof fn law_first_numeral(
    infos: Seq<Option<MarkerInfo>>,
    levels: Seq<u8>,
    a: int,
    b: int,
    k: int,
)
    requires
        a <= k,
        k + 1 < b,
        levels[k + 1] <= levels[k],
        infos[k] is Some,
        infos[k]->0.marker is LowerAlpha,
        infos[k]->0.ordinal == Some(9u32),
        infos[k + 1] is Some,
        infos[k + 1]->0.marker is LowerRoman,
        infos[k + 1]->0.ordinal == Some(2u32),
        infos[k + 1]->0.delim == infos[k]->0.delim,
        !(last_beside(infos, levels, levels[k], a, k) matches Some(p) && goes_on(p, infos[k]->0)),
    ensures
        read_at(infos, levels, a, b, k) matches Some(m) && m.ordinal == Some(1u32) && same_list(
            m,
            infos[k + 1]->0,
        ),
{
    assert(next_beside(infos, levels, levels[k], k + 1, b) == infos[k + 1]);
}

// ── sequences ───────────────────────────────────────────────────────────────

/// The largest step between ordinals of one list.
pub const GAP_TOL: u32 = 2;

/// Ordinals that can be those of one list: increasing by small steps, from one
/// on, or three or more of them in unbroken order.
pub open spec fn in_sequence(ords: Seq<u32>, markers: nat) -> bool {
    &&& markers >= 2
    &&& ords.len() >= 2
    &&& forall|i: int, j: int|
        #![trigger ords[i], ords[j]]
        0 <= i && j == i + 1 && j < ords.len() ==> ords[i] < ords[j] <= ords[i] + GAP_TOL
    &&& ords[0] == 1 || (ords.len() >= 3 && forall|i: int, j: int|
        #![trigger ords[i], ords[j]]
        0 <= i && j == i + 1 && j < ords.len() ==> ords[j] == ords[i] + 1)
}

/// Whether the ordinals of a run of markers are those of a list.
pub fn is_ordinal_sequence(ords: &[u32], total_markers: usize) -> (r: bool)
    ensures
        r == in_sequence(ords@, total_markers as nat),
{
    let len: usize = ords.len();
    if total_markers <= 1 || len < 2 {
        return false;
    }
    let mut by_one: bool = true;
    let mut k: usize = 1;
    while k < len
        invariant
            1 <= k <= len,
            len == ords@.len(),
            forall|i: int, j: int|
                #![trigger ords@[i], ords@[j]]
                0 <= i && j == i + 1 && j < k ==> ords@[i] < ords@[j] <= ords@[i] + GAP_TOL,
            by_one == (forall|i: int, j: int|
                #![trigger ords@[i], ords@[j]]
                0 <= i && j == i + 1 && j < k ==> ords@[j] == ords@[i] + 1),
        decreases len - k,
    {
        let a: u32 = ords[k - 1];
        let b: u32 = ords[k];
        let ghost i = k - 1;
        let ghost j = k as int;
        assert(ords@[i] == a && ords@[j] == b);
        if b <= a || b - a > GAP_TOL {
            return false;
        }
        if b - a != 1 {
            by_one = false;
        }
        k = k + 1;
    }
    ords[0] == 1 || (len >= 3 && by_one)
}

/// A lone ordinal is no list, whatever its value.
pub proof fn law_lone_ordinal_is_prose(ords: Seq<u32>, markers: nat)
    requires
        markers <= 1 || ords.len() <= 1,
    ensures
        !in_sequence(ords, markers),
{
}

/// The ordinals of a list never fall back and never repeat.
pub proof fn law_sequence_increases(ords: Seq<u32>, markers: nat, i: int, j: int)
    requires
        in_sequence(ords, markers),
        0 <= i < j < ords.len(),
    ensures
        ords[i] < ords[j],
        ords[j] <= ords[i] + GAP_TOL * (j - i),
    decreases j - i,
{
    assert(ords[j - 1] < ords[j] <= ords[j - 1] + GAP_TOL);
    if i < j - 1 {
        law_sequence_increases(ords, markers, i, j - 1);
    }
}

// ── markers as they are written ─────────────────────────────────────────────

/// A line that starts with a label, closed by a dot or a parenthesis, and a
/// space.
pub open spec fn labelled(label: Seq<char>, dot: bool, rest: Seq<char>) -> Seq<char> {
    label + seq![if dot {
        '.'
    } else {
        ')'
    }, ' '] + rest
}

proof fn lemma_token_of(s: Seq<char>, n: int)
    requires
        0 <= n < s.len(),
        forall|k: int| 0 <= k < n ==> !is_space(#[trigger] s[k]),
        is_space(s[n]),
    ensures
        token_len(s) == n,
    decreases n,
{
    if n > 0 {
        assert(!is_space(s[0]));
        let t = s.skip(1);
        assert forall|k: int| 0 <= k < n - 1 implies !is_space(#[trigger] t[k]) by {
            assert(t[k] == s[k + 1]);
        }
        lemma_token_of(t, n - 1);
    }
}

proof fn lemma_labelled(label: Seq<char>, dot: bool, rest: Seq<char>)
    requires
        label.len() > 0,
        forall|k: int| 0 <= k < label.len() ==> !is_space(#[trigger] label[k]),
        !is_solid_bullet(label[0]),
        !is_dash_bullet(label[0]),
    ensures
        ({
            let s = labelled(label, dot, rest);
            &&& trim_start(s) == s
            &&& token(s).drop_last() == label
            &&& token(s).last() == (if dot {
                '.'
            } else {
                ')'
            })
            &&& marker_of(s) == label_scheme(label)
            &&& label_scheme(label) is Some ==> stripped(s) == trim_start(rest)
        }),
{
    let s = labelled(label, dot, rest);
    let n = label.len() as int;
    assert(s[0] == label[0]);
    assert(!is_space('.') && !is_space(')') && is_space(' '));
    assert forall|k: int| 0 <= k < n + 1 implies !is_space(#[trigger] s[k]) by {
        if k < n {
            assert(s[k] == label[k]);
        }
    }
    assert(s[n + 1] == ' ');
    lemma_token_of(s, n + 1);
    assert(token(s).drop_last() =~= label);
    if label_scheme(label) is Some {
        let u = s.skip(n + 1);
        assert(u[0] == ' ');
        assert(u.drop_first() =~= rest);
    }
}

/// A number written in front of a line, with a dot or a parenthesis behind it, is
/// read as that number, and what is left of the line is what stands behind it.
pub proof fn law_written_numbers_are_read(n: nat, dot: bool, rest: Seq<char>)
    requires
        n <= u32::MAX,
    ensures
        ({
            let s = labelled(decimal(n), dot, rest);
            &&& info_of(s) == Some(
                MarkerInfo {
                    marker: Marker::Decimal,
                    delim: Some(
                        if dot {
                            Delim::Dot
                        } else {
                            Delim::Paren
                        },
                    ),
                    ordinal: Some(n as u32),
                },
            )
            &&& stripped(s) == trim_start(rest)
        }),
{
    let label = decimal(n);
    lemma_decimal_digits(n);
    law_decimal_value(n);
    assert(is_digit(label[0]));
    assert forall|k: int| 0 <= k < label.len() implies !is_space(#[trigger] label[k]) by {
        assert(is_digit(label[k]));
    }
    lemma_labelled(label, dot, rest);
}

proof fn lemma_decimal_digits(n: nat)
    ensures
        decimal(n).len() > 0,
        all_digits(decimal(n)),
    decreases n,
{
    if n >= 10 {
        lemma_decimal_digits(n / 10);
        let s = decimal(n);
        let t = decimal(n / 10);
        assert forall|k: int| 0 <= k < s.len() implies is_digit(#[trigger] s[k]) by {
            if k < t.len() {
                assert(s[k] == t[k]);
            }
        }
    }
}

/// The small letters, in their order.
pub open spec fn letter(k: nat) -> char {
    ('a' as u32 + k) as char
}

/// The capitals, in their order.
pub open spec fn capital(k: nat) -> char {
    ('A' as u32 + k) as char
}

/// A letter written in front of a line is read as its place in the alphabet,
/// counted from one, a capital like a small letter.
pub proof fn law_written_letters_are_read(k: nat, dot: bool, rest: Seq<char>)
    requires
        k < 26,
    ensures
        ({
            let delim = Some(
                if dot {
                    Delim::Dot
                } else {
                    Delim::Paren
                },
            );
            &&& info_of(labelled(seq![letter(k)], dot, rest)) == Some(
                MarkerInfo { marker: Marker::LowerAlpha, delim, ordinal: Some((k + 1) as u32) },
            )
            &&& info_of(labelled(seq![capital(k)], dot, rest)) == Some(
                MarkerInfo { marker: Marker::UpperAlpha, delim, ordinal: Some((k + 1) as u32) },
            )
            &&& stripped(labelled(seq![letter(k)], dot, rest)) == trim_start(rest)
            &&& stripped(labelled(seq![capital(k)], dot, rest)) == trim_start(rest)
        }),
{
    let a = seq![letter(k)];
    let b = seq![capital(k)];
    assert(is_lower(a[0]) && !is_digit(a[0]) && !is_space(a[0]));
    assert(is_upper(b[0]) && !is_digit(b[0]) && !is_space(b[0]) && !is_lower(b[0]));
    assert(!all_digits(a) && !all_digits(b));
    assert(to_small(b[0]) == a[0]);
    lemma_labelled(a, dot, rest);
    lemma_labelled(b, dot, rest);
}

/// A numeral of two letters or more written in front of a line is read as its
/// value.
pub proof fn law_written_numerals_are_read(v: nat, dot: bool, rest: Seq<char>)
    requires
        0 < v <= u32::MAX,
        numeral(v).len() >= 2,
    ensures
        ({
            let s = labelled(numeral(v), dot, rest);
            &&& info_of(s) == Some(
                MarkerInfo {
                    marker: Marker::LowerRoman,
                    delim: Some(
                        if dot {
                            Delim::Dot
                        } else {
                            Delim::Paren
                        },
                    ),
                    ordinal: Some(v as u32),
                },
            )
            &&& stripped(s) == trim_start(rest)
        }),
{
    let label = numeral(v);
    law_numeral_reads_back(v);
    assert(all_roman(label));
    assert(roman_digit(label[0]) is Some);
    assert forall|k: int| 0 <= k < label.len() implies !is_space(#[trigger] label[k]) && to_small(
        label[k],
    ) == label[k] by {
        assert(roman_digit(label[k]) is Some);
    }
    assert(!all_digits(label)) by {
        assert(!is_digit(label[0]));
    }
    assert(lowered(label) =~= label);
    lemma_labelled(label, dot, rest);
}

/// A bullet with a space behind it marks a line, and what is left of the line is
/// what stands behind it; a dash without a space marks none.
pub proof fn law_written_bullets_are_read(c: char, rest: Seq<char>)
    requires
        is_solid_bullet(c) || is_dash_bullet(c),
    ensures
        ({
            let s = seq![c, ' '] + rest;
            &&& info_of(s) == Some(
                MarkerInfo { marker: Marker::Bullet(c), delim: None, ordinal: None },
            )
            &&& stripped(s) == trim_start(rest)
        }),
        is_dash_bullet(c) && rest.len() > 0 && !is_space(rest[0]) ==> !(marker_of(
            seq![c] + rest,
        ) matches Some(Marker::Bullet(_))),
{
    let s = seq![c, ' '] + rest;
    assert(s[0] == c && s[1] == ' ');
    assert(!is_space(c) && is_space(' '));
    assert(trim_start(s) == s);
    let u = s.skip(1);
    assert(u[0] == ' ');
    assert(u.drop_first() =~= rest);
    if is_dash_bullet(c) && rest.len() > 0 && !is_space(rest[0]) {
        let t = seq![c] + rest;
        assert(t[0] == c && t[1] == rest[0]);
        assert(trim_start(t) == t);
        assert(!opens_with_bullet(t));
    }
}

} // verus!
