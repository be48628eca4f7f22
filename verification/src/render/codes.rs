//! Character codes of strings that are shown, and their glyphs.
use vstd::prelude::*;

verus! {

/// A character code and the number of bytes it takes.
#[derive(Clone, Copy, Debug, PartialEq, Eq, Structural)]
pub struct Code {
    pub code: u32,
    pub bytes: usize,
}

/// The code at a place: of two bytes in a composite font, where two are left;
/// else of one.
pub open spec fn code_at(s: Seq<u8>, i: int, two_byte: bool) -> Code {
    if two_byte && i + 1 < s.len() {
        Code { code: (s[i] * 256 + s[i + 1]) as u32, bytes: 2 }
    } else {
        Code { code: s[i] as u32, bytes: 1 }
    }
}

/// The codes from a place on.
pub open spec fn codes_from(s: Seq<u8>, i: int, two_byte: bool) -> Seq<Code>
    decreases s.len() - i,
{
    if i < 0 || i >= s.len() {
        Seq::empty()
    } else {
        let c = code_at(s, i, two_byte);
        seq![c] + codes_from(s, i + c.bytes, two_byte)
    }
}

/// The codes of a string.
pub fn codes(bytes: &[u8], two_byte: bool) -> (r: Vec<Code>)
    ensures
        r@ == codes_from(bytes@, 0, two_byte),
{
    let mut r: Vec<Code> = Vec::new();
    let len: usize = bytes.len();
    let mut i: usize = 0;
    let ghost goal = codes_from(bytes@, 0, two_byte);
    assert(goal =~= r@ + codes_from(bytes@, 0, two_byte));
    while i < len
        invariant
            i <= len,
            len == bytes@.len(),
            goal == r@ + codes_from(bytes@, i as int, two_byte),
        decreases len - i,
    {
        let ghost k = i as int;
        let c: Code = if two_byte && i < len - 1 {
            Code { code: bytes[i] as u32 * 256 + bytes[i + 1] as u32, bytes: 2 }
        } else {
            Code { code: bytes[i] as u32, bytes: 1 }
        };
        assert(c == code_at(bytes@, k, two_byte));
        r.push(c);
        i = i + c.bytes;
        assert(goal =~= r@ + codes_from(bytes@, i as int, two_byte));
    }
    assert(r@ =~= goal);
    r
}

// ── showing ─────────────────────────────────────────────────────────────────

/// States that showing codes one after the other goes through; `f` shows one.
pub open spec fn is_chain<S, F: Fn(S, Code) -> S>(f: F, s: Seq<Code>, states: Seq<S>) -> bool {
    &&& states.len() == s.len() + 1
    &&& forall|i: int|
        0 <= i < s.len() ==> call_ensures(f, (states[i], #[trigger] s[i]), states[i + 1])
}

/// Showing a string leads from one state to another.
pub open spec fn shows<S, F: Fn(S, Code) -> S>(
    f: F,
    bytes: Seq<u8>,
    two_byte: bool,
    from: S,
    to: S,
) -> bool {
    exists|states: Seq<S>| #[trigger]
        is_chain(f, codes_from(bytes, 0, two_byte), states) && states[0] == from && states.last()
            == to
}

/// Show the codes of a string one after the other. The state is what showing
/// changes: the canvas, and the text matrix behind the last code.
pub fn show_codes<S, F: Fn(S, Code) -> S>(bytes: &[u8], two_byte: bool, start: S, f: F) -> (r: S)
    requires
        forall|s: S, c: Code| call_requires(f, (s, c)),
    ensures
        shows(f, bytes@, two_byte, start, r),
{
    let all: Vec<Code> = codes(bytes, two_byte);
    let ghost mut states: Seq<S> = seq![start];
    let mut state: S = start;
    let mut i: usize = 0;
    while i < all.len()
        invariant
            i <= all@.len(),
            forall|s: S, c: Code| call_requires(f, (s, c)),
            is_chain(f, all@.take(i as int), states),
            states[0] == start,
            states.last() == state,
        decreases all.len() - i,
    {
        let ghost before = states;
        state = f(state, all[i]);
        proof {
            states = before.push(state);
            let t = all@.take(i + 1);
            assert forall|k: int| 0 <= k < t.len() implies call_ensures(
                f,
                (states[k], #[trigger] t[k]),
                states[k + 1],
            ) by {
                if k < i {
                    assert(all@.take(i as int)[k] == t[k]);
                }
            }
        }
        i = i + 1;
    }
    assert(all@.take(i as int) =~= all@);
    state
}

/// In a font of one-byte codes, showing a string is showing its first part and
/// then, from where that leads, the rest: the same states are reached.
pub proof fn law_shown_in_two_parts<S, F: Fn(S, Code) -> S>(
    f: F,
    a: Seq<u8>,
    b: Seq<u8>,
    from: S,
    to: S,
)
    ensures
        shows(f, a + b, false, from, to) <==> exists|mid: S| #[trigger]
            shows(f, a, false, from, mid) && shows(f, b, false, mid, to),
{
    law_codes_of_joined_strings(a, b);
    let c = codes_from(a, 0, false);
    let d = codes_from(b, 0, false);
    let s = codes_from(a + b, 0, false);
    let k = c.len() as int;
    if shows(f, a + b, false, from, to) {
        let t = choose|t: Seq<S>| #[trigger] is_chain(f, s, t) && t[0] == from && t.last() == to;
        let front = t.take(k + 1);
        let back = t.skip(k);
        assert forall|i: int| 0 <= i < c.len() implies call_ensures(
            f,
            (front[i], #[trigger] c[i]),
            front[i + 1],
        ) by {
            assert(s[i] == c[i]);
        }
        assert forall|i: int| 0 <= i < d.len() implies call_ensures(
            f,
            (back[i], #[trigger] d[i]),
            back[i + 1],
        ) by {
            assert(s[k + i] == d[i]);
        }
        assert(is_chain(f, c, front) && is_chain(f, d, back));
        assert(shows(f, a, false, from, t[k]) && shows(f, b, false, t[k], to));
    }
    if exists|mid: S| #[trigger] shows(f, a, false, from, mid) && shows(f, b, false, mid, to) {
        let mid = choose|mid: S| #[trigger]
            shows(f, a, false, from, mid) && shows(f, b, false, mid, to);
        let x = choose|t: Seq<S>| #[trigger] is_chain(f, c, t) && t[0] == from && t.last() == mid;
        let y = choose|t: Seq<S>| #[trigger] is_chain(f, d, t) && t[0] == mid && t.last() == to;
        let t = x + y.skip(1);
        assert forall|i: int| 0 <= i < s.len() implies call_ensures(
            f,
            (t[i], #[trigger] s[i]),
            t[i + 1],
        ) by {
            if i < k {
                assert(s[i] == c[i]);
            } else {
                assert(s[i] == d[i - k]);
            }
        }
        assert(is_chain(f, s, t));
    }
}

/// Two chains that start alike are alike, where showing a code has one outcome.
proof fn lemma_one_chain<S, F: Fn(S, Code) -> S>(
    f: F,
    s: Seq<Code>,
    x: Seq<S>,
    y: Seq<S>,
    n: int,
)
    requires
        is_chain(f, s, x),
        is_chain(f, s, y),
        x[0] == y[0],
        0 <= n <= s.len(),
        forall|a: S, c: Code, p: S, q: S| #[trigger]
            call_ensures(f, (a, c), p) && #[trigger] call_ensures(f, (a, c), q) ==> p == q,
    ensures
        x[n] == y[n],
    decreases n,
{
    if n > 0 {
        lemma_one_chain(f, s, x, y, n - 1);
        let c = s[n - 1];
        assert(call_ensures(f, (x[n - 1], c), x[n]));
        assert(call_ensures(f, (y[n - 1], c), y[n]));
    }
}

/// Where showing a code has one outcome, so has showing a string: shown at once
/// or in two parts, it leads to the same state.
pub proof fn law_two_parts_end_alike<S, F: Fn(S, Code) -> S>(
    f: F,
    a: Seq<u8>,
    b: Seq<u8>,
    from: S,
    mid: S,
    whole: S,
    parts: S,
)
    requires
        forall|s: S, c: Code, p: S, q: S| #[trigger]
            call_ensures(f, (s, c), p) && #[trigger] call_ensures(f, (s, c), q) ==> p == q,
        shows(f, a + b, false, from, whole),
        shows(f, a, false, from, mid),
        shows(f, b, false, mid, parts),
    ensures
        whole == parts,
{
    law_shown_in_two_parts(f, a, b, from, parts);
    let s = codes_from(a + b, 0, false);
    assert(shows(f, a + b, false, from, parts));
    let x = choose|t: Seq<S>| #[trigger] is_chain(f, s, t) && t[0] == from && t.last() == whole;
    let y = choose|t: Seq<S>| #[trigger] is_chain(f, s, t) && t[0] == from && t.last() == parts;
    lemma_one_chain(f, s, x, y, s.len() as int);
}

// ── laws of codes ───────────────────────────────────────────────────────────

/// The bytes that the first `n` codes take.
pub open spec fn total_bytes(s: Seq<Code>, n: int) -> nat
    decreases n,
{
    if n <= 0 {
        0
    } else {
        total_bytes(s, n - 1) + s[n - 1].bytes as nat
    }
}

proof fn lemma_total_shift(c: Code, s: Seq<Code>, n: int)
    requires
        0 <= n <= s.len(),
    ensures
        total_bytes(seq![c] + s, n + 1) == c.bytes + total_bytes(s, n),
    decreases n,
{
    let t = seq![c] + s;
    if n == 0 {
        assert(t[0] == c);
        assert(total_bytes(t, 0) == 0);
    } else {
        lemma_total_shift(c, s, n - 1);
        assert(t[n] == s[n - 1]);
    }
}

/// In a font of one-byte codes, the codes of two strings one behind the other
/// are those of the first and then those of the second.
pub proof fn law_codes_of_joined_strings(a: Seq<u8>, b: Seq<u8>)
    ensures
        codes_from(a + b, 0, false) == codes_from(a, 0, false) + codes_from(b, 0, false),
{
    lemma_single_codes(a, 0);
    lemma_single_codes(b, 0);
    lemma_single_codes(a + b, 0);
    assert(codes_from(a + b, 0, false) =~= codes_from(a, 0, false) + codes_from(b, 0, false));
}

proof fn lemma_single_codes(s: Seq<u8>, i: int)
    requires
        0 <= i <= s.len(),
    ensures
        codes_from(s, i, false) == Seq::new(
            (s.len() - i) as nat,
            |k: int| Code { code: s[i + k] as u32, bytes: 1 },
        ),
    decreases s.len() - i,
{
    if i < s.len() {
        lemma_single_codes(s, i + 1);
    }
    assert(codes_from(s, i, false) =~= Seq::new(
        (s.len() - i) as nat,
        |k: int| Code { code: s[i + k] as u32, bytes: 1 },
    ));
}

/// Every byte of a string belongs to one code.
pub proof fn law_codes_take_all_bytes(s: Seq<u8>, i: int, two_byte: bool)
    requires
        0 <= i <= s.len(),
    ensures
        ({
            let c = codes_from(s, i, two_byte);
            total_bytes(c, c.len() as int) == s.len() - i
        }),
    decreases s.len() - i,
{
    if i < s.len() {
        let c = code_at(s, i, two_byte);
        law_codes_take_all_bytes(s, i + c.bytes, two_byte);
        let rest = codes_from(s, i + c.bytes, two_byte);
        lemma_total_shift(c, rest, rest.len() as int);
    }
}

/// What a font maps a code to.
#[derive(Clone, Copy, Debug)]
pub struct Lookup {
    /// A composite font, whose codes stand for character identifiers.
    pub composite: bool,
    /// The character identifier of the code; none where it is the code.
    pub cid: Option<u16>,
    /// The glyph that the encoding of a simple font gives.
    pub encoded: Option<u16>,
    /// The glyph of the code's character.
    pub by_character: Option<u16>,
}

/// The identifier of a code, in the range of the mapping.
pub open spec fn cid_of(code: u32, mapped: bool, l: Lookup) -> u32 {
    if mapped {
        match l.cid {
            Some(c) => c as u32,
            None => (code % 0x10000) as u32,
        }
    } else {
        code
    }
}

/// The character identifier of a code, through a mapping where the font has
/// one; a code without an entry stands for itself.
pub fn code_to_cid(code: u32, mapped: bool, l: Lookup) -> (r: u32)
    ensures
        r == cid_of(code, mapped, l),
{
    if mapped {
        match l.cid {
            Some(c) => c as u32,
            None => code % 0x10000,
        }
    } else {
        code
    }
}

/// The glyph of a code. In a composite font it is the one that the map of
/// identifiers gives, none beyond its end, or the identifier itself without a
/// map; in a simple font the one of its encoding, else of its character.
pub open spec fn glyph_of(l: Lookup, cid: u32, map: Option<Seq<u16>>) -> u16 {
    if l.composite {
        match map {
            Some(m) => if cid < m.len() {
                m[cid as int]
            } else {
                0
            },
            None => (cid % 0x10000) as u16,
        }
    } else {
        match l.encoded {
            Some(g) => g,
            None => match l.by_character {
                Some(g) => g,
                None => 0,
            },
        }
    }
}

/// The glyph of a code; glyph 0 is drawn as nothing.
pub fn glyph(l: Lookup, cid: u32, map: Option<&Vec<u16>>) -> (r: u16)
    ensures
        r == glyph_of(
            l,
            cid,
            match map {
                Some(m) => Some(m@),
                None => None,
            },
        ),
{
    if l.composite {
        match map {
            Some(m) => {
                let n: usize = m.len();
                if (cid as u64) < (n as u64) {
                    m[cid as usize]
                } else {
                    0
                }
            },
            None => (cid % 0x10000) as u16,
        }
    } else {
        match l.encoded {
            Some(g) => g,
            None => match l.by_character {
                Some(g) => g,
                None => 0,
            },
        }
    }
}

pub open spec fn key_of_width(two_byte: bool, code: u32, cid: u32) -> u32 {
    if two_byte {
        cid
    } else {
        code
    }
}

/// What widths are looked up by: the identifier in a composite font, else the
/// code.
pub fn width_key(two_byte: bool, code: u32, cid: u32) -> (r: u32)
    ensures
        r == key_of_width(two_byte, code, cid),
{
    if two_byte {
        cid
    } else {
        code
    }
}

/// A code that is a space between words.
pub open spec fn parts_words(c: Code) -> bool {
    c.bytes == 1 && c.code == 32
}

/// Whether the space between words applies behind a code: only behind a space
/// of one byte.
pub fn is_word_space(c: Code) -> (r: bool)
    ensures
        r == parts_words(c),
{
    c.bytes == 1 && c.code == 32
}

/// A code of two bytes never counts as a space between words.
pub proof fn law_no_word_space_in_pairs(s: Seq<u8>, i: int)
    requires
        0 <= i,
        i + 1 < s.len(),
    ensures
        !parts_words(code_at(s, i, true)),
{
}

/// The bytes of a code, the high one first.
pub open spec fn code_bytes(c: Code) -> Seq<u8> {
    if c.bytes == 2 {
        seq![(c.code / 256) as u8, (c.code % 256) as u8]
    } else {
        seq![c.code as u8]
    }
}

/// The bytes of codes, one code after the other.
pub open spec fn bytes_of(s: Seq<Code>) -> Seq<u8>
    decreases s.len(),
{
    if s.len() == 0 {
        Seq::empty()
    } else {
        code_bytes(s[0]) + bytes_of(s.skip(1))
    }
}

/// The codes of a string spell the string: their bytes, high byte first, are its
/// bytes. In a simple font each byte is a code of its own.
pub proof fn law_codes_spell_the_string(s: Seq<u8>, i: int, two_byte: bool)
    requires
        0 <= i <= s.len(),
    ensures
        bytes_of(codes_from(s, i, two_byte)) == s.skip(i),
        !two_byte ==> codes_from(s, i, two_byte).len() == s.len() - i,
        two_byte ==> codes_from(s, i, two_byte).len() == (s.len() - i + 1) / 2,
    decreases s.len() - i,
{
    let cs = codes_from(s, i, two_byte);
    if i < s.len() {
        let c = code_at(s, i, two_byte);
        law_codes_spell_the_string(s, i + c.bytes, two_byte);
        let rest = codes_from(s, i + c.bytes, two_byte);
        assert(cs[0] == c);
        assert(cs.skip(1) =~= rest);
        if c.bytes == 2 {
            let v = s[i] * 256 + s[i + 1];
            assert(v / 256 == s[i] && v % 256 == s[i + 1]);
        }
        assert(code_bytes(c) + s.skip(i + c.bytes) =~= s.skip(i));
    } else {
        assert(s.skip(i) =~= Seq::empty());
    }
}

/// A space parts words in a simple font wherever it stands, and no other
/// character does.
pub proof fn law_spaces_part_words(s: Seq<u8>, i: int)
    requires
        0 <= i < s.len(),
    ensures
        parts_words(code_at(s, i, false)) <==> s[i] == ' ' as u8,
{
}

/// Without a mapping a code is its own identifier; with one it is what the
/// mapping gives, and itself where that gives nothing.
pub proof fn law_codes_are_mapped(code: u32, l: Lookup)
    ensures
        cid_of(code, false, l) == code,
        l.cid matches Some(c) ==> cid_of(code, true, l) == c,
        l.cid is None && code < 0x10000 ==> cid_of(code, true, l) == code,
{
}

/// A glyph of a composite font depends on the identifier alone, and one of a
/// simple font not on it: there what the encoding gives comes first, then what
/// the character gives. A map of identifiers that says nothing new changes
/// nothing.
pub proof fn law_where_glyphs_come_from(l: Lookup, k: Lookup, cid: u32, map: Option<Seq<u16>>)
    ensures
        l.composite && k.composite ==> glyph_of(l, cid, map) == glyph_of(k, cid, map),
        !l.composite ==> glyph_of(l, cid, map) == glyph_of(l, 0, None),
        !l.composite && l.encoded is Some ==> glyph_of(l, cid, map) == l.encoded->0,
        !l.composite && l.encoded is None && l.by_character is Some ==> glyph_of(l, cid, map)
            == l.by_character->0,
        !l.composite && l.encoded is None && l.by_character is None ==> glyph_of(l, cid, map) == 0,
        l.composite && cid < 0x10000 && map == Some(Seq::new(0x10000, |i: int| i as u16))
            ==> glyph_of(l, cid, map) == glyph_of(l, cid, None) && glyph_of(l, cid, map) == cid,
        l.composite && map == Some(Seq::<u16>::empty()) ==> glyph_of(l, cid, map) == 0,
{
}

/// Widths are looked up by what the font counts by: identifiers where codes have
/// two bytes, codes where they have one. Where both are the same it makes no
/// difference.
pub proof fn law_widths_go_by_code_or_identifier(code: u32, cid: u32, other: u32)
    ensures
        key_of_width(true, code, cid) == key_of_width(true, other, cid),
        key_of_width(false, code, cid) == key_of_width(false, code, other),
        key_of_width(true, code, code) == code && key_of_width(false, code, code) == code,
{
}

} // verus!
