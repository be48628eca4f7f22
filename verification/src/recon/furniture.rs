//! Running headers and footers.
//!
//! A title or a page number that most pages of a section repeat in the band
//! along one edge is furniture: it is taken out of the pages and kept once, on
//! the section.
use super::flatten::{block_content, gather, Gathered};
use super::model::{Block, BlockKind, Frame, Page, Section};
use super::sorted::{distinct, distinct_of};
use super::text::{
    alphabetic, chars_of, is_alphabetic, is_digit, is_space, is_whitespace, push_decimal,
    push_signed, same_chars, small, string_of, to_small,
};
use super::text::{decimal, signed_decimal};
use vstd::prelude::*;

verus! {

// ── normalised text ─────────────────────────────────────────────────────────

/// The most letters that a block may hold to count as a page number.
pub const PAGE_NUMBER_MAX_LETTERS: usize = 6;

/// The longest run of digits that counts as a page number.
pub const PAGE_NUMBER_MAX_DIGITS: usize = 4;

/// How many alphabetic characters `s` holds.
pub open spec fn letters(s: Seq<char>) -> nat
    decreases s.len(),
{
    if s.len() == 0 {
        0
    } else {
        letters(s.drop_last()) + (if alphabetic(s.last()) {
            1nat
        } else {
            0nat
        })
    }
}

/// How many digits `s` opens with.
pub open spec fn digit_run(s: Seq<char>) -> nat
    decreases s.len(),
{
    if s.len() == 0 || !is_digit(s[0]) {
        0
    } else {
        1 + digit_run(s.skip(1))
    }
}

proof fn lemma_digit_run(s: Seq<char>)
    ensures
        digit_run(s) <= s.len(),
        forall|i: int| 0 <= i < digit_run(s) ==> is_digit(#[trigger] s[i]),
        digit_run(s) < s.len() ==> !is_digit(s[digit_run(s) as int]),
    decreases s.len(),
{
    if s.len() > 0 && is_digit(s[0]) {
        let t = s.skip(1);
        lemma_digit_run(t);
        assert forall|i: int| 0 <= i < digit_run(s) implies is_digit(#[trigger] s[i]) by {
            if i > 0 {
                assert(s[i] == t[i - 1]);
            }
        }
    }
}

/// `digit_run` is the length of the longest opening stretch of digits.
proof fn lemma_digit_run_is(s: Seq<char>, n: int)
    requires
        0 <= n <= s.len(),
        forall|i: int| 0 <= i < n ==> is_digit(#[trigger] s[i]),
        n < s.len() ==> !is_digit(s[n]),
    ensures
        digit_run(s) == n,
{
    lemma_digit_run(s);
    let m = digit_run(s) as int;
    if m < n {
        assert(is_digit(s[m]));
    }
    if n < m {
        assert(is_digit(s[n]));
    }
}

/// `s` with capitals made small, runs of white space made one space, none at
/// the start, and, where `fold` says so, short runs of digits made `#`.
/// `gap` says that a space would follow a space or open the text.
pub open spec fn collapsed(s: Seq<char>, fold: bool, gap: bool) -> Seq<char>
    decreases s.len(),
{
    if s.len() == 0 {
        Seq::empty()
    } else if is_digit(s[0]) {
        let n = digit_run(s);
        if n == 0 || n > s.len() {
            Seq::empty()
        } else {
            let run = if fold && n <= PAGE_NUMBER_MAX_DIGITS {
                seq!['#']
            } else {
                s.take(n as int)
            };
            run + collapsed(s.skip(n as int), fold, false)
        }
    } else if is_space(s[0]) {
        if gap {
            collapsed(s.skip(1), fold, true)
        } else {
            seq![' '] + collapsed(s.skip(1), fold, true)
        }
    } else {
        seq![to_small(s[0])] + collapsed(s.skip(1), fold, false)
    }
}

/// `s` without the blanks at its end.
pub open spec fn without_blanks(s: Seq<char>) -> Seq<char>
    decreases s.len(),
{
    if s.len() > 0 && s.last() == ' ' {
        without_blanks(s.drop_last())
    } else {
        s
    }
}

/// `s` normalised, its short digit runs folded or not.
pub open spec fn folded_text(s: Seq<char>, fold: bool) -> Seq<char> {
    without_blanks(collapsed(s, fold, true))
}

/// `s` normalised: digits are folded where there are few letters.
pub open spec fn normalized(s: Seq<char>) -> Seq<char> {
    folded_text(s, letters(s) <= PAGE_NUMBER_MAX_LETTERS)
}

fn count_letters(v: &Vec<char>) -> (n: usize)
    ensures
        n == letters(v@),
{
    let len: usize = v.len();
    let mut n: usize = 0;
    let mut i: usize = 0;
    assert(v@.take(0) =~= Seq::empty());
    while i < len
        invariant
            i <= len,
            len == v@.len(),
            n <= i,
            n == letters(v@.take(i as int)),
        decreases len - i,
    {
        assert(v@.take(i + 1).drop_last() =~= v@.take(i as int));
        if is_alphabetic(v[i]) {
            n = n + 1;
        }
        i = i + 1;
    }
    assert(v@.take(len as int) =~= v@);
    n
}

fn collapse(v: &Vec<char>, fold: bool) -> (out: Vec<char>)
    ensures
        out@ == collapsed(v@, fold, true),
{
    let len: usize = v.len();
    let mut out: Vec<char> = Vec::new();
    let mut gap: bool = true;
    let mut i: usize = 0;
    let ghost goal = collapsed(v@, fold, true);
    assert(v@.skip(0) =~= v@);
    assert(goal =~= out@ + collapsed(v@.skip(0), fold, true));
    while i < len
        invariant
            i <= len,
            len == v@.len(),
            goal == out@ + collapsed(v@.skip(i as int), fold, gap),
        decreases len - i,
    {
        let ghost rest = v@.skip(i as int);
        let ghost before = out@;
        let ch: char = v[i];
        assert(rest[0] == ch);
        if '0' <= ch && ch <= '9' {
            let start: usize = i;
            i = i + 1;
            while i < len && '0' <= v[i] && v[i] <= '9'
                invariant
                    start < i <= len,
                    len == v@.len(),
                    rest == v@.skip(start as int),
                    forall|k: int| 0 <= k < i - start ==> is_digit(#[trigger] rest[k]),
                decreases len - i,
            {
                assert(rest[i - start] == v@[i as int]);
                i = i + 1;
            }
            proof {
                if i < len {
                    assert(rest[i - start] == v@[i as int]);
                }
                lemma_digit_run_is(rest, i - start);
                assert(rest.skip(i - start) =~= v@.skip(i as int));
            }
            if fold && i - start <= PAGE_NUMBER_MAX_DIGITS {
                out.push('#');
                assert(out@ =~= before + seq!['#']);
            } else {
                let mut k: usize = start;
                assert(rest.take(0) =~= Seq::empty());
                assert(out@ =~= before + rest.take(0));
                while k < i
                    invariant
                        start <= k <= i <= len,
                        len == v@.len(),
                        rest == v@.skip(start as int),
                        out@ == before + rest.take(k - start),
                    decreases i - k,
                {
                    out.push(v[k]);
                    k = k + 1;
                    assert(out@ =~= before + rest.take(k - start));
                }
            }
            gap = false;
            assert(goal =~= out@ + collapsed(v@.skip(i as int), fold, gap));
        } else {
            assert(rest.skip(1) =~= v@.skip(i + 1));
            if is_whitespace(ch) {
                if !gap {
                    out.push(' ');
                    gap = true;
                }
            } else {
                out.push(small(ch));
                gap = false;
            }
            i = i + 1;
            assert(goal =~= out@ + collapsed(v@.skip(i as int), fold, gap));
        }
    }
    assert(v@.skip(len as int) =~= Seq::empty());
    assert(out@ =~= goal);
    out
}

fn drop_blanks(out: &mut Vec<char>)
    ensures
        final(out)@ == without_blanks(old(out)@),
{
    let ghost goal = without_blanks(out@);
    while out.len() > 0 && out[out.len() - 1] == ' '
        invariant
            without_blanks(out@) == goal,
        decreases out@.len(),
    {
        out.pop();
    }
}

fn fold_chars(v: &Vec<char>, fold: bool) -> (out: Vec<char>)
    ensures
        out@ == folded_text(v@, fold),
{
    let mut out: Vec<char> = collapse(v, fold);
    drop_blanks(&mut out);
    out
}

/// Normalise a text: ASCII capitals made small, white space collapsed and
/// trimmed, and, where `fold` says so, every short run of digits made `#`.
pub fn fold_text(raw: &str, fold: bool) -> (r: String)
    ensures
        r@ == folded_text(raw@, fold),
{
    string_of(&fold_chars(&chars_of(raw), fold))
}

/// Normalise a text so that the same furniture reads the same on every page:
/// as `fold_text`, with digits folded where the text has few letters.
pub fn normalize_text(raw: &str) -> (r: String)
    ensures
        r@ == normalized(raw@),
{
    fold_text(raw, count_letters(&chars_of(raw)) <= PAGE_NUMBER_MAX_LETTERS)
}

// ── laws of normalising ─────────────────────────────────────────────────────

proof fn lemma_number_at_end(p: Seq<char>, a: Seq<char>, gap: bool)
    requires
        1 <= a.len() <= PAGE_NUMBER_MAX_DIGITS,
        forall|i: int| 0 <= i < a.len() ==> is_digit(#[trigger] a[i]),
        p.len() > 0 ==> !is_digit(p.last()),
    ensures
        collapsed(p + a, true, gap) == collapsed(p + seq!['1'], true, gap),
    decreases p.len(),
{
    let one = seq!['1'];
    if p.len() == 0 {
        assert(p + a =~= a);
        assert(p + one =~= one);
        lemma_digit_run_is(a, a.len() as int);
        lemma_digit_run_is(one, 1);
        assert(a.skip(a.len() as int) =~= Seq::empty());
        assert(one.skip(1) =~= Seq::empty());
        assert(is_digit(a[0]) && is_digit(one[0]));
    } else {
        assert((p + a)[0] == p[0] && (p + one)[0] == p[0]);
        let k: int = if is_digit(p[0]) {
            digit_run(p) as int
        } else {
            1
        };
        lemma_digit_run(p);
        if is_digit(p[0]) {
            assert(k < p.len()) by {
                if k == p.len() {
                    assert(is_digit(p[p.len() - 1]));
                }
            }
            assert forall|i: int| 0 <= i < k implies is_digit(#[trigger] (p + a)[i]) by {
                assert(p[i] == (p + a)[i]);
            }
            assert forall|i: int| 0 <= i < k implies is_digit(#[trigger] (p + one)[i]) by {
                assert(p[i] == (p + one)[i]);
            }
            lemma_digit_run_is(p + a, k);
            lemma_digit_run_is(p + one, k);
            assert((p + a).take(k) =~= (p + one).take(k));
        }
        let q = p.skip(k);
        assert((p + a).skip(k) =~= q + a);
        assert((p + one).skip(k) =~= q + one);
        assert(q.len() > 0 ==> q.last() == p.last());
        lemma_number_at_end(q, a, true);
        lemma_number_at_end(q, a, false);
    }
}

/// Page numbers fold together: the same words followed by different short
/// numbers normalise to the same text.
pub proof fn law_page_numbers_fold(words: Seq<char>, a: Seq<char>, b: Seq<char>)
    requires
        words.len() > 0 ==> !is_digit(words.last()),
        1 <= a.len() <= PAGE_NUMBER_MAX_DIGITS,
        1 <= b.len() <= PAGE_NUMBER_MAX_DIGITS,
        forall|i: int| 0 <= i < a.len() ==> is_digit(#[trigger] a[i]),
        forall|i: int| 0 <= i < b.len() ==> is_digit(#[trigger] b[i]),
    ensures
        folded_text(words + a, true) == folded_text(words + b, true),
{
    lemma_number_at_end(words, a, true);
    lemma_number_at_end(words, b, true);
}

/// A long number stays as it is, so that two of them never fold together.
pub proof fn law_long_numbers_stay(a: Seq<char>, fold: bool)
    requires
        a.len() > PAGE_NUMBER_MAX_DIGITS,
        forall|i: int| 0 <= i < a.len() ==> is_digit(#[trigger] a[i]),
    ensures
        folded_text(a, fold) == a,
{
    lemma_digit_run_is(a, a.len() as int);
    assert(is_digit(a[0]));
    assert(a.skip(a.len() as int) =~= Seq::empty());
    assert(a.take(a.len() as int) =~= a);
    assert(collapsed(Seq::<char>::empty(), fold, false) =~= Seq::empty());
    assert(collapsed(a, fold, true) =~= a);
    assert(is_digit(a[a.len() - 1]));
}

// ── signatures ──────────────────────────────────────────────────────────────

/// The first `n` numbers in decimal, with commas between.
pub open spec fn listed(s: Seq<u64>, n: int) -> Seq<char>
    decreases n,
{
    if n <= 0 {
        Seq::empty()
    } else if n == 1 {
        decimal(s[0] as nat)
    } else {
        listed(s, n - 1).push(',') + decimal(s[n - 1] as nat)
    }
}

/// The signature of a block whose images are `resources`: these and the height
/// at which it stands. A block without a frame has none.
pub open spec fn image_sig(frame: Option<Frame>, resources: Seq<u64>) -> Option<Seq<char>> {
    match frame {
        None => None,
        Some(f) => {
            let rs = distinct(resources);
            Some(
                "image:"@ + listed(rs, rs.len() as int) + "@"@ + signed_decimal(
                    f.center_bucket as int,
                ),
            )
        },
    }
}

/// What a block looks like, page numbers aside: the height of a drawing; the
/// normalised text; for a block without text, its images and their height.
pub open spec fn signature(b: Block) -> Option<Seq<char>> {
    match b.kind {
        BlockKind::Shape(_) => match b.frame {
            None => None,
            Some(f) => Some("shape@"@ + signed_decimal(f.center_bucket as int)),
        },
        BlockKind::Image(img) => image_sig(b.frame, seq![img.resource]),
        _ => {
            let content = block_content(b);
            let text = normalized(content.text);
            if text.len() > 0 {
                Some(text)
            } else if content.images.len() == 0 {
                None
            } else {
                image_sig(b.frame, content.images)
            }
        },
    }
}

fn push_listed(out: &mut Vec<char>, s: &Vec<u64>)
    ensures
        final(out)@ == old(out)@ + listed(s@, s@.len() as int),
{
    let ghost out0 = out@;
    let mut i: usize = 0;
    assert(out@ =~= out0 + listed(s@, 0));
    while i < s.len()
        invariant
            i <= s@.len(),
            out@ == out0 + listed(s@, i as int),
        decreases s.len() - i,
    {
        if i > 0 {
            out.push(',');
        }
        push_decimal(out, s[i]);
        i = i + 1;
        assert(out@ =~= out0 + listed(s@, i as int));
    }
}

/// The signature of a block by its images; none without a frame.
pub fn image_signature(block: &Block, resources: &Vec<u64>) -> (r: Option<Vec<char>>)
    ensures
        match image_sig(block.frame, resources@) {
            None => r is None,
            Some(s) => r is Some && r->0@ == s,
        },
{
    match block.frame {
        None => None,
        Some(f) => {
            let rs: Vec<u64> = distinct_of(resources);
            let mut out: Vec<char> = chars_of("image:");
            push_listed(&mut out, &rs);
            let mut at: Vec<char> = chars_of("@");
            out.append(&mut at);
            push_signed(&mut out, f.center_bucket);
            Some(out)
        },
    }
}

/// What a block looks like, page numbers aside.
pub fn block_signature(block: &Block) -> (r: Option<Vec<char>>)
    ensures
        match signature(*block) {
            None => r is None,
            Some(s) => r is Some && r->0@ == s,
        },
{
    match &block.kind {
        BlockKind::Shape(_) => match block.frame {
            None => None,
            Some(f) => {
                let mut out: Vec<char> = chars_of("shape@");
                push_signed(&mut out, f.center_bucket);
                Some(out)
            },
        },
        BlockKind::Image(img) => {
            let mut one: Vec<u64> = Vec::new();
            one.push(img.resource);
            assert(one@ =~= seq![img.resource]);
            image_signature(block, &one)
        },
        _ => {
            let g: Gathered = gather(block);
            let few: bool = count_letters(&g.text) <= PAGE_NUMBER_MAX_LETTERS;
            let text: Vec<char> = fold_chars(&g.text, few);
            if text.len() > 0 {
                Some(text)
            } else if g.images.len() == 0 {
                None
            } else {
                image_signature(block, &g.images)
            }
        },
    }
}

// ── lifting ─────────────────────────────────────────────────────────────────

/// An edge of a page.
#[derive(Clone, Copy, Debug, PartialEq, Eq, Structural)]
pub enum Edge {
    Top,
    Bottom,
}

/// A block lies wholly in the band along an edge.
pub open spec fn lies_in_band(b: Block, edge: Edge) -> bool {
    b.frame matches Some(f) && match edge {
        Edge::Top => f.in_top_band,
        Edge::Bottom => f.in_bottom_band,
    }
}

/// The signature of a block in the band.
pub open spec fn band_sig(b: Block, edge: Edge) -> Option<Seq<char>> {
    if lies_in_band(b, edge) {
        signature(b)
    } else {
        None
    }
}

/// A page carries `sig` in the band.
pub open spec fn carries(page: Seq<Block>, edge: Edge, sig: Seq<char>) -> bool {
    exists|i: int| 0 <= i < page.len() && band_sig(#[trigger] page[i], edge) == Some(sig)
}

/// How many of the first `n` pages carry `sig` in the band.
pub open spec fn carriers(pages: Seq<Seq<Block>>, n: int, edge: Edge, sig: Seq<char>) -> nat
    decreases n,
{
    if n <= 0 {
        0
    } else {
        carriers(pages, n - 1, edge, sig) + (if carries(pages[n - 1], edge, sig) {
            1nat
        } else {
            0nat
        })
    }
}

/// A block in the band whose signature more than half of the pages carry.
pub open spec fn is_furniture(pages: Seq<Seq<Block>>, edge: Edge, b: Block) -> bool {
    band_sig(b, edge) matches Some(sig) && 2 * carriers(pages, pages.len() as int, edge, sig)
        > pages.len()
}

/// The furniture on a page.
pub open spec fn lifted(pages: Seq<Seq<Block>>, edge: Edge, page: Seq<Block>) -> Seq<Block> {
    page.filter(|b: Block| is_furniture(pages, edge, b))
}

/// A page without its furniture.
pub open spec fn kept(pages: Seq<Seq<Block>>, edge: Edge, page: Seq<Block>) -> Seq<Block> {
    page.filter(|b: Block| !is_furniture(pages, edge, b))
}

/// The pages without their furniture.
pub open spec fn bodies(pages: Seq<Seq<Block>>, edge: Edge) -> Seq<Seq<Block>> {
    Seq::new(pages.len(), |i: int| kept(pages, edge, pages[i]))
}

/// The furniture of the first page that has any, among the pages from `n` on.
pub open spec fn first_lifted(pages: Seq<Seq<Block>>, edge: Edge, n: int) -> Option<Seq<Block>>
    decreases pages.len() - n,
{
    if n < 0 || n >= pages.len() {
        None
    } else if lifted(pages, edge, pages[n]).len() > 0 {
        Some(lifted(pages, edge, pages[n]))
    } else {
        first_lifted(pages, edge, n + 1)
    }
}

/// The blocks of each page.
pub open spec fn blocks_of(pages: Seq<Page>) -> Seq<Seq<Block>> {
    Seq::new(pages.len(), |i: int| pages[i].blocks@)
}

/// Whether a block lies wholly in the band along an edge.
pub fn in_band(block: &Block, edge: Edge) -> (r: bool)
    ensures
        r == lies_in_band(*block, edge),
{
    match block.frame {
        None => false,
        Some(f) => match edge {
            Edge::Top => f.in_top_band,
            Edge::Bottom => f.in_bottom_band,
        },
    }
}

/// The signatures of the blocks of a page, as views.
spec fn sigs_match(sigs: Seq<Option<Vec<char>>>, page: Seq<Block>, edge: Edge) -> bool {
    &&& sigs.len() == page.len()
    &&& forall|i: int|
        0 <= i < page.len() ==> match band_sig(#[trigger] page[i], edge) {
            None => sigs[i] is None,
            Some(s) => sigs[i] is Some && sigs[i]->0@ == s,
        }
}

/// The signatures in the band of each block of each page.
fn band_sigs(pages: &Vec<Page>, edge: Edge) -> (r: Vec<Vec<Option<Vec<char>>>>)
    ensures
        r@.len() == pages@.len(),
        forall|p: int|
            0 <= p < pages@.len() ==> sigs_match((#[trigger] r@[p])@, pages@[p].blocks@, edge),
{
    let mut r: Vec<Vec<Option<Vec<char>>>> = Vec::new();
    let mut p: usize = 0;
    while p < pages.len()
        invariant
            p <= pages@.len(),
            r@.len() == p,
            forall|q: int|
                0 <= q < p ==> sigs_match((#[trigger] r@[q])@, pages@[q].blocks@, edge),
        decreases pages.len() - p,
    {
        let blocks: &Vec<Block> = &pages[p].blocks;
        let mut sigs: Vec<Option<Vec<char>>> = Vec::new();
        let mut i: usize = 0;
        while i < blocks.len()
            invariant
                i <= blocks@.len(),
                sigs@.len() == i,
                forall|k: int|
                    0 <= k < i ==> match band_sig(#[trigger] blocks@[k], edge) {
                        None => sigs@[k] is None,
                        Some(s) => sigs@[k] is Some && sigs@[k]->0@ == s,
                    },
            decreases blocks.len() - i,
        {
            if in_band(&blocks[i], edge) {
                sigs.push(block_signature(&blocks[i]));
            } else {
                sigs.push(None);
            }
            i = i + 1;
        }
        r.push(sigs);
        p = p + 1;
    }
    r
}

fn page_carries(
    sigs: &Vec<Option<Vec<char>>>,
    sig: &Vec<char>,
    Ghost(page): Ghost<Seq<Block>>,
    Ghost(edge): Ghost<Edge>,
) -> (r: bool)
    requires
        sigs_match(sigs@, page, edge),
    ensures
        r == carries(page, edge, sig@),
{
    let mut i: usize = 0;
    while i < sigs.len()
        invariant
            i <= sigs@.len(),
            sigs_match(sigs@, page, edge),
            forall|k: int| 0 <= k < i ==> band_sig(#[trigger] page[k], edge) != Some(sig@),
        decreases sigs.len() - i,
    {
        let ghost k = i as int;
        assert(band_sig(page[k], edge) is Some ==> sigs@[k] is Some);
        if let Some(s) = &sigs[i] {
            if same_chars(s, sig) {
                assert(band_sig(page[k], edge) == Some(sig@));
                return true;
            }
        }
        i = i + 1;
    }
    false
}

/// Whether more than half of the pages carry `sig` in the band.
fn repeats(
    sigs: &Vec<Vec<Option<Vec<char>>>>,
    sig: &Vec<char>,
    Ghost(pages): Ghost<Seq<Seq<Block>>>,
    Ghost(edge): Ghost<Edge>,
) -> (r: bool)
    requires
        sigs@.len() == pages.len(),
        forall|p: int| 0 <= p < pages.len() ==> sigs_match((#[trigger] sigs@[p])@, pages[p], edge),
    ensures
        r == (2 * carriers(pages, pages.len() as int, edge, sig@) > pages.len()),
{
    let len: usize = sigs.len();
    let mut n: usize = 0;
    let mut p: usize = 0;
    while p < len
        invariant
            p <= len,
            len == sigs@.len(),
            len == pages.len(),
            n <= p,
            n == carriers(pages, p as int, edge, sig@),
            forall|q: int|
                0 <= q < pages.len() ==> sigs_match((#[trigger] sigs@[q])@, pages[q], edge),
        decreases len - p,
    {
        if page_carries(&sigs[p], sig, Ghost(pages[p as int]), Ghost(edge)) {
            n = n + 1;
        }
        p = p + 1;
    }
    n >= len / 2 + 1
}

/// Part the blocks of a page: the furniture, and the rest.
fn part(
    blocks: Vec<Block>,
    all: &Vec<Vec<Option<Vec<char>>>>,
    p: usize,
    Ghost(pages): Ghost<Seq<Seq<Block>>>,
    Ghost(edge): Ghost<Edge>,
) -> (r: (Vec<Block>, Vec<Block>))
    requires
        all@.len() == pages.len(),
        p < pages.len(),
        pages[p as int] == blocks@,
        forall|q: int| 0 <= q < pages.len() ==> sigs_match((#[trigger] all@[q])@, pages[q], edge),
    ensures
        r.0@ == lifted(pages, edge, blocks@),
        r.1@ == kept(pages, edge, blocks@),
{
    let ghost page = blocks@;
    let mut out: Vec<Block> = Vec::new();
    let mut rest: Vec<Block> = Vec::new();
    let mut i: usize = 0;
    proof {
        assert(page.take(0) =~= Seq::empty());
        reveal(Seq::filter);
    }
    let n: usize = blocks.len();
    for block in it: blocks
        invariant
            it.seq() == page,
            i == it.index(),
            n == page.len(),
            pages[p as int] == page,
            p < pages.len(),
            all@.len() == pages.len(),
            forall|q: int|
                0 <= q < pages.len() ==> sigs_match((#[trigger] all@[q])@, pages[q], edge),
            out@ == lifted(pages, edge, page.take(i as int)),
            rest@ == kept(pages, edge, page.take(i as int)),
    {
        proof {
            assert(sigs_match(all@[p as int]@, page, edge));
            let t = page.take(i + 1);
            assert(t.drop_last() =~= page.take(i as int));
            assert(t.last() == page[i as int]);
            reveal(Seq::filter);
        }
        let mut furniture: bool = false;
        if let Some(sig) = &all[p][i] {
            furniture = repeats(all, sig, Ghost(pages), Ghost(edge));
        }
        assert(furniture == is_furniture(pages, edge, page[i as int]));
        if furniture {
            out.push(block);
        } else {
            rest.push(block);
        }
        i = i + 1;
    }
    assert(page.take(n as int) =~= page);
    (out, rest)
}

/// Take the furniture along an edge out of every page, and return one copy of
/// it: that of the first page that has any.
pub fn lift_band(pages: &mut Vec<Page>, edge: Edge) -> (r: Option<Vec<Block>>)
    ensures
        blocks_of(final(pages)@) == bodies(blocks_of(old(pages)@), edge),
        final(pages)@.len() == old(pages)@.len(),
        forall|i: int|
            0 <= i < old(pages)@.len() ==> (#[trigger] final(pages)@[i]).absolute == old(
                pages,
            )@[i].absolute,
        match first_lifted(blocks_of(old(pages)@), edge, 0) {
            None => r is None,
            Some(b) => r is Some && r->0@ == b,
        },
{
    let ghost before = pages@;
    let ghost views = blocks_of(before);
    let sigs: Vec<Vec<Option<Vec<char>>>> = band_sigs(pages, edge);
    let mut found: Option<Vec<Block>> = None;
    let mut p: usize = 0;
    while p < pages.len()
        invariant
            p <= pages@.len(),
            pages@.len() == before.len(),
            views == blocks_of(before),
            sigs@.len() == views.len(),
            forall|q: int|
                0 <= q < views.len() ==> sigs_match((#[trigger] sigs@[q])@, views[q], edge),
            forall|q: int|
                0 <= q < before.len() ==> (#[trigger] pages@[q]).absolute == before[q].absolute,
            forall|q: int| p <= q < before.len() ==> (#[trigger] pages@[q]) == before[q],
            forall|q: int|
                0 <= q < p ==> (#[trigger] pages@[q]).blocks@ == kept(views, edge, views[q]),
            match found {
                None => first_lifted(views, edge, 0) == first_lifted(views, edge, p as int),
                Some(v) => first_lifted(views, edge, 0) == Some(v@),
            },
        decreases pages.len() - p,
    {
        let mut blocks: Vec<Block> = Vec::new();
        core::mem::swap(&mut blocks, &mut pages[p].blocks);
        assert(blocks@ == views[p as int]);
        let (out, rest) = part(blocks, &sigs, p, Ghost(views), Ghost(edge));
        pages[p].blocks = rest;
        if found.is_none() && out.len() > 0 {
            found = Some(out);
        }
        p = p + 1;
    }
    assert(blocks_of(pages@) =~= bodies(views, edge));
    found
}

// ── laws of lifting ─────────────────────────────────────────────────────────

proof fn lemma_filter_member<A>(s: Seq<A>, f: spec_fn(A) -> bool, i: int)
    requires
        0 <= i < s.filter(f).len(),
    ensures
        f(s.filter(f)[i]),
        exists|k: int| 0 <= k < s.len() && s[k] == s.filter(f)[i],
    decreases s.len(),
{
    reveal(Seq::filter);
    if s.len() > 0 {
        let t = s.drop_last();
        if i < t.filter(f).len() {
            lemma_filter_member(t, f, i);
            let k = choose|k: int| 0 <= k < t.len() && t[k] == t.filter(f)[i];
            assert(s[k] == s.filter(f)[i]);
        } else {
            assert(s[s.len() - 1] == s.filter(f)[i]);
        }
    }
}

proof fn lemma_filter_all<A>(s: Seq<A>, f: spec_fn(A) -> bool)
    requires
        forall|k: int| 0 <= k < s.len() ==> f(#[trigger] s[k]),
    ensures
        s.filter(f) == s,
    decreases s.len(),
{
    reveal(Seq::filter);
    if s.len() > 0 {
        let t = s.drop_last();
        assert forall|k: int| 0 <= k < t.len() implies f(#[trigger] t[k]) by {
            assert(t[k] == s[k]);
        }
        lemma_filter_all(t, f);
        assert(s.last() == s[s.len() - 1]);
        assert(s.filter(f) =~= s);
    } else {
        assert(s.filter(f) =~= s);
    }
}

proof fn lemma_filter_none<A>(s: Seq<A>, f: spec_fn(A) -> bool)
    requires
        forall|k: int| 0 <= k < s.len() ==> !f(#[trigger] s[k]),
    ensures
        s.filter(f) == Seq::<A>::empty(),
    decreases s.len(),
{
    reveal(Seq::filter);
    if s.len() > 0 {
        let t = s.drop_last();
        assert forall|k: int| 0 <= k < t.len() implies !f(#[trigger] t[k]) by {
            assert(t[k] == s[k]);
        }
        lemma_filter_none(t, f);
        assert(s.last() == s[s.len() - 1]);
    }
    assert(s.filter(f) =~= Seq::<A>::empty());
}

/// Nothing is lost: what is lifted from a page and what stays are together the
/// blocks of the page.
pub proof fn law_lift_loses_nothing(pages: Seq<Seq<Block>>, edge: Edge, page: Seq<Block>)
    ensures
        page.to_multiset() == lifted(pages, edge, page).to_multiset().add(
            kept(pages, edge, page).to_multiset(),
        ),
    decreases page.len(),
{
    broadcast use vstd::seq_lib::group_to_multiset_ensures;

    reveal(Seq::filter);
    let f = |b: Block| is_furniture(pages, edge, b);
    let g = |b: Block| !is_furniture(pages, edge, b);
    if page.len() > 0 {
        let t = page.drop_last();
        let b = page.last();
        law_lift_loses_nothing(pages, edge, t);
        assert(page =~= t.push(b));
        if is_furniture(pages, edge, b) {
            assert(page.filter(f) == t.filter(f).push(b));
            assert(page.filter(g) == t.filter(g));
        } else {
            assert(page.filter(f) == t.filter(f));
            assert(page.filter(g) == t.filter(g).push(b));
        }
        assert(page.to_multiset() =~= lifted(pages, edge, page).to_multiset().add(
            kept(pages, edge, page).to_multiset(),
        ));
    } else {
        assert(page =~= Seq::empty());
        assert(page.to_multiset() =~= lifted(pages, edge, page).to_multiset().add(
            kept(pages, edge, page).to_multiset(),
        ));
    }
}

/// Only furniture leaves a page: a block outside the band, or one whose
/// signature no majority of pages carries, stays.
pub proof fn law_only_furniture_lifted(pages: Seq<Seq<Block>>, edge: Edge, page: Seq<Block>, i: int)
    requires
        0 <= i < lifted(pages, edge, page).len(),
    ensures
        is_furniture(pages, edge, lifted(pages, edge, page)[i]),
        lies_in_band(lifted(pages, edge, page)[i], edge),
{
    lemma_filter_member(page, |b: Block| is_furniture(pages, edge, b), i);
}

/// Where no block is furniture, every page stays as it is and nothing is
/// lifted.
pub proof fn law_nothing_repeats(pages: Seq<Seq<Block>>, edge: Edge, n: int)
    requires
        forall|p: int, i: int|
            0 <= p < pages.len() && 0 <= i < pages[p].len() ==> !is_furniture(
                pages,
                edge,
                #[trigger] pages[p][i],
            ),
        0 <= n <= pages.len(),
    ensures
        bodies(pages, edge) == pages,
        first_lifted(pages, edge, n) is None,
    decreases pages.len() - n,
{
    assert forall|p: int| 0 <= p < pages.len() implies #[trigger] kept(pages, edge, pages[p])
        == pages[p] by {
        lemma_filter_all(pages[p], |b: Block| !is_furniture(pages, edge, b));
    }
    assert(bodies(pages, edge) =~= pages);
    if n < pages.len() {
        lemma_filter_none(pages[n], |b: Block| is_furniture(pages, edge, b));
        law_nothing_repeats(pages, edge, n + 1);
    }
}

/// The pages have no block but those of other pages, each on its own page.
spec fn are_within(part: Seq<Seq<Block>>, pages: Seq<Seq<Block>>) -> bool {
    &&& part.len() == pages.len()
    &&& forall|p: int, i: int|
        0 <= p < part.len() && 0 <= i < part[p].len() ==> pages[p].contains(#[trigger] part[p][i])
}

proof fn lemma_bodies_within(pages: Seq<Seq<Block>>, edge: Edge)
    ensures
        are_within(bodies(pages, edge), pages),
{
    let part = bodies(pages, edge);
    assert forall|p: int, i: int|
        0 <= p < part.len() && 0 <= i < part[p].len() implies pages[p].contains(
        #[trigger] part[p][i],
    ) by {
        lemma_filter_member(pages[p], |b: Block| !is_furniture(pages, edge, b), i);
    }
}

proof fn lemma_carriers_shrink(
    part: Seq<Seq<Block>>,
    pages: Seq<Seq<Block>>,
    n: int,
    edge: Edge,
    sig: Seq<char>,
)
    requires
        are_within(part, pages),
        0 <= n <= pages.len(),
    ensures
        carriers(part, n, edge, sig) <= carriers(pages, n, edge, sig),
    decreases n,
{
    if n > 0 {
        lemma_carriers_shrink(part, pages, n - 1, edge, sig);
        let page = pages[n - 1];
        let rest = part[n - 1];
        if carries(rest, edge, sig) {
            let i = choose|i: int|
                0 <= i < rest.len() && band_sig(#[trigger] rest[i], edge) == Some(sig);
            assert(page.contains(part[n - 1][i]));
            let k = choose|k: int| 0 <= k < page.len() && page[k] == rest[i];
            assert(band_sig(page[k], edge) == Some(sig));
            assert(carries(page, edge, sig));
        }
    }
}

/// No block of the pages is furniture along the edge.
spec fn is_clear(pages: Seq<Seq<Block>>, edge: Edge) -> bool {
    forall|p: int, i: int|
        0 <= p < pages.len() && 0 <= i < pages[p].len() ==> !is_furniture(
            pages,
            edge,
            #[trigger] pages[p][i],
        )
}

/// Taking blocks away makes no furniture.
proof fn lemma_stays_clear(part: Seq<Seq<Block>>, pages: Seq<Seq<Block>>, edge: Edge)
    requires
        are_within(part, pages),
        is_clear(pages, edge),
    ensures
        is_clear(part, edge),
{
    assert forall|p: int, i: int|
        0 <= p < part.len() && 0 <= i < part[p].len() implies !is_furniture(
        part,
        edge,
        #[trigger] part[p][i],
    ) by {
        let b = part[p][i];
        assert(pages[p].contains(b));
        let k = choose|k: int| 0 <= k < pages[p].len() && pages[p][k] == b;
        assert(!is_furniture(pages, edge, pages[p][k]));
        if let Some(sig) = band_sig(b, edge) {
            lemma_carriers_shrink(part, pages, pages.len() as int, edge, sig);
        }
    }
}

proof fn lemma_bodies_clear(pages: Seq<Seq<Block>>, edge: Edge)
    ensures
        is_clear(bodies(pages, edge), edge),
{
    let rest = bodies(pages, edge);
    lemma_bodies_within(pages, edge);
    assert forall|p: int, i: int|
        0 <= p < rest.len() && 0 <= i < rest[p].len() implies !is_furniture(
        rest,
        edge,
        #[trigger] rest[p][i],
    ) by {
        let b = rest[p][i];
        lemma_filter_member(pages[p], |b: Block| !is_furniture(pages, edge, b), i);
        if let Some(sig) = band_sig(b, edge) {
            lemma_carriers_shrink(rest, pages, pages.len() as int, edge, sig);
        }
    }
}

/// Lifting is complete: pages without their furniture have none left, so that
/// lifting again changes nothing.
pub proof fn law_lift_twice(pages: Seq<Seq<Block>>, edge: Edge)
    ensures
        bodies(bodies(pages, edge), edge) == bodies(pages, edge),
        first_lifted(bodies(pages, edge), edge, 0) is None,
{
    lemma_bodies_clear(pages, edge);
    law_nothing_repeats(bodies(pages, edge), edge, 0);
}

// ── sections ────────────────────────────────────────────────────────────────

/// A section as `blocks_of` each page, and its header and footer.
pub open spec fn is_stripped(a: Section, b: Section) -> bool {
    let pages = blocks_of(a.pages@);
    if pages.len() < 2 || !a.has_height {
        b == a
    } else {
        let mid = bodies(pages, Edge::Top);
        &&& blocks_of(b.pages@) == bodies(mid, Edge::Bottom)
        &&& b.has_height == a.has_height
        &&& forall|i: int|
            0 <= i < a.pages@.len() ==> (#[trigger] b.pages@[i]).absolute == a.pages@[i].absolute
        &&& match first_lifted(pages, Edge::Top, 0) {
            None => b.header == a.header,
            Some(h) => b.header is Some && b.header->0@ == h,
        }
        &&& match first_lifted(mid, Edge::Bottom, 0) {
            None => b.footer == a.footer,
            Some(f) => b.footer is Some && b.footer->0@ == f,
        }
    }
}

/// Lift the header and the footer of a section. A section of one page, or one
/// whose pages have no height, is left as it is.
pub fn strip_section(section: &mut Section)
    ensures
        is_stripped(*old(section), *final(section)),
{
    if section.pages.len() < 2 || !section.has_height {
        return;
    }
    let header: Option<Vec<Block>> = lift_band(&mut section.pages, Edge::Top);
    let footer: Option<Vec<Block>> = lift_band(&mut section.pages, Edge::Bottom);
    if header.is_some() {
        section.header = header;
    }
    if footer.is_some() {
        section.footer = footer;
    }
}

/// Stripping a section a second time changes nothing: the pages keep their
/// blocks, and the section its header and footer.
pub proof fn law_strip_twice(a: Section, b: Section, c: Section)
    requires
        is_stripped(a, b),
        is_stripped(b, c),
    ensures
        blocks_of(c.pages@) == blocks_of(b.pages@),
        c.header == b.header,
        c.footer == b.footer,
        c.has_height == b.has_height,
        forall|i: int|
            0 <= i < b.pages@.len() ==> (#[trigger] c.pages@[i]).absolute == b.pages@[i].absolute,
{
    let pages = blocks_of(a.pages@);
    if pages.len() >= 2 && a.has_height {
        let mid = bodies(pages, Edge::Top);
        let rest = bodies(mid, Edge::Bottom);
        lemma_bodies_clear(pages, Edge::Top);
        lemma_bodies_within(mid, Edge::Bottom);
        lemma_stays_clear(rest, mid, Edge::Top);
        lemma_bodies_clear(mid, Edge::Bottom);
        law_nothing_repeats(rest, Edge::Top, 0);
        law_nothing_repeats(rest, Edge::Bottom, 0);
    }
}

/// A section whose bands carry nothing that most pages repeat is left as it is,
/// block for block.
pub proof fn law_distinct_pages_untouched(a: Section, b: Section)
    requires
        is_stripped(a, b),
        forall|edge: Edge, p: int, i: int|
            0 <= p < a.pages@.len() && 0 <= i < a.pages@[p].blocks@.len()
                ==> !#[trigger] is_furniture(
                blocks_of(a.pages@),
                edge,
                a.pages@[p].blocks@[i],
            ),
    ensures
        blocks_of(b.pages@) == blocks_of(a.pages@),
        b.header == a.header,
        b.footer == a.footer,
{
    let pages = blocks_of(a.pages@);
    if pages.len() >= 2 && a.has_height {
        assert forall|edge: Edge, p: int, i: int|
            0 <= p < pages.len() && 0 <= i < pages[p].len() implies !#[trigger] is_furniture(
            pages,
            edge,
            pages[p][i],
        ) by {
            assert(pages[p][i] == a.pages@[p].blocks@[i]);
        }
        law_nothing_repeats(pages, Edge::Top, 0);
        law_nothing_repeats(pages, Edge::Bottom, 0);
    }
}

/// Lift the running headers and footers of every section.
pub fn strip_running_furniture(sections: &mut [Section])
    ensures
        final(sections)@.len() == old(sections)@.len(),
        forall|i: int|
            0 <= i < old(sections)@.len() ==> is_stripped(
                old(sections)@[i],
                #[trigger] final(sections)@[i],
            ),
{
    let ghost before = sections@;
    let mut i: usize = 0;
    while i < sections.len()
        invariant
            i <= sections@.len(),
            sections@.len() == before.len(),
            before == old(sections)@,
            forall|k: int| 0 <= k < i ==> is_stripped(before[k], #[trigger] sections@[k]),
            forall|k: int| i <= k < before.len() ==> before[k] == #[trigger] sections@[k],
        decreases sections.len() - i,
    {
        strip_section(&mut sections[i]);
        i = i + 1;
    }
}

// ── laws of repetition ──────────────────────────────────────────────────────

proof fn lemma_carriers(pages: Seq<Seq<Block>>, n: int, edge: Edge, sig: Seq<char>)
    requires
        0 <= n <= pages.len(),
    ensures
        carriers(pages, n, edge, sig) == pages.take(n).filter(
            |p: Seq<Block>| carries(p, edge, sig),
        ).len(),
    decreases n,
{
    reveal(Seq::filter);
    if n > 0 {
        lemma_carriers(pages, n - 1, edge, sig);
        assert(pages.take(n).drop_last() =~= pages.take(n - 1));
        assert(pages.take(n).last() == pages[n - 1]);
    }
}

/// What more than half of the pages carry in the band is on no page any more
/// once furniture is lifted; what half of them or fewer carry stays on every
/// page that has it.
pub proof fn law_majority_is_lifted(
    pages: Seq<Seq<Block>>,
    edge: Edge,
    sig: Seq<char>,
    p: int,
)
    requires
        0 <= p < pages.len(),
    ensures
        ({
            let holders = pages.filter(|q: Seq<Block>| carries(q, edge, sig)).len();
            &&& 2 * holders > pages.len() ==> !carries(bodies(pages, edge)[p], edge, sig)
            &&& 2 * holders <= pages.len() ==> carries(bodies(pages, edge)[p], edge, sig) == carries(
                pages[p],
                edge,
                sig,
            )
        }),
{
    lemma_carriers(pages, pages.len() as int, edge, sig);
    assert(pages.take(pages.len() as int) =~= pages);
    let f = |b: Block| !is_furniture(pages, edge, b);
    let page = pages[p];
    let body = bodies(pages, edge)[p];
    assert(body == page.filter(f));
    if carries(body, edge, sig) {
        let i = choose|i: int| 0 <= i < body.len() && band_sig(#[trigger] body[i], edge) == Some(sig);
        lemma_filter_member(page, f, i);
        assert(!is_furniture(pages, edge, body[i]));
        let j = choose|j: int| 0 <= j < page.len() && page[j] == body[i];
        assert(band_sig(page[j], edge) == Some(sig));
    }
    if 2 * carriers(pages, pages.len() as int, edge, sig) <= pages.len() && carries(page, edge, sig) {
        let i = choose|i: int| 0 <= i < page.len() && band_sig(#[trigger] page[i], edge) == Some(sig);
        assert(f(page[i]));
        page.lemma_filter_contains(f, i);
        let j = choose|j: int| 0 <= j < body.len() && body[j] == page[i];
        assert(band_sig(body[j], edge) == Some(sig));
    }
}

/// The furniture that is handed out is that of the first page that has any.
pub proof fn law_furniture_of_the_first_page(pages: Seq<Seq<Block>>, edge: Edge, n: int)
    requires
        0 <= n <= pages.len(),
    ensures
        match first_lifted(pages, edge, n) {
            None => forall|p: int|
                n <= p < pages.len() ==> lifted(pages, edge, #[trigger] pages[p]).len() == 0,
            Some(h) => h.len() > 0 && exists|p: int|
                n <= p < pages.len() && h == lifted(pages, edge, #[trigger] pages[p]) && forall|q: int|
                    n <= q < p ==> lifted(pages, edge, #[trigger] pages[q]).len() == 0,
        },
    decreases pages.len() - n,
{
    if n < pages.len() {
        if lifted(pages, edge, pages[n]).len() > 0 {
            assert(first_lifted(pages, edge, n) == Some(lifted(pages, edge, pages[n])));
        } else {
            law_furniture_of_the_first_page(pages, edge, n + 1);
            if let Some(h) = first_lifted(pages, edge, n + 1) {
                let p = choose|p: int|
                    n + 1 <= p < pages.len() && h == lifted(pages, edge, #[trigger] pages[p])
                        && forall|q: int|
                        n + 1 <= q < p ==> lifted(pages, edge, #[trigger] pages[q]).len() == 0;
                assert(h == lifted(pages, edge, pages[p]));
                assert forall|q: int| n <= q < p implies lifted(pages, edge, #[trigger] pages[q]).len()
                    == 0 by {}
            }
        }
    }
}

/// A header that was found is made of blocks in the top band, and a footer of
/// blocks in the bottom band.
pub proof fn law_headers_come_from_the_top(a: Section, b: Section, i: int)
    requires
        is_stripped(a, b),
        a.header is None,
        a.footer is None,
    ensures
        b.header is Some && 0 <= i < b.header->0@.len() ==> (b.header->0@[i].frame matches Some(f)
            && f.in_top_band),
        b.footer is Some && 0 <= i < b.footer->0@.len() ==> (b.footer->0@[i].frame matches Some(f)
            && f.in_bottom_band),
{
    let pages = blocks_of(a.pages@);
    if pages.len() >= 2 && a.has_height {
        let mid = bodies(pages, Edge::Top);
        law_furniture_of_the_first_page(pages, Edge::Top, 0);
        law_furniture_of_the_first_page(mid, Edge::Bottom, 0);
        if let Some(h) = first_lifted(pages, Edge::Top, 0) {
            if 0 <= i < h.len() {
                let p = choose|p: int|
                    0 <= p < pages.len() && h == lifted(pages, Edge::Top, #[trigger] pages[p]);
                law_only_furniture_lifted(pages, Edge::Top, pages[p], i);
            }
        }
        if let Some(h) = first_lifted(mid, Edge::Bottom, 0) {
            if 0 <= i < h.len() {
                let p = choose|p: int|
                    0 <= p < mid.len() && h == lifted(mid, Edge::Bottom, #[trigger] mid[p]);
                law_only_furniture_lifted(mid, Edge::Bottom, mid[p], i);
            }
        }
    }
}

// ── laws of normalised text ─────────────────────────────────────────────────

proof fn lemma_filter_run(s: Seq<char>, n: int)
    requires
        0 <= n <= s.len(),
        forall|k: int| 0 <= k < n ==> is_digit(#[trigger] s[k]),
    ensures
        s.take(n).filter(|c: char| !is_space(c)) == s.take(n),
        s.take(n).filter(|c: char| !is_space(c)).map_values(|c: char| to_small(c)) == s.take(n),
{
    lemma_filter_all(s.take(n), |c: char| !is_space(c));
    assert(s.take(n).map_values(|c: char| to_small(c)) =~= s.take(n));
}

/// Normalising keeps what is written: where no numbers are folded, the
/// characters that are no white space are those of the text, in their order,
/// with capitals made small.
pub proof fn law_normalising_keeps_what_is_written(s: Seq<char>, gap: bool)
    ensures
        collapsed(s, false, gap).filter(|c: char| !is_space(c)) == s.filter(
            |c: char| !is_space(c),
        ).map_values(|c: char| to_small(c)),
    decreases s.len(),
{
    let solid = |c: char| !is_space(c);
    let low = |c: char| to_small(c);
    let r = collapsed(s, false, gap);
    if s.len() == 0 {
        reveal(Seq::filter);
        assert(r.filter(solid) =~= s.filter(solid).map_values(low));
    } else if is_digit(s[0]) {
        lemma_digit_run(s);
        let n = digit_run(s) as int;
        let t = s.skip(n);
        law_normalising_keeps_what_is_written(t, false);
        lemma_filter_run(s, n);
        assert(s =~= s.take(n) + t);
        Seq::filter_distributes_over_add(s.take(n), t, solid);
        Seq::filter_distributes_over_add(s.take(n), collapsed(t, false, false), solid);
        assert(r == s.take(n) + collapsed(t, false, false));
        assert(r.filter(solid) =~= s.filter(solid).map_values(low));
    } else {
        let t = s.skip(1);
        let one = seq![s[0]];
        assert(s =~= one + t);
        Seq::filter_distributes_over_add(one, t, solid);
        reveal(Seq::filter);
        assert(one.drop_last() =~= Seq::empty());
        assert(one.drop_last().filter(solid) =~= Seq::empty());
        if is_space(s[0]) {
            law_normalising_keeps_what_is_written(t, true);
            assert(one.filter(solid) =~= Seq::empty());
            if !gap {
                let blank = seq![' '];
                Seq::filter_distributes_over_add(blank, collapsed(t, false, true), solid);
                assert(blank.drop_last() =~= Seq::empty());
                assert(blank.drop_last().filter(solid) =~= Seq::empty());
                assert(is_space(blank.last()));
                assert(blank.filter(solid) =~= Seq::empty());
            }
            assert(r.filter(solid) =~= s.filter(solid).map_values(low));
        } else {
            law_normalising_keeps_what_is_written(t, false);
            let small = seq![to_small(s[0])];
            assert(!is_space(to_small(s[0])));
            Seq::filter_distributes_over_add(small, collapsed(t, false, false), solid);
            assert(small.drop_last() =~= Seq::empty());
            assert(small.drop_last().filter(solid) =~= Seq::empty());
            assert(small.filter(solid) =~= small);
            assert(one.filter(solid) =~= one);
            assert(r == small + collapsed(t, false, false));
            assert(r.filter(solid) =~= s.filter(solid).map_values(low));
        }
    }
}

/// White space is only single blanks, and where `gap` says so none in front.
spec fn is_spaced_out(r: Seq<char>, gap: bool) -> bool {
    &&& gap && r.len() > 0 ==> !is_space(r[0])
    &&& forall|i: int| 0 <= i < r.len() && is_space(#[trigger] r[i]) ==> r[i] == ' '
    &&& forall|i: int, j: int|
        #![trigger r[i], r[j]]
        0 <= i && j == i + 1 && j < r.len() && is_space(r[i]) ==> !is_space(r[j])
}

proof fn lemma_spaced_out(s: Seq<char>, fold: bool, gap: bool)
    ensures
        is_spaced_out(collapsed(s, fold, gap), gap),
    decreases s.len(),
{
    let r = collapsed(s, fold, gap);
    if s.len() > 0 {
        if is_digit(s[0]) {
            lemma_digit_run(s);
            let n = digit_run(s) as int;
            lemma_spaced_out(s.skip(n), fold, false);
            let run = if fold && n <= PAGE_NUMBER_MAX_DIGITS {
                seq!['#']
            } else {
                s.take(n)
            };
            let t = collapsed(s.skip(n), fold, false);
            assert(r == run + t);
            assert forall|i: int| 0 <= i < run.len() implies !is_space(#[trigger] run[i]) by {
                if run == s.take(n) {
                    assert(is_digit(s[i]));
                }
            }
            lemma_join_spaced(run, t, gap);
        } else if is_space(s[0]) {
            lemma_spaced_out(s.skip(1), fold, true);
            let t = collapsed(s.skip(1), fold, true);
            if !gap {
                let blank = seq![' '];
                assert(r == blank + t);
                assert forall|i: int, j: int|
                    #![trigger r[i], r[j]]
                    0 <= i && j == i + 1 && j < r.len() && is_space(r[i]) implies !is_space(
                    r[j],
                ) by {
                    if i > 0 {
                        assert(r[i] == t[i - 1] && r[j] == t[j - 1]);
                    } else {
                        assert(r[j] == t[0]);
                    }
                }
                assert forall|i: int| 0 <= i < r.len() && is_space(#[trigger] r[i]) implies r[i]
                    == ' ' by {
                    if i > 0 {
                        assert(r[i] == t[i - 1]);
                    }
                }
            }
        } else {
            lemma_spaced_out(s.skip(1), fold, false);
            let small = seq![to_small(s[0])];
            assert(!is_space(small[0]));
            lemma_join_spaced(small, collapsed(s.skip(1), fold, false), gap);
        }
    }
}

proof fn lemma_join_spaced(a: Seq<char>, t: Seq<char>, gap: bool)
    requires
        a.len() > 0,
        forall|i: int| 0 <= i < a.len() ==> !is_space(#[trigger] a[i]),
        is_spaced_out(t, false),
    ensures
        is_spaced_out(a + t, gap),
{
    let r = a + t;
    let n = a.len() as int;
    assert(r[0] == a[0]);
    assert forall|i: int| 0 <= i < r.len() && is_space(#[trigger] r[i]) implies r[i] == ' ' by {
        if i < n {
            assert(r[i] == a[i]);
        } else {
            assert(r[i] == t[i - n]);
        }
    }
    assert forall|i: int, j: int|
        #![trigger r[i], r[j]]
        0 <= i && j == i + 1 && j < r.len() && is_space(r[i]) implies !is_space(r[j]) by {
        if i < n {
            assert(r[i] == a[i]);
        } else {
            assert(r[i] == t[i - n] && r[j] == t[j - n]);
        }
    }
}

proof fn lemma_without_blanks(s: Seq<char>)
    ensures
        without_blanks(s).len() <= s.len(),
        without_blanks(s) == s.take(without_blanks(s).len() as int),
        without_blanks(s).len() > 0 ==> without_blanks(s).last() != ' ',
    decreases s.len(),
{
    if s.len() > 0 && s.last() == ' ' {
        let t = s.drop_last();
        lemma_without_blanks(t);
        let n = without_blanks(t).len() as int;
        assert(t.take(n) =~= s.take(n));
    } else {
        assert(s.take(s.len() as int) =~= s);
    }
}

/// A normalised text has single blanks between words and no other white space,
/// none of it in front or at the end.
pub proof fn law_normalised_text_has_single_blanks(s: Seq<char>, i: int)
    requires
        0 <= i < normalized(s).len(),
        is_space(normalized(s)[i]),
    ensures
        normalized(s)[i] == ' ',
        0 < i < normalized(s).len() - 1,
        !is_space(normalized(s)[i - 1]),
        !is_space(normalized(s)[i + 1]),
{
    let fold = letters(s) <= PAGE_NUMBER_MAX_LETTERS;
    let r = collapsed(s, fold, true);
    let t = normalized(s);
    lemma_spaced_out(s, fold, true);
    lemma_without_blanks(r);
    assert(t[i] == r[i]);
    assert(t.last() == r[t.len() - 1]);
    assert(t[i] == ' ');
    if i > 0 {
        assert(t[i - 1] == r[i - 1]);
    } else {
        assert(r[0] == t[0]);
    }
    if i < t.len() - 1 {
        assert(t[i + 1] == r[i + 1]);
    }
}

} // verus!
