//! Captions of figures.
use super::flatten::{paragraph_text, text_of};
use super::model::{Block, BlockKind};
use super::select::{find_best, first_best, law_first_best};
use super::text::{chars_of, is_lower, is_upper, small, start_of, to_small, trim_start};
use vstd::prelude::*;

verus! {

pub open spec fn is_letter(c: char) -> bool {
    is_lower(c) || is_upper(c)
}

/// `t` opens with `cue`, capitals or not, and no ASCII letter follows.
pub open spec fn opens_with(t: Seq<char>, cue: Seq<char>) -> bool {
    &&& cue.len() <= t.len()
    &&& forall|k: int| 0 <= k < cue.len() ==> to_small(#[trigger] t[k]) == cue[k]
    &&& cue.len() < t.len() ==> !is_letter(to_small(t[cue.len() as int]))
}

/// The text opens with a caption word, white space in front aside.
pub open spec fn is_caption(s: Seq<char>) -> bool {
    let t = trim_start(s);
    ||| opens_with(t, "figure"@)
    ||| opens_with(t, "fig."@)
    ||| opens_with(t, "table"@)
    ||| opens_with(t, "tableau"@)
    ||| opens_with(t, "image"@)
    ||| opens_with(t, "illustration"@)
}

fn starts_with_cue(v: &Vec<char>, from: usize, cue: &str) -> (r: bool)
    requires
        from <= v@.len(),
    ensures
        r == opens_with(v@.skip(from as int), cue@),
{
    let c: Vec<char> = chars_of(cue);
    let n: usize = c.len();
    let ghost t = v@.skip(from as int);
    let len: usize = v.len();
    if len - from < n {
        return false;
    }
    let mut k: usize = 0;
    while k < n
        invariant
            k <= n,
            n == c@.len(),
            c@ == cue@,
            from + n <= len,
            len == v@.len(),
            t == v@.skip(from as int),
            forall|j: int| 0 <= j < k ==> to_small(#[trigger] t[j]) == cue@[j],
        decreases n - k,
    {
        assert(t[k as int] == v@[from + k]);
        if small(v[from + k]) != c[k] {
            assert(to_small(t[k as int]) != cue@[k as int]);
            return false;
        }
        k = k + 1;
    }
    if from + n < len {
        assert(t[n as int] == v@[from + n]);
        let next: char = small(v[from + n]);
        !(('a' <= next && next <= 'z') || ('A' <= next && next <= 'Z'))
    } else {
        true
    }
}

/// Whether a text opens with a caption word.
pub fn is_caption_text(text: &str) -> (r: bool)
    ensures
        r == is_caption(text@),
{
    let v: Vec<char> = chars_of(text);
    let from: usize = start_of(&v);
    starts_with_cue(&v, from, "figure") || starts_with_cue(&v, from, "fig.") || starts_with_cue(
        &v,
        from,
        "table",
    ) || starts_with_cue(&v, from, "tableau") || starts_with_cue(&v, from, "image")
        || starts_with_cue(&v, from, "illustration")
}

/// Block `i` can be the caption: a paragraph that opens as one, at a place that
/// qualifies.
pub open spec fn is_candidate(blocks: Seq<Block>, gaps: Seq<Option<i64>>, i: int) -> bool {
    &&& gaps[i] is Some
    &&& blocks[i].kind matches BlockKind::Paragraph(p) && is_caption(text_of(p))
}

/// The gaps of the blocks that can be the caption.
pub open spec fn candidate_gaps(blocks: Seq<Block>, gaps: Seq<Option<i64>>) -> Seq<Option<i64>> {
    Seq::new(
        blocks.len(),
        |i: int|
            if is_candidate(blocks, gaps, i) {
                gaps[i]
            } else {
                None
            },
    )
}

/// The caption: the first candidate at the smallest gap.
pub open spec fn best_candidate(blocks: Seq<Block>, gaps: Seq<Option<i64>>) -> Option<int> {
    first_best(candidate_gaps(blocks, gaps), false, blocks.len() as int)
}

/// The text of the caption of an image, taken out of the blocks. `gaps` says of
/// each block whether its place qualifies, and how near it is.
pub fn take_caption_for(blocks: &mut Vec<Block>, gaps: &[Option<i64>]) -> (r: Option<String>)
    requires
        gaps@.len() == old(blocks)@.len(),
    ensures
        match best_candidate(old(blocks)@, gaps@) {
            None => r is None && final(blocks)@ == old(blocks)@,
            Some(i) => {
                &&& 0 <= i < old(blocks)@.len()
                &&& old(blocks)@[i].kind matches BlockKind::Paragraph(p) && r is Some && r->0@
                    == text_of(p)
                &&& final(blocks)@ == old(blocks)@.remove(i)
            },
        },
{
    let mut keys: Vec<Option<i64>> = Vec::new();
    let mut i: usize = 0;
    while i < blocks.len()
        invariant
            i <= blocks@.len(),
            blocks@ == old(blocks)@,
            gaps@.len() == blocks@.len(),
            keys@ =~= candidate_gaps(blocks@, gaps@).take(i as int),
        decreases blocks.len() - i,
    {
        let mut key: Option<i64> = None;
        if let BlockKind::Paragraph(para) = &blocks[i].kind {
            if gaps[i].is_some() {
                let text: String = paragraph_text(para);
                if is_caption_text(text.as_str()) {
                    key = gaps[i];
                }
            }
        }
        keys.push(key);
        i = i + 1;
    }
    assert(keys@ =~= candidate_gaps(blocks@, gaps@));
    let best: Option<usize> = find_best(keys.as_slice(), false);
    proof {
        law_first_best(keys@, false, keys@.len() as int);
    }
    match best {
        None => None,
        Some(k) => {
            let block: Block = blocks.remove(k);
            match block.kind {
                BlockKind::Paragraph(para) => Some(paragraph_text(&para)),
                _ => None,
            }
        },
    }
}

/// A paragraph that does not open as a caption is never taken, and of those that
/// do none is nearer.
pub proof fn law_only_captions_taken(blocks: Seq<Block>, gaps: Seq<Option<i64>>)
    requires
        gaps.len() == blocks.len(),
    ensures
        best_candidate(blocks, gaps) matches Some(i) ==> {
            &&& 0 <= i < blocks.len()
            &&& is_candidate(blocks, gaps, i)
            &&& forall|k: int|
                0 <= k < blocks.len() && #[trigger] is_candidate(blocks, gaps, k) ==> gaps[i]->0
                    <= gaps[k]->0
        },
        best_candidate(blocks, gaps) is None ==> forall|k: int|
            0 <= k < blocks.len() ==> !(#[trigger] is_candidate(blocks, gaps, k)),
{
    let keys = candidate_gaps(blocks, gaps);
    law_first_best(keys, false, blocks.len() as int);
    assert(forall|k: int|
        0 <= k < blocks.len() && #[trigger] is_candidate(blocks, gaps, k) ==> keys[k] == gaps[k]);
}

/// Whether a text is a caption does not depend on capitals, nor on what stands
/// more than a word in: texts without white space in front that agree up to
/// capitals are both captions or both not.
pub proof fn law_captions_ignore_capitals(s: Seq<char>, t: Seq<char>)
    requires
        s.len() == t.len(),
        trim_start(s) == s,
        trim_start(t) == t,
        forall|k: int| 0 <= k < s.len() ==> to_small(#[trigger] s[k]) == to_small(t[k]),
    ensures
        is_caption(s) == is_caption(t),
{
    lemma_opens_alike(s, t, "figure"@);
    lemma_opens_alike(s, t, "fig."@);
    lemma_opens_alike(s, t, "table"@);
    lemma_opens_alike(s, t, "tableau"@);
    lemma_opens_alike(s, t, "image"@);
    lemma_opens_alike(s, t, "illustration"@);
}

proof fn lemma_opens_alike(s: Seq<char>, t: Seq<char>, cue: Seq<char>)
    requires
        s.len() == t.len(),
        forall|k: int| 0 <= k < s.len() ==> to_small(#[trigger] s[k]) == to_small(t[k]),
    ensures
        opens_with(s, cue) == opens_with(t, cue),
{
    if opens_with(s, cue) {
        assert forall|k: int| 0 <= k < cue.len() implies to_small(#[trigger] t[k]) == cue[k] by {
            assert(to_small(s[k]) == cue[k]);
        }
        if cue.len() < s.len() {
            assert(to_small(s[cue.len() as int]) == to_small(t[cue.len() as int]));
        }
    }
    if opens_with(t, cue) {
        assert forall|k: int| 0 <= k < cue.len() implies to_small(#[trigger] s[k]) == cue[k] by {
            assert(to_small(s[k]) == to_small(t[k]));
        }
        if cue.len() < s.len() {
            assert(to_small(s[cue.len() as int]) == to_small(t[cue.len() as int]));
        }
    }
}

/// A caption word alone, or with anything but a letter behind it, opens a
/// caption; as the start of a longer word it does not.
pub proof fn law_caption_words_stand_alone(c: char, rest: Seq<char>)
    ensures
        ({
            let s = "image"@.push(c) + rest;
            is_caption(s) <==> !is_letter(c)
        }),
        ({
            let s = "figure"@.push(c) + rest;
            is_caption(s) <==> !is_letter(c)
        }),
{
    reveal_strlit("figure");
    reveal_strlit("fig.");
    reveal_strlit("table");
    reveal_strlit("tableau");
    reveal_strlit("image");
    reveal_strlit("illustration");
    let s = "image"@.push(c) + rest;
    assert(s[0] == 'i' && s[1] == 'm' && s[2] == 'a' && s[3] == 'g' && s[4] == 'e' && s[5] == c);
    assert(trim_start(s) == s);
    assert("figure"@[0] == 'f' && "fig."@[0] == 'f' && "table"@[0] == 't' && "tableau"@[0] == 't');
    assert("illustration"@[1] == 'l');
    assert(to_small(s[0]) == 'i' && to_small(s[1]) == 'm');
    assert(!opens_with(s, "figure"@));
    assert(!opens_with(s, "fig."@));
    assert(!opens_with(s, "table"@));
    assert(!opens_with(s, "tableau"@));
    assert(!opens_with(s, "illustration"@));
    assert(is_letter(to_small(c)) == is_letter(c));
    assert(opens_with(s, "image"@) <==> !is_letter(c));
    let t = "figure"@.push(c) + rest;
    assert(t[0] == 'f' && t[1] == 'i' && t[2] == 'g' && t[3] == 'u' && t[4] == 'r' && t[5] == 'e'
        && t[6] == c);
    assert(trim_start(t) == t);
    assert("image"@[0] == 'i' && "illustration"@[0] == 'i' && "fig."@[3] == '.');
    assert(to_small(t[0]) == 'f' && to_small(t[3]) == 'u');
    assert(!opens_with(t, "image"@));
    assert(!opens_with(t, "fig."@));
    assert(!opens_with(t, "table"@));
    assert(!opens_with(t, "tableau"@));
    assert(!opens_with(t, "illustration"@));
    assert(opens_with(t, "figure"@) <==> !is_letter(c));
}

} // verus!
