//! Block identities.
use super::model::{Align, Block, BlockId, BlockKind, Paragraph, ParagraphStyle, Rotation};
use vstd::prelude::*;

verus! {

/// A source of increasing block identities.
#[derive(Debug)]
pub struct IdGen(u64);

impl Default for IdGen {
    fn default() -> (g: IdGen)
        ensures
            g.next() == 0,
    {
        IdGen(0)
    }
}

impl IdGen {
    /// The number of the next identity.
    pub closed spec fn next(&self) -> nat {
        self.0 as nat
    }

    /// Whether there are numbers left for `n` more identities.
    pub fn has_room(&self, n: usize) -> (r: bool)
        ensures
            r == (self.next() + n <= u64::MAX),
    {
        n as u64 <= u64::MAX - self.0
    }

    /// Mint the next identity.
    pub fn mint(&mut self) -> (id: BlockId)
        requires
            old(self).next() < u64::MAX,
        ensures
            id.0 == old(self).next(),
            final(self).next() == old(self).next() + 1,
    {
        let id = BlockId(self.0);
        self.0 = self.0 + 1;
        id
    }
}

// ── placeholders ────────────────────────────────────────────────────────────

/// The high bit of an identity marks the placeholder of a line; the other bits
/// are the line's number.
pub const PENDING_TAG: u64 = 0x8000_0000_0000_0000;

/// The line that an identity stands for.
pub open spec fn pending_of(id: BlockId) -> Option<nat> {
    if id.0 >= PENDING_TAG {
        Some((id.0 - PENDING_TAG) as nat)
    } else {
        None
    }
}

/// The placeholder of a line: a paragraph without text.
pub fn make_pending(line_idx: usize) -> (b: Block)
    requires
        line_idx < PENDING_TAG,
    ensures
        pending_of(b.id) == Some(line_idx as nat),
        b.frame is None,
        b.rotation == Rotation::D0,
        b.kind matches BlockKind::Paragraph(p) && p.runs@.len() == 0 && p.style == (
        ParagraphStyle { align: Align::Left, spacing: 0 }),
{
    Block {
        id: BlockId(PENDING_TAG + line_idx as u64),
        frame: None,
        rotation: Rotation::D0,
        kind: BlockKind::Paragraph(
            Paragraph {
                style: ParagraphStyle { align: Align::Left, spacing: 0 },
                runs: Vec::new(),
            },
        ),
    }
}

/// The line that a block is the placeholder of.
pub fn pending_line(block: &Block) -> (r: Option<usize>)
    requires
        pending_of(block.id) matches Some(n) ==> n <= usize::MAX,
    ensures
        match pending_of(block.id) {
            Some(n) => r == Some(n as usize) && r->0 == n,
            None => r is None,
        },
{
    let raw: u64 = block.id.0;
    if raw >= PENDING_TAG {
        Some((raw - PENDING_TAG) as usize)
    } else {
        None
    }
}

/// A minted identity is no placeholder, as long as fewer than half of all
/// numbers are used up.
pub proof fn law_minted_is_not_pending(n: nat)
    requires
        n < PENDING_TAG,
    ensures
        pending_of(BlockId(n as u64)) is None,
{
}

} // verus!
