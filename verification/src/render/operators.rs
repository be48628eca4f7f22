//! The operators of content streams.
use vstd::prelude::*;

verus! {

/// An operator.
#[derive(Clone, Copy, Debug, PartialEq, Eq, Structural)]
pub enum Operator {
    /// `q`
    Save,
    /// `Q`
    Restore,
    /// `cm`
    Concat,
    /// `w`
    LineWidth,
    /// `rg`
    FillRgb,
    /// `RG`
    StrokeRgb,
    /// `g`
    FillGray,
    /// `G`
    StrokeGray,
    /// `k`
    FillCmyk,
    /// `K`
    StrokeCmyk,
    /// `cs`
    FillSpace,
    /// `CS`
    StrokeSpace,
    /// `sc`, `scn`
    FillColor,
    /// `SC`, `SCN`
    StrokeColor,
    /// `gs`
    State,
    /// `m`
    Move,
    /// `l`
    Line,
    /// `c`
    Curve,
    /// `v`
    CurveFromHere,
    /// `y`
    CurveToEnd,
    /// `re`
    Rect,
    /// `W`, and `W*` by the even-odd rule
    Clip { even_odd: bool },
    /// `f`, `F`, `b`, `B`, `S`, `s`, `n`, and the starred ones by the even-odd
    /// rule
    Paint { fill: bool, stroke: bool, even_odd: bool },
    /// `sh`
    Shade,
    /// `Do`
    Draw,
    /// `BI`
    Inline,
    /// `BT`
    BeginText,
    /// `Tf`
    Font,
    /// `Td`
    TextMove,
    /// `TD`
    TextMoveLead,
    /// `Tm`
    TextMatrix,
    /// `T*`
    NextLine,
    /// `TL`
    Leading,
    /// `Tc`
    CharSpace,
    /// `Tw`
    WordSpace,
    /// `Tz`
    Scale,
    /// `Tj`
    Show,
    /// `'`
    NextShow,
    /// `"`
    NextShowSpaced,
    /// `TJ`
    ShowList,
    /// `BDC`
    BeginTagged,
    /// `BMC`
    BeginMarked,
    /// `EMC`
    EndMarked,
    Unknown,
}

/// The operator of one byte.
pub open spec fn operator_1(a: u8) -> Operator {
    if a == 'q' as u8 {
        Operator::Save
    } else if a == 'Q' as u8 {
        Operator::Restore
    } else if a == 'w' as u8 {
        Operator::LineWidth
    } else if a == 'g' as u8 {
        Operator::FillGray
    } else if a == 'G' as u8 {
        Operator::StrokeGray
    } else if a == 'k' as u8 {
        Operator::FillCmyk
    } else if a == 'K' as u8 {
        Operator::StrokeCmyk
    } else if a == 'm' as u8 {
        Operator::Move
    } else if a == 'l' as u8 {
        Operator::Line
    } else if a == 'c' as u8 {
        Operator::Curve
    } else if a == 'v' as u8 {
        Operator::CurveFromHere
    } else if a == 'y' as u8 {
        Operator::CurveToEnd
    } else if a == 'W' as u8 {
        Operator::Clip { even_odd: false }
    } else if a == 'f' as u8 || a == 'F' as u8 {
        Operator::Paint { fill: true, stroke: false, even_odd: false }
    } else if a == 'b' as u8 || a == 'B' as u8 {
        Operator::Paint { fill: true, stroke: true, even_odd: false }
    } else if a == 'S' as u8 || a == 's' as u8 {
        Operator::Paint { fill: false, stroke: true, even_odd: false }
    } else if a == 'n' as u8 {
        Operator::Paint { fill: false, stroke: false, even_odd: false }
    } else if a == '\'' as u8 {
        Operator::NextShow
    } else if a == '"' as u8 {
        Operator::NextShowSpaced
    } else {
        Operator::Unknown
    }
}

/// The operator of two bytes.
pub open spec fn operator_2(a: u8, b: u8) -> Operator {
    if a == 'c' as u8 && b == 'm' as u8 {
        Operator::Concat
    } else if a == 'r' as u8 && b == 'g' as u8 {
        Operator::FillRgb
    } else if a == 'R' as u8 && b == 'G' as u8 {
        Operator::StrokeRgb
    } else if a == 'c' as u8 && b == 's' as u8 {
        Operator::FillSpace
    } else if a == 'C' as u8 && b == 'S' as u8 {
        Operator::StrokeSpace
    } else if a == 's' as u8 && b == 'c' as u8 {
        Operator::FillColor
    } else if a == 'S' as u8 && b == 'C' as u8 {
        Operator::StrokeColor
    } else if a == 'g' as u8 && b == 's' as u8 {
        Operator::State
    } else if a == 'r' as u8 && b == 'e' as u8 {
        Operator::Rect
    } else if a == 'W' as u8 && b == '*' as u8 {
        Operator::Clip { even_odd: true }
    } else if a == 'f' as u8 && b == '*' as u8 {
        Operator::Paint { fill: true, stroke: false, even_odd: true }
    } else if (a == 'b' as u8 || a == 'B' as u8) && b == '*' as u8 {
        Operator::Paint { fill: true, stroke: true, even_odd: true }
    } else if a == 's' as u8 && b == 'h' as u8 {
        Operator::Shade
    } else if a == 'D' as u8 && b == 'o' as u8 {
        Operator::Draw
    } else if a == 'B' as u8 && b == 'I' as u8 {
        Operator::Inline
    } else if a == 'B' as u8 && b == 'T' as u8 {
        Operator::BeginText
    } else if a == 'T' as u8 && b == 'f' as u8 {
        Operator::Font
    } else if a == 'T' as u8 && b == 'd' as u8 {
        Operator::TextMove
    } else if a == 'T' as u8 && b == 'D' as u8 {
        Operator::TextMoveLead
    } else if a == 'T' as u8 && b == 'm' as u8 {
        Operator::TextMatrix
    } else if a == 'T' as u8 && b == '*' as u8 {
        Operator::NextLine
    } else if a == 'T' as u8 && b == 'L' as u8 {
        Operator::Leading
    } else if a == 'T' as u8 && b == 'c' as u8 {
        Operator::CharSpace
    } else if a == 'T' as u8 && b == 'w' as u8 {
        Operator::WordSpace
    } else if a == 'T' as u8 && b == 'z' as u8 {
        Operator::Scale
    } else if a == 'T' as u8 && b == 'j' as u8 {
        Operator::Show
    } else if a == 'T' as u8 && b == 'J' as u8 {
        Operator::ShowList
    } else {
        Operator::Unknown
    }
}

/// The operator of three bytes.
pub open spec fn operator_3(a: u8, b: u8, c: u8) -> Operator {
    if a == 's' as u8 && b == 'c' as u8 && c == 'n' as u8 {
        Operator::FillColor
    } else if a == 'S' as u8 && b == 'C' as u8 && c == 'N' as u8 {
        Operator::StrokeColor
    } else if a == 'B' as u8 && b == 'D' as u8 && c == 'C' as u8 {
        Operator::BeginTagged
    } else if a == 'B' as u8 && b == 'M' as u8 && c == 'C' as u8 {
        Operator::BeginMarked
    } else if a == 'E' as u8 && b == 'M' as u8 && c == 'C' as u8 {
        Operator::EndMarked
    } else {
        Operator::Unknown
    }
}

/// The operator that some bytes name.
pub open spec fn operator_named(s: Seq<u8>) -> Operator {
    if s.len() == 1 {
        operator_1(s[0])
    } else if s.len() == 2 {
        operator_2(s[0], s[1])
    } else if s.len() == 3 {
        operator_3(s[0], s[1], s[2])
    } else {
        Operator::Unknown
    }
}

fn one_byte(a: u8) -> (r: Operator)
    ensures
        r == operator_1(a),
{
    match a as char {
        'q' => Operator::Save,
        'Q' => Operator::Restore,
        'w' => Operator::LineWidth,
        'g' => Operator::FillGray,
        'G' => Operator::StrokeGray,
        'k' => Operator::FillCmyk,
        'K' => Operator::StrokeCmyk,
        'm' => Operator::Move,
        'l' => Operator::Line,
        'c' => Operator::Curve,
        'v' => Operator::CurveFromHere,
        'y' => Operator::CurveToEnd,
        'W' => Operator::Clip { even_odd: false },
        'f' | 'F' => Operator::Paint { fill: true, stroke: false, even_odd: false },
        'b' | 'B' => Operator::Paint { fill: true, stroke: true, even_odd: false },
        'S' | 's' => Operator::Paint { fill: false, stroke: true, even_odd: false },
        'n' => Operator::Paint { fill: false, stroke: false, even_odd: false },
        '\'' => Operator::NextShow,
        '"' => Operator::NextShowSpaced,
        _ => Operator::Unknown,
    }
}

fn two_bytes(a: u8, b: u8) -> (r: Operator)
    ensures
        r == operator_2(a, b),
{
    match (a as char, b as char) {
        ('c', 'm') => Operator::Concat,
        ('r', 'g') => Operator::FillRgb,
        ('R', 'G') => Operator::StrokeRgb,
        ('c', 's') => Operator::FillSpace,
        ('C', 'S') => Operator::StrokeSpace,
        ('s', 'c') => Operator::FillColor,
        ('S', 'C') => Operator::StrokeColor,
        ('g', 's') => Operator::State,
        ('r', 'e') => Operator::Rect,
        ('W', '*') => Operator::Clip { even_odd: true },
        ('f', '*') => Operator::Paint { fill: true, stroke: false, even_odd: true },
        ('b', '*') | ('B', '*') => Operator::Paint { fill: true, stroke: true, even_odd: true },
        ('s', 'h') => Operator::Shade,
        ('D', 'o') => Operator::Draw,
        ('B', 'I') => Operator::Inline,
        ('B', 'T') => Operator::BeginText,
        ('T', 'f') => Operator::Font,
        ('T', 'd') => Operator::TextMove,
        ('T', 'D') => Operator::TextMoveLead,
        ('T', 'm') => Operator::TextMatrix,
        ('T', '*') => Operator::NextLine,
        ('T', 'L') => Operator::Leading,
        ('T', 'c') => Operator::CharSpace,
        ('T', 'w') => Operator::WordSpace,
        ('T', 'z') => Operator::Scale,
        ('T', 'j') => Operator::Show,
        ('T', 'J') => Operator::ShowList,
        _ => Operator::Unknown,
    }
}

fn three_bytes(a: u8, b: u8, c: u8) -> (r: Operator)
    ensures
        r == operator_3(a, b, c),
{
    match (a as char, b as char, c as char) {
        ('s', 'c', 'n') => Operator::FillColor,
        ('S', 'C', 'N') => Operator::StrokeColor,
        ('B', 'D', 'C') => Operator::BeginTagged,
        ('B', 'M', 'C') => Operator::BeginMarked,
        ('E', 'M', 'C') => Operator::EndMarked,
        _ => Operator::Unknown,
    }
}

/// The operator that some bytes name.
pub fn operator_of(name: &[u8]) -> (r: Operator)
    ensures
        r == operator_named(name@),
{
    if name.len() == 1 {
        one_byte(name[0])
    } else if name.len() == 2 {
        two_bytes(name[0], name[1])
    } else if name.len() == 3 {
        three_bytes(name[0], name[1], name[2])
    } else {
        Operator::Unknown
    }
}

} // verus!
