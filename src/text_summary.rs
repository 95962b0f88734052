use vstd::prelude::*;

use crate::point::{point_add, Point};

verus! {

/// What a run of characters amounts to, as mathematical values.
pub struct SummaryModel {
    pub bytes: nat,
    pub chars: nat,
    /// Rows and the column after the last character.
    pub lines: (nat, nat),
    pub first_line_len: nat,
    /// The earliest position with the largest column.
    pub rightmost: (nat, nat),
}

pub open spec fn utf8_len(c: char) -> nat {
    if (c as u32) < 0x80 {
        1
    } else if (c as u32) < 0x800 {
        2
    } else if (c as u32) < 0x10000 {
        3
    } else {
        4
    }
}

pub open spec fn zero_model() -> SummaryModel {
    SummaryModel { bytes: 0, chars: 0, lines: (0, 0), first_line_len: 0, rightmost: (0, 0) }
}

pub open spec fn char_model(c: char) -> SummaryModel {
    if c == '\n' {
        SummaryModel { bytes: 1, chars: 1, lines: (1, 0), first_line_len: 0, rightmost: (0, 0) }
    } else {
        SummaryModel {
            bytes: utf8_len(c),
            chars: 1,
            lines: (0, 1),
            first_line_len: 1,
            rightmost: (0, 1),
        }
    }
}

/// The summary of the concatenation of two runs.
pub open spec fn concat(a: SummaryModel, b: SummaryModel) -> SummaryModel {
    let joined = a.lines.1 + b.first_line_len;
    let r1 = if joined > a.rightmost.1 {
        (a.lines.0, joined)
    } else {
        a.rightmost
    };
    let r2 = if b.rightmost.1 > r1.1 {
        point_add(a.lines, b.rightmost)
    } else {
        r1
    };
    SummaryModel {
        bytes: a.bytes + b.bytes,
        chars: a.chars + b.chars,
        lines: point_add(a.lines, b.lines),
        first_line_len: if a.lines.0 == 0 {
            a.first_line_len + b.first_line_len
        } else {
            a.first_line_len
        },
        rightmost: r2,
    }
}

/// The summary of a run of characters, one character at a time.
#[verifier::opaque]
pub open spec fn summary_of(s: Seq<char>) -> SummaryModel
    decreases s.len(),
{
    if s.len() == 0 {
        zero_model()
    } else {
        concat(summary_of(s.drop_last()), char_model(s.last()))
    }
}

/// The facts that every summary of a run satisfies.
pub open spec fn valid_model(m: SummaryModel) -> bool {
    &&& m.first_line_len <= m.rightmost.1
    &&& m.lines.1 <= m.rightmost.1
    &&& m.rightmost.0 <= m.lines.0
    &&& (m.rightmost.0 == 0 ==> m.rightmost.1 == m.first_line_len)
    &&& (m.lines.0 == 0 ==> m.first_line_len == m.lines.1 && m.rightmost == m.lines)
    &&& m.lines.0 <= m.chars
    &&& m.lines.1 <= m.chars
    &&& m.rightmost.1 <= m.chars
    &&& m.chars <= m.bytes <= 4 * m.chars
}

pub proof fn lemma_concat_valid(a: SummaryModel, b: SummaryModel)
    requires
        valid_model(a),
        valid_model(b),
    ensures
        valid_model(concat(a, b)),
{
}

pub proof fn lemma_concat_assoc(a: SummaryModel, b: SummaryModel, c: SummaryModel)
    requires
        valid_model(a),
        valid_model(b),
        valid_model(c),
    ensures
        concat(concat(a, b), c) == concat(a, concat(b, c)),
{
}

pub proof fn lemma_summary_valid(s: Seq<char>)
    ensures
        valid_model(summary_of(s)),
        summary_of(s).chars == s.len(),
    decreases s.len(),
{
    reveal(summary_of);
    if s.len() > 0 {
        lemma_summary_valid(s.drop_last());
        lemma_concat_valid(summary_of(s.drop_last()), char_model(s.last()));
    }
}

/// Summaries add up: the summary of `s + t` is the concatenation of theirs.
pub proof fn lemma_summary_append(s: Seq<char>, t: Seq<char>)
    ensures
        summary_of(s + t) == concat(summary_of(s), summary_of(t)),
    decreases t.len(),
{
    reveal(summary_of);
    lemma_summary_valid(s);
    if t.len() == 0 {
        assert(s + t =~= s);
    } else {
        let t0 = t.drop_last();
        let c = t.last();
        assert((s + t).drop_last() =~= s + t0);
        assert((s + t).last() == c);
        lemma_summary_append(s, t0);
        lemma_summary_valid(t0);
        lemma_concat_assoc(summary_of(s), summary_of(t0), char_model(c));
    }
}


/// The summary of a run: its bytes in UTF-8, its characters, its extent as a
/// point, the length of its first line and its rightmost point.
#[derive(Clone, Copy, Debug, PartialEq, Eq, Structural)]
pub struct TextSummary {
    pub bytes: usize,
    pub chars: usize,
    pub lines: Point,
    pub first_line_len: u32,
    pub rightmost_point: Point,
}

impl View for TextSummary {
    type V = SummaryModel;

    open spec fn view(&self) -> SummaryModel {
        SummaryModel {
            bytes: self.bytes as nat,
            chars: self.chars as nat,
            lines: self.lines@,
            first_line_len: self.first_line_len as nat,
            rightmost: self.rightmost_point@,
        }
    }
}

/// The most characters a run may hold, so that its byte count and every
/// row and column fit in 32 bits.
pub const MAX_LEN: usize = 0x3fff_ffff;

/// A summary of at most `MAX_LEN` characters: every field fits its type.
pub open spec fn small_model(m: SummaryModel) -> bool {
    valid_model(m) && m.chars <= MAX_LEN
}

impl TextSummary {
    pub fn zero() -> (r: TextSummary)
        ensures
            r@ == zero_model(),
    {
        TextSummary {
            bytes: 0,
            chars: 0,
            lines: Point::zero(),
            first_line_len: 0,
            rightmost_point: Point::zero(),
        }
    }

    /// The summary of one character.
    pub fn from_char(c: char) -> (r: TextSummary)
        ensures
            r@ == char_model(c),
    {
        if c == '\n' {
            TextSummary {
                bytes: 1,
                chars: 1,
                lines: Point::new(1, 0),
                first_line_len: 0,
                rightmost_point: Point::zero(),
            }
        } else {
            let code = c as u32;
            let bytes: usize = if code < 0x80 {
                1
            } else if code < 0x800 {
                2
            } else if code < 0x10000 {
                3
            } else {
                4
            };
            TextSummary {
                bytes,
                chars: 1,
                lines: Point::new(0, 1),
                first_line_len: 1,
                rightmost_point: Point::new(0, 1),
            }
        }
    }

    /// The summary of this run followed by `other`.
    pub fn add(&self, other: &TextSummary) -> (r: TextSummary)
        requires
            valid_model(self@),
            valid_model(other@),
            self@.chars + other@.chars <= MAX_LEN,
        ensures
            r@ == concat(self@, other@),
            small_model(r@),
    {
        proof {
            lemma_concat_valid(self@, other@);
        }
        let joined = self.lines.column + other.first_line_len;
        let mut rightmost = self.rightmost_point;
        if joined > rightmost.column {
            rightmost = Point::new(self.lines.row, joined);
        }
        if other.rightmost_point.column > rightmost.column {
            rightmost = self.lines.add(other.rightmost_point);
        }
        let first_line_len = if self.lines.row == 0 {
            self.first_line_len + other.first_line_len
        } else {
            self.first_line_len
        };
        TextSummary {
            bytes: self.bytes + other.bytes,
            chars: self.chars + other.chars,
            lines: self.lines.add(other.lines),
            first_line_len,
            rightmost_point: rightmost,
        }
    }
}

} // verus!
