use vstd::prelude::*;
use vstd::string::StrSliceExecFns;

use std::ops::Range;

use crate::fold_map::{
    delta, delta_before, delta_sum, describes, lemma_delta_before_split, lemma_delta_sum_next,
    touched,
};
use crate::point::Point;
use crate::text_summary::{lemma_summary_valid, summary_of, TextSummary, MAX_LEN};

verus! {

/// Which side of text inserted exactly at its position an anchor keeps to.
#[derive(Clone, Copy, Debug, PartialEq, Eq, Structural)]
pub enum Bias {
    /// Stays left of inserted text.
    Left,
    /// Stays right of inserted text.
    Right,
}

/// A position in a buffer that follows the text through later edits.
#[derive(Clone, Copy, Debug, PartialEq, Eq, Structural)]
pub struct Anchor {
    offset: usize,
    bias: Bias,
    version: usize,
}

/// One replacement in the history of a buffer: `start..end` of a text of
/// `old_len` characters became `inserted` new characters.
#[derive(Clone, Copy, Debug, PartialEq, Eq, Structural)]
struct Splice {
    start: usize,
    end: usize,
    inserted: usize,
    old_len: usize,
}

/// A replaced range: `old_range` in the text before, `new_range` after.
#[derive(Debug)]
pub struct Edit {
    pub old_range: Range<usize>,
    pub new_range: Range<usize>,
}

/// Why the buffer refused an input.
#[derive(Clone, Copy, Debug, PartialEq, Eq, Structural)]
pub enum BufferError {
    /// An offset past the end of the text.
    OffsetOutOfRange,
    /// Ranges of an edit that are reversed, unsorted, overlapping or out of
    /// the text, or an edit that would make the text too long.
    InvalidEdit,
    /// A point that no offset of the text reaches.
    PointOutOfRange,
}

/// A text with the history of its edits, so that anchors can be resolved.
pub struct Buffer {
    text: Vec<char>,
    history: Vec<Splice>,
}

spec fn splice_len_after(s: Splice) -> int {
    s.old_len - (s.end - s.start) + s.inserted
}

/// Where an offset of the text before `s` is found in the text after it.
spec fn shift(s: Splice, offset: nat, bias: Bias) -> nat {
    if offset < s.start {
        offset
    } else if offset > s.end {
        (offset - (s.end - s.start) + s.inserted) as nat
    } else if bias == Bias::Left {
        s.start as nat
    } else {
        (s.start + s.inserted) as nat
    }
}

/// The offset that `offset`, taken at `version`, has after the splices of `h`.
spec fn resolve(h: Seq<Splice>, version: int, offset: nat, bias: Bias) -> nat
    decreases h.len() - version,
{
    if version < 0 || version >= h.len() {
        offset
    } else {
        resolve(h, version + 1, shift(h[version], offset, bias), bias)
    }
}

/// `t` with each of the sorted, disjoint ranges `rs`, from `pos` on,
/// replaced by `ins`.
pub open spec fn spliced(t: Seq<char>, rs: Seq<Range<usize>>, ins: Seq<char>, pos: int) -> Seq<
    char,
>
    decreases rs.len(),
{
    if rs.len() == 0 {
        t.subrange(pos, t.len() as int)
    } else {
        t.subrange(pos, rs[0].start as int) + ins + spliced(t, rs.drop_first(), ins, rs[0].end as int)
    }
}

/// The ranges are each in order, sorted, disjoint, and within `len`.
pub open spec fn ranges_ok(rs: Seq<Range<usize>>, len: int) -> bool {
    &&& forall|i: int| 0 <= i < rs.len() ==> #[trigger] rs[i].start <= rs[i].end
    &&& forall|i: int| 0 <= i < rs.len() - 1 ==> #[trigger] rs[i].end <= rs[i + 1].start
    &&& forall|i: int| 0 <= i < rs.len() ==> #[trigger] rs[i].end <= len
}

/// Splice `sp` applies edit `e` in place: at its new start, over as many
/// characters as it replaced.
spec fn splice_agrees(sp: Splice, e: Edit) -> bool {
    &&& sp.start == e.new_range.start
    &&& sp.end == sp.start + (e.old_range.end - e.old_range.start)
    &&& sp.inserted == e.new_range.end - e.new_range.start
}

/// Where offset `pos` goes through edit `e` (with its ranges before and
/// after), for an anchor with `bias`: unchanged before the range, shifted by
/// what the edit adds after it, and to the start (left bias) or the end
/// (right bias) of the new text within it.
pub open spec fn shift_edit(e: Edit, pos: nat, bias: Bias) -> nat {
    let s = e.new_range.start as int;
    let end = s + (e.old_range.end - e.old_range.start);
    let ins = e.new_range.end - e.new_range.start;
    if pos < s {
        pos
    } else if pos > end {
        (pos - (end - s) + ins) as nat
    } else if bias == Bias::Left {
        s as nat
    } else {
        (s + ins) as nat
    }
}

/// Where offset `pos` goes through the edits from `k` on, in order.
pub open spec fn moved_from(es: Seq<Edit>, k: int, pos: nat, bias: Bias) -> nat
    decreases es.len() - k,
{
    if k < 0 || k >= es.len() {
        pos
    } else {
        moved_from(es, k + 1, shift_edit(es[k], pos, bias), bias)
    }
}

proof fn lemma_history_moves(h2: Seq<Splice>, hist: Seq<Splice>, sp: Seq<Splice>, es: Seq<Edit>, a: Anchor)
    requires
        h2 == hist + sp,
        sp.len() == es.len(),
        forall|x: int| 0 <= x < es.len() ==> splice_agrees(sp[x], #[trigger] es[x]),
        forall|x: int| 0 <= x < es.len() ==> (#[trigger] es[x]).old_range.start <= es[x].old_range.end
            && es[x].new_range.start <= es[x].new_range.end,
        a.version <= hist.len(),
    ensures
        resolve(h2, a.version as int, a.offset as nat, a.bias) == moved_from(
            es,
            0,
            resolve(hist, a.version as int, a.offset as nat, a.bias),
            a.bias,
        ),
{
    let n1 = hist.len() as int;
    assert(h2.take(n1) =~= hist);
    assert forall|x: int| 0 <= x < es.len() implies splice_agrees(#[trigger] h2[n1 + x], es[x]) by {
        assert(h2[n1 + x] == sp[x]);
    }
    lemma_resolve_split(h2, a.version as int, a.offset as nat, a.bias, n1);
    lemma_resolve_tail(h2, n1, es, 0, resolve(hist, a.version as int, a.offset as nat, a.bias), a.bias);
}

proof fn lemma_resolve_tail(h: Seq<Splice>, n1: int, es: Seq<Edit>, k: int, pos: nat, b: Bias)
    requires
        0 <= n1,
        h.len() == n1 + es.len(),
        0 <= k <= es.len(),
        forall|x: int| 0 <= x < es.len() ==> splice_agrees(#[trigger] h[n1 + x], es[x]),
        forall|x: int| 0 <= x < es.len() ==> (#[trigger] es[x]).old_range.start <= es[x].old_range.end
            && es[x].new_range.start <= es[x].new_range.end,
    ensures
        resolve(h, n1 + k, pos, b) == moved_from(es, k, pos, b),
    decreases es.len() - k,
{
    if k < es.len() {
        assert(splice_agrees(h[n1 + k], es[k]));
        assert(shift(h[n1 + k], pos, b) == shift_edit(es[k], pos, b));
        lemma_resolve_tail(h, n1, es, k + 1, shift_edit(es[k], pos, b), b);
        assert(n1 + k + 1 == n1 + (k + 1));
    }
}

proof fn lemma_resolve_split(h: Seq<Splice>, v: int, o: nat, b: Bias, m: int)
    requires
        0 <= v <= m <= h.len(),
    ensures
        resolve(h, v, o, b) == resolve(h, m, resolve(h.take(m), v, o, b), b),
    decreases m - v,
{
    if v < m {
        assert(h.take(m)[v] == h[v]);
        lemma_resolve_split(h, v + 1, shift(h[v], o, b), b, m);
    }
}

proof fn lemma_resolve_monotone(h: Seq<Splice>, v: int, o1: nat, o2: nat, b: Bias)
    requires
        0 <= v <= h.len(),
        o1 <= o2,
        forall|i: int| 0 <= i < h.len() ==> (#[trigger] h[i]).start <= h[i].end,
    ensures
        resolve(h, v, o1, b) <= resolve(h, v, o2, b),
    decreases h.len() - v,
{
    if v < h.len() {
        let s = h[v];
        assert(s.start <= s.end);
        lemma_resolve_monotone(h, v + 1, shift(s, o1, b), shift(s, o2, b), b);
    }
}

/// Two anchors with one bias keep their order through later edits.
pub proof fn lemma_resolved_order_kept(earlier: &Buffer, later: &Buffer, a: Anchor, c: Anchor)
    requires
        earlier.extended_by(later),
        later.wf(),
        earlier.anchor_valid(a),
        earlier.anchor_valid(c),
        a.bias_spec() == c.bias_spec(),
        earlier.resolved(a) <= earlier.resolved(c),
    ensures
        later.resolved(a) <= later.resolved(c),
{
    let n1 = earlier.history@.len() as int;
    let h = later.history@;
    assert(h.take(n1) =~= earlier.history@);
    lemma_resolve_split(h, a.version as int, a.offset as nat, a.bias, n1);
    lemma_resolve_split(h, c.version as int, c.offset as nat, c.bias, n1);
    lemma_resolve_monotone(h, n1, earlier.resolved(a), earlier.resolved(c), a.bias);
}

/// Anchors of a buffer stay valid after later edits of it.
pub proof fn lemma_anchor_stays_valid(earlier: &Buffer, later: &Buffer, a: Anchor)
    requires
        earlier.extended_by(later),
        earlier.anchor_valid(a),
    ensures
        later.anchor_valid(a),
{
    if (a.version as int) < earlier.history@.len() {
        assert(later.history@[a.version as int] == earlier.history@[a.version as int]);
    }
}

fn push_str(out: &mut Vec<char>, s: &str)
    ensures
        final(out)@ == old(out)@ + s@,
{
    let ghost before = out@;
    let n = s.unicode_len();
    let mut j: usize = 0;
    while j < n
        invariant
            j <= n,
            n == s@.len(),
            out@ == before + s@.take(j as int),
        decreases n - j,
    {
        out.push(s.get_char(j));
        j = j + 1;
        proof {
            assert(out@ =~= before + s@.take(j as int));
        }
    }
    proof {
        assert(s@.take(n as int) =~= s@);
    }
}

/// The edits `es` turn the old text `t` before `pos` into `out`: they are
/// sorted and disjoint, each new range starts where its old one did shifted
/// by the edits before it, and every other character of `t` before `pos` is
/// found in `out` at its shifted offset.
#[verifier::opaque]
pub open spec fn edits_so_far(t: Seq<char>, out: Seq<char>, pos: int, es: Seq<Edit>) -> bool {
    &&& 0 <= pos <= t.len()
    &&& out.len() == pos + delta_sum(es)
    &&& forall|i: int|
        0 <= i < es.len() ==> {
            &&& (#[trigger] es[i]).old_range.start <= es[i].old_range.end <= pos
            &&& es[i].new_range.start <= es[i].new_range.end <= out.len()
            &&& es[i].new_range.start == es[i].old_range.start + delta_sum(es.take(i))
        }
    &&& forall|i: int, j: int|
        0 <= i < j < es.len() ==> (#[trigger] es[i]).old_range.end <= (
        #[trigger] es[j]).old_range.start && es[i].new_range.end <= es[j].new_range.start
    &&& forall|x: int| 0 <= x < pos && !touched(es, x) ==> #[trigger] kept(t, out, es, x)
}

/// The old character at `x` is found in `out` shifted by the edits before it.
pub open spec fn kept(t: Seq<char>, out: Seq<char>, es: Seq<Edit>, x: int) -> bool {
    0 <= x + delta_before(es, x) < out.len() && out[x + delta_before(es, x)] == t[x]
}

proof fn lemma_so_far_step(
    t: Seq<char>,
    out: Seq<char>,
    pos: int,
    es: Seq<Edit>,
    start: int,
    end: int,
    ins: Seq<char>,
    e: Edit,
)
    requires
        edits_so_far(t, out, pos, es),
        pos <= start <= end <= t.len(),
        e.old_range.start == start,
        e.old_range.end == end,
        e.new_range.start == out.len() + (start - pos),
        e.new_range.end == e.new_range.start + ins.len(),
    ensures
        edits_so_far(t, out + t.subrange(pos, start) + ins, end, es.push(e)),
{
    reveal(edits_so_far);
    let n = es.len() as int;
    let es2 = es.push(e);
    let out2 = out + t.subrange(pos, start) + ins;
    assert(es2.drop_last() =~= es);
    assert(es2.take(n) =~= es);
    lemma_delta_sum_next(es2, n);
    assert(es2.take(n + 1) =~= es2);
    assert forall|i: int| 0 <= i < es2.len() implies {
        &&& (#[trigger] es2[i]).old_range.start <= es2[i].old_range.end <= end
        &&& es2[i].new_range.start <= es2[i].new_range.end <= out2.len()
        &&& es2[i].new_range.start == es2[i].old_range.start + delta_sum(es2.take(i))
    } by {
        if i < n {
            assert(es2[i] == es[i]);
            assert(es2.take(i) =~= es.take(i));
        }
    }
    assert forall|i: int, j: int| 0 <= i < j < es2.len() implies (#[trigger] es2[i]).old_range.end
        <= (#[trigger] es2[j]).old_range.start && es2[i].new_range.end <= es2[j].new_range.start by {
        assert(es2[i] == es[i]);
        if j < n {
            assert(es2[j] == es[j]);
        }
    }
    assert forall|x: int| 0 <= x < end && !touched(es2, x) implies #[trigger] kept(t, out2, es2, x) by {
        assert(x < start) by {
            if x >= start {
                assert(es2[n].old_range.start <= x < es2[n].old_range.end);
            }
        }
        assert(!touched(es, x)) by {
            if touched(es, x) {
                let i = choose|i: int| 0 <= i < es.len() && (#[trigger] es[i]).old_range.start <= x
                    < es[i].old_range.end;
                assert(es2[i] == es[i]);
            }
        }
        assert(delta_before(es2, x) == delta_before(es, x) + if e.old_range.end <= x {
            delta(e)
        } else {
            0
        });
        if x < pos {
            assert(kept(t, out, es, x));
            assert(out2[x + delta_before(es, x)] == out[x + delta_before(es, x)]);
        } else {
            assert forall|i: int| 0 <= i < n implies (#[trigger] es2[i]).old_range.end <= x by {
                assert(es2[i] == es[i]);
            }
            lemma_delta_before_split(es2, x, n);
            assert(out2[x + delta_sum(es)] == t.subrange(pos, start)[x - pos]);
        }
    }
}

proof fn lemma_so_far_done(t: Seq<char>, out: Seq<char>, pos: int, es: Seq<Edit>)
    requires
        edits_so_far(t, out, pos, es),
    ensures
        describes(t, out + t.subrange(pos, t.len() as int), es),
{
    reveal(describes);
    reveal(edits_so_far);
    let new = out + t.subrange(pos, t.len() as int);
    let n = es.len() as int;
    assert(es.take(n) =~= es);
    assert forall|x: int| 0 <= x < t.len() && !touched(es, x) implies 0 <= x + delta_before(es, x)
        < new.len() && new[x + delta_before(es, x)] == t[x] by {
        if x < pos {
            assert(kept(t, out, es, x));
            assert(new[x + delta_before(es, x)] == out[x + delta_before(es, x)]);
        } else {
            lemma_delta_before_split(es, x, n);
        }
    }
    assert forall|i: int, j: int| 0 <= i < j < es.len() implies (#[trigger] es[i]).old_range.start
        <= (#[trigger] es[j]).old_range.start && es[i].new_range.start <= es[j].new_range.start by {
        assert(es[i].old_range.end <= es[j].old_range.start);
    }
}

/// The point that the first `offset` characters of `s` lead to.
pub open spec fn point_at(s: Seq<char>, offset: int) -> (nat, nat) {
    summary_of(s.take(offset)).lines
}

pub open spec fn pair_lt(a: (nat, nat), b: (nat, nat)) -> bool {
    a.0 < b.0 || (a.0 == b.0 && a.1 < b.1)
}

proof fn lemma_point_at_step(s: Seq<char>, i: int)
    requires
        0 <= i < s.len(),
    ensures
        point_at(s, i + 1) == (if s[i] == '\n' {
            (point_at(s, i).0 + 1, 0nat)
        } else {
            (point_at(s, i).0, point_at(s, i).1 + 1)
        }),
{
    reveal(summary_of);
    assert(s.take(i + 1).drop_last() =~= s.take(i));
}

/// Points grow strictly with offsets.
pub proof fn lemma_point_at_increasing(s: Seq<char>, i: int, j: int)
    requires
        0 <= i < j <= s.len(),
    ensures
        pair_lt(point_at(s, i), point_at(s, j)),
    decreases j - i,
{
    lemma_point_at_step(s, j - 1);
    if i < j - 1 {
        lemma_point_at_increasing(s, i, j - 1);
    }
}

impl Anchor {
    pub closed spec fn bias_spec(&self) -> Bias {
        self.bias
    }
}

impl Buffer {
    pub closed spec fn text_spec(&self) -> Seq<char> {
        self.text@
    }

    /// The length of the text at `version`.
    closed spec fn len_at(&self, version: int) -> int {
        if 0 <= version < self.history@.len() {
            self.history@[version].old_len as int
        } else {
            self.text@.len() as int
        }
    }

    pub closed spec fn wf(&self) -> bool {
        &&& self.text@.len() <= MAX_LEN
        &&& self.history@.len() <= usize::MAX
        &&& forall|i: int|
            0 <= i < self.history@.len() ==> {
                let s = #[trigger] self.history@[i];
                &&& s.start <= s.end <= s.old_len <= 2 * MAX_LEN
                &&& s.inserted <= MAX_LEN
                &&& splice_len_after(s) == self.len_at(i + 1)
            }
    }

    /// The anchor this buffer makes at `offset` with `bias`.
    pub closed spec fn anchor_spec(&self, offset: nat, bias: Bias) -> Anchor {
        Anchor { offset: offset as usize, bias, version: self.history@.len() as usize }
    }

    /// An anchor made now stands where it was made.
    pub proof fn lemma_anchor_spec(&self, offset: nat, bias: Bias)
        requires
            self.wf(),
            offset <= self.text_spec().len(),
        ensures
            self.anchor_valid(self.anchor_spec(offset, bias)),
            self.resolved(self.anchor_spec(offset, bias)) == offset,
            self.anchor_spec(offset, bias).bias_spec() == bias,
    {
    }

    pub closed spec fn anchor_valid(&self, a: Anchor) -> bool {
        a.version <= self.history@.len() && a.offset <= self.len_at(a.version as int)
    }

    /// The offset an anchor stands at in the current text.
    pub closed spec fn resolved(&self, a: Anchor) -> nat {
        resolve(self.history@, a.version as int, a.offset as nat, a.bias)
    }

    /// `later` is this buffer after further edits: anchors of this buffer
    /// stay valid in it.
    pub closed spec fn extended_by(&self, later: &Buffer) -> bool {
        &&& self.history@.len() <= later.history@.len()
        &&& forall|i: int|
            0 <= i < self.history@.len() ==> #[trigger] later.history@[i] == self.history@[i]
        &&& later.len_at(self.history@.len() as int) == self.text@.len()
    }

    pub fn new(text: &str) -> (r: Buffer)
        requires
            text@.len() <= MAX_LEN,
        ensures
            r.wf(),
            r.text_spec() == text@,
    {
        let n = text.unicode_len();
        let mut chars: Vec<char> = Vec::new();
        let mut i: usize = 0;
        while i < n
            invariant
                n == text@.len(),
                i <= n,
                chars@ == text@.take(i as int),
            decreases n - i,
        {
            chars.push(text.get_char(i));
            i = i + 1;
            assert(chars@ =~= text@.take(i as int));
        }
        assert(chars@ =~= text@);
        Buffer { text: chars, history: Vec::new() }
    }

    pub proof fn lemma_len_bound(&self)
        requires
            self.wf(),
        ensures
            self.text_spec().len() <= MAX_LEN,
    {
    }

    /// An anchor resolves to an offset of the text.
    pub proof fn lemma_resolved_bound(&self, a: Anchor)
        requires
            self.wf(),
            self.anchor_valid(a),
        ensures
            self.resolved(a) <= self.text_spec().len(),
    {
        self.lemma_resolve_bound_from(a.version as int, a.offset as nat, a.bias);
    }

    proof fn lemma_resolve_bound_from(&self, v: int, o: nat, b: Bias)
        requires
            self.wf(),
            0 <= v <= self.history@.len(),
            o <= self.len_at(v),
        ensures
            resolve(self.history@, v, o, b) <= self.text@.len(),
        decreases self.history@.len() - v,
    {
        if v < self.history@.len() {
            let s = self.history@[v];
            assert(splice_len_after(s) == self.len_at(v + 1));
            self.lemma_resolve_bound_from(v + 1, shift(s, o, b), b);
        }
    }

    pub fn len(&self) -> (r: usize)
        ensures
            r == self.text_spec().len(),
    {
        self.text.len()
    }

    /// The whole text.
    pub fn text(&self) -> (r: Vec<char>)
        ensures
            r@ == self.text_spec(),
    {
        self.text.clone()
    }

    pub fn char_at(&self, offset: usize) -> (r: char)
        requires
            offset < self.text_spec().len(),
        ensures
            r == self.text_spec()[offset as int],
    {
        self.text[offset]
    }

    pub fn anchor_before(&self, offset: usize) -> (r: Result<Anchor, BufferError>)
        requires
            self.wf(),
        ensures
            offset <= self.text_spec().len() <==> r is Ok,
            r is Err ==> r == Err::<Anchor, BufferError>(BufferError::OffsetOutOfRange),
            r matches Ok(a) ==> self.anchor_valid(a) && self.resolved(a) == offset
                && a.bias_spec() == Bias::Left,
            r matches Ok(a) ==> a == self.anchor_spec(offset as nat, Bias::Left),
    {
        self.anchor_at(offset, Bias::Left)
    }

    pub fn anchor_after(&self, offset: usize) -> (r: Result<Anchor, BufferError>)
        requires
            self.wf(),
        ensures
            offset <= self.text_spec().len() <==> r is Ok,
            r is Err ==> r == Err::<Anchor, BufferError>(BufferError::OffsetOutOfRange),
            r matches Ok(a) ==> self.anchor_valid(a) && self.resolved(a) == offset
                && a.bias_spec() == Bias::Right,
            r matches Ok(a) ==> a == self.anchor_spec(offset as nat, Bias::Right),
    {
        self.anchor_at(offset, Bias::Right)
    }

    fn anchor_at(&self, offset: usize, bias: Bias) -> (r: Result<Anchor, BufferError>)
        requires
            self.wf(),
        ensures
            offset <= self.text_spec().len() <==> r is Ok,
            r is Err ==> r == Err::<Anchor, BufferError>(BufferError::OffsetOutOfRange),
            r matches Ok(a) ==> self.anchor_valid(a) && self.resolved(a) == offset
                && a.bias_spec() == bias,
            r matches Ok(a) ==> a == self.anchor_spec(offset as nat, bias),
    {
        if offset > self.text.len() {
            Err(BufferError::OffsetOutOfRange)
        } else {
            Ok(Anchor { offset, bias, version: self.history.len() })
        }
    }

    /// The offset of an anchor in the current text.
    pub fn to_offset(&self, anchor: &Anchor) -> (r: usize)
        requires
            self.wf(),
            self.anchor_valid(*anchor),
        ensures
            r == self.resolved(*anchor),
            r <= self.text_spec().len(),
    {
        let mut v = anchor.version;
        let mut offset = anchor.offset;
        let n = self.history.len();
        while v < n
            invariant
                self.wf(),
                n == self.history@.len(),
                v <= n,
                offset <= self.len_at(v as int),
                resolve(self.history@, v as int, offset as nat, anchor.bias) == self.resolved(
                    *anchor,
                ),
            decreases n - v,
        {
            let s = self.history[v];
            if offset < s.start {
            } else if offset > s.end {
                offset = offset - (s.end - s.start) + s.inserted;
            } else if anchor.bias == Bias::Left {
                offset = s.start;
            } else {
                offset = s.start + s.inserted;
            }
            v = v + 1;
        }
        offset
    }

    /// Orders two anchors by the offsets they resolve to.
    pub fn cmp_anchors(&self, a: &Anchor, b: &Anchor) -> (r: std::cmp::Ordering)
        requires
            self.wf(),
            self.anchor_valid(*a),
            self.anchor_valid(*b),
        ensures
            r == std::cmp::Ordering::Less <==> self.resolved(*a) < self.resolved(*b),
            r == std::cmp::Ordering::Greater <==> self.resolved(*a) > self.resolved(*b),
    {
        let x = self.to_offset(a);
        let y = self.to_offset(b);
        if x < y {
            std::cmp::Ordering::Less
        } else if x > y {
            std::cmp::Ordering::Greater
        } else {
            std::cmp::Ordering::Equal
        }
    }

    /// Replaces each of `ranges` by `new_text` and returns the edits that did
    /// it, each range before and after.
    #[verifier::spinoff_prover]
    pub fn edit(&mut self, ranges: &Vec<Range<usize>>, new_text: &str) -> (r: Result<
        Vec<Edit>,
        BufferError,
    >)
        requires
            old(self).wf(),
        ensures
            final(self).wf(),
            ranges_ok(ranges@, old(self).text_spec().len() as int) && spliced(
                old(self).text_spec(),
                ranges@,
                new_text@,
                0,
            ).len() <= MAX_LEN ==> r is Ok,
            r is Ok ==> ranges_ok(ranges@, old(self).text_spec().len() as int),
            r is Ok ==> final(self).text_spec() == spliced(
                old(self).text_spec(),
                ranges@,
                new_text@,
                0,
            ),
            r is Ok ==> r->Ok_0@.len() == ranges@.len(),
            r is Ok ==> describes(old(self).text_spec(), final(self).text_spec(), r->Ok_0@),
            r is Ok ==> forall|a: Anchor|
                old(self).anchor_valid(a) ==> #[trigger] final(self).resolved(a) == moved_from(
                    r->Ok_0@,
                    0,
                    old(self).resolved(a),
                    a.bias_spec(),
                ),
            r is Ok ==> forall|i: int|
                0 <= i < ranges@.len() ==> (#[trigger] r->Ok_0@[i]).old_range == ranges@[i],
            old(self).extended_by(&*final(self)),
            r is Err ==> *final(self) == *old(self),
    {
        let ghost t = self.text@;
        let ghost ins = new_text@;
        let ghost rs = ranges@;
        let n = new_text.unicode_len();
        let len = self.text.len();
        let mut out: Vec<char> = Vec::new();
        let mut splices: Vec<Splice> = Vec::new();
        let mut edits: Vec<Edit> = Vec::new();
        let mut pos: usize = 0;
        let mut k: usize = 0;
        proof {
            assert(rs.skip(0) =~= rs);
            reveal(edits_so_far);
            assert(edits_so_far(t, out@, 0, edits@));
            assert(out@ + spliced(t, rs, ins, 0) =~= spliced(t, rs, ins, 0));
        }
        while k < ranges.len()
            invariant
                self.wf(),
                ins == new_text@,
                t == self.text@,
                len == t.len(),
                n == ins.len(),
                k <= rs.len(),
                rs == ranges@,
                pos <= len,
                out@.len() <= MAX_LEN,
                ranges_ok(rs.take(k as int), len as int),
                k > 0 ==> pos == rs[k - 1].end,
                k == 0 ==> pos == 0,
                out@ + spliced(t, rs.skip(k as int), ins, pos as int) == spliced(t, rs, ins, 0),
                edits_so_far(t, out@, pos as int, edits@),
                splices@.len() == k,
                edits@.len() == k,
                forall|i: int| 0 <= i < k ==> (#[trigger] edits@[i]).old_range == rs[i],
                forall|i: int| 0 <= i < k ==> splice_agrees(splices@[i], #[trigger] edits@[i]),
                forall|i: int| 0 <= i < k ==> (#[trigger] edits@[i]).old_range.start
                    <= edits@[i].old_range.end && edits@[i].new_range.start <= edits@[i].new_range.end,
                forall|i: int|
                    0 <= i < k ==> {
                        let sp = #[trigger] splices@[i];
                        &&& sp.start <= sp.end <= sp.old_len <= 2 * MAX_LEN
                        &&& sp.inserted <= MAX_LEN
                    },
                forall|i: int|
                    0 <= i < k - 1 ==> splice_len_after(#[trigger] splices@[i]) == splices@[i
                        + 1].old_len,
                k > 0 ==> splices@[0].old_len == len,
                k > 0 ==> splice_len_after(splices@[k - 1]) == out@.len() + (len - pos),
            decreases rs.len() - k,
        {
            let start = ranges[k].start;
            let end = ranges[k].end;
            if start > end || end > len || start < pos {
                return Err(BufferError::InvalidEdit);
            }
            proof {
                assert(rs.skip(k as int).drop_first() =~= rs.skip(k + 1));
                assert(rs.skip(k as int)[0] == rs[k as int]);
            }
            let old_len = out.len() + (len - pos);
            let ghost out0 = out@;
            let ghost es0 = edits@;
            self.push_range(&mut out, pos, start);
            let splice_start = out.len();
            push_str(&mut out, new_text);
            if out.len() > MAX_LEN {
                proof {
                    assert(out@ + spliced(t, rs.skip(k + 1), ins, end as int) =~= spliced(
                        t,
                        rs,
                        ins,
                        0,
                    ));
                }
                return Err(BufferError::InvalidEdit);
            }
            splices.push(
                Splice { start: splice_start, end: splice_start + (end - start), inserted: n, old_len },
            );
            edits.push(Edit { old_range: start..end, new_range: splice_start..out.len() });
            proof {
                assert(splice_agrees(splices@[k as int], edits@[k as int]));
                lemma_so_far_step(t, out0, pos as int, es0, start as int, end as int, ins, edits@[k as int]);
                assert(edits@ =~= es0.push(edits@[k as int]));
                assert(out@ =~= out0 + t.subrange(pos as int, start as int) + ins);
                assert(out@ + spliced(t, rs.skip(k + 1), ins, end as int) =~= spliced(t, rs, ins, 0));
                assert(rs.take(k + 1).drop_last() =~= rs.take(k as int));
                assert forall|x: int| 0 <= x < k + 1 - 1 implies #[trigger] rs.take(k + 1)[x].end
                    <= rs.take(k + 1)[x + 1].start by {
                    if x < k - 1 {
                        assert(rs.take(k as int)[x].end <= rs.take(k as int)[x + 1].start);
                    }
                }
            }
            pos = end;
            k = k + 1;
        }
        proof {
            assert(rs.take(k as int) =~= rs);
            assert(rs.skip(k as int).len() == 0);
        }
        let ghost out0 = out@;
        self.push_range(&mut out, pos, len);
        if out.len() > MAX_LEN {
            return Err(BufferError::InvalidEdit);
        }
        proof {
            lemma_so_far_done(t, out0, pos as int, edits@);
        }
        let ghost old_self = *self;
        let ghost hist = self.history@;
        let ghost sp = splices@;
        let ghost es = edits@;
        self.text = out;
        self.history.append(&mut splices);
        // the history's length is that of a vector, so it fits in usize
        let history_len = self.history.len();
        proof {
            assert(history_len == self.history@.len());
        }
        proof {
            assert(self.history@.len() == hist.len() + k);
            assert forall|x: int| 0 <= x < hist.len() implies #[trigger] self.history@[x]
                == hist[x] by {}
            assert(self.text@.len() <= MAX_LEN);
            assert forall|x: int| 0 <= x < self.history@.len() implies {
                let s = #[trigger] self.history@[x];
                &&& s.start <= s.end <= s.old_len <= 2 * MAX_LEN
                &&& s.inserted <= MAX_LEN
                &&& splice_len_after(s) == self.len_at(x + 1)
            } by {
                if x < hist.len() {
                    assert(old_self.history@[x] == hist[x]);
                    if x + 1 < hist.len() {
                        assert(self.history@[x + 1] == hist[x + 1]);
                    }
                } else {
                    let y = x - hist.len();
                    assert(self.history@[x] == sp[y]);
                    if y + 1 < k {
                        assert(self.history@[x + 1] == sp[y + 1]);
                    }
                }
            }
        }
        proof {
            assert forall|a: Anchor| old_self.anchor_valid(a) implies #[trigger] self.resolved(a)
                == moved_from(es, 0, old_self.resolved(a), a.bias_spec()) by {
                lemma_history_moves(self.history@, hist, sp, es, a);
            }
        }
        Ok(edits)
    }

    /// The offset whose point is `p`.
    pub fn point_to_offset(&self, p: Point) -> (r: Result<usize, BufferError>)
        requires
            self.wf(),
        ensures
            r matches Ok(o) ==> o <= self.text_spec().len() && point_at(self.text_spec(), o as int)
                == p@,
            r is Err <==> forall|o: int|
                0 <= o <= self.text_spec().len() ==> point_at(self.text_spec(), o) != p@,
            r is Err ==> r == Err::<usize, BufferError>(BufferError::PointOutOfRange),
    {
        proof {
            reveal(summary_of);
        }
        let len = self.text.len();
        let mut cur = Point::zero();
        let mut i: usize = 0;
        proof {
            assert(self.text@.take(0) =~= Seq::<char>::empty());
        }
        loop
            invariant
                self.wf(),
                len == self.text@.len(),
                i <= len,
                cur@ == point_at(self.text@, i as int),
                cur.row <= i,
                cur.column <= i,
                forall|k: int| 0 <= k < i ==> point_at(self.text@, k) != p@,
            decreases len - i,
        {
            if cur.row == p.row && cur.column == p.column {
                proof {
                    assert(point_at(self.text_spec(), i as int) == p@);
                    assert(!(forall|o: int|
                        0 <= o <= self.text_spec().len() ==> point_at(self.text_spec(), o) != p@));
                }
                return Ok(i);
            }
            if p.row < cur.row || (p.row == cur.row && p.column < cur.column) {
                proof {
                    assert forall|o: int| 0 <= o <= len implies point_at(self.text@, o) != p@ by {
                        if o > i {
                            lemma_point_at_increasing(self.text@, i as int, o);
                        }
                    }
                }
                return Err(BufferError::PointOutOfRange);
            }
            if i == len {
                return Err(BufferError::PointOutOfRange);
            }
            proof {
                lemma_point_at_step(self.text@, i as int);
            }
            if self.text[i] == '\n' {
                cur = Point::new(cur.row + 1, 0);
            } else {
                cur = Point::new(cur.row, cur.column + 1);
            }
            i = i + 1;
        }
    }

    /// The point of an offset.
    pub fn offset_to_point(&self, offset: usize) -> (r: Result<Point, BufferError>)
        requires
            self.wf(),
        ensures
            r is Ok <==> offset <= self.text_spec().len(),
            r matches Ok(p) ==> p@ == point_at(self.text_spec(), offset as int),
            r is Err ==> r == Err::<Point, BufferError>(BufferError::OffsetOutOfRange),
    {
        if offset > self.text.len() {
            return Err(BufferError::OffsetOutOfRange);
        }
        let s = self.text_summary_for_range(0, offset);
        proof {
            assert(self.text@.subrange(0, offset as int) =~= self.text@.take(offset as int));
        }
        Ok(s.lines)
    }

    fn push_range(&self, out: &mut Vec<char>, lo: usize, hi: usize)
        requires
            lo <= hi <= self.text@.len(),
        ensures
            final(out)@ == old(out)@ + self.text@.subrange(lo as int, hi as int),
    {
        let ghost before = out@;
        let mut i = lo;
        while i < hi
            invariant
                lo <= i <= hi <= self.text@.len(),
                out@ == before + self.text@.subrange(lo as int, i as int),
            decreases hi - i,
        {
            out.push(self.text[i]);
            i = i + 1;
            proof {
                assert(out@ =~= before + self.text@.subrange(lo as int, i as int));
            }
        }
    }

    /// The summary of the characters `lo..hi`.
    pub fn text_summary_for_range(&self, lo: usize, hi: usize) -> (r: TextSummary)
        requires
            self.wf(),
            lo <= hi <= self.text_spec().len(),
        ensures
            r@ == summary_of(self.text_spec().subrange(lo as int, hi as int)),
    {
        proof {
            reveal(summary_of);
        }
        let mut acc = TextSummary::zero();
        let mut i = lo;
        while i < hi
            invariant
                self.wf(),
                lo <= i <= hi <= self.text@.len(),
                acc@ == summary_of(self.text@.subrange(lo as int, i as int)),
            decreases hi - i,
        {
            let c = self.text[i];
            proof {
                reveal(summary_of);
                let s = self.text@.subrange(lo as int, i as int);
                lemma_summary_valid(s);
                assert(self.text@.subrange(lo as int, i + 1) =~= s.push(c));
                assert(s.push(c).drop_last() =~= s);
            }
            let cs = TextSummary::from_char(c);
            proof {
                lemma_summary_valid(seq![c]);
                assert(seq![c].drop_last() =~= Seq::<char>::empty());
            }
            acc = acc.add(&cs);
            i = i + 1;
        }
        acc
    }

    pub fn text_summary(&self) -> (r: TextSummary)
        requires
            self.wf(),
        ensures
            r@ == summary_of(self.text_spec()),
    {
        proof {
            assert(self.text@.subrange(0, self.text@.len() as int) =~= self.text@);
        }
        self.text_summary_for_range(0, self.text.len())
    }
}

} // verus!
