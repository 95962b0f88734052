use vstd::prelude::*;

use crate::point::pair_le;
use crate::text_summary::{
    concat, lemma_concat_assoc, lemma_concat_valid, valid_model, zero_model, SummaryModel,
    TextSummary, MAX_LEN,
};

verus! {

/// The two summaries of one stretch of a folded view: what it shows and
/// what it covers of the buffer.
#[derive(Clone, Copy, Debug, PartialEq, Eq, Structural)]
pub struct TransformSummary {
    pub display: TextSummary,
    pub buffer: TextSummary,
}

pub struct PairModel {
    pub display: SummaryModel,
    pub buffer: SummaryModel,
}

impl View for TransformSummary {
    type V = PairModel;

    open spec fn view(&self) -> PairModel {
        PairModel { display: self.display@, buffer: self.buffer@ }
    }
}

/// One tile of a folded view: a fold (shown as `display_text`) or text shown
/// as it is.
#[derive(Clone, Copy, Debug, PartialEq, Eq, Structural)]
pub struct Transform {
    pub summary: TransformSummary,
    pub display_text: Option<char>,
}

pub open spec fn pair_zero() -> PairModel {
    PairModel { display: zero_model(), buffer: zero_model() }
}

pub open spec fn pair_concat(a: PairModel, b: PairModel) -> PairModel {
    PairModel { display: concat(a.display, b.display), buffer: concat(a.buffer, b.buffer) }
}

pub open spec fn pair_valid(m: PairModel) -> bool {
    valid_model(m.display) && valid_model(m.buffer) && m.display.chars <= m.buffer.chars
}

/// The summary of a run of transforms.
#[verifier::opaque]
pub open spec fn sum_of(items: Seq<Transform>) -> PairModel
    decreases items.len(),
{
    if items.len() == 0 {
        pair_zero()
    } else {
        pair_concat(sum_of(items.drop_last()), items.last().summary@)
    }
}

/// The summary of the first `i` transforms.
pub open spec fn prefix(items: Seq<Transform>, i: int) -> PairModel {
    sum_of(items.take(i))
}

/// The ways a cursor can measure its position.
#[derive(Clone, Copy, Debug, PartialEq, Eq, Structural)]
pub enum Dimension {
    BufferOffset,
    DisplayOffset,
    BufferPoint,
    DisplayPoint,
}

/// Where to stop when a seek target falls on the boundary of two items.
#[derive(Clone, Copy, Debug, PartialEq, Eq, Structural)]
pub enum SeekBias {
    /// Stop on the item whose end is the target.
    Left,
    /// Stop on the item that starts at the target.
    Right,
}

/// A position in a dimension, as a pair ordered lexicographically (an offset
/// is `(0, offset)`).
pub open spec fn key(dim: Dimension, m: PairModel) -> (nat, nat) {
    match dim {
        Dimension::BufferOffset => (0, m.buffer.chars),
        Dimension::DisplayOffset => (0, m.display.chars),
        Dimension::BufferPoint => m.buffer.lines,
        Dimension::DisplayPoint => m.display.lines,
    }
}

/// A seek passes over an item whose end lies before the target, or at it
/// with a right bias.
pub open spec fn passes(dim: Dimension, bias: SeekBias, end: PairModel, target: (nat, nat)) -> bool {
    if bias == SeekBias::Left {
        pair_le(key(dim, end), target) && key(dim, end) != target
    } else {
        pair_le(key(dim, end), target)
    }
}

pub proof fn lemma_pair_concat_valid(a: PairModel, b: PairModel)
    requires
        pair_valid(a),
        pair_valid(b),
    ensures
        pair_valid(pair_concat(a, b)),
{
    lemma_concat_valid(a.display, b.display);
    lemma_concat_valid(a.buffer, b.buffer);
}

pub proof fn lemma_pair_concat_assoc(a: PairModel, b: PairModel, c: PairModel)
    requires
        pair_valid(a),
        pair_valid(b),
        pair_valid(c),
    ensures
        pair_concat(pair_concat(a, b), c) == pair_concat(a, pair_concat(b, c)),
{
    lemma_concat_assoc(a.display, b.display, c.display);
    lemma_concat_assoc(a.buffer, b.buffer, c.buffer);
}

pub open spec fn items_valid(items: Seq<Transform>) -> bool {
    forall|i: int| 0 <= i < items.len() ==> pair_valid(#[trigger] items[i].summary@)
}

pub proof fn lemma_sum_valid(items: Seq<Transform>)
    requires
        items_valid(items),
    ensures
        pair_valid(sum_of(items)),
    decreases items.len(),
{
    reveal(sum_of);
    if items.len() > 0 {
        assert(items_valid(items.drop_last()));
        lemma_sum_valid(items.drop_last());
        lemma_pair_concat_valid(sum_of(items.drop_last()), items.last().summary@);
    }
}

/// Summaries of runs add up.
pub proof fn lemma_sum_append(a: Seq<Transform>, b: Seq<Transform>)
    requires
        items_valid(a),
        items_valid(b),
    ensures
        sum_of(a + b) == pair_concat(sum_of(a), sum_of(b)),
    decreases b.len(),
{
    reveal(sum_of);
    lemma_sum_valid(a);
    if b.len() == 0 {
        assert(a + b =~= a);
    } else {
        let b0 = b.drop_last();
        assert((a + b).drop_last() =~= a + b0);
        assert((a + b).last() == b.last());
        assert(items_valid(b0));
        lemma_sum_append(a, b0);
        lemma_sum_valid(b0);
        lemma_pair_concat_assoc(sum_of(a), sum_of(b0), b.last().summary@);
    }
}

pub proof fn lemma_prefix_next(items: Seq<Transform>, i: int)
    requires
        0 <= i < items.len(),
    ensures
        prefix(items, i + 1) == pair_concat(prefix(items, i), items[i].summary@),
{
    reveal(sum_of);
    assert(items.take(i + 1).drop_last() =~= items.take(i));
}

/// A prefix is valid and covers no more of the buffer than the whole run.
pub proof fn lemma_prefix_bound(items: Seq<Transform>, i: int)
    requires
        items_valid(items),
        0 <= i <= items.len(),
    ensures
        pair_valid(prefix(items, i)),
        prefix(items, i).buffer.chars <= sum_of(items).buffer.chars,
        prefix(items, i).display.chars <= prefix(items, i).buffer.chars,
{
    assert(items_valid(items.take(i)));
    assert(items_valid(items.skip(i)));
    lemma_sum_append(items.take(i), items.skip(i));
    assert(items.take(i) + items.skip(i) =~= items);
    lemma_sum_valid(items.take(i));
    lemma_sum_valid(items.skip(i));
}

impl TransformSummary {
    pub fn zero() -> (r: TransformSummary)
        ensures
            r@ == pair_zero(),
    {
        TransformSummary { display: TextSummary::zero(), buffer: TextSummary::zero() }
    }

    pub fn add(&self, other: &TransformSummary) -> (r: TransformSummary)
        requires
            pair_valid(self@),
            pair_valid(other@),
            self@.buffer.chars + other@.buffer.chars <= MAX_LEN,
        ensures
            r@ == pair_concat(self@, other@),
            pair_valid(r@),
    {
        proof {
            lemma_pair_concat_valid(self@, other@);
        }
        TransformSummary {
            display: self.display.add(&other.display),
            buffer: self.buffer.add(&other.buffer),
        }
    }

    /// The position of this summary in a dimension.
    pub fn key(&self, dim: Dimension) -> (r: (usize, usize))
        requires
            pair_valid(self@),
            self@.buffer.chars <= MAX_LEN,
        ensures
            (r.0 as nat, r.1 as nat) == key(dim, self@),
    {
        match dim {
            Dimension::BufferOffset => (0, self.buffer.chars),
            Dimension::DisplayOffset => (0, self.display.chars),
            Dimension::BufferPoint => (self.buffer.lines.row as usize, self.buffer.lines.column as usize),
            Dimension::DisplayPoint => (
                self.display.lines.row as usize,
                self.display.lines.column as usize,
            ),
        }
    }
}

/// A sequence of transforms with the summary of all of them.
pub struct SumTree {
    items: Vec<Transform>,
    summary: TransformSummary,
}

impl SumTree {
    pub closed spec fn items_spec(&self) -> Seq<Transform> {
        self.items@
    }

    pub open spec fn wf(&self) -> bool {
        &&& items_valid(self.items_spec())
        &&& sum_of(self.items_spec()).buffer.chars <= MAX_LEN
        &&& self.summary_spec() == sum_of(self.items_spec())
    }

    pub closed spec fn summary_spec(&self) -> PairModel {
        self.summary@
    }

    pub fn new() -> (r: SumTree)
        ensures
            r.wf(),
            r.items_spec().len() == 0,
    {
        proof {
            reveal(sum_of);
        }
        SumTree { items: Vec::new(), summary: TransformSummary::zero() }
    }

    pub fn from_item(item: Transform) -> (r: SumTree)
        requires
            pair_valid(item.summary@),
            item.summary@.buffer.chars <= MAX_LEN,
        ensures
            r.wf(),
            r.items_spec() == seq![item],
    {
        proof {
            reveal(sum_of);
        }
        let mut t = SumTree::new();
        t.push(item);
        proof {
            assert(seq![item] =~= Seq::<Transform>::empty().push(item));
        }
        t
    }

    pub fn len(&self) -> (r: usize)
        ensures
            r == self.items_spec().len(),
    {
        self.items.len()
    }

    pub fn get(&self, i: usize) -> (r: Transform)
        requires
            i < self.items_spec().len(),
        ensures
            r == self.items_spec()[i as int],
    {
        self.items[i]
    }

    /// The summary of all items.
    pub fn summary(&self) -> (r: TransformSummary)
        requires
            self.wf(),
        ensures
            r@ == sum_of(self.items_spec()),
    {
        self.summary
    }

    pub fn push(&mut self, item: Transform)
        requires
            old(self).wf(),
            pair_valid(item.summary@),
            sum_of(old(self).items_spec()).buffer.chars + item.summary@.buffer.chars <= MAX_LEN,
        ensures
            final(self).wf(),
            final(self).items_spec() == old(self).items_spec().push(item),
    {
        proof {
            reveal(sum_of);
        }
        proof {
            lemma_sum_valid(self.items@);
        }
        let s = self.summary.add(&item.summary);
        self.items.push(item);
        self.summary = s;
        proof {
            assert(self.items@.drop_last() =~= old(self).items@);
        }
    }

}

/// A position among the items of a tree, with the summary of the items
/// before it.
pub struct Cursor {
    index: usize,
    start: TransformSummary,
}

impl Cursor {
    pub closed spec fn index_spec(&self) -> int {
        self.index as int
    }

    pub closed spec fn start_spec(&self) -> PairModel {
        self.start@
    }

    pub open spec fn wf(&self, tree: &SumTree) -> bool {
        &&& tree.wf()
        &&& 0 <= self.index_spec() <= tree.items_spec().len()
        &&& self.start_spec() == prefix(tree.items_spec(), self.index_spec())
    }

    /// The summary of everything up to the end of the current item.
    pub open spec fn end_spec(&self, tree: &SumTree) -> PairModel {
        if self.index_spec() < tree.items_spec().len() {
            prefix(tree.items_spec(), self.index_spec() + 1)
        } else {
            self.start_spec()
        }
    }

    /// A cursor before the first item.
    pub fn new(tree: &SumTree) -> (r: Cursor)
        requires
            tree.wf(),
        ensures
            r.wf(tree),
            r.index_spec() == 0,
    {
        proof {
            reveal(sum_of);
        }
        proof {
            assert(tree.items_spec().take(0) =~= Seq::<Transform>::empty());
        }
        Cursor { index: 0, start: TransformSummary::zero() }
    }

    pub fn index(&self) -> (r: usize)
        ensures
            r == self.index_spec(),
    {
        self.index
    }

    pub fn start(&self) -> (r: TransformSummary)
        ensures
            r@ == self.start_spec(),
    {
        self.start
    }

    pub fn item(&self, tree: &SumTree) -> (r: Option<Transform>)
        requires
            self.wf(tree),
        ensures
            self.index_spec() < tree.items_spec().len() ==> r == Some(
                tree.items_spec()[self.index_spec()],
            ),
            self.index_spec() == tree.items_spec().len() ==> r is None,
    {
        if self.index < tree.len() {
            Some(tree.get(self.index))
        } else {
            None
        }
    }

    pub fn end(&self, tree: &SumTree) -> (r: TransformSummary)
        requires
            self.wf(tree),
        ensures
            r@ == self.end_spec(tree),
            pair_valid(r@),
            r@.buffer.chars <= MAX_LEN,
    {
        proof {
            lemma_prefix_bound(tree.items_spec(), self.index as int);
        }
        if self.index < tree.len() {
            let item = tree.get(self.index);
            proof {
                lemma_prefix_next(tree.items_spec(), self.index as int);
                lemma_prefix_bound(tree.items_spec(), self.index + 1);
            }
            self.start.add(&item.summary)
        } else {
            self.start
        }
    }

    /// Moves past the current item, if there is one.
    pub fn next(&mut self, tree: &SumTree)
        requires
            old(self).wf(tree),
        ensures
            final(self).wf(tree),
            final(self).index_spec() == if old(self).index_spec() < tree.items_spec().len() {
                old(self).index_spec() + 1
            } else {
                old(self).index_spec()
            },
    {
        if self.index < tree.len() {
            self.start = self.end(tree);
            self.index = self.index + 1;
        }
    }

    /// Moves forward past every item that the seek passes over.
    pub fn seek(&mut self, tree: &SumTree, dim: Dimension, target: (usize, usize), bias: SeekBias)
        requires
            old(self).wf(tree),
        ensures
            final(self).wf(tree),
            old(self).index_spec() <= final(self).index_spec(),
            forall|m: int|
                old(self).index_spec() <= m < final(self).index_spec() ==> passes(
                    dim,
                    bias,
                    #[trigger] prefix(tree.items_spec(), m + 1),
                    (target.0 as nat, target.1 as nat),
                ),
            final(self).index_spec() < tree.items_spec().len() ==> !passes(
                dim,
                bias,
                prefix(tree.items_spec(), final(self).index_spec() + 1),
                (target.0 as nat, target.1 as nat),
            ),
    {
        let ghost i0 = self.index as int;
        let n = tree.len();
        while self.index < n
            invariant
                self.wf(tree),
                n == tree.items_spec().len(),
                i0 <= self.index,
                forall|m: int|
                    i0 <= m < self.index ==> passes(
                        dim,
                        bias,
                        #[trigger] prefix(tree.items_spec(), m + 1),
                        (target.0 as nat, target.1 as nat),
                    ),
            ensures
                self.index < n ==> !passes(
                    dim,
                    bias,
                    prefix(tree.items_spec(), self.index + 1),
                    (target.0 as nat, target.1 as nat),
                ),
            decreases n - self.index,
        {
            let end = self.end(tree);
            let k = end.key(dim);
            let pass = if bias == SeekBias::Left {
                k.0 < target.0 || (k.0 == target.0 && k.1 < target.1)
            } else {
                k.0 < target.0 || (k.0 == target.0 && k.1 <= target.1)
            };
            if !pass {
                break;
            }
            self.start = end;
            self.index = self.index + 1;
        }
    }

}

} // verus!
