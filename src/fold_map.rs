use vstd::prelude::*;

use std::ops::Range;

use crate::buffer::{lemma_point_at_increasing, pair_lt, point_at, Anchor, Bias, Buffer, BufferError, Edit};
use crate::point::{pair_le, point_add, point_sub, Point};
use crate::sum_tree::{
    items_valid, lemma_prefix_bound, lemma_prefix_next, lemma_sum_append, lemma_sum_valid,
    pair_concat, pair_valid, passes, prefix, sum_of, Cursor, Dimension, PairModel, SeekBias, SumTree,
    Transform, TransformSummary,
};
use crate::text_summary::{
    char_model, concat, lemma_summary_append, lemma_summary_valid, summary_of, TextSummary, MAX_LEN,
};

verus! {

/// The character that stands for a fold.
pub const ELLIPSIS: char = '\u{2026}';

/// A position in the folded view.
#[derive(Clone, Copy, Debug, PartialEq, Eq, Structural)]
pub struct DisplayPoint(pub Point);

/// A character index in the folded view.
#[derive(Clone, Copy, Debug, PartialEq, Eq, Structural)]
pub struct DisplayOffset(pub usize);

/// Why a query or an update of a fold map failed.
#[derive(Clone, Copy, Debug, PartialEq, Eq, Structural)]
pub enum FoldError {
    /// A display row, point or offset past the extent of the map.
    OutOfBounds,
    /// A position inside a fold, where no display position lies.
    InvariantViolated,
    /// The buffer refused an input.
    Buffer(BufferError),
}

impl DisplayPoint {
    pub fn new(row: u32, column: u32) -> (r: DisplayPoint)
        ensures
            r.0.row == row,
            r.0.column == column,
    {
        DisplayPoint(Point::new(row, column))
    }

    pub fn row(&self) -> (r: u32)
        ensures
            r == self.0.row,
    {
        self.0.row
    }

    pub fn column(&self) -> (r: u32)
        ensures
            r == self.0.column,
    {
        self.0.column
    }
}

/// Where item `i` of `items` starts in the buffer, in characters.
pub open spec fn buffer_start(items: Seq<Transform>, i: int) -> nat {
    prefix(items, i).buffer.chars
}

/// An item is right for the text `t` when it starts at `start`: its buffer
/// summary is that of the characters it covers, and it shows them as they
/// are, or shows one ellipsis for at least one of them.
pub open spec fn item_ok(it: Transform, t: Seq<char>, start: nat) -> bool {
    let end = start + it.summary@.buffer.chars;
    &&& end <= t.len()
    &&& it.summary@.buffer == summary_of(t.subrange(start as int, end as int))
    &&& match it.display_text {
        None => it.summary@.display == it.summary@.buffer,
        Some(c) => c == ELLIPSIS && it.summary@.display == char_model(ELLIPSIS)
            && it.summary@.buffer.chars > 0,
    }
}

pub open spec fn items_ok(items: Seq<Transform>, t: Seq<char>) -> bool {
    forall|i: int| 0 <= i < items.len() ==> item_ok(#[trigger] items[i], t, buffer_start(items, i))
}

/// The transforms tile all of `t`.
pub open spec fn tiles(items: Seq<Transform>, t: Seq<char>) -> bool {
    &&& items.len() > 0
    &&& items_valid(items)
    &&& items_ok(items, t)
    &&& sum_of(items).buffer.chars == t.len()
}

/// What an item shows.
pub open spec fn piece(it: Transform, t: Seq<char>, start: nat) -> Seq<char> {
    match it.display_text {
        Some(c) => seq![c],
        None => t.subrange(start as int, (start + it.summary@.buffer.chars) as int),
    }
}

/// The text of the folded view.
pub open spec fn display_of(items: Seq<Transform>, t: Seq<char>) -> Seq<char>
    decreases items.len(),
{
    if items.len() == 0 {
        Seq::empty()
    } else {
        display_of(items.drop_last(), t) + piece(
            items.last(),
            t,
            buffer_start(items, items.len() - 1),
        )
    }
}

pub proof fn lemma_items_ok_drop_last(items: Seq<Transform>, t: Seq<char>)
    requires
        items_ok(items, t),
        items.len() > 0,
    ensures
        items_ok(items.drop_last(), t),
{
    let d = items.drop_last();
    assert forall|i: int| 0 <= i < d.len() implies item_ok(#[trigger] d[i], t, buffer_start(d, i)) by {
        assert(d.take(i) =~= items.take(i));
        assert(item_ok(items[i], t, buffer_start(items, i)));
    }
}

/// The buffer summary of the first `i` items is that of the text they cover.
pub proof fn lemma_prefix_covers(items: Seq<Transform>, t: Seq<char>, i: int)
    requires
        items_valid(items),
        items_ok(items, t),
        0 <= i <= items.len(),
    ensures
        buffer_start(items, i) <= t.len(),
        prefix(items, i).buffer == summary_of(t.take(buffer_start(items, i) as int)),
    decreases i,
{
    reveal(sum_of);
    reveal(summary_of);
    if i == 0 {
        assert(items.take(0) =~= Seq::<Transform>::empty());
        assert(t.take(0) =~= Seq::<char>::empty());
    } else {
        lemma_prefix_covers(items, t, i - 1);
        lemma_prefix_next(items, i - 1);
        let s = buffer_start(items, i - 1);
        let it = items[i - 1];
        assert(item_ok(it, t, s));
        let e = s + it.summary@.buffer.chars;
        lemma_summary_append(t.take(s as int), t.subrange(s as int, e as int));
        assert(t.take(s as int) + t.subrange(s as int, e as int) =~= t.take(e as int));
    }
}

/// The display summary of all items is that of the text they show.
pub proof fn lemma_display_summary(items: Seq<Transform>, t: Seq<char>)
    requires
        items_valid(items),
        items_ok(items, t),
    ensures
        sum_of(items).display == summary_of(display_of(items, t)),
    decreases items.len(),
{
    reveal(sum_of);
    reveal(summary_of);
    if items.len() > 0 {
        let d = items.drop_last();
        assert(items_valid(d));
        lemma_items_ok_drop_last(items, t);
        lemma_display_summary(d, t);
        let it = items.last();
        let s = buffer_start(items, items.len() - 1);
        assert(item_ok(it, t, s));
        lemma_summary_append(display_of(d, t), piece(it, t, s));
        lemma_summary_valid(piece(it, t, s));
        if it.display_text is Some {
            assert(seq![ELLIPSIS].drop_last() =~= Seq::<char>::empty());
            assert(summary_of(Seq::<char>::empty()) == crate::text_summary::zero_model());
            assert(summary_of(piece(it, t, s)) == it.summary@.display);
        } else {
            assert(summary_of(piece(it, t, s)) == it.summary@.display);
        }
        assert(sum_of(items).display == concat(sum_of(d).display, it.summary@.display));
    } else {
        assert(display_of(items, t) =~= Seq::<char>::empty());
    }
}

/// How many characters an edit adds (negative: removes).
pub open spec fn delta(e: Edit) -> int {
    (e.new_range.end - e.new_range.start) - (e.old_range.end - e.old_range.start)
}

pub open spec fn delta_sum(es: Seq<Edit>) -> int
    decreases es.len(),
{
    if es.len() == 0 {
        0
    } else {
        delta_sum(es.drop_last()) + delta(es.last())
    }
}

/// The shift of the old offset `x`: what the edits that end at or before it add.
pub open spec fn delta_before(es: Seq<Edit>, x: int) -> int
    decreases es.len(),
{
    if es.len() == 0 {
        0
    } else {
        delta_before(es.drop_last(), x) + if es.last().old_range.end <= x {
            delta(es.last())
        } else {
            0
        }
    }
}

/// Some edit replaces the old character at `x`.
pub open spec fn touched(es: Seq<Edit>, x: int) -> bool {
    exists|i: int| 0 <= i < es.len() && (#[trigger] es[i]).old_range.start <= x < es[i].old_range.end
}

/// `es`, sorted by the start of their old ranges, turn `old` into `new`: the
/// ranges lie in the texts, each new range starts where its old one did,
/// shifted by the edits before it, and every character that no edit replaces
/// is found in `new` at its shifted offset.
#[verifier::opaque]
pub open spec fn describes(old: Seq<char>, new: Seq<char>, es: Seq<Edit>) -> bool {
    &&& forall|i: int|
        0 <= i < es.len() ==> (#[trigger] es[i]).old_range.start <= es[i].old_range.end
            <= old.len()
    &&& forall|i: int|
        0 <= i < es.len() ==> (#[trigger] es[i]).new_range.start <= es[i].new_range.end
            <= new.len()
    &&& forall|i: int, j: int|
        0 <= i < j < es.len() ==> (#[trigger] es[i]).old_range.start <= (
        #[trigger] es[j]).old_range.start && es[i].new_range.start <= es[j].new_range.start
    &&& forall|i: int|
        0 <= i < es.len() ==> (#[trigger] es[i]).new_range.start == es[i].old_range.start
            + delta_sum(es.take(i))
    &&& new.len() == old.len() + delta_sum(es)
    &&& forall|x: int|
        0 <= x < old.len() && !touched(es, x) ==> 0 <= x + delta_before(es, x) < new.len()
            && new[x + delta_before(es, x)] == old[x]
}

/// When the first `k` edits end at or before `x` and the rest after it, `x`
/// is shifted by the first `k`.
pub proof fn lemma_delta_before_split(es: Seq<Edit>, x: int, k: int)
    requires
        0 <= k <= es.len(),
        forall|i: int| 0 <= i < k ==> (#[trigger] es[i]).old_range.end <= x,
        forall|i: int| k <= i < es.len() ==> (#[trigger] es[i]).old_range.end > x,
    ensures
        delta_before(es, x) == delta_sum(es.take(k)),
    decreases es.len(),
{
    if es.len() > 0 {
        let d = es.drop_last();
        let l = es.len() - 1;
        assert(es.last() == es[l]);
        if l >= k {
            assert forall|i: int| k <= i < d.len() implies (#[trigger] d[i]).old_range.end > x by {
                assert(d[i] == es[i]);
            }
            assert forall|i: int| 0 <= i < k implies (#[trigger] d[i]).old_range.end <= x by {
                assert(d[i] == es[i]);
            }
            lemma_delta_before_split(d, x, k);
            assert(d.take(k) =~= es.take(k));
        } else {
            assert forall|i: int| 0 <= i < l implies (#[trigger] d[i]).old_range.end <= x by {
                assert(d[i] == es[i]);
            }
            lemma_delta_before_split(d, x, l);
            assert(d.take(l) =~= d);
            assert(es.take(k) =~= es);
        }
    } else {
        assert(es.take(k) =~= es);
    }
}

pub proof fn lemma_delta_sum_next(es: Seq<Edit>, k: int)
    requires
        0 <= k < es.len(),
    ensures
        delta_sum(es.take(k + 1)) == delta_sum(es.take(k)) + delta(es[k]),
{
    assert(es.take(k + 1).drop_last() =~= es.take(k));
}

/// Appending an item that is right at the end keeps the run right.
pub proof fn lemma_items_ok_push(items: Seq<Transform>, t: Seq<char>, it: Transform)
    requires
        items_ok(items, t),
        item_ok(it, t, sum_of(items).buffer.chars),
    ensures
        items_ok(items.push(it), t),
{
    let r = items.push(it);
    assert forall|i: int| 0 <= i < r.len() implies item_ok(#[trigger] r[i], t, buffer_start(r, i)) by {
        if i < items.len() {
            assert(r.take(i) =~= items.take(i));
            assert(item_ok(items[i], t, buffer_start(items, i)));
        } else {
            assert(r.take(i) =~= items);
        }
    }
}

/// Appends a transform that shows the buffer text from the end of `tree` up to `hi`.
fn push_text(tree: &mut SumTree, buffer: &Buffer, hi: usize)
    requires
        old(tree).wf(),
        buffer.wf(),
        items_ok(old(tree).items_spec(), buffer.text_spec()),
        sum_of(old(tree).items_spec()).buffer.chars <= hi <= buffer.text_spec().len(),
    ensures
        final(tree).items_spec().len() == old(tree).items_spec().len() + 1,
        final(tree).wf(),
        items_ok(final(tree).items_spec(), buffer.text_spec()),
        sum_of(final(tree).items_spec()).buffer.chars == hi,
        display_of(final(tree).items_spec(), buffer.text_spec()) == display_of(
            old(tree).items_spec(),
            buffer.text_spec(),
        ) + buffer.text_spec().subrange(
            sum_of(old(tree).items_spec()).buffer.chars as int,
            hi as int,
        ),
        fold_items_spans(final(tree).items_spec()) == fold_items_spans(old(tree).items_spec()),
{
    proof {
        reveal(sum_of);
    }
    let lo = tree.summary().buffer.chars;
    let s = buffer.text_summary_for_range(lo, hi);
    proof {
        lemma_summary_valid(buffer.text_spec().subrange(lo as int, hi as int));
        buffer.lemma_len_bound();
    }
    let item = Transform { summary: TransformSummary { display: s, buffer: s }, display_text: None };
    proof {
        lemma_items_ok_push(tree.items_spec(), buffer.text_spec(), item);
        lemma_sum_valid(tree.items_spec());
        assert(tree.items_spec().push(item).drop_last() =~= tree.items_spec());
        lemma_display_push(tree.items_spec(), buffer.text_spec(), item);
        lemma_summary_valid(buffer.text_spec().subrange(lo as int, hi as int));
        lemma_fold_spans_push(tree.items_spec(), item);
    }
    tree.push(item);
}

/// Appends a fold of the buffer text from the end of `tree` up to `hi`.
#[verifier::spinoff_prover]
fn push_fold(tree: &mut SumTree, buffer: &Buffer, hi: usize)
    requires
        old(tree).wf(),
        buffer.wf(),
        items_ok(old(tree).items_spec(), buffer.text_spec()),
        sum_of(old(tree).items_spec()).buffer.chars < hi <= buffer.text_spec().len(),
    ensures
        final(tree).wf(),
        items_ok(final(tree).items_spec(), buffer.text_spec()),
        sum_of(final(tree).items_spec()).buffer.chars == hi,
        display_of(final(tree).items_spec(), buffer.text_spec()) == display_of(
            old(tree).items_spec(),
            buffer.text_spec(),
        ) + seq![ELLIPSIS],
        fold_items_spans(final(tree).items_spec()) == fold_items_spans(old(tree).items_spec())
            + seq![(sum_of(old(tree).items_spec()).buffer.chars, hi as nat)],
{
    proof {
        reveal(sum_of);
    }
    let lo = tree.summary().buffer.chars;
    let s = buffer.text_summary_for_range(lo, hi);
    let e = TextSummary::from_char(ELLIPSIS);
    proof {
        lemma_summary_valid(buffer.text_spec().subrange(lo as int, hi as int));
        buffer.lemma_len_bound();
    }
    let item = Transform {
        summary: TransformSummary { display: e, buffer: s },
        display_text: Some(ELLIPSIS),
    };
    proof {
        lemma_items_ok_push(tree.items_spec(), buffer.text_spec(), item);
        lemma_sum_valid(tree.items_spec());
        assert(tree.items_spec().push(item).drop_last() =~= tree.items_spec());
        lemma_display_push(tree.items_spec(), buffer.text_spec(), item);
        lemma_summary_valid(buffer.text_spec().subrange(lo as int, hi as int));
        lemma_fold_spans_push(tree.items_spec(), item);
    }
    tree.push(item);
}

/// Appending an item shows what it shows after what the others show.
pub proof fn lemma_display_push(items: Seq<Transform>, t: Seq<char>, it: Transform)
    ensures
        display_of(items.push(it), t) == display_of(items, t) + piece(
            it,
            t,
            sum_of(items).buffer.chars,
        ),
{
    let r = items.push(it);
    assert(r.drop_last() =~= items);
    assert(r.take(items.len() as int) =~= items);
}

/// The buffer spans of the fold transforms, in order.
pub open spec fn fold_items_spans(items: Seq<Transform>) -> Seq<(nat, nat)>
    decreases items.len(),
{
    if items.len() == 0 {
        Seq::empty()
    } else {
        let j = items.len() - 1;
        fold_items_spans(items.drop_last()) + if items.last().display_text is Some {
            seq![(buffer_start(items, j), buffer_start(items, j + 1))]
        } else {
            Seq::empty()
        }
    }
}

/// Appending an item adds its span to the fold spans when it is a fold.
pub proof fn lemma_fold_spans_push(items: Seq<Transform>, it: Transform)
    requires
        items_valid(items),
        pair_valid(it.summary@),
    ensures
        fold_items_spans(items.push(it)) == fold_items_spans(items) + if it.display_text is Some {
            seq![(sum_of(items).buffer.chars, sum_of(items).buffer.chars + it.summary@.buffer.chars)]
        } else {
            Seq::<(nat, nat)>::empty()
        },
{
    let r = items.push(it);
    assert(r.drop_last() =~= items);
    assert(r.take(items.len() as int) =~= items);
    assert(r.take(items.len() + 1 as int) =~= r);
    reveal(sum_of);
    assert(r.drop_last() =~= items);
}

/// Each span of the fold transforms is the span of some fold transform.
pub proof fn lemma_fold_span_has_item(items: Seq<Transform>, k: int)
    requires
        0 <= k < fold_items_spans(items).len(),
    ensures
        exists|j: int|
            0 <= j < items.len() && (#[trigger] items[j]).display_text is Some && fold_items_spans(
                items,
            )[k] == (buffer_start(items, j), buffer_start(items, j + 1)),
    decreases items.len(),
{
    let n = items.len() as int;
    let d = items.drop_last();
    let a = fold_items_spans(d);
    if k < a.len() {
        lemma_fold_span_has_item(d, k);
        let j = choose|j: int|
            0 <= j < d.len() && (#[trigger] d[j]).display_text is Some && a[k] == (
            buffer_start(d, j), buffer_start(d, j + 1));
        assert(d.take(j) =~= items.take(j));
        assert(d.take(j + 1) =~= items.take(j + 1));
        assert(items[j] == d[j]);
    } else {
        assert(items[n - 1].display_text is Some);
    }
}

/// Each fold transform's span is one of the spans of the fold transforms.
pub proof fn lemma_item_has_fold_span(items: Seq<Transform>, j: int)
    requires
        0 <= j < items.len(),
        items[j].display_text is Some,
    ensures
        exists|k: int|
            0 <= k < fold_items_spans(items).len() && #[trigger] fold_items_spans(items)[k] == (
            buffer_start(items, j), buffer_start(items, j + 1)),
    decreases items.len(),
{
    let n = items.len() as int;
    let d = items.drop_last();
    let a = fold_items_spans(d);
    if j < n - 1 {
        lemma_item_has_fold_span(d, j);
        let k = choose|k: int|
            0 <= k < a.len() && #[trigger] a[k] == (buffer_start(d, j), buffer_start(d, j + 1));
        assert(d.take(j) =~= items.take(j));
        assert(d.take(j + 1) =~= items.take(j + 1));
        assert(fold_items_spans(items)[k] == a[k]);
    } else {
        assert(fold_items_spans(items)[a.len() as int] == (
            buffer_start(items, j),
            buffer_start(items, j + 1),
        ));
    }
}

/// A fold `s..e` goes before `f` in the fold list: `f` starts later, or at
/// the same place and ends earlier.
pub open spec fn goes_before(buffer: &Buffer, f: Range<Anchor>, s: nat, e: nat) -> bool {
    buffer.resolved(f.start) > s || (buffer.resolved(f.start) == s && buffer.resolved(f.end) < e)
}

/// `ix` is where a fold `s..e` goes in `folds`: after every fold it does not
/// go before, and before the first one it does.
pub open spec fn insertion_point(buffer: &Buffer, folds: Seq<Range<Anchor>>, ix: int, s: nat, e: nat) -> bool {
    &&& 0 <= ix <= folds.len()
    &&& forall|k: int| 0 <= k < ix ==> !goes_before(buffer, #[trigger] folds[k], s, e)
    &&& ix < folds.len() ==> goes_before(buffer, folds[ix], s, e)
}

/// The offsets the folds stand at in `buffer`.
pub open spec fn fold_spans(buffer: &Buffer, folds: Seq<Range<Anchor>>) -> Seq<(nat, nat)> {
    folds.map_values(|f: Range<Anchor>| (buffer.resolved(f.start), buffer.resolved(f.end)))
}

/// The spans are sorted by start.
pub open spec fn starts_sorted(spans: Seq<(nat, nat)>) -> bool {
    forall|i: int, j: int| 0 <= i < j < spans.len() ==> (#[trigger] spans[i]).0 <= (#[trigger] spans[j]).0
}

/// `cs..ce` as a span, or nothing when it is empty.
pub open spec fn emit(cs: nat, ce: nat) -> Seq<(nat, nat)> {
    if ce > cs {
        seq![(cs, ce)]
    } else {
        Seq::empty()
    }
}

/// Merges, from span `i` on, the spans into the open span `cs..ce`: a span
/// that starts at or before its end extends it; the next one closes it.
pub open spec fn merge_acc(spans: Seq<(nat, nat)>, i: int, cs: nat, ce: nat) -> Seq<(nat, nat)>
    decreases spans.len() - i,
{
    if i < 0 || i >= spans.len() {
        emit(cs, ce)
    } else if spans[i].0 <= ce {
        merge_acc(spans, i + 1, cs, if spans[i].1 > ce { spans[i].1 } else { ce })
    } else {
        emit(cs, ce) + merge_acc(spans, i + 1, spans[i].0, spans[i].1)
    }
}

/// The merged spans of spans `i..`, in order, empty ones dropped.
pub open spec fn merged_from(spans: Seq<(nat, nat)>, i: int) -> Seq<(nat, nat)> {
    if 0 <= i < spans.len() {
        merge_acc(spans, i + 1, spans[i].0, spans[i].1)
    } else {
        Seq::empty()
    }
}

/// The spans sorted by start, merged while the next starts at or before the
/// end of the current one, empty ones dropped.
pub open spec fn merged(spans: Seq<(nat, nat)>) -> Seq<(nat, nat)> {
    merged_from(spans, 0)
}

/// `t` from `pos` on, with each of the (disjoint, increasing) spans replaced
/// by one ellipsis.
pub open spec fn ellipsized(t: Seq<char>, spans: Seq<(nat, nat)>, pos: int) -> Seq<char>
    decreases spans.len(),
{
    if spans.len() == 0 {
        t.subrange(pos, t.len() as int)
    } else {
        t.subrange(pos, spans[0].0 as int) + seq![ELLIPSIS] + ellipsized(
            t,
            spans.drop_first(),
            spans[0].1 as int,
        )
    }
}

/// The merged spans of the folds of a map, in the buffer: what it hides.
pub open spec fn merged_fold_spans(buffer: &Buffer, folds: Seq<Range<Anchor>>) -> Seq<(nat, nat)> {
    merged(fold_spans(buffer, folds))
}

/// Every span that merging from `i` on gives starts at or after `cs`, ends
/// after its start, and lies within `len`.
proof fn lemma_merge_first(spans: Seq<(nat, nat)>, i: int, cs: nat, ce: nat, len: nat)
    requires
        starts_sorted(spans),
        0 <= i <= spans.len(),
        cs <= len,
        ce <= len,
        forall|k: int| i <= k < spans.len() ==> cs <= (#[trigger] spans[k]).0 <= len && spans[k].1 <= len,
    ensures
        forall|k: int|
            0 <= k < merge_acc(spans, i, cs, ce).len() ==> cs <= (#[trigger] merge_acc(
                spans,
                i,
                cs,
                ce,
            )[k]).0 < merge_acc(spans, i, cs, ce)[k].1 <= len,
    decreases spans.len() - i,
{
    if i >= spans.len() {
        assert(merge_acc(spans, i, cs, ce) == emit(cs, ce));
    } else {
        if spans[i].0 <= ce {
            let ce2: nat = if spans[i].1 > ce { spans[i].1 } else { ce };
            lemma_merge_first(spans, i + 1, cs, ce2, len);
            assert(merge_acc(spans, i, cs, ce) == merge_acc(spans, i + 1, cs, ce2));
        } else {
            assert forall|k: int| i + 1 <= k < spans.len() implies spans[i].0 <= (#[trigger] spans[k]).0 by {
                assert(spans[i].0 <= spans[k].0);
            }
            lemma_merge_first(spans, i + 1, spans[i].0, spans[i].1, len);
            let a = emit(cs, ce);
            let b = merge_acc(spans, i + 1, spans[i].0, spans[i].1);
            assert(merge_acc(spans, i, cs, ce) == a + b);
            assert forall|k: int| 0 <= k < (a + b).len() implies cs <= (#[trigger] (a + b)[k]).0 < (a
                + b)[k].1 <= len by {
                if k >= a.len() {
                    assert((a + b)[k] == b[k - a.len()]);
                }
            }
        }
    }
}

/// Skipping text up to `b`, before the first span, splits the ellipsized
/// text there.
proof fn lemma_ellipsized_split(t: Seq<char>, spans: Seq<(nat, nat)>, a: int, b: int)
    requires
        0 <= a <= b <= t.len(),
        spans.len() > 0 ==> b <= spans[0].0 <= t.len(),
    ensures
        ellipsized(t, spans, a) == t.subrange(a, b) + ellipsized(t, spans, b),
{
    if spans.len() == 0 {
        assert(t.subrange(a, t.len() as int) =~= t.subrange(a, b) + t.subrange(b, t.len() as int));
    } else {
        let rest = ellipsized(t, spans.drop_first(), spans[0].1 as int);
        assert(t.subrange(a, spans[0].0 as int) =~= t.subrange(a, b) + t.subrange(b, spans[0].0 as int));
        assert(t.subrange(a, spans[0].0 as int) + seq![ELLIPSIS] + rest =~= t.subrange(a, b) + (
        t.subrange(b, spans[0].0 as int) + seq![ELLIPSIS] + rest));
    }
}

/// Transforms built from the folds: text up to each merged fold span, one ellipsis
/// for it, and text after the last.
#[verifier::spinoff_prover]
fn build_transforms(buffer: &Buffer, folds: &Vec<Range<Anchor>>) -> (r: SumTree)
    requires
        buffer.wf(),
        forall|i: int|
            0 <= i < folds@.len() ==> buffer.anchor_valid((#[trigger] folds@[i]).start)
                && buffer.anchor_valid(folds@[i].end),
        starts_sorted(fold_spans(buffer, folds@)),
    ensures
        r.wf(),
        tiles(r.items_spec(), buffer.text_spec()),
        display_of(r.items_spec(), buffer.text_spec()) == ellipsized(
            buffer.text_spec(),
            merged_fold_spans(buffer, folds@),
            0,
        ),
        fold_items_spans(r.items_spec()) == merged_fold_spans(buffer, folds@),
{
    let ghost t = buffer.text_spec();
    let ghost spans = fold_spans(buffer, folds@);
    let ghost goal = ellipsized(t, merged(spans), 0);
    let n = folds.len();
    let len = buffer.len();
    let mut tree = SumTree::new();
    let mut fi: usize = 0;
    proof {
        reveal(sum_of);
        buffer.lemma_len_bound();
        assert(display_of(tree.items_spec(), t) =~= Seq::<char>::empty());
        assert(Seq::<char>::empty() + ellipsized(t, merged_from(spans, 0), 0) =~= goal);
        assert(fold_items_spans(tree.items_spec()) + merged_from(spans, 0) =~= merged(spans));
        assert forall|k: int| 0 <= k < n implies (#[trigger] spans[k]).0 <= len && spans[k].1 <= len by {
            buffer.lemma_resolved_bound(folds@[k].start);
            buffer.lemma_resolved_bound(folds@[k].end);
        }
    }
    while fi < n
        invariant
            buffer.wf(),
            t == buffer.text_spec(),
            len == t.len(),
            len <= MAX_LEN,
            n == folds@.len(),
            spans == fold_spans(buffer, folds@),
            spans.len() == n,
            starts_sorted(spans),
            forall|k: int| 0 <= k < n ==> (#[trigger] spans[k]).0 <= len && spans[k].1 <= len,
            forall|i: int|
                0 <= i < folds@.len() ==> buffer.anchor_valid((#[trigger] folds@[i]).start)
                    && buffer.anchor_valid(folds@[i].end),
            fi <= n,
            tree.wf(),
            items_ok(tree.items_spec(), t),
            sum_of(tree.items_spec()).buffer.chars <= len,
            fi < n ==> sum_of(tree.items_spec()).buffer.chars <= spans[fi as int].0,
            display_of(tree.items_spec(), t) + ellipsized(
                t,
                merged_from(spans, fi as int),
                sum_of(tree.items_spec()).buffer.chars as int,
            ) == goal,
            fold_items_spans(tree.items_spec()) + merged_from(spans, fi as int) == merged(spans),
        decreases n - fi,
    {
        let fi0 = fi;
        let fold_start = buffer.to_offset(&folds[fi].start);
        let mut fold_end = buffer.to_offset(&folds[fi].end);
        fi = fi + 1;
        // take in the folds that start within this one
        while fi < n
            invariant
                buffer.wf(),
                n == folds@.len(),
                spans == fold_spans(buffer, folds@),
                spans.len() == n,
                starts_sorted(spans),
                forall|i: int|
                    0 <= i < folds@.len() ==> buffer.anchor_valid((#[trigger] folds@[i]).start)
                        && buffer.anchor_valid(folds@[i].end),
                forall|k: int| 0 <= k < n ==> (#[trigger] spans[k]).0 <= len && spans[k].1 <= len,
                fi0 < fi <= n,
                fold_start == spans[fi0 as int].0,
                fold_end <= len,
                merge_acc(spans, fi as int, fold_start as nat, fold_end as nat) == merged_from(
                    spans,
                    fi0 as int,
                ),
            ensures
                fi < n ==> spans[fi as int].0 > fold_end,
            decreases n - fi,
        {
            let next_start = buffer.to_offset(&folds[fi].start);
            if next_start > fold_end {
                break;
            }
            let next_end = buffer.to_offset(&folds[fi].end);
            if next_end > fold_end {
                fold_end = next_end;
            }
            fi = fi + 1;
        }
        let ghost sum0 = sum_of(tree.items_spec()).buffer.chars;
        let ghost rest = merged_from(spans, fi as int);
        proof {
            assert(merge_acc(spans, fi as int, fold_start as nat, fold_end as nat) == emit(
                fold_start as nat,
                fold_end as nat,
            ) + rest);
            if fi < n {
                assert forall|k: int| fi + 1 <= k < n implies spans[fi as int].0 <= (
                #[trigger] spans[k]).0 by {
                    assert(spans[fi as int].0 <= spans[k].0);
                }
                lemma_merge_first(spans, fi + 1, spans[fi as int].0, spans[fi as int].1, len as nat);
                assert(spans[fi0 as int].0 <= spans[fi as int].0);
            }
        }
        let sum = tree.summary().buffer.chars;
        if fold_start > sum {
            push_text(&mut tree, buffer, fold_start);
        }
        if fold_end > fold_start {
            push_fold(&mut tree, buffer, fold_end);
            proof {
                let e = emit(fold_start as nat, fold_end as nat) + rest;
                assert(e[0] == (fold_start as nat, fold_end as nat));
                assert(e.drop_first() =~= rest);
                lemma_ellipsized_split(t, e, sum0 as int, fold_start as int);
                assert(t.subrange(fold_start as int, fold_start as int) =~= Seq::<char>::empty());
                assert(fold_items_spans(tree.items_spec()) + rest =~= merged(spans));
            }
        } else {
            proof {
                assert(emit(fold_start as nat, fold_end as nat) + rest =~= rest);
                assert(fold_items_spans(tree.items_spec()) + rest =~= merged(spans));
                lemma_ellipsized_split(t, rest, sum0 as int, fold_start as int);
                if fold_start <= sum0 {
                    assert(t.subrange(sum0 as int, fold_start as int) =~= Seq::<char>::empty());
                }
            }
        }
        proof {
            if fi < n {
                assert(spans[fi0 as int].0 <= spans[fi as int].0);
            }
        }
    }
    let sum = tree.summary().buffer.chars;
    if sum < len || tree.len() == 0 {
        push_text(&mut tree, buffer, len);
    }
    proof {
        assert(ellipsized(t, merged_from(spans, n as int), sum as int) == t.subrange(
            sum as int,
            len as int,
        ));
        if sum == len {
            assert(t.subrange(sum as int, len as int) =~= Seq::<char>::empty());
        }
        assert(display_of(tree.items_spec(), t) =~= goal);
        assert(fold_items_spans(tree.items_spec()) =~= merged(spans));
    }
    tree
}

/// The offset of point `p` in `t`.
pub open spec fn offset_of(t: Seq<char>, p: (nat, nat)) -> int {
    choose|o: int| 0 <= o <= t.len() && point_at(t, o) == p
}

/// The folds that folding `ranges` adds: each from an anchor after its
/// start to an anchor before its end.
pub open spec fn new_folds(buffer: &Buffer, ranges: Seq<Range<Point>>) -> Seq<Range<Anchor>> {
    Seq::new(
        ranges.len(),
        |i: int|
            Range {
                start: buffer.anchor_spec(offset_of(buffer.text_spec(), ranges[i].start@) as nat, Bias::Right),
                end: buffer.anchor_spec(offset_of(buffer.text_spec(), ranges[i].end@) as nat, Bias::Left),
            },
    )
}

/// Some span of `out` covers `a..b`.
pub open spec fn covered(out: Seq<(nat, nat)>, a: nat, b: nat) -> bool {
    exists|k: int| 0 <= k < out.len() && (#[trigger] out[k]).0 <= a && b <= out[k].1
}

proof fn lemma_covered_append(x: Seq<(nat, nat)>, y: Seq<(nat, nat)>, a: nat, b: nat)
    ensures
        covered(x, a, b) ==> covered(x + y, a, b),
        covered(y, a, b) ==> covered(x + y, a, b),
{
    if covered(x, a, b) {
        let k = choose|k: int| 0 <= k < x.len() && (#[trigger] x[k]).0 <= a && b <= x[k].1;
        assert((x + y)[k] == x[k]);
    }
    if covered(y, a, b) {
        let k = choose|k: int| 0 <= k < y.len() && (#[trigger] y[k]).0 <= a && b <= y[k].1;
        assert((x + y)[x.len() + k] == y[k]);
    }
}

/// A nonempty span inside the open span ends up inside one merged span.
proof fn lemma_merge_covers_open(spans: Seq<(nat, nat)>, i: int, cs: nat, ce: nat, a: nat, b: nat)
    requires
        0 <= i <= spans.len(),
        cs <= a < b <= ce,
    ensures
        covered(merge_acc(spans, i, cs, ce), a, b),
    decreases spans.len() - i,
{
    if i >= spans.len() {
        assert(merge_acc(spans, i, cs, ce)[0] == (cs, ce));
    } else if spans[i].0 <= ce {
        let ce2: nat = if spans[i].1 > ce { spans[i].1 } else { ce };
        lemma_merge_covers_open(spans, i + 1, cs, ce2, a, b);
        assert(merge_acc(spans, i, cs, ce) == merge_acc(spans, i + 1, cs, ce2));
    } else {
        let x = emit(cs, ce);
        let y = merge_acc(spans, i + 1, spans[i].0, spans[i].1);
        assert(merge_acc(spans, i, cs, ce) == x + y);
        assert(x[0] == (cs, ce));
        lemma_covered_append(x, y, a, b);
    }
}

/// Every nonempty span from `i` on ends up inside one merged span.
proof fn lemma_merge_covers(spans: Seq<(nat, nat)>, i: int, cs: nat, ce: nat, m: int)
    requires
        starts_sorted(spans),
        0 <= i <= m < spans.len(),
        cs <= spans[m].0 < spans[m].1,
    ensures
        covered(merge_acc(spans, i, cs, ce), spans[m].0, spans[m].1),
    decreases m - i,
{
    let a = spans[m].0;
    let b = spans[m].1;
    if spans[i].0 <= ce {
        let ce2: nat = if spans[i].1 > ce { spans[i].1 } else { ce };
        assert(merge_acc(spans, i, cs, ce) == merge_acc(spans, i + 1, cs, ce2));
        if i == m {
            lemma_merge_covers_open(spans, i + 1, cs, ce2, a, b);
        } else {
            lemma_merge_covers(spans, i + 1, cs, ce2, m);
        }
    } else {
        let x = emit(cs, ce);
        let y = merge_acc(spans, i + 1, spans[i].0, spans[i].1);
        assert(merge_acc(spans, i, cs, ce) == x + y);
        if i == m {
            lemma_merge_covers_open(spans, i + 1, a, b, a, b);
        } else {
            assert(spans[i].0 <= spans[m].0);
            lemma_merge_covers(spans, i + 1, spans[i].0, spans[i].1, m);
        }
        lemma_covered_append(x, y, a, b);
    }
}

/// Every nonempty span lies inside one of the merged spans.
pub proof fn lemma_merged_covers(spans: Seq<(nat, nat)>, m: int)
    requires
        starts_sorted(spans),
        0 <= m < spans.len(),
        spans[m].0 < spans[m].1,
    ensures
        covered(merged(spans), spans[m].0, spans[m].1),
{
    if m == 0 {
        lemma_merge_covers_open(spans, 1, spans[0].0, spans[0].1, spans[0].0, spans[0].1);
    } else {
        assert(spans[0].0 <= spans[m].0);
        lemma_merge_covers(spans, 1, spans[0].0, spans[0].1, m);
    }
}

/// Merging depends only on the spans still to come.
proof fn lemma_merge_suffix(a: Seq<(nat, nat)>, i: int, b: Seq<(nat, nat)>, j: int, cs: nat, ce: nat)
    requires
        0 <= i <= a.len(),
        0 <= j <= b.len(),
        a.len() - i == b.len() - j,
        forall|d: int| 0 <= d < a.len() - i ==> #[trigger] a[i + d] == b[j + d],
    ensures
        merge_acc(a, i, cs, ce) == merge_acc(b, j, cs, ce),
    decreases a.len() - i,
{
    if i < a.len() {
        assert(a[i + 0] == b[j + 0]);
        assert forall|d: int| 0 <= d < a.len() - (i + 1) implies #[trigger] a[(i + 1) + d] == b[(j
            + 1) + d] by {
            assert(a[i + (d + 1)] == b[j + (d + 1)]);
        }
        let ce2: nat = if a[i].1 > ce { a[i].1 } else { ce };
        lemma_merge_suffix(a, i + 1, b, j + 1, cs, ce2);
        lemma_merge_suffix(a, i + 1, b, j + 1, a[i].0, a[i].1);
    }
}

proof fn lemma_merge_dup(
    s1: Seq<(nat, nat)>,
    s2: Seq<(nat, nat)>,
    ix1: int,
    ix2: int,
    i: int,
    cs: nat,
    ce: nat,
)
    requires
        0 <= ix1 < ix2 <= s1.len(),
        s2 == s1.insert(ix2, s1[ix1]),
        starts_sorted(s1),
        starts_sorted(s2),
        0 <= i <= ix2,
        ix1 < i ==> (s1[ix1].1 < s1[ix1].0 || ce >= s1[ix1].1),
    ensures
        merge_acc(s2, i, cs, ce) == merge_acc(s1, i, cs, ce),
    decreases ix2 - i,
{
    let x = s1[ix1];
    if i < ix2 {
        assert(s2[i] == s1[i]);
        if ix1 < i {
            assert(s2[ix1] == x);
            assert(s2[ix2] == x);
            assert(s2[ix1].0 <= s2[i].0 && s2[i].0 <= s2[ix2].0);
        }
        let ce2: nat = if s1[i].1 > ce { s1[i].1 } else { ce };
        assert(i < s1.len() && i < s2.len());
        if s1[i].0 <= ce {
            lemma_merge_dup(s1, s2, ix1, ix2, i + 1, cs, ce2);
            assert(merge_acc(s2, i, cs, ce) == merge_acc(s2, i + 1, cs, ce2));
            assert(merge_acc(s1, i, cs, ce) == merge_acc(s1, i + 1, cs, ce2));
        } else {
            lemma_merge_dup(s1, s2, ix1, ix2, i + 1, s1[i].0, s1[i].1);
            assert(merge_acc(s2, i, cs, ce) == emit(cs, ce) + merge_acc(s2, i + 1, s1[i].0, s1[i].1));
            assert(merge_acc(s1, i, cs, ce) == emit(cs, ce) + merge_acc(s1, i + 1, s1[i].0, s1[i].1));
        }
    } else {
        assert(s2[ix2] == x);
        assert(s2.len() == s1.len() + 1);
        assert forall|d: int| 0 <= d < s2.len() - (ix2 + 1) implies #[trigger] s2[(ix2 + 1) + d]
            == s1[ix2 + d] by {}
        if x.0 <= ce {
            lemma_merge_suffix(s2, ix2 + 1, s1, ix2, cs, ce);
            assert(x.1 <= ce);
            assert(merge_acc(s2, ix2, cs, ce) == merge_acc(s2, ix2 + 1, cs, ce));
        } else if ix2 < s1.len() {
            let y = s1[ix2];
            assert(s2[ix2 + 1] == y);
            assert(s2[ix2].0 <= s2[ix2 + 1].0);
            assert forall|d: int| 0 <= d < s2.len() - (ix2 + 2) implies #[trigger] s2[(ix2 + 2) + d]
                == s1[(ix2 + 1) + d] by {
                assert(s2[(ix2 + 1) + (d + 1)] == s1[ix2 + (d + 1)]);
            }
            lemma_merge_suffix(s2, ix2 + 2, s1, ix2 + 1, y.0, y.1);
            assert(x.1 < x.0);
            assert(merge_acc(s2, ix2, cs, ce) == emit(cs, ce) + merge_acc(s2, ix2 + 1, x.0, x.1));
            assert(merge_acc(s1, ix2, cs, ce) == emit(cs, ce) + merge_acc(s1, ix2 + 1, y.0, y.1));
            assert(merge_acc(s2, ix2 + 1, x.0, x.1) == emit(x.0, x.1) + merge_acc(s2, ix2 + 2, y.0, y.1));
            assert(emit(x.0, x.1) =~= Seq::<(nat, nat)>::empty());
            assert(emit(x.0, x.1) + merge_acc(s2, ix2 + 2, y.0, y.1) =~= merge_acc(s2, ix2 + 2, y.0, y.1));
        } else {
            assert(x.1 < x.0);
            assert(emit(x.0, x.1) =~= Seq::<(nat, nat)>::empty());
            assert(merge_acc(s2, ix2, cs, ce) == emit(cs, ce) + merge_acc(s2, ix2 + 1, x.0, x.1));
            assert(merge_acc(s2, ix2 + 1, x.0, x.1) == emit(x.0, x.1));
            assert(merge_acc(s1, ix2, cs, ce) == emit(cs, ce));
            assert(emit(cs, ce) + emit(x.0, x.1) =~= emit(cs, ce));
        }
    }
}

/// Repeating a span right among those with its start changes nothing that
/// merging gives.
pub proof fn lemma_merged_duplicate(s1: Seq<(nat, nat)>, ix1: int, ix2: int)
    requires
        0 <= ix1 < ix2 <= s1.len(),
        starts_sorted(s1),
        starts_sorted(s1.insert(ix2, s1[ix1])),
    ensures
        merged(s1.insert(ix2, s1[ix1])) == merged(s1),
{
    let s2 = s1.insert(ix2, s1[ix1]);
    assert(s2[0] == s1[0]);
    if ix1 == 0 {
        let ce: nat = s1[0].1;
        lemma_merge_dup(s1, s2, ix1, ix2, 1, s1[0].0, ce);
    } else {
        lemma_merge_dup(s1, s2, ix1, ix2, 1, s1[0].0, s1[0].1);
    }
}

/// Inserting an element adds it to the multiset of a sequence.
pub proof fn lemma_insert_to_multiset<A>(s: Seq<A>, i: int, x: A)
    requires
        0 <= i <= s.len(),
    ensures
        s.insert(i, x).to_multiset() =~= s.to_multiset().insert(x),
{
    let s2 = s.insert(i, x);
    assert(s2.remove(i) =~= s);
    s2.to_multiset_ensures();
    assert(s2[i] == x);
    assert(s2.contains(x));
}

/// Filtering twice is filtering by both.
pub proof fn lemma_filter_filter<A>(
    s: Seq<A>,
    p: spec_fn(A) -> bool,
    q: spec_fn(A) -> bool,
    r: spec_fn(A) -> bool,
)
    requires
        forall|x: A| #[trigger] r(x) == (p(x) && q(x)),
    ensures
        s.filter(p).filter(q) == s.filter(r),
    decreases s.len(),
{
    if s.len() == 0 {
        reveal(Seq::filter);
        assert(s.filter(p) =~= s);
        assert(s.filter(p).filter(q) =~= s.filter(p));
        assert(s.filter(r) =~= s);
    } else {
        let s0 = s.drop_last();
        let x = s.last();
        lemma_filter_filter(s0, p, q, r);
        assert(s0.push(x) =~= s);
        s0.lemma_filter_push(x, p);
        s0.lemma_filter_push(x, r);
        s0.filter(p).lemma_filter_push(x, q);
    }
}

/// Filtering by a predicate that holds of every element keeps everything.
pub proof fn lemma_filter_true<A>(s: Seq<A>, p: spec_fn(A) -> bool)
    requires
        forall|i: int| 0 <= i < s.len() ==> #[trigger] p(s[i]),
    ensures
        s.filter(p) == s,
    decreases s.len(),
{
    reveal(Seq::filter);
    if s.len() > 0 {
        let d = s.drop_last();
        assert forall|i: int| 0 <= i < d.len() implies #[trigger] p(d[i]) by {
            assert(d[i] == s[i]);
        }
        lemma_filter_true(d, p);
        assert(s.last() == s[s.len() - 1]);
        assert(d.push(s.last()) =~= s);
    }
}

/// Filtering out an inserted element that the predicate rejects, from a
/// sequence whose elements it all keeps, gives back the sequence.
pub proof fn lemma_filter_insert<A>(s: Seq<A>, ix: int, x: A, p: spec_fn(A) -> bool)
    requires
        0 <= ix <= s.len(),
        !p(x),
        forall|i: int| 0 <= i < s.len() ==> #[trigger] p(s[i]),
    ensures
        s.insert(ix, x).filter(p) == s,
{
    let a = s.take(ix);
    let b = s.skip(ix);
    assert(s.insert(ix, x) =~= a.push(x) + b);
    assert forall|i: int| 0 <= i < a.len() implies #[trigger] p(a[i]) by {
        assert(a[i] == s[i]);
    }
    assert forall|i: int| 0 <= i < b.len() implies #[trigger] p(b[i]) by {
        assert(b[i] == s[ix + i]);
    }
    lemma_filter_true(a, p);
    lemma_filter_true(b, p);
    a.lemma_filter_push(x, p);
    Seq::filter_distributes_over_add(a.push(x), b, p);
    assert(a + b =~= s);
}

/// The folds that unfolding the first `i` offset ranges keeps.
pub open spec fn kept_after(buffer: &Buffer, offs: Seq<(usize, usize)>, i: int) -> spec_fn(Range<Anchor>) -> bool {
    |f: Range<Anchor>| !touches_offsets(buffer, f, offs, i)
}

/// Fold `f` overlaps or touches offsets `s..e`.
pub open spec fn fold_touches(buffer: &Buffer, f: Range<Anchor>, s: int, e: int) -> bool {
    !(buffer.resolved(f.start) > e || buffer.resolved(f.end) < s)
}

/// Fold `f` overlaps or touches one of the first `i` offset ranges.
pub open spec fn touches_offsets(
    buffer: &Buffer,
    f: Range<Anchor>,
    offs: Seq<(usize, usize)>,
    i: int,
) -> bool {
    exists|j: int| 0 <= j < i && fold_touches(buffer, f, offs[j].0 as int, offs[j].1 as int)
}

/// Fold `f` overlaps or touches one of `ranges`, taken as offsets.
pub open spec fn touches_some(buffer: &Buffer, ranges: Seq<Range<Point>>, f: Range<Anchor>) -> bool {
    exists|i: int, s: int, e: int|
        0 <= i < ranges.len() && 0 <= s <= buffer.text_spec().len() && 0 <= e
            <= buffer.text_spec().len() && point_at(buffer.text_spec(), s) == ranges[i].start@
            && point_at(buffer.text_spec(), e) == ranges[i].end@ && fold_touches(buffer, f, s, e)
}

/// Some fold of `folds` stands at offsets `s..e` of the buffer.
pub open spec fn has_fold_at(buffer: &Buffer, folds: Seq<Range<Anchor>>, s: int, e: int) -> bool {
    exists|f: int|
        0 <= f < folds.len() && buffer.resolved(#[trigger] folds[f].start) == s && buffer.resolved(
            folds[f].end,
        ) == e && folds[f].start.bias_spec() == Bias::Right && folds[f].end.bias_spec() == Bias::Left
}

/// `p` is the point of some offset of `t`.
pub open spec fn is_point_of(t: Seq<char>, p: (nat, nat)) -> bool {
    exists|o: int| 0 <= o <= t.len() && point_at(t, o) == p
}

/// Two offsets with one point are one offset.
pub proof fn lemma_point_at_unique(t: Seq<char>, a: int, b: int)
    requires
        0 <= a <= t.len(),
        0 <= b <= t.len(),
        point_at(t, a) == point_at(t, b),
    ensures
        a == b,
{
    if a < b {
        lemma_point_at_increasing(t, a, b);
    } else if b < a {
        lemma_point_at_increasing(t, b, a);
    }
}

/// Where a seek for `target` from the first item stops: at the first item
/// that it does not pass over, or past the last.
pub open spec fn seek_from(
    items: Seq<Transform>,
    dim: Dimension,
    bias: SeekBias,
    target: (nat, nat),
    m: int,
) -> int
    decreases items.len() - m,
{
    if m < 0 || m >= items.len() {
        items.len() as int
    } else if !passes(dim, bias, prefix(items, m + 1), target) {
        m
    } else {
        seek_from(items, dim, bias, target, m + 1)
    }
}

pub open spec fn seek_index(items: Seq<Transform>, dim: Dimension, bias: SeekBias, target: (nat, nat)) -> int {
    seek_from(items, dim, bias, target, 0)
}

/// The summary up to the end of item `j`, or of all items when `j` is past
/// the last.
pub open spec fn end_at(items: Seq<Transform>, j: int) -> PairModel {
    if j < items.len() {
        prefix(items, j + 1)
    } else {
        prefix(items, j)
    }
}

pub open spec fn min_pair(a: (nat, nat), b: (nat, nat)) -> (nat, nat) {
    if pair_le(a, b) {
        a
    } else {
        b
    }
}

/// A pair with each coordinate cut to `u32::MAX`.
pub open spec fn sat(a: (nat, nat)) -> (nat, nat) {
    (
        if a.0 > u32::MAX { u32::MAX as nat } else { a.0 },
        if a.1 > u32::MAX { u32::MAX as nat } else { a.1 },
    )
}

/// The display point of buffer point `p`: its place in the transform that
/// holds it, cut to the end of that transform.
pub open spec fn display_point_of(items: Seq<Transform>, p: (nat, nat)) -> (nat, nat) {
    let j = seek_index(items, Dimension::BufferPoint, SeekBias::Right, p);
    let st = prefix(items, j);
    min_pair(
        sat(point_add(st.display.lines, point_sub(p, st.buffer.lines))),
        end_at(items, j).display.lines,
    )
}

/// The buffer point of display point `p`: its place in the transform that
/// holds it, or the start of a fold that it falls inside.
pub open spec fn buffer_point_of(items: Seq<Transform>, p: (nat, nat)) -> (nat, nat) {
    let j = seek_index(items, Dimension::DisplayPoint, SeekBias::Right, p);
    let st = prefix(items, j);
    let ov = point_sub(p, st.display.lines);
    if j < items.len() && items[j].display_text is Some && ov != (0nat, 0nat) {
        st.buffer.lines
    } else {
        sat(point_add(st.buffer.lines, ov))
    }
}

/// The buffer row where display row `row` starts.
pub open spec fn buffer_row_of(items: Seq<Transform>, row: nat) -> nat {
    let p = (row, 0nat);
    let j = seek_index(items, Dimension::DisplayPoint, SeekBias::Left, p);
    let st = prefix(items, j);
    sat(point_add(st.buffer.lines, point_sub(p, st.display.lines))).0
}

/// A fold shows on display row `row`: among the transforms from where a seek
/// for the row's start stops, each ending on that row, one is a fold.
pub open spec fn row_has_fold(items: Seq<Transform>, row: nat) -> bool {
    let j = seek_index(items, Dimension::DisplayPoint, SeekBias::Right, (row, 0nat));
    exists|k: int|
        j <= k < items.len() && (#[trigger] items[k]).display_text is Some && forall|m: int|
            j <= m < k ==> (#[trigger] prefix(items, m + 1)).display.lines.0 == row
}

/// A cursor that stopped at `j` stopped where a seek from the first item does.
pub proof fn lemma_seek_index(
    items: Seq<Transform>,
    dim: Dimension,
    bias: SeekBias,
    target: (nat, nat),
    j: int,
    m: int,
)
    requires
        0 <= m <= j <= items.len(),
        forall|x: int| 0 <= x < j ==> passes(dim, bias, #[trigger] prefix(items, x + 1), target),
        j < items.len() ==> !passes(dim, bias, prefix(items, j + 1), target),
    ensures
        seek_from(items, dim, bias, target, m) == j,
    decreases j - m,
{
    if m < j {
        lemma_seek_index(items, dim, bias, target, j, m + 1);
    }
}

fn add_sat(a: Point, d: Point) -> (r: Point)
    ensures
        r@ == sat(point_add(a@, d@)),
{
    if d.row == 0 {
        let c = a.column as u64 + d.column as u64;
        Point::new(a.row, if c > 0xffff_ffff { 0xffff_ffff } else { c as u32 })
    } else {
        let rr = a.row as u64 + d.row as u64;
        Point::new(if rr > 0xffff_ffff { 0xffff_ffff } else { rr as u32 }, d.column)
    }
}

fn min_point(a: Point, b: Point) -> (r: Point)
    ensures
        r@ == min_pair(a@, b@),
{
    if a.row < b.row || (a.row == b.row && a.column <= b.column) {
        a
    } else {
        b
    }
}

fn sub_point(a: Point, b: Point) -> (r: Point)
    ensures
        pair_le(b@, a@) ==> r@ == point_sub(a@, b@),
{
    if b.row < a.row || (b.row == a.row && b.column <= a.column) {
        a.sub(b)
    } else {
        Point::zero()
    }
}

/// The display offset of display point `p` in a passthrough transform: the
/// characters shown before the transform, and those of the buffer from its
/// start up to the buffer point that `p` stands for.
pub open spec fn display_offset_of(items: Seq<Transform>, t: Seq<char>, p: (nat, nat)) -> int {
    let j = seek_index(items, Dimension::DisplayPoint, SeekBias::Right, p);
    let st = prefix(items, j);
    let ov = point_sub(p, st.display.lines);
    if ov == (0nat, 0nat) {
        st.display.chars as int
    } else {
        let q = sat(point_add(st.buffer.lines, ov));
        let o = choose|o: int| 0 <= o <= t.len() && point_at(t, o) == q;
        st.display.chars + o - st.buffer.chars
    }
}

/// The error `to_display_offset` gives for display point `p`, if any.
pub open spec fn display_offset_error(items: Seq<Transform>, t: Seq<char>, p: (nat, nat)) -> Option<
    FoldError,
> {
    let j = seek_index(items, Dimension::DisplayPoint, SeekBias::Right, p);
    let st = prefix(items, j);
    let ov = point_sub(p, st.display.lines);
    if ov == (0nat, 0nat) {
        None
    } else if j >= items.len() {
        Some(FoldError::OutOfBounds)
    } else if items[j].display_text is Some {
        Some(FoldError::InvariantViolated)
    } else if !is_point_of(t, sat(point_add(st.buffer.lines, ov))) {
        Some(FoldError::Buffer(BufferError::PointOutOfRange))
    } else {
        None
    }
}

/// The offset of a point at or after the point of offset `b` is at or
/// after `b`, and is the one offset with that point.
proof fn lemma_offset_after(t: Seq<char>, b: int, o: int, q: (nat, nat))
    requires
        0 <= b <= t.len(),
        0 <= o <= t.len(),
        point_at(t, o) == q,
        pair_le(point_at(t, b), q),
    ensures
        b <= o,
        (choose|c: int| 0 <= c <= t.len() && point_at(t, c) == q) == o,
{
    if o < b {
        lemma_point_at_increasing(t, o, b);
    }
    let c = choose|c: int| 0 <= c <= t.len() && point_at(t, c) == q;
    lemma_point_at_unique(t, c, o);
}

/// What a seek from item `m` on passes over, and where it stops.
pub proof fn lemma_seek_props(
    items: Seq<Transform>,
    dim: Dimension,
    bias: SeekBias,
    target: (nat, nat),
    m: int,
)
    requires
        0 <= m <= items.len(),
    ensures
        m <= seek_from(items, dim, bias, target, m) <= items.len(),
        forall|x: int|
            m <= x < seek_from(items, dim, bias, target, m) ==> passes(
                dim,
                bias,
                #[trigger] prefix(items, x + 1),
                target,
            ),
        seek_from(items, dim, bias, target, m) < items.len() ==> !passes(
            dim,
            bias,
            prefix(items, seek_from(items, dim, bias, target, m) + 1),
            target,
        ),
    decreases items.len() - m,
{
    if m < items.len() && passes(dim, bias, prefix(items, m + 1), target) {
        lemma_seek_props(items, dim, bias, target, m + 1);
    }
}

/// Prefix summaries grow: their points never go back.
pub proof fn lemma_prefix_monotone(items: Seq<Transform>, m: int, n: int)
    requires
        0 <= m <= n <= items.len(),
    ensures
        pair_le(prefix(items, m).buffer.lines, prefix(items, n).buffer.lines),
        pair_le(prefix(items, m).display.lines, prefix(items, n).display.lines),
    decreases n - m,
{
    if m < n {
        lemma_prefix_monotone(items, m, n - 1);
        lemma_prefix_next(items, n - 1);
    }
}

/// Buffer point `p` lies strictly inside the span of a fold transform.
pub open spec fn inside_fold(items: Seq<Transform>, p: (nat, nat)) -> bool {
    exists|j: int|
        0 <= j < items.len() && (#[trigger] items[j]).display_text is Some && pair_le(
            prefix(items, j).buffer.lines,
            p,
        ) && prefix(items, j).buffer.lines != p && pair_le(p, prefix(items, j + 1).buffer.lines)
            && p != prefix(items, j + 1).buffer.lines
}

proof fn lemma_bounds(items: Seq<Transform>, t: Seq<char>, j: int)
    requires
        tiles(items, t),
        t.len() <= MAX_LEN,
        0 <= j <= items.len(),
    ensures
        prefix(items, j).buffer.lines.0 <= MAX_LEN,
        prefix(items, j).buffer.lines.1 <= MAX_LEN,
        prefix(items, j).display.lines.0 <= MAX_LEN,
        prefix(items, j).display.lines.1 <= MAX_LEN,
{
    lemma_prefix_bound(items, j);
}

/// Going to the display and back leaves a buffer point of the text that is
/// not strictly inside a fold where it was.
#[verifier::spinoff_prover]
pub proof fn lemma_round_trip(map: &FoldMap, p: (nat, nat))
    requires
        map.inner_wf(),
        map.text_spec().len() <= MAX_LEN,
        is_point_of(map.text_spec(), p),
        !inside_fold(map.transforms_spec(), p),
    ensures
        buffer_point_of(map.transforms_spec(), display_point_of(map.transforms_spec(), p)) == p,
{
    let items = map.transforms_spec();
    let t = map.text_spec();
    let n = items.len() as int;
    lemma_point_before_end(items, t, p);
    lemma_seek_props(items, Dimension::BufferPoint, SeekBias::Right, p, 0);
    let j = seek_index(items, Dimension::BufferPoint, SeekBias::Right, p);
    if j > 0 {
        assert(passes(Dimension::BufferPoint, SeekBias::Right, prefix(items, (j - 1) + 1), p));
    } else {
        reveal(sum_of);
        assert(items.take(0) =~= Seq::<Transform>::empty());
    }
    lemma_bounds(items, t, j);
    lemma_bounds(items, t, n);
    let st = prefix(items, j);
    if j == n {
        assert(p == st.buffer.lines);
        lemma_rt_case(items, p, j);
    } else {
        lemma_prefix_next(items, j);
        lemma_bounds(items, t, j + 1);
        let it = items[j];
        assert(item_ok(it, t, buffer_start(items, j)));
        if it.display_text is Some {
            assert(items[j].display_text is Some);
            assert(p == st.buffer.lines);
            assert(it.summary@.display.lines == (0nat, 1nat));
        }
        lemma_rt_case(items, p, j);
    }
}

/// A point of the text lies at or before the end of the transforms.
proof fn lemma_point_before_end(items: Seq<Transform>, t: Seq<char>, p: (nat, nat))
    requires
        tiles(items, t),
        is_point_of(t, p),
    ensures
        pair_le(p, prefix(items, items.len() as int).buffer.lines),
        p.0 <= t.len(),
        p.1 <= t.len(),
{
    let n = items.len() as int;
    let o = choose|o: int| 0 <= o <= t.len() && point_at(t, o) == p;
    lemma_summary_valid(t.take(o));
    lemma_prefix_covers(items, t, n);
    assert(items.take(n) =~= items);
    assert(t.take(t.len() as int) =~= t);
    if o < t.len() {
        lemma_point_at_increasing(t, o, t.len() as int);
    }
}

/// The round trip of `p`, found by a seek in transform `j`.
#[verifier::spinoff_prover]
proof fn lemma_rt_case(items: Seq<Transform>, p: (nat, nat), j: int)
    requires
        0 <= j <= items.len(),
        seek_index(items, Dimension::BufferPoint, SeekBias::Right, p) == j,
        pair_le(prefix(items, j).buffer.lines, p),
        p.0 <= MAX_LEN,
        p.1 <= MAX_LEN,
        prefix(items, j).buffer.lines.0 <= MAX_LEN,
        prefix(items, j).buffer.lines.1 <= MAX_LEN,
        prefix(items, j).display.lines.0 <= MAX_LEN,
        prefix(items, j).display.lines.1 <= MAX_LEN,
        j == items.len() ==> p == prefix(items, j).buffer.lines,
        j < items.len() ==> {
            &&& prefix(items, j + 1) == pair_concat(prefix(items, j), items[j].summary@)
            &&& !pair_le(prefix(items, j + 1).buffer.lines, p)
            &&& items[j].display_text is Some ==> p == prefix(items, j).buffer.lines
                && items[j].summary@.display.lines == (0nat, 1nat)
            &&& items[j].display_text is None ==> items[j].summary@.display
                == items[j].summary@.buffer
            &&& prefix(items, j + 1).display.lines.0 <= MAX_LEN
            &&& prefix(items, j + 1).display.lines.1 <= MAX_LEN
        },
    ensures
        buffer_point_of(items, display_point_of(items, p)) == p,
{
    let st = prefix(items, j);
    if j == items.len() {
        let q = st.display.lines;
        assert(display_point_of(items, p) == q);
        lemma_display_seek(items, j, q);
    } else if items[j].display_text is Some {
        let q = st.display.lines;
        assert(display_point_of(items, p) == q);
        lemma_display_seek(items, j, q);
    } else {
        let l = items[j].summary@.buffer.lines;
        let en = prefix(items, j + 1);
        assert(en.buffer.lines == point_add(st.buffer.lines, l));
        assert(en.display.lines == point_add(st.display.lines, l));
        let ov = point_sub(p, st.buffer.lines);
        let q = point_add(st.display.lines, ov);
        assert(pair_le(ov, l) && ov != l);
        assert(pair_le(q, en.display.lines) && q != en.display.lines);
        assert(sat(q) == q);
        assert(display_point_of(items, p) == q);
        lemma_display_seek(items, j, q);
        assert(point_sub(q, st.display.lines) == ov);
        crate::point::lemma_add_sub(p, st.buffer.lines);
    }
}

/// A display point at or after the start of transform `j`, and before its
/// end, is found in transform `j`.
proof fn lemma_display_seek(items: Seq<Transform>, j: int, q: (nat, nat))
    requires
        0 <= j <= items.len(),
        pair_le(prefix(items, j).display.lines, q),
        j < items.len() ==> !pair_le(prefix(items, j + 1).display.lines, q),
    ensures
        seek_index(items, Dimension::DisplayPoint, SeekBias::Right, q) == j,
{
    assert forall|m: int| 0 <= m < j implies passes(
        Dimension::DisplayPoint,
        SeekBias::Right,
        #[trigger] prefix(items, m + 1),
        q,
    ) by {
        lemma_prefix_monotone(items, m + 1, j);
    }
    lemma_seek_index(items, Dimension::DisplayPoint, SeekBias::Right, q, j, 0);
}

/// Every buffer point strictly inside a fold transform shows at the end of
/// its ellipsis.
pub proof fn lemma_interior_collapses(map: &FoldMap, p: (nat, nat), j: int)
    requires
        map.inner_wf(),
        map.text_spec().len() <= MAX_LEN,
        0 <= j < map.transforms_spec().len(),
        map.transforms_spec()[j].display_text is Some,
        pair_le(prefix(map.transforms_spec(), j).buffer.lines, p),
        prefix(map.transforms_spec(), j).buffer.lines != p,
        pair_le(p, prefix(map.transforms_spec(), j + 1).buffer.lines),
        p != prefix(map.transforms_spec(), j + 1).buffer.lines,
    ensures
        display_point_of(map.transforms_spec(), p) == prefix(map.transforms_spec(), j + 1).display.lines,
{
    let items = map.transforms_spec();
    let t = map.text_spec();
    let n = items.len() as int;
    lemma_prefix_next(items, j);
    lemma_bounds(items, t, j);
    lemma_bounds(items, t, j + 1);
    assert(item_ok(items[j], t, buffer_start(items, j)));
    assert forall|m: int| 0 <= m < j implies passes(
        Dimension::BufferPoint,
        SeekBias::Right,
        #[trigger] prefix(items, m + 1),
        p,
    ) by {
        lemma_prefix_monotone(items, m + 1, j);
    }
    lemma_seek_index(items, Dimension::BufferPoint, SeekBias::Right, p, j, 0);
}

/// A run of at least one character ends at another point than it starts.
proof fn lemma_nonempty_lines(s: Seq<char>)
    requires
        s.len() > 0,
    ensures
        summary_of(s).lines != (0nat, 0nat),
{
    reveal(summary_of);
}

/// The display row where a fold transform's buffer start shows is reported
/// folded.
#[verifier::spinoff_prover]
pub proof fn lemma_fold_row_detected(map: &FoldMap, j: int)
    requires
        map.inner_wf(),
        map.text_spec().len() <= MAX_LEN,
        0 <= j < map.transforms_spec().len(),
        map.transforms_spec()[j].display_text is Some,
    ensures
        display_point_of(map.transforms_spec(), prefix(map.transforms_spec(), j).buffer.lines)
            == prefix(map.transforms_spec(), j).display.lines,
        row_has_fold(
            map.transforms_spec(),
            display_point_of(map.transforms_spec(), prefix(map.transforms_spec(), j).buffer.lines).0,
        ),
{
    let items = map.transforms_spec();
    let t = map.text_spec();
    let b = prefix(items, j).buffer.lines;
    let d = prefix(items, j).display.lines;
    let it = items[j];
    lemma_prefix_next(items, j);
    lemma_bounds(items, t, j);
    lemma_bounds(items, t, j + 1);
    let s0 = buffer_start(items, j);
    assert(item_ok(it, t, s0));
    lemma_nonempty_lines(t.subrange(s0 as int, (s0 + it.summary@.buffer.chars) as int));
    assert forall|m: int| 0 <= m < j implies passes(
        Dimension::BufferPoint,
        SeekBias::Right,
        #[trigger] prefix(items, m + 1),
        b,
    ) by {
        lemma_prefix_monotone(items, m + 1, j);
    }
    lemma_seek_index(items, Dimension::BufferPoint, SeekBias::Right, b, j, 0);
    assert(point_sub(b, b) == (0nat, 0nat));
    assert(display_point_of(items, b) == d);
    let r = d.0;
    let target = (r, 0nat);
    lemma_seek_props(items, Dimension::DisplayPoint, SeekBias::Right, target, 0);
    let k = seek_index(items, Dimension::DisplayPoint, SeekBias::Right, target);
    if k > j {
        assert(passes(Dimension::DisplayPoint, SeekBias::Right, prefix(items, j + 1), target));
    }
    assert forall|m: int| k <= m < j implies (#[trigger] prefix(items, m + 1)).display.lines.0 == r by {
        lemma_prefix_monotone(items, m + 1, j);
        lemma_prefix_monotone(items, k + 1, m + 1);
    }
    assert(k <= j < items.len() && items[j].display_text is Some);
}

proof fn lemma_items_ok_take(items: Seq<Transform>, t: Seq<char>, j: int)
    requires
        items_ok(items, t),
        items_valid(items),
        0 <= j <= items.len(),
    ensures
        items_ok(items.take(j), t),
        items_valid(items.take(j)),
{
    let d = items.take(j);
    assert forall|i: int| 0 <= i < d.len() implies item_ok(#[trigger] d[i], t, buffer_start(d, i)) by {
        assert(d.take(i) =~= items.take(i));
        assert(item_ok(items[i], t, buffer_start(items, i)));
    }
    assert forall|i: int| 0 <= i < d.len() implies pair_valid(#[trigger] d[i].summary@) by {
        assert(d[i] == items[i]);
    }
}

/// What the first `j` transforms show starts what all of them show.
proof fn lemma_display_take(items: Seq<Transform>, t: Seq<char>, j: int, m: int)
    requires
        0 <= j <= m <= items.len(),
    ensures
        display_of(items.take(m), t).len() >= display_of(items.take(j), t).len(),
        display_of(items.take(m), t).take(display_of(items.take(j), t).len() as int)
            == display_of(items.take(j), t),
    decreases m - j,
{
    if m > j {
        lemma_display_take(items, t, j, m - 1);
        let tm = items.take(m);
        assert(tm.drop_last() =~= items.take(m - 1));
        assert(tm.take(m - 1) =~= items.take(m - 1));
        let a = display_of(items.take(m - 1), t);
        let b = display_of(items.take(j), t);
        assert(display_of(tm, t) == a + piece(items[m - 1], t, buffer_start(tm, m - 1)));
        assert((a + piece(items[m - 1], t, buffer_start(tm, m - 1))).take(b.len() as int) =~= a.take(
            b.len() as int,
        ));
    } else {
        assert(display_of(items.take(m), t).take(display_of(items.take(j), t).len() as int)
            =~= display_of(items.take(j), t));
    }
}

/// The first `j` transforms show `prefix(j).display.chars` characters, whose
/// summary is their display summary.
proof fn lemma_display_prefix(items: Seq<Transform>, t: Seq<char>, j: int)
    requires
        tiles(items, t),
        0 <= j <= items.len(),
    ensures
        summary_of(display_of(items.take(j), t)) == prefix(items, j).display,
        display_of(items.take(j), t).len() == prefix(items, j).display.chars,
        display_of(items, t).take(prefix(items, j).display.chars as int) == display_of(
            items.take(j),
            t,
        ),
        display_of(items, t).len() >= prefix(items, j).display.chars,
{
    lemma_items_ok_take(items, t, j);
    lemma_display_summary(items.take(j), t);
    lemma_summary_valid(display_of(items.take(j), t));
    lemma_display_take(items, t, j, items.len() as int);
    assert(items.take(items.len() as int) =~= items);
}

/// The display offset of a display point that `to_display_offset` accepts
/// is where that point lies in the display text.
#[verifier::spinoff_prover]
pub proof fn lemma_display_offset(items: Seq<Transform>, t: Seq<char>, dp: (nat, nat))
    requires
        tiles(items, t),
        t.len() <= MAX_LEN,
        display_offset_error(items, t, dp) is None,
    ensures
        0 <= display_offset_of(items, t, dp) <= display_of(items, t).len(),
        point_at(display_of(items, t), display_offset_of(items, t, dp)) == dp,
{
    let d = display_of(items, t);
    lemma_seek_props(items, Dimension::DisplayPoint, SeekBias::Right, dp, 0);
    let j = seek_index(items, Dimension::DisplayPoint, SeekBias::Right, dp);
    if j > 0 {
        assert(passes(Dimension::DisplayPoint, SeekBias::Right, prefix(items, (j - 1) + 1), dp));
    } else {
        reveal(sum_of);
        assert(items.take(0) =~= Seq::<Transform>::empty());
    }
    let st = prefix(items, j);
    let ov = point_sub(dp, st.display.lines);
    lemma_display_prefix(items, t, j);
    if ov == (0nat, 0nat) {
        assert(dp == st.display.lines);
        assert(d.take(st.display.chars as int) == display_of(items.take(j), t));
    } else {
        lemma_passthrough_offset(items, t, j, dp);
    }
}

/// In a passthrough transform `j`, the buffer offset that display point
/// `dp` stands for lies within the transform, after as many characters as
/// the overshoot covers.
#[verifier::spinoff_prover]
proof fn lemma_buffer_side(items: Seq<Transform>, t: Seq<char>, j: int, dp: (nat, nat))
    requires
        tiles(items, t),
        t.len() <= MAX_LEN,
        0 <= j < items.len(),
        items[j].display_text is None,
        pair_le(prefix(items, j).display.lines, dp),
        !pair_le(prefix(items, j + 1).display.lines, dp),
        is_point_of(
            t,
            sat(point_add(prefix(items, j).buffer.lines, point_sub(dp, prefix(items, j).display.lines))),
        ),
    ensures
        ({
            let st = prefix(items, j);
            let ov = point_sub(dp, st.display.lines);
            let q = sat(point_add(st.buffer.lines, ov));
            let o = choose|o: int| 0 <= o <= t.len() && point_at(t, o) == q;
            &&& st.buffer.chars <= o <= prefix(items, j + 1).buffer.chars
            &&& summary_of(t.subrange(st.buffer.chars as int, o)).lines == ov
        }),
{
    let st = prefix(items, j);
    let ov = point_sub(dp, st.display.lines);
    lemma_prefix_next(items, j);
    lemma_bounds(items, t, j);
    lemma_bounds(items, t, j + 1);
    lemma_prefix_covers(items, t, j);
    lemma_prefix_covers(items, t, j + 1);
    let it = items[j];
    let bs = st.buffer.chars as int;
    let be = prefix(items, j + 1).buffer.chars as int;
    assert(item_ok(it, t, buffer_start(items, j)));
    let l = it.summary@.buffer.lines;
    let q = sat(point_add(st.buffer.lines, ov));
    let o = choose|o: int| 0 <= o <= t.len() && point_at(t, o) == q;
    lemma_summary_valid(t.take(o));
    assert(q == point_add(st.buffer.lines, ov));
    assert(pair_le(ov, l) && ov != l);
    let qe = prefix(items, j + 1).buffer.lines;
    assert(qe == point_add(st.buffer.lines, l));
    assert(pair_le(q, qe) && q != qe);
    if o < bs {
        lemma_point_at_increasing(t, o, bs);
    }
    if o > be {
        lemma_point_at_increasing(t, be, o);
    }
    let seg = t.subrange(bs, o);
    lemma_summary_append(t.take(bs), seg);
    assert(t.take(bs) + seg =~= t.take(o));
    let x = summary_of(seg).lines;
    assert(point_add(st.buffer.lines, x) == point_add(st.buffer.lines, ov));
}

#[verifier::spinoff_prover]
proof fn lemma_passthrough_offset(items: Seq<Transform>, t: Seq<char>, j: int, dp: (nat, nat))
    requires
        tiles(items, t),
        t.len() <= MAX_LEN,
        0 <= j <= items.len(),
        j == seek_index(items, Dimension::DisplayPoint, SeekBias::Right, dp),
        pair_le(prefix(items, j).display.lines, dp),
        j < items.len() ==> !pair_le(prefix(items, j + 1).display.lines, dp),
        point_sub(dp, prefix(items, j).display.lines) != (0nat, 0nat),
        display_offset_error(items, t, dp) is None,
    ensures
        0 <= display_offset_of(items, t, dp) <= display_of(items, t).len(),
        point_at(display_of(items, t), display_offset_of(items, t, dp)) == dp,
{
    let st = prefix(items, j);
    let ov = point_sub(dp, st.display.lines);
    lemma_buffer_side(items, t, j, dp);
    let q = sat(point_add(st.buffer.lines, ov));
    let o = choose|o: int| 0 <= o <= t.len() && point_at(t, o) == q;
    let bs = st.buffer.chars as int;
    let be = prefix(items, j + 1).buffer.chars as int;
    let seg = t.subrange(bs, o);
    let d = display_of(items, t);
    lemma_prefix_next(items, j);
    lemma_display_prefix(items, t, j);
    lemma_display_prefix(items, t, j + 1);
    lemma_prefix_covers(items, t, j);
    assert(item_ok(items[j], t, buffer_start(items, j)));
    let tj1 = items.take(j + 1);
    assert(tj1.drop_last() =~= items.take(j));
    assert(tj1.take(j) =~= items.take(j));
    let pre = display_of(items.take(j), t);
    assert(display_of(tj1, t) == pre + t.subrange(bs, be));
    let off = st.display.chars + (o - bs);
    let dj1 = prefix(items, j + 1).display.chars as int;
    assert(dj1 == st.display.chars + (be - bs));
    assert(d.take(dj1) == pre + t.subrange(bs, be));
    assert((pre + t.subrange(bs, be)).take(off) =~= pre + seg);
    assert(d.take(dj1).take(off) =~= d.take(off));
    assert(d.take(off) =~= pre + seg);
    lemma_summary_append(pre, seg);
    crate::point::lemma_add_sub(dp, st.display.lines);
}

/// Every line start of a text is one of its points.
proof fn lemma_line_start(s: Seq<char>, row: nat)
    requires
        row <= summary_of(s).lines.0,
    ensures
        is_point_of(s, (row, 0nat)),
    decreases s.len(),
{
    reveal(summary_of);
    if s.len() == 0 {
        assert(s.take(0) =~= s);
        assert(point_at(s, 0) == (0nat, 0nat));
    } else {
        let s0 = s.drop_last();
        lemma_summary_valid(s0);
        if row <= summary_of(s0).lines.0 {
            lemma_line_start(s0, row);
            let o = choose|o: int| 0 <= o <= s0.len() && point_at(s0, o) == (row, 0nat);
            assert(s.take(o) =~= s0.take(o));
            assert(point_at(s, o) == (row, 0nat));
        } else {
            assert(s.take(s.len() as int) =~= s);
            assert(point_at(s, s.len() as int) == (row, 0nat));
        }
    }
}

/// Every display row from the first to the last starts at a display point
/// that `to_display_offset` accepts.
#[verifier::spinoff_prover]
pub proof fn lemma_row_start_accepted(items: Seq<Transform>, t: Seq<char>, row: nat)
    requires
        tiles(items, t),
        t.len() <= MAX_LEN,
        row <= sum_of(items).display.lines.0,
    ensures
        display_offset_error(items, t, (row, 0nat)) is None,
{
    let n = items.len() as int;
    let dp = (row, 0nat);
    lemma_seek_props(items, Dimension::DisplayPoint, SeekBias::Right, dp, 0);
    let j = seek_index(items, Dimension::DisplayPoint, SeekBias::Right, dp);
    if j > 0 {
        assert(passes(Dimension::DisplayPoint, SeekBias::Right, prefix(items, (j - 1) + 1), dp));
    } else {
        reveal(sum_of);
        assert(items.take(0) =~= Seq::<Transform>::empty());
    }
    let st = prefix(items, j);
    let ov = point_sub(dp, st.display.lines);
    assert(items.take(n) =~= items);
    if ov != (0nat, 0nat) {
        if j == n {
            assert(st == sum_of(items));
        } else {
            lemma_prefix_next(items, j);
            assert(item_ok(items[j], t, buffer_start(items, j)));
            if items[j].display_text is None {
                lemma_bounds(items, t, j);
                lemma_bounds(items, t, j + 1);
                lemma_prefix_covers(items, t, j + 1);
                let be = prefix(items, j + 1).buffer.chars as int;
                let l = items[j].summary@.buffer.lines;
                let q = point_add(st.buffer.lines, ov);
                assert(pair_le(ov, l) && ov != l);
                let qe = prefix(items, j + 1).buffer.lines;
                assert(qe == point_add(st.buffer.lines, l));
                assert(q.1 == 0 && q.0 <= qe.0);
                assert(sat(q) == q);
                lemma_line_start(t.take(be), q.0);
                let o = choose|o: int| 0 <= o <= t.take(be).len() && point_at(t.take(be), o) == q;
                assert(t.take(be).take(o) =~= t.take(o));
                assert(point_at(t, o) == q);
            }
        }
    }
}

/// A folded view of a buffer: transforms that tile the buffer, and the
/// folds, as anchor ranges sorted by start.
pub struct FoldMap {
    transforms: SumTree,
    folds: Vec<Range<Anchor>>,
    text: Ghost<Seq<char>>,
}

impl FoldMap {
    pub closed spec fn transforms_spec(&self) -> Seq<Transform> {
        self.transforms.items_spec()
    }

    pub closed spec fn folds_spec(&self) -> Seq<Range<Anchor>> {
        self.folds@
    }

    /// The buffer text that the transforms were last brought up to date with.
    pub closed spec fn text_spec(&self) -> Seq<char> {
        self.text@
    }

    pub closed spec fn tree_wf(&self) -> bool {
        self.transforms.wf()
    }

    /// The transforms tile the text.
    pub open spec fn inner_wf(&self) -> bool {
        &&& self.tree_wf()
        &&& tiles(self.transforms_spec(), self.text_spec())
    }

    pub open spec fn folds_valid(&self, buffer: &Buffer) -> bool {
        forall|i: int|
            0 <= i < self.folds_spec().len() ==> buffer.anchor_valid(
                (#[trigger] self.folds_spec()[i]).start,
            ) && buffer.anchor_valid(self.folds_spec()[i].end)
    }

    /// The folds are sorted by where they start in `buffer`, and each start
    /// keeps right of text inserted at it.
    pub open spec fn folds_ordered(&self, buffer: &Buffer) -> bool {
        &&& starts_sorted(fold_spans(buffer, self.folds_spec()))
        &&& forall|i: int|
            0 <= i < self.folds_spec().len() ==> (#[trigger] self.folds_spec()[i]).start.bias_spec()
                == Bias::Right
    }

    /// The map is in step with `buffer`: its transforms tile the text and
    /// show it with each merged fold span replaced by one ellipsis.
    pub open spec fn wf(&self, buffer: &Buffer) -> bool {
        &&& buffer.wf()
        &&& self.inner_wf()
        &&& self.text_spec() == buffer.text_spec()
        &&& self.folds_valid(buffer)
        &&& self.folds_ordered(buffer)
        &&& self.display_spec() == ellipsized(
            buffer.text_spec(),
            merged_fold_spans(buffer, self.folds_spec()),
            0,
        )
        &&& fold_items_spans(self.transforms_spec()) == merged_fold_spans(buffer, self.folds_spec())
    }

    /// The text of the folded view.
    pub open spec fn display_spec(&self) -> Seq<char> {
        display_of(self.transforms_spec(), self.text_spec())
    }

    pub open spec fn total(&self) -> PairModel {
        sum_of(self.transforms_spec())
    }

    /// A map of `buffer` with no folds: one transform shows all of it.
    pub fn new(buffer: &Buffer) -> (r: FoldMap)
        requires
            buffer.wf(),
        ensures
            r.wf(buffer),
            r.folds_spec().len() == 0,
            r.transforms_spec().len() == 1,
            r.display_spec() == buffer.text_spec(),
            r.transforms_spec()[0].display_text is None,
    {
        let s = buffer.text_summary();
        proof {
            lemma_summary_valid(buffer.text_spec());
            buffer.lemma_len_bound();
        }
        let item = Transform { summary: TransformSummary { display: s, buffer: s }, display_text: None };
        let transforms = SumTree::from_item(item);
        let r = FoldMap { transforms, folds: Vec::new(), text: Ghost(buffer.text_spec()) };
        proof {
            reveal(sum_of);
            let items = r.transforms_spec();
            let t = buffer.text_spec();
            assert(items.take(0) =~= Seq::<Transform>::empty());
            assert(t.subrange(0, t.len() as int) =~= t);
            assert(item_ok(items[0], t, buffer_start(items, 0)));
            assert(items.drop_last() =~= Seq::<Transform>::empty());
            assert(display_of(items.drop_last(), t) =~= Seq::<char>::empty());
            assert(display_of(items, t) =~= t);
            assert(fold_spans(buffer, r.folds_spec()) =~= Seq::<(nat, nat)>::empty());
            assert(fold_items_spans(items.drop_last()) =~= Seq::<(nat, nat)>::empty());
            assert(fold_items_spans(items) =~= Seq::<(nat, nat)>::empty());
            assert(ellipsized(t, Seq::<(nat, nat)>::empty(), 0) =~= t);
        }
        r
    }

    /// Brings the transforms up to date with `buffer` after `edits`, which
    /// turned the text the map was last brought up to date with into the
    /// buffer's. The whole buffer is tiled anew from the folds, merged: text
    /// between them, one ellipsis for each. The edits are not needed for
    /// that: the spans they touch are rebuilt along with the rest.
    pub fn apply_edits(&mut self, edits: &Vec<Edit>, buffer: &Buffer) -> (r: Result<(), FoldError>)
        requires
            old(self).inner_wf(),
            buffer.wf(),
            old(self).folds_valid(buffer),
            old(self).folds_ordered(buffer),
        ensures
            r is Ok,
            final(self).wf(buffer),
            final(self).folds_spec() == old(self).folds_spec(),
            final(self).display_spec() == ellipsized(
                buffer.text_spec(),
                merged_fold_spans(buffer, final(self).folds_spec()),
                0,
            ),
    {
        self.rebuild(buffer);
        Ok(())
    }

    /// Tiles the buffer anew from the folds.
    fn rebuild(&mut self, buffer: &Buffer)
        requires
            old(self).inner_wf(),
            buffer.wf(),
            old(self).folds_valid(buffer),
            old(self).folds_ordered(buffer),
        ensures
            final(self).wf(buffer),
            final(self).folds_spec() == old(self).folds_spec(),
    {
        let transforms = build_transforms(buffer, &self.folds);
        self.transforms = transforms;
        self.text = Ghost(buffer.text_spec());
    }

    /// The offsets of the points of `ranges`, or the first error.
    fn range_offsets(ranges: &Vec<Range<Point>>, buffer: &Buffer) -> (r: Result<
        Vec<(usize, usize)>,
        FoldError,
    >)
        requires
            buffer.wf(),
        ensures
            r is Ok <==> forall|i: int|
                0 <= i < ranges@.len() ==> is_point_of(buffer.text_spec(), (#[trigger] ranges@[i]).start@)
                    && is_point_of(buffer.text_spec(), ranges@[i].end@),
            r matches Ok(v) ==> v@.len() == ranges@.len() && forall|i: int|
                0 <= i < v@.len() ==> {
                    &&& (#[trigger] v@[i]).0 <= buffer.text_spec().len()
                    &&& v@[i].1 <= buffer.text_spec().len()
                    &&& point_at(buffer.text_spec(), v@[i].0 as int) == ranges@[i].start@
                    &&& point_at(buffer.text_spec(), v@[i].1 as int) == ranges@[i].end@
                },
    {
        let mut v: Vec<(usize, usize)> = Vec::new();
        let mut i: usize = 0;
        while i < ranges.len()
            invariant
                buffer.wf(),
                i <= ranges@.len(),
                v@.len() == i,
                forall|j: int|
                    0 <= j < i ==> is_point_of(buffer.text_spec(), (#[trigger] ranges@[j]).start@)
                        && is_point_of(buffer.text_spec(), ranges@[j].end@),
                forall|j: int|
                    0 <= j < i ==> {
                        &&& (#[trigger] v@[j]).0 <= buffer.text_spec().len()
                        &&& v@[j].1 <= buffer.text_spec().len()
                        &&& point_at(buffer.text_spec(), v@[j].0 as int) == ranges@[j].start@
                        &&& point_at(buffer.text_spec(), v@[j].1 as int) == ranges@[j].end@
                    },
            decreases ranges@.len() - i,
        {
            let s = match buffer.point_to_offset(ranges[i].start) {
                Ok(o) => o,
                Err(e) => {
                    return Err(FoldError::Buffer(e));
                },
            };
            let e = match buffer.point_to_offset(ranges[i].end) {
                Ok(o) => o,
                Err(e) => {
                    return Err(FoldError::Buffer(e));
                },
            };
            v.push((s, e));
            i = i + 1;
        }
        Ok(v)
    }

    /// Where a fold `start..end` goes among the folds: after those that
    /// start earlier, or start there and end no earlier.
    fn fold_insertion_index(&self, buffer: &Buffer, start: usize, end: usize) -> (r: usize)
        requires
            buffer.wf(),
            self.folds_valid(buffer),
        ensures
            r <= self.folds_spec().len(),
            forall|k: int| 0 <= k < r ==> buffer.resolved((#[trigger] self.folds_spec()[k]).start) <= start,
            r < self.folds_spec().len() ==> buffer.resolved(self.folds_spec()[r as int].start) >= start,
            insertion_point(buffer, self.folds_spec(), r as int, start as nat, end as nat),
    {
        let mut ix: usize = 0;
        while ix < self.folds.len()
            invariant
                buffer.wf(),
                self.folds_valid(buffer),
                ix <= self.folds_spec().len(),
                forall|k: int| 0 <= k < ix ==> buffer.resolved((#[trigger] self.folds_spec()[k]).start) <= start,
                forall|k: int| 0 <= k < ix ==> !goes_before(buffer, #[trigger] self.folds_spec()[k], start as nat, end as nat),
            ensures
                ix < self.folds_spec().len() ==> buffer.resolved(self.folds_spec()[ix as int].start) >= start,
                ix < self.folds_spec().len() ==> goes_before(buffer, self.folds_spec()[ix as int], start as nat, end as nat),
            decreases self.folds_spec().len() - ix,
        {
            let s = buffer.to_offset(&self.folds[ix].start);
            let e = buffer.to_offset(&self.folds[ix].end);
            if s > start || (s == start && e < end) {
                break;
            }
            ix = ix + 1;
        }
        ix
    }

    /// Folds each of `ranges`: the text between its points shows as one
    /// ellipsis, merged with the folds it overlaps or touches.
    pub fn fold(&mut self, ranges: &Vec<Range<Point>>, buffer: &Buffer) -> (r: Result<(), FoldError>)
        requires
            old(self).wf(buffer),
        ensures
            r is Ok <==> forall|i: int|
                0 <= i < ranges@.len() ==> is_point_of(buffer.text_spec(), (#[trigger] ranges@[i]).start@)
                    && is_point_of(buffer.text_spec(), ranges@[i].end@),
            r is Ok ==> final(self).wf(buffer),
            r is Ok ==> final(self).folds_spec().len() == old(self).folds_spec().len() + ranges@.len(),
            r is Ok ==> final(self).folds_spec().to_multiset() == old(self).folds_spec().to_multiset().add(
                new_folds(buffer, ranges@).to_multiset(),
            ),
            r is Ok && ranges@.len() == 1 ==> exists|ix: int|
                insertion_point(
                    buffer,
                    old(self).folds_spec(),
                    ix,
                    offset_of(buffer.text_spec(), ranges@[0].start@) as nat,
                    offset_of(buffer.text_spec(), ranges@[0].end@) as nat,
                ) && final(self).folds_spec() == old(self).folds_spec().insert(
                    ix,
                    new_folds(buffer, ranges@)[0],
                ),
            r is Ok ==> forall|x: int|
                0 <= x < old(self).folds_spec().len() ==> final(self).folds_spec().contains(
                    #[trigger] old(self).folds_spec()[x],
                ),
            r is Ok ==> forall|i: int, s: int, e: int|
                0 <= i < ranges@.len() && 0 <= s <= buffer.text_spec().len() && 0 <= e
                    <= buffer.text_spec().len() && #[trigger] point_at(buffer.text_spec(), s) == (
                #[trigger] ranges@[i]).start@ && #[trigger] point_at(buffer.text_spec(), e)
                    == ranges@[i].end@ ==> has_fold_at(buffer, final(self).folds_spec(), s, e),
            r is Ok ==> final(self).display_spec() == ellipsized(
                buffer.text_spec(),
                merged_fold_spans(buffer, final(self).folds_spec()),
                0,
            ),
            r is Err ==> *final(self) == *old(self),
    {
        let ghost old_folds = self.folds_spec();
        let offsets = match FoldMap::range_offsets(ranges, buffer) {
            Ok(v) => v,
            Err(e) => {
                return Err(e);
            },
        };
        let ghost len = buffer.text_spec().len();
        let ghost n0 = self.folds_spec().len();
        let ghost mut first_ix: int = 0;
        let mut i: usize = 0;
        proof {
            assert(new_folds(buffer, ranges@).take(0) =~= Seq::<Range<Anchor>>::empty());
            Seq::<Range<Anchor>>::empty().to_multiset_ensures();
            assert(Seq::<Range<Anchor>>::empty().to_multiset() =~= vstd::multiset::Multiset::<Range<Anchor>>::empty());
            assert(old_folds.to_multiset().add(Seq::<Range<Anchor>>::empty().to_multiset()) =~= old_folds.to_multiset());
            assert forall|x: int| 0 <= x < n0 implies self.folds_spec().contains(
                #[trigger] old_folds[x],
            ) by {
                assert(self.folds_spec()[x] == old_folds[x]);
            }
        }
        while i < offsets.len()
            invariant
                self.inner_wf(),
                self.text_spec() == buffer.text_spec(),
                buffer.wf(),
                self.folds_valid(buffer),
                len == buffer.text_spec().len(),
                i <= offsets@.len(),
                self.folds_spec().len() == n0 + i,
                self.folds_ordered(buffer),
                n0 == old_folds.len(),
                old_folds == old(self).folds_spec(),
                self.folds_spec().to_multiset() == old_folds.to_multiset().add(
                    new_folds(buffer, ranges@).take(i as int).to_multiset(),
                ),
                i == 0 ==> self.folds_spec() == old_folds,
                i == 1 ==> insertion_point(
                    buffer,
                    old_folds,
                    first_ix,
                    offset_of(buffer.text_spec(), ranges@[0].start@) as nat,
                    offset_of(buffer.text_spec(), ranges@[0].end@) as nat,
                ) && self.folds_spec() == old_folds.insert(first_ix, new_folds(buffer, ranges@)[0]),
                offsets@.len() == ranges@.len(),
                forall|j: int|
                    0 <= j < offsets@.len() ==> (#[trigger] offsets@[j]).0 <= len && offsets@[j].1
                        <= len && point_at(buffer.text_spec(), offsets@[j].0 as int) == ranges@[j].start@
                        && point_at(buffer.text_spec(), offsets@[j].1 as int) == ranges@[j].end@,
                forall|x: int| 0 <= x < n0 ==> self.folds_spec().contains(#[trigger] old_folds[x]),
                forall|j: int|
                    0 <= j < i ==> has_fold_at(
                        buffer,
                        self.folds_spec(),
                        (#[trigger] offsets@[j]).0 as int,
                        offsets@[j].1 as int,
                    ),
            decreases offsets@.len() - i,
        {
            let (s, e) = offsets[i];
            proof {
                assert(offsets@[i as int].0 <= len && offsets@[i as int].1 <= len);
            }
            let start = match buffer.anchor_after(s) {
                Ok(a) => a,
                Err(e) => {
                    return Err(FoldError::Buffer(e));
                },
            };
            let end = match buffer.anchor_before(e) {
                Ok(a) => a,
                Err(e) => {
                    return Err(FoldError::Buffer(e));
                },
            };
            let ix = self.fold_insertion_index(buffer, s, e);
            let ghost before = self.folds@;
            self.folds.insert(ix, start..end);
            proof {
                let t = buffer.text_spec();
                let nf = new_folds(buffer, ranges@);
                lemma_point_at_unique(t, s as int, offset_of(t, ranges@[i as int].start@));
                lemma_point_at_unique(t, e as int, offset_of(t, ranges@[i as int].end@));
                assert(nf[i as int] == (start..end));
                lemma_insert_to_multiset(before, ix as int, start..end);
                assert(nf.take(i + 1) =~= nf.take(i as int).push(start..end));
                nf.take(i as int).to_multiset_ensures();
                assert(self.folds_spec().to_multiset() =~= old_folds.to_multiset().add(
                    nf.take(i + 1).to_multiset(),
                ));
                if i == 0 {
                    first_ix = ix as int;
                    assert(before == old_folds);
                }
                let sp = fold_spans(buffer, self.folds_spec());
                let sp0 = fold_spans(buffer, before);
                assert forall|a: int, b: int| 0 <= a < b < sp.len() implies (#[trigger] sp[a]).0
                    <= (#[trigger] sp[b]).0 by {
                    if b < ix {
                        assert(sp[a] == sp0[a] && sp[b] == sp0[b]);
                    } else if b == ix {
                        assert(sp[a] == sp0[a]);
                    } else if a < ix {
                        assert(sp[a] == sp0[a] && sp[b] == sp0[b - 1]);
                        assert(sp0[ix as int].0 >= s);
                        if b - 1 > ix {
                            assert(sp0[ix as int].0 <= sp0[b - 1].0);
                        }
                    } else if a == ix {
                        assert(sp[b] == sp0[b - 1]);
                        assert(sp0[ix as int].0 >= s);
                        if b - 1 > ix {
                            assert(sp0[ix as int].0 <= sp0[b - 1].0);
                        }
                    } else {
                        assert(sp[a] == sp0[a - 1] && sp[b] == sp0[b - 1]);
                    }
                }
                assert forall|j: int| 0 <= j < self.folds_spec().len() implies (
                #[trigger] self.folds_spec()[j]).start.bias_spec() == Bias::Right by {
                    if j < ix {
                        assert(self.folds_spec()[j] == before[j]);
                    } else if j > ix {
                        assert(self.folds_spec()[j] == before[j - 1]);
                    }
                }
                assert forall|j: int| 0 <= j < self.folds_spec().len() implies buffer.anchor_valid(
                    (#[trigger] self.folds_spec()[j]).start,
                ) && buffer.anchor_valid(self.folds_spec()[j].end) by {
                    if j < ix {
                        assert(self.folds_spec()[j] == before[j]);
                    } else if j > ix {
                        assert(self.folds_spec()[j] == before[j - 1]);
                    }
                }
                assert forall|x: int| 0 <= x < n0 implies self.folds_spec().contains(
                    #[trigger] old_folds[x],
                ) by {
                    assert(before.contains(old_folds[x]));
                    let f = choose|f: int| 0 <= f < before.len() && before[f] == old_folds[x];
                    if f < ix {
                        assert(self.folds_spec()[f] == old_folds[x]);
                    } else {
                        assert(self.folds_spec()[f + 1] == old_folds[x]);
                    }
                }
                assert forall|j: int| 0 <= j < i + 1 implies has_fold_at(
                    buffer,
                    self.folds_spec(),
                    (#[trigger] offsets@[j]).0 as int,
                    offsets@[j].1 as int,
                ) by {
                    if j == i {
                        assert(self.folds_spec()[ix as int] == (start..end));
                        assert(buffer.resolved(self.folds_spec()[ix as int].start) == offsets@[j].0);
                        assert(self.folds_spec()[ix as int].start.bias_spec() == Bias::Right);
                        assert(self.folds_spec()[ix as int].end.bias_spec() == Bias::Left);
                    } else {
                        assert(has_fold_at(buffer, before, offsets@[j].0 as int, offsets@[j].1 as int));
                        let f = choose|f: int|
                            0 <= f < before.len() && buffer.resolved(before[f].start)
                                == offsets@[j].0 && buffer.resolved(before[f].end) == offsets@[j].1
                                && before[f].start.bias_spec() == Bias::Right
                                && before[f].end.bias_spec() == Bias::Left;
                        if f < ix {
                            assert(self.folds_spec()[f] == before[f]);
                        } else {
                            assert(self.folds_spec()[f + 1] == before[f]);
                        }
                    }
                }
            }
            i = i + 1;
        }
        proof {
            assert forall|i: int, s: int, e: int|
                0 <= i < ranges@.len() && 0 <= s <= buffer.text_spec().len() && 0 <= e
                    <= buffer.text_spec().len() && #[trigger] point_at(buffer.text_spec(), s) == (
                #[trigger] ranges@[i]).start@ && #[trigger] point_at(buffer.text_spec(), e)
                    == ranges@[i].end@ implies has_fold_at(buffer, self.folds_spec(), s, e) by {
                lemma_point_at_unique(buffer.text_spec(), s, offsets@[i].0 as int);
                lemma_point_at_unique(buffer.text_spec(), e, offsets@[i].1 as int);
                assert(has_fold_at(buffer, self.folds_spec(), offsets@[i].0 as int, offsets@[i].1 as int));
            }
        }
        proof {
            assert(new_folds(buffer, ranges@).take(i as int) =~= new_folds(buffer, ranges@));
        }
        self.rebuild(buffer);
        Ok(())
    }

    /// Removes every fold that overlaps or touches one of `ranges`, and shows
    /// its text again.
    pub fn unfold(&mut self, ranges: &Vec<Range<Point>>, buffer: &Buffer) -> (r: Result<(), FoldError>)
        requires
            old(self).wf(buffer),
        ensures
            r is Ok <==> forall|i: int|
                0 <= i < ranges@.len() ==> is_point_of(buffer.text_spec(), (#[trigger] ranges@[i]).start@)
                    && is_point_of(buffer.text_spec(), ranges@[i].end@),
            r is Ok ==> final(self).wf(buffer),
            r is Ok ==> final(self).folds_spec().len() <= old(self).folds_spec().len(),
            r is Ok ==> forall|j: int|
                0 <= j < final(self).folds_spec().len() ==> old(self).folds_spec().contains(
                    #[trigger] final(self).folds_spec()[j],
                ),
            r is Ok ==> final(self).display_spec() == ellipsized(
                buffer.text_spec(),
                merged_fold_spans(buffer, final(self).folds_spec()),
                0,
            ),
            r is Ok ==> forall|j: int, i: int, s: int, e: int|
                0 <= j < final(self).folds_spec().len() && 0 <= i < ranges@.len() && 0 <= s
                    <= buffer.text_spec().len() && 0 <= e <= buffer.text_spec().len() && #[trigger] point_at(
                    buffer.text_spec(),
                    s,
                ) == (#[trigger] ranges@[i]).start@ && #[trigger] point_at(buffer.text_spec(), e)
                    == ranges@[i].end@ ==> buffer.resolved(
                    (#[trigger] final(self).folds_spec()[j]).start,
                ) > e || buffer.resolved(final(self).folds_spec()[j].end) < s,
            r is Ok ==> forall|x: int|
                0 <= x < old(self).folds_spec().len() && !touches_some(
                    buffer,
                    ranges@,
                    #[trigger] old(self).folds_spec()[x],
                ) ==> final(self).folds_spec().contains(old(self).folds_spec()[x]),
            r is Ok ==> final(self).folds_spec() == old(self).folds_spec().filter(
                |f: Range<Anchor>| !touches_some(buffer, ranges@, f),
            ),
            r is Err ==> *final(self) == *old(self),
    {
        let offsets = match FoldMap::range_offsets(ranges, buffer) {
            Ok(v) => v,
            Err(e) => {
                return Err(e);
            },
        };
        let ghost len = buffer.text_spec().len();
        let ghost n0 = self.folds_spec().len();
        let mut i: usize = 0;
        proof {
            reveal(Seq::filter);
            assert forall|x: Range<Anchor>| #[trigger] kept_after(buffer, offsets@, 0)(x) == (true && true) by {}
            lemma_filter_true(old(self).folds_spec(), kept_after(buffer, offsets@, 0));
        }
        while i < offsets.len()
            invariant
                self.folds_spec() == old(self).folds_spec().filter(kept_after(buffer, offsets@, i as int)),
                self.inner_wf(),
                self.text_spec() == buffer.text_spec(),
                buffer.wf(),
                self.folds_valid(buffer),
                len == buffer.text_spec().len(),
                i <= offsets@.len(),
                self.folds_spec().len() <= n0,
                n0 == old(self).folds_spec().len(),
                self.folds_ordered(buffer),
                forall|x: int|
                    0 <= x < n0 && !touches_offsets(buffer, #[trigger] old(self).folds_spec()[x], offsets@, i as int)
                        ==> self.folds_spec().contains(old(self).folds_spec()[x]),
                forall|j: int|
                    0 <= j < self.folds_spec().len() ==> old(self).folds_spec().contains(
                        #[trigger] self.folds_spec()[j],
                    ),
                offsets@.len() == ranges@.len(),
                forall|j: int|
                    0 <= j < offsets@.len() ==> {
                        &&& (#[trigger] offsets@[j]).0 <= len
                        &&& offsets@[j].1 <= len
                        &&& point_at(buffer.text_spec(), offsets@[j].0 as int) == ranges@[j].start@
                        &&& point_at(buffer.text_spec(), offsets@[j].1 as int) == ranges@[j].end@
                    },
                forall|f: int, j: int|
                    0 <= f < self.folds_spec().len() && 0 <= j < i ==> buffer.resolved(
                        (#[trigger] self.folds_spec()[f]).start,
                    ) > (#[trigger] offsets@[j]).1 || buffer.resolved(self.folds_spec()[f].end)
                        < offsets@[j].0,
            decreases offsets@.len() - i,
        {
            let (s, e) = offsets[i];
            let mut kept: Vec<Range<Anchor>> = Vec::new();
            let mut f: usize = 0;
            while f < self.folds.len()
                invariant
                    buffer.wf(),
                    self.folds_valid(buffer),
                    len == buffer.text_spec().len(),
                    f <= self.folds_spec().len(),
                    kept@.len() <= f,
                    kept@ == self.folds_spec().take(f as int).filter(
                        |g: Range<Anchor>| !fold_touches(buffer, g, s as int, e as int),
                    ),
                    forall|x: int|
                        0 <= x < kept@.len() ==> buffer.anchor_valid((#[trigger] kept@[x]).start)
                            && buffer.anchor_valid(kept@[x].end),
                    forall|x: int|
                        0 <= x < kept@.len() ==> buffer.resolved((#[trigger] kept@[x]).start) > e
                            || buffer.resolved(kept@[x].end) < s,
                    self.folds_ordered(buffer),
                    forall|y: int|
                        0 <= y < f && !fold_touches(buffer, #[trigger] self.folds_spec()[y], s as int, e as int)
                            ==> kept@.contains(self.folds_spec()[y]),
                    forall|x: int|
                        0 <= x < kept@.len() ==> (#[trigger] kept@[x]).start.bias_spec() == Bias::Right,
                    starts_sorted(fold_spans(buffer, kept@)),
                    forall|x: int|
                        0 <= x < kept@.len() ==> exists|y: int|
                            0 <= y < f && #[trigger] self.folds_spec()[y] == #[trigger] kept@[x],
                decreases self.folds_spec().len() - f,
            {
                let fs = buffer.to_offset(&self.folds[f].start);
                let fe = buffer.to_offset(&self.folds[f].end);
                proof {
                    let q = |g: Range<Anchor>| !fold_touches(buffer, g, s as int, e as int);
                    assert(self.folds_spec().take(f + 1) =~= self.folds_spec().take(f as int).push(
                        self.folds_spec()[f as int],
                    ));
                    self.folds_spec().take(f as int).lemma_filter_push(self.folds_spec()[f as int], q);
                }
                if fs > e || fe < s {
                    let ghost kept0 = kept@;
                    kept.push(self.folds[f].start..self.folds[f].end);
                    proof {
                        assert forall|y: int|
                            0 <= y < f + 1 && !fold_touches(buffer, #[trigger] self.folds_spec()[y], s as int, e as int)
                                implies kept@.contains(self.folds_spec()[y]) by {
                            if y < f {
                                assert(kept0.contains(self.folds_spec()[y]));
                                let z = choose|z: int| 0 <= z < kept0.len() && kept0[z] == self.folds_spec()[y];
                                assert(kept@[z] == kept0[z]);
                            } else {
                                assert(kept@[kept@.len() - 1] == self.folds_spec()[y]);
                            }
                        }
                        assert(self.folds_spec()[f as int] == kept@[kept@.len() - 1]);
                        let sp = fold_spans(buffer, kept@);
                        let sp0 = fold_spans(buffer, kept0);
                        let all = fold_spans(buffer, self.folds_spec());
                        assert forall|a: int, b: int| 0 <= a < b < sp.len() implies (#[trigger] sp[a]).0
                            <= (#[trigger] sp[b]).0 by {
                            if b < kept0.len() {
                                assert(sp[a] == sp0[a] && sp[b] == sp0[b]);
                            } else {
                                assert(kept@[a] == kept0[a]);
                                let y = choose|y: int| 0 <= y < f && #[trigger] self.folds_spec()[y] == kept0[a];
                                assert(all[y].0 <= all[f as int].0);
                            }
                        }
                        assert forall|x: int| 0 <= x < kept@.len() implies (#[trigger] kept@[x]).start.bias_spec()
                            == Bias::Right by {
                            if x < kept0.len() {
                                assert(kept@[x] == kept0[x]);
                            }
                        }
                    }
                }
                f = f + 1;
            }
            let ghost before = self.folds@;
            self.folds = kept;
            proof {
                let q = |g: Range<Anchor>| !fold_touches(buffer, g, s as int, e as int);
                assert(before.take(before.len() as int) =~= before);
                assert forall|x: Range<Anchor>| #[trigger] kept_after(buffer, offsets@, i + 1)(x) == (
                kept_after(buffer, offsets@, i as int)(x) && q(x)) by {
                    if touches_offsets(buffer, x, offsets@, i + 1) && !touches_offsets(buffer, x, offsets@, i as int) {
                        let j = choose|j: int| 0 <= j < i + 1 && fold_touches(buffer, x, offsets@[j].0 as int, offsets@[j].1 as int);
                        assert(j == i);
                    }
                    if fold_touches(buffer, x, s as int, e as int) {
                        assert(offsets@[i as int] == (s, e));
                        assert(touches_offsets(buffer, x, offsets@, i + 1));
                    }
                    if touches_offsets(buffer, x, offsets@, i as int) {
                        let j = choose|j: int| 0 <= j < i && fold_touches(buffer, x, offsets@[j].0 as int, offsets@[j].1 as int);
                        assert(touches_offsets(buffer, x, offsets@, i + 1));
                    }
                }
                lemma_filter_filter(
                    old(self).folds_spec(),
                    kept_after(buffer, offsets@, i as int),
                    q,
                    kept_after(buffer, offsets@, i + 1),
                );
                assert forall|x: int|
                    0 <= x < n0 && !touches_offsets(buffer, #[trigger] old(self).folds_spec()[x], offsets@, i + 1)
                        implies self.folds_spec().contains(old(self).folds_spec()[x]) by {
                    assert(!touches_offsets(buffer, old(self).folds_spec()[x], offsets@, i as int));
                    assert(before.contains(old(self).folds_spec()[x]));
                    let y = choose|y: int| 0 <= y < before.len() && before[y] == old(self).folds_spec()[x];
                    assert(!fold_touches(buffer, before[y], s as int, e as int)) by {
                        if fold_touches(buffer, before[y], s as int, e as int) {
                            assert(offsets@[i as int] == (s, e));
                        }
                    }
                }
                assert forall|x: int| 0 <= x < self.folds_spec().len() implies old(self).folds_spec().contains(
                    #[trigger] self.folds_spec()[x],
                ) by {
                    let y = choose|y: int| 0 <= y < before.len() && #[trigger] before[y] == self.folds_spec()[x];
                    assert(old(self).folds_spec().contains(before[y]));
                }
                assert forall|x: int, j: int|
                    0 <= x < self.folds_spec().len() && 0 <= j < i + 1 implies buffer.resolved(
                        (#[trigger] self.folds_spec()[x]).start,
                    ) > (#[trigger] offsets@[j]).1 || buffer.resolved(self.folds_spec()[x].end)
                        < offsets@[j].0 by {
                    if j < i {
                        let y = choose|y: int|
                            0 <= y < before.len() && #[trigger] before[y] == self.folds_spec()[x];
                        assert(buffer.resolved(before[y].start) > offsets@[j].1 || buffer.resolved(
                            before[y].end,
                        ) < offsets@[j].0);
                    }
                }
            }
            i = i + 1;
        }
        proof {
            let ts = |f: Range<Anchor>| !touches_some(buffer, ranges@, f);
            assert forall|x: Range<Anchor>| #[trigger] ts(x) == (kept_after(buffer, offsets@, i as int)(x) && true) by {
                if touches_some(buffer, ranges@, x) {
                    let (j, s, e) = choose|j: int, s: int, e: int|
                        0 <= j < ranges@.len() && 0 <= s <= buffer.text_spec().len() && 0 <= e
                            <= buffer.text_spec().len() && point_at(buffer.text_spec(), s) == ranges@[j].start@
                            && point_at(buffer.text_spec(), e) == ranges@[j].end@ && fold_touches(buffer, x, s, e);
                    lemma_point_at_unique(buffer.text_spec(), s, offsets@[j].0 as int);
                    lemma_point_at_unique(buffer.text_spec(), e, offsets@[j].1 as int);
                    assert(fold_touches(buffer, x, offsets@[j].0 as int, offsets@[j].1 as int));
                }
                if touches_offsets(buffer, x, offsets@, i as int) {
                    let j = choose|j: int| 0 <= j < i && fold_touches(buffer, x, offsets@[j].0 as int, offsets@[j].1 as int);
                    assert(point_at(buffer.text_spec(), offsets@[j].0 as int) == ranges@[j].start@);
                }
            }
            lemma_filter_filter(old(self).folds_spec(), kept_after(buffer, offsets@, i as int), |x: Range<Anchor>| true, ts);
            lemma_filter_true(old(self).folds_spec().filter(kept_after(buffer, offsets@, i as int)), |x: Range<Anchor>| true);
            assert forall|x: int|
                0 <= x < old(self).folds_spec().len() && !touches_some(
                    buffer,
                    ranges@,
                    #[trigger] old(self).folds_spec()[x],
                ) implies self.folds_spec().contains(old(self).folds_spec()[x]) by {
                assert(!touches_offsets(buffer, old(self).folds_spec()[x], offsets@, i as int)) by {
                    if touches_offsets(buffer, old(self).folds_spec()[x], offsets@, i as int) {
                        let j = choose|j: int|
                            0 <= j < i && fold_touches(
                                buffer,
                                old(self).folds_spec()[x],
                                offsets@[j].0 as int,
                                offsets@[j].1 as int,
                            );
                        assert(touches_some(buffer, ranges@, old(self).folds_spec()[x])) by {
                            assert(point_at(buffer.text_spec(), offsets@[j].0 as int) == ranges@[j].start@);
                        }
                    }
                }
            }
            assert forall|j: int, i: int, s: int, e: int|
                0 <= j < self.folds_spec().len() && 0 <= i < ranges@.len() && 0 <= s
                    <= buffer.text_spec().len() && 0 <= e <= buffer.text_spec().len() && #[trigger] point_at(
                    buffer.text_spec(),
                    s,
                ) == (#[trigger] ranges@[i]).start@ && #[trigger] point_at(buffer.text_spec(), e)
                    == ranges@[i].end@ implies buffer.resolved(
                    (#[trigger] self.folds_spec()[j]).start,
                ) > e || buffer.resolved(self.folds_spec()[j].end) < s by {
                lemma_point_at_unique(buffer.text_spec(), s, offsets@[i].0 as int);
                lemma_point_at_unique(buffer.text_spec(), e, offsets@[i].1 as int);
                assert(buffer.resolved(self.folds_spec()[j].start) > offsets@[i].1 || buffer.resolved(
                    self.folds_spec()[j].end,
                ) < offsets@[i].0);
            }
        }
        self.rebuild(buffer);
        Ok(())
    }

    /// The text of the folded view.
    pub fn text(&self, buffer: &Buffer) -> (r: Vec<char>)
        requires
            self.wf(buffer),
        ensures
            r@ == self.display_spec(),
    {
        let ghost items = self.transforms_spec();
        let ghost t = self.text_spec();
        let mut out: Vec<char> = Vec::new();
        let mut i: usize = 0;
        let mut start: usize = 0;
        let n = self.transforms.len();
        proof {
            reveal(sum_of);
            assert(items.take(0) =~= Seq::<Transform>::empty());
            assert(display_of(items.take(0), t) =~= Seq::<char>::empty());
        }
        while i < n
            invariant
                self.wf(buffer),
                items == self.transforms_spec(),
                t == self.text_spec(),
                n == items.len(),
                i <= n,
                start == buffer_start(items, i as int),
                out@ == display_of(items.take(i as int), t),
            decreases n - i,
        {
            let item = self.transforms.get(i);
            proof {
                lemma_prefix_next(items, i as int);
                lemma_prefix_covers(items, t, i + 1);
                assert(item_ok(items[i as int], t, buffer_start(items, i as int)));
                let tk = items.take(i + 1);
                assert(tk.drop_last() =~= items.take(i as int));
                assert(tk.take(i as int) =~= items.take(i as int));
                assert(tk.last() == item);
            }
            let end = start + item.summary.buffer.chars;
            match item.display_text {
                Some(c) => {
                    out.push(c);
                },
                None => {
                    let mut x = start;
                    let ghost before = out@;
                    while x < end
                        invariant
                            buffer.wf(),
                            start <= x <= end <= buffer.text_spec().len(),
                            out@ == before + buffer.text_spec().subrange(start as int, x as int),
                        decreases end - x,
                    {
                        out.push(buffer.char_at(x));
                        x = x + 1;
                        proof {
                            assert(out@ =~= before + buffer.text_spec().subrange(start as int, x as int));
                        }
                    }
                },
            }
            proof {
                assert(out@ =~= display_of(items.take(i + 1), t));
            }
            start = end;
            i = i + 1;
        }
        proof {
            assert(items.take(n as int) =~= items);
        }
        out
    }

    /// The display point of buffer point `point`; a point inside a fold
    /// gives the end of its ellipsis.
    pub fn to_display_point(&self, point: Point) -> (r: DisplayPoint)
        requires
            self.inner_wf(),
        ensures
            r.0@ == display_point_of(self.transforms_spec(), point@),
    {
        let ghost items = self.transforms_spec();
        let mut cursor = Cursor::new(&self.transforms);
        cursor.seek(
            &self.transforms,
            Dimension::BufferPoint,
            (point.row as usize, point.column as usize),
            SeekBias::Right,
        );
        let start = cursor.start();
        let end = cursor.end(&self.transforms);
        proof {
            reveal(sum_of);
            let j = cursor.index_spec();
            lemma_seek_index(items, Dimension::BufferPoint, SeekBias::Right, point@, j, 0);
            if j > 0 {
                assert(passes(Dimension::BufferPoint, SeekBias::Right, prefix(items, (j - 1) + 1), point@));
            } else {
                assert(items.take(0) =~= Seq::<Transform>::empty());
            }
        }
        let overshoot = sub_point(point, start.buffer.lines);
        DisplayPoint(min_point(add_sat(start.display.lines, overshoot), end.display.lines))
    }

    /// The buffer point of display point `point`.
    #[verifier::spinoff_prover]
    pub fn to_buffer_point(&self, point: DisplayPoint) -> (r: Point)
        requires
            self.inner_wf(),
        ensures
            r@ == buffer_point_of(self.transforms_spec(), point.0@),
    {
        let ghost items = self.transforms_spec();
        let mut cursor = Cursor::new(&self.transforms);
        cursor.seek(
            &self.transforms,
            Dimension::DisplayPoint,
            (point.0.row as usize, point.0.column as usize),
            SeekBias::Right,
        );
        let start = cursor.start();
        proof {
            reveal(sum_of);
            let j = cursor.index_spec();
            lemma_seek_index(items, Dimension::DisplayPoint, SeekBias::Right, point.0@, j, 0);
            if j > 0 {
                assert(passes(Dimension::DisplayPoint, SeekBias::Right, prefix(items, (j - 1) + 1), point.0@));
            } else {
                assert(items.take(0) =~= Seq::<Transform>::empty());
            }
        }
        let overshoot = sub_point(point.0, start.display.lines);
        if let Some(item) = cursor.item(&self.transforms) {
            if item.display_text.is_some() && !overshoot.is_zero() {
                return start.buffer.lines;
            }
        }
        add_sat(start.buffer.lines, overshoot)
    }

    /// Whether a fold shows on display row `display_row`.
    pub fn is_line_folded(&self, display_row: u32) -> (r: bool)
        requires
            self.inner_wf(),
        ensures
            r == row_has_fold(self.transforms_spec(), display_row as nat),
    {
        let ghost items = self.transforms_spec();
        let mut cursor = Cursor::new(&self.transforms);
        cursor.seek(&self.transforms, Dimension::DisplayPoint, (display_row as usize, 0), SeekBias::Right);
        let ghost j = cursor.index_spec();
        proof {
            lemma_seek_index(items, Dimension::DisplayPoint, SeekBias::Right, (display_row as nat, 0nat), j, 0);
        }
        let n = self.transforms.len();
        while cursor.index() < n
            invariant
                cursor.wf(&self.transforms),
                items == self.transforms_spec(),
                n == items.len(),
                j <= cursor.index_spec(),
                j == seek_index(items, Dimension::DisplayPoint, SeekBias::Right, (display_row as nat, 0nat)),
                forall|m: int| j <= m < cursor.index_spec() ==> (#[trigger] items[m]).display_text is None,
                forall|m: int|
                    j <= m < cursor.index_spec() ==> (#[trigger] prefix(items, m + 1)).display.lines.0
                        == display_row,
            decreases n - cursor.index_spec(),
        {
            let item = cursor.item(&self.transforms);
            let transform = item.unwrap();
            if transform.display_text.is_some() {
                proof {
                    let k = cursor.index_spec();
                    assert(items[k] == transform);
                    assert(items[k].display_text is Some);
                    assert(forall|m: int|
                        j <= m < k ==> (#[trigger] prefix(items, m + 1)).display.lines.0 == display_row);
                }
                return true;
            }
            let end = cursor.end(&self.transforms);
            if end.display.lines.row == display_row {
                cursor.next(&self.transforms);
            } else {
                proof {
                    let c = cursor.index_spec();
                    assert forall|k: int| j <= k < items.len() && (#[trigger] items[k]).display_text is Some
                        implies !(forall|m: int| j <= m < k ==> (#[trigger] prefix(items, m + 1)).display.lines.0 == display_row) by {
                        if k > c {
                            assert(prefix(items, c + 1).display.lines.0 != display_row);
                        }
                    }
                }
                return false;
            }
        }
        false
    }

    /// The buffer row where each display row from `start_row` to the last
    /// starts.
    pub fn buffer_rows(&self, start_row: u32) -> (r: Result<Vec<u32>, FoldError>)
        requires
            self.inner_wf(),
        ensures
            start_row > self.total().display.lines.0 <==> r is Err,
            r is Err ==> r == Err::<Vec<u32>, FoldError>(FoldError::OutOfBounds),
            r matches Ok(v) ==> v@.len() == self.total().display.lines.0 + 1 - start_row
                && forall|i: int|
                0 <= i < v@.len() ==> (#[trigger] v@[i]) as nat == buffer_row_of(
                    self.transforms_spec(),
                    (start_row + i) as nat,
                ),
    {
        let ghost items = self.transforms_spec();
        let max_row = self.transforms.summary().display.lines.row;
        proof {
            lemma_sum_valid(items);
        }
        if start_row > max_row {
            return Err(FoldError::OutOfBounds);
        }
        let mut rows: Vec<u32> = Vec::new();
        let mut cursor = Cursor::new(&self.transforms);
        let mut row = start_row;
        let n = self.transforms.len();
        while row <= max_row
            invariant
                cursor.wf(&self.transforms),
                items == self.transforms_spec(),
                n == items.len(),
                max_row == self.total().display.lines.0,
                max_row <= MAX_LEN,
                start_row <= row <= max_row + 1,
                rows@.len() == row - start_row,
                forall|m: int|
                    0 <= m < cursor.index_spec() ==> passes(
                        Dimension::DisplayPoint,
                        SeekBias::Left,
                        #[trigger] prefix(items, m + 1),
                        (row as nat, 0nat),
                    ),
                forall|i: int|
                    0 <= i < rows@.len() ==> (#[trigger] rows@[i]) as nat == buffer_row_of(
                        items,
                        (start_row + i) as nat,
                    ),
            decreases max_row + 1 - row,
        {
            cursor.seek(&self.transforms, Dimension::DisplayPoint, (row as usize, 0), SeekBias::Left);
            let start = cursor.start();
            proof {
                reveal(sum_of);
                let j = cursor.index_spec();
                lemma_seek_index(items, Dimension::DisplayPoint, SeekBias::Left, (row as nat, 0nat), j, 0);
                if j > 0 {
                    assert(passes(Dimension::DisplayPoint, SeekBias::Left, prefix(items, (j - 1) + 1), (row as nat, 0nat)));
                } else {
                    assert(items.take(0) =~= Seq::<Transform>::empty());
                }
            }
            let display_point = Point::new(row, 0);
            let overshoot = sub_point(display_point, start.display.lines);
            let buffer_point = add_sat(start.buffer.lines, overshoot);
            rows.push(buffer_point.row);
            row = row + 1;
        }
        Ok(rows)
    }

    /// The folds stay valid anchors when the buffer is edited further.
    pub proof fn lemma_folds_stay_valid(&self, earlier: &Buffer, later: &Buffer)
        requires
            self.folds_valid(earlier),
            earlier.extended_by(later),
        ensures
            self.folds_valid(later),
    {
        assert forall|i: int| 0 <= i < self.folds_spec().len() implies later.anchor_valid(
            (#[trigger] self.folds_spec()[i]).start,
        ) && later.anchor_valid(self.folds_spec()[i].end) by {
            crate::buffer::lemma_anchor_stays_valid(earlier, later, self.folds_spec()[i].start);
            crate::buffer::lemma_anchor_stays_valid(earlier, later, self.folds_spec()[i].end);
        }
    }

    /// Each merged fold span of the fold list is the span of a fold
    /// transform: the row where its start shows is reported folded, and its
    /// start shows where that transform starts.
    pub proof fn lemma_fold_list_row_detected(&self, buffer: &Buffer, k: int)
        requires
            self.wf(buffer),
            0 <= k < merged_fold_spans(buffer, self.folds_spec()).len(),
        ensures
            row_has_fold(
                self.transforms_spec(),
                display_point_of(
                    self.transforms_spec(),
                    point_at(buffer.text_spec(), merged_fold_spans(buffer, self.folds_spec())[k].0 as int),
                ).0,
            ),
    {
        let items = self.transforms_spec();
        let t = buffer.text_spec();
        buffer.lemma_len_bound();
        lemma_fold_span_has_item(items, k);
        let j = choose|j: int|
            0 <= j < items.len() && (#[trigger] items[j]).display_text is Some && fold_items_spans(
                items,
            )[k] == (buffer_start(items, j), buffer_start(items, j + 1));
        lemma_prefix_covers(items, t, j);
        lemma_fold_row_detected(self, j);
    }

    /// A buffer offset strictly inside no merged fold span comes back from the
    /// display to its own point.
    pub proof fn lemma_round_trip_outside_folds(&self, buffer: &Buffer, o: int)
        requires
            self.wf(buffer),
            0 <= o <= buffer.text_spec().len(),
            forall|k: int|
                0 <= k < merged_fold_spans(buffer, self.folds_spec()).len() ==> !(
                #[trigger] merged_fold_spans(buffer, self.folds_spec())[k].0 < o
                    < merged_fold_spans(buffer, self.folds_spec())[k].1),
        ensures
            buffer_point_of(
                self.transforms_spec(),
                display_point_of(self.transforms_spec(), point_at(buffer.text_spec(), o)),
            ) == point_at(buffer.text_spec(), o),
    {
        let items = self.transforms_spec();
        let t = buffer.text_spec();
        let p = point_at(t, o);
        buffer.lemma_len_bound();
        assert(!inside_fold(items, p)) by {
            if inside_fold(items, p) {
                let j = choose|j: int|
                    0 <= j < items.len() && (#[trigger] items[j]).display_text is Some && pair_le(
                        prefix(items, j).buffer.lines,
                        p,
                    ) && prefix(items, j).buffer.lines != p && pair_le(
                        p,
                        prefix(items, j + 1).buffer.lines,
                    ) && p != prefix(items, j + 1).buffer.lines;
                lemma_prefix_covers(items, t, j);
                lemma_prefix_covers(items, t, j + 1);
                let bs = buffer_start(items, j) as int;
                let be = buffer_start(items, j + 1) as int;
                if o < bs {
                    lemma_point_at_increasing(t, o, bs);
                }
                if o > be {
                    lemma_point_at_increasing(t, be, o);
                }
                assert(point_at(t, bs) == prefix(items, j).buffer.lines);
                assert(point_at(t, be) == prefix(items, j + 1).buffer.lines);
                assert(bs < o && o < be);
                lemma_item_has_fold_span(items, j);
                let k = choose|k: int|
                    0 <= k < fold_items_spans(items).len() && #[trigger] fold_items_spans(items)[k]
                        == (buffer_start(items, j), buffer_start(items, j + 1));
                assert(fold_items_spans(items) == merged_fold_spans(buffer, self.folds_spec()));
                assert(merged_fold_spans(buffer, self.folds_spec())[k] == (bs as nat, be as nat));
                assert(!(merged_fold_spans(buffer, self.folds_spec())[k].0 < o
                    < merged_fold_spans(buffer, self.folds_spec())[k].1));
            }
        }
        lemma_round_trip(self, p);
    }

    /// A buffer offset strictly inside a merged fold span shows one column
    /// after where the span's start shows: at the end of its ellipsis.
    pub proof fn lemma_interior_of_fold_list(&self, buffer: &Buffer, k: int, o: int)
        requires
            self.wf(buffer),
            0 <= k < merged_fold_spans(buffer, self.folds_spec()).len(),
            merged_fold_spans(buffer, self.folds_spec())[k].0 < o < merged_fold_spans(
                buffer,
                self.folds_spec(),
            )[k].1,
        ensures
            ({
                let items = self.transforms_spec();
                let t = buffer.text_spec();
                let s = display_point_of(
                    items,
                    point_at(t, merged_fold_spans(buffer, self.folds_spec())[k].0 as int),
                );
                display_point_of(items, point_at(t, o)) == (s.0, s.1 + 1)
            }),
    {
        let items = self.transforms_spec();
        let t = buffer.text_spec();
        buffer.lemma_len_bound();
        lemma_fold_span_has_item(items, k);
        let j = choose|j: int|
            0 <= j < items.len() && (#[trigger] items[j]).display_text is Some && fold_items_spans(
                items,
            )[k] == (buffer_start(items, j), buffer_start(items, j + 1));
        lemma_prefix_covers(items, t, j);
        lemma_prefix_covers(items, t, j + 1);
        let bs = buffer_start(items, j) as int;
        let be = buffer_start(items, j + 1) as int;
        lemma_point_at_increasing(t, bs, o);
        lemma_point_at_increasing(t, o, be);
        lemma_fold_row_detected(self, j);
        lemma_interior_collapses(self, point_at(t, o), j);
        lemma_prefix_next(items, j);
        assert(item_ok(items[j], t, buffer_start(items, j)));
    }

    /// The row where the start of any fold of the list that hides text shows
    /// is reported folded.
    pub proof fn lemma_each_fold_row_detected(&self, buffer: &Buffer, f: int)
        requires
            self.wf(buffer),
            0 <= f < self.folds_spec().len(),
            buffer.resolved(self.folds_spec()[f].start) < buffer.resolved(self.folds_spec()[f].end),
        ensures
            row_has_fold(
                self.transforms_spec(),
                display_point_of(
                    self.transforms_spec(),
                    point_at(buffer.text_spec(), buffer.resolved(self.folds_spec()[f].start) as int),
                ).0,
            ),
    {
        let spans = fold_spans(buffer, self.folds_spec());
        let m = merged(spans);
        let a = spans[f].0;
        let b = spans[f].1;
        lemma_merged_covers(spans, f);
        let k = choose|k: int| 0 <= k < m.len() && (#[trigger] m[k]).0 <= a && b <= m[k].1;
        self.lemma_fold_list_row_detected(buffer, k);
        if m[k].0 < a {
            self.lemma_interior_of_fold_list(buffer, k, a as int);
        }
    }

    /// Folding a range a second time shows the same text as folding it once:
    /// `m1` is this map with fold `x` inserted where it goes, and `m2` is `m1`
    /// with `x` inserted again where it goes.
    pub proof fn lemma_fold_twice(
        m0: &FoldMap,
        m1: &FoldMap,
        m2: &FoldMap,
        buffer: &Buffer,
        x: Range<Anchor>,
        ix1: int,
        ix2: int,
    )
        requires
            m1.wf(buffer),
            m2.wf(buffer),
            insertion_point(
                buffer,
                m0.folds_spec(),
                ix1,
                buffer.resolved(x.start),
                buffer.resolved(x.end),
            ),
            m1.folds_spec() == m0.folds_spec().insert(ix1, x),
            insertion_point(
                buffer,
                m1.folds_spec(),
                ix2,
                buffer.resolved(x.start),
                buffer.resolved(x.end),
            ),
            m2.folds_spec() == m1.folds_spec().insert(ix2, x),
        ensures
            m2.display_spec() == m1.display_spec(),
    {
        let f1 = m1.folds_spec();
        let sx = buffer.resolved(x.start);
        let ex = buffer.resolved(x.end);
        assert(f1[ix1] == x);
        assert(!goes_before(buffer, x, sx, ex));
        // the second insertion lands after the first
        assert(ix1 < ix2) by {
            if ix2 <= ix1 {
                if ix2 < ix1 {
                    assert(f1[ix2] == m0.folds_spec()[ix2]);
                }
            }
        }
        let s1 = fold_spans(buffer, f1);
        let s2 = fold_spans(buffer, m2.folds_spec());
        assert(s2 =~= s1.insert(ix2, s1[ix1]));
        lemma_merged_duplicate(s1, ix1, ix2);
    }

    /// Folding a range and unfolding it again gives back the folds and the
    /// view, when the range touches no other fold: `m1` is this map with
    /// fold `x` inserted, and `m2` keeps the folds of `m1` that touch none
    /// of `ranges`.
    pub proof fn lemma_fold_then_unfold(
        m0: &FoldMap,
        m1: &FoldMap,
        m2: &FoldMap,
        buffer: &Buffer,
        x: Range<Anchor>,
        ix: int,
        ranges: Seq<Range<Point>>,
    )
        requires
            m0.wf(buffer),
            m2.wf(buffer),
            0 <= ix <= m0.folds_spec().len(),
            m1.folds_spec() == m0.folds_spec().insert(ix, x),
            touches_some(buffer, ranges, x),
            forall|k: int|
                0 <= k < m0.folds_spec().len() ==> !touches_some(
                    buffer,
                    ranges,
                    #[trigger] m0.folds_spec()[k],
                ),
            m2.folds_spec() == m1.folds_spec().filter(
                |f: Range<Anchor>| !touches_some(buffer, ranges, f),
            ),
        ensures
            m2.folds_spec() == m0.folds_spec(),
            m2.display_spec() == m0.display_spec(),
    {
        let p = |f: Range<Anchor>| !touches_some(buffer, ranges, f);
        lemma_filter_insert(m0.folds_spec(), ix, x, p);
    }

    /// A display row holds a fold exactly when the start of some merged fold
    /// span shows on it.
    pub proof fn lemma_row_has_fold_iff(&self, buffer: &Buffer, row: nat)
        requires
            self.wf(buffer),
        ensures
            row_has_fold(self.transforms_spec(), row) <==> exists|k: int|
                0 <= k < merged_fold_spans(buffer, self.folds_spec()).len() && (display_point_of(
                    self.transforms_spec(),
                    point_at(
                        buffer.text_spec(),
                        (#[trigger] merged_fold_spans(buffer, self.folds_spec())[k]).0 as int,
                    ),
                )).0 == row,
    {
        let items = self.transforms_spec();
        let t = buffer.text_spec();
        let m = merged_fold_spans(buffer, self.folds_spec());
        buffer.lemma_len_bound();
        if exists|k: int|
            0 <= k < m.len() && (display_point_of(items, point_at(t, (#[trigger] m[k]).0 as int))).0
                == row {
            let k = choose|k: int|
                0 <= k < m.len() && (display_point_of(items, point_at(t, (#[trigger] m[k]).0 as int))).0
                    == row;
            self.lemma_fold_list_row_detected(buffer, k);
        }
        if row_has_fold(items, row) {
            let target = (row, 0nat);
            lemma_seek_props(items, Dimension::DisplayPoint, SeekBias::Right, target, 0);
            let jj = seek_index(items, Dimension::DisplayPoint, SeekBias::Right, target);
            let k0 = choose|k: int|
                jj <= k < items.len() && (#[trigger] items[k]).display_text is Some && forall|x: int|
                    jj <= x < k ==> (#[trigger] prefix(items, x + 1)).display.lines.0 == row;
            if k0 > jj {
                assert(prefix(items, (k0 - 1) + 1).display.lines.0 == row);
            } else {
                if jj > 0 {
                    assert(passes(Dimension::DisplayPoint, SeekBias::Right, prefix(items, (jj - 1) + 1), target));
                } else {
                    reveal(sum_of);
                    assert(items.take(0) =~= Seq::<Transform>::empty());
                }
                lemma_prefix_next(items, jj);
                assert(item_ok(items[jj], t, buffer_start(items, jj)));
            }
            lemma_fold_row_detected(self, k0);
            lemma_prefix_covers(items, t, k0);
            lemma_item_has_fold_span(items, k0);
            let kk = choose|kk: int|
                0 <= kk < fold_items_spans(items).len() && #[trigger] fold_items_spans(items)[kk]
                    == (buffer_start(items, k0), buffer_start(items, k0 + 1));
            assert(m[kk].0 == buffer_start(items, k0));
            assert((display_point_of(items, point_at(t, m[kk].0 as int))).0 == row);
        }
    }

    /// The folds stay sorted by start when the buffer is edited further.
    pub proof fn lemma_folds_stay_ordered(&self, earlier: &Buffer, later: &Buffer)
        requires
            self.folds_valid(earlier),
            self.folds_ordered(earlier),
            earlier.extended_by(later),
            later.wf(),
        ensures
            self.folds_ordered(later),
    {
        let f = self.folds_spec();
        let sp = fold_spans(later, f);
        let sp0 = fold_spans(earlier, f);
        assert forall|a: int, b: int| 0 <= a < b < sp.len() implies (#[trigger] sp[a]).0 <= (
        #[trigger] sp[b]).0 by {
            assert(sp0[a].0 <= sp0[b].0);
            assert(f[a].start.bias_spec() == Bias::Right && f[b].start.bias_spec() == Bias::Right);
            crate::buffer::lemma_resolved_order_kept(earlier, later, f[a].start, f[b].start);
        }
    }

    /// With no fold that hides text, the view shows the buffer text as it is.
    pub proof fn lemma_no_folds_shows_text(&self, buffer: &Buffer)
        requires
            self.wf(buffer),
            merged_fold_spans(buffer, self.folds_spec()).len() == 0,
        ensures
            self.display_spec() == buffer.text_spec(),
            summary_of(self.display_spec()) == summary_of(buffer.text_spec()),
    {
        let t = buffer.text_spec();
        assert(t.subrange(0, t.len() as int) =~= t);
    }

    /// The transforms cover the whole buffer: their buffer summary is the
    /// buffer's.
    pub proof fn lemma_coverage(&self, buffer: &Buffer)
        requires
            self.wf(buffer),
        ensures
            self.total().buffer == summary_of(buffer.text_spec()),
    {
        let items = self.transforms_spec();
        let t = self.text_spec();
        lemma_prefix_covers(items, t, items.len() as int);
        assert(items.take(items.len() as int) =~= items);
        assert(t.take(t.len() as int) =~= t);
    }

    /// The display offset of `point`.
    #[verifier::rlimit(100)]
    #[verifier::spinoff_prover]
    pub fn to_display_offset(&self, point: DisplayPoint, buffer: &Buffer) -> (r: Result<
        DisplayOffset,
        FoldError,
    >)
        requires
            self.wf(buffer),
        ensures
            display_offset_error(self.transforms_spec(), self.text_spec(), point.0@) matches Some(
                e,
            ) ==> r == Err::<DisplayOffset, FoldError>(e),
            display_offset_error(self.transforms_spec(), self.text_spec(), point.0@) is None ==> r
                == Ok::<DisplayOffset, FoldError>(
                DisplayOffset(
                    display_offset_of(self.transforms_spec(), self.text_spec(), point.0@) as usize,
                ),
            ),
            r matches Ok(d) ==> d.0 == display_offset_of(
                self.transforms_spec(),
                self.text_spec(),
                point.0@,
            ),
            r matches Ok(d) ==> d.0 <= self.display_spec().len() && point_at(
                self.display_spec(),
                d.0 as int,
            ) == point.0@,
    {
        proof {
            buffer.lemma_len_bound();
            if display_offset_error(self.transforms_spec(), self.text_spec(), point.0@) is None {
                lemma_display_offset(self.transforms_spec(), self.text_spec(), point.0@);
            }
        }
        let ghost items = self.transforms_spec();
        let ghost t = self.text_spec();
        let mut cursor = Cursor::new(&self.transforms);
        cursor.seek(
            &self.transforms,
            Dimension::DisplayPoint,
            (point.0.row as usize, point.0.column as usize),
            SeekBias::Right,
        );
        let start = cursor.start();
        proof {
            reveal(sum_of);
            let j = cursor.index_spec();
            lemma_seek_index(items, Dimension::DisplayPoint, SeekBias::Right, point.0@, j, 0);
            if j > 0 {
                assert(passes(Dimension::DisplayPoint, SeekBias::Right, prefix(items, (j - 1) + 1), point.0@));
            } else {
                assert(items.take(0) =~= Seq::<Transform>::empty());
            }
            lemma_prefix_bound(items, j);
            lemma_prefix_covers(items, t, j);
            buffer.lemma_len_bound();
        }
        let overshoot = sub_point(point.0, start.display.lines);
        let mut offset = start.display.chars;
        if !overshoot.is_zero() {
            match cursor.item(&self.transforms) {
                None => {
                    return Err(FoldError::OutOfBounds);
                },
                Some(item) => {
                    if item.display_text.is_some() {
                        return Err(FoldError::InvariantViolated);
                    }
                },
            }
            let target = add_sat(start.buffer.lines, overshoot);
            let end_buffer_offset = match buffer.point_to_offset(target) {
                Ok(o) => o,
                Err(e) => {
                    return Err(FoldError::Buffer(e));
                },
            };
            proof {
                lemma_offset_after(t, start.buffer.chars as int, end_buffer_offset as int, target@);
            }
            offset = offset + (end_buffer_offset - start.buffer.chars);
        }
        Ok(DisplayOffset(offset))
    }

    /// The number of characters on display row `row`.
    pub fn line_len(&self, row: u32, buffer: &Buffer) -> (r: Result<u32, FoldError>)
        requires
            self.wf(buffer),
        ensures
            row > self.total().display.lines.0 ==> r == Err::<u32, FoldError>(FoldError::OutOfBounds),
            row <= self.total().display.lines.0 ==> r is Ok,
            r matches Ok(n) ==> {
                let items = self.transforms_spec();
                let t = self.text_spec();
                let start = display_offset_of(items, t, (row as nat, 0nat));
                let end = if row >= self.total().display.lines.0 {
                    self.total().display.chars as int
                } else {
                    display_offset_of(items, t, ((row + 1) as nat, 0nat)) - 1
                };
                n == end - start
            },
    {
        let max_row = self.max_point().row();
        proof {
            lemma_sum_valid(self.transforms_spec());
        }
        if row > max_row {
            return Err(FoldError::OutOfBounds);
        }
        proof {
            let items = self.transforms_spec();
            let t = self.text_spec();
            buffer.lemma_len_bound();
            lemma_row_start_accepted(items, t, row as nat);
            if row < max_row {
                lemma_row_start_accepted(items, t, (row + 1) as nat);
            }
        }
        let line_start = match self.to_display_offset(DisplayPoint::new(row, 0), buffer) {
            Ok(d) => d.0,
            Err(e) => {
                return Err(e);
            },
        };
        let line_end = if row >= max_row {
            self.len()
        } else {
            let next = match self.to_display_offset(DisplayPoint::new(row + 1, 0), buffer) {
                Ok(d) => d.0,
                Err(e) => {
                    return Err(e);
                },
            };
            proof {
                let d = self.display_spec();
                if next <= line_start {
                    if next < line_start {
                        lemma_point_at_increasing(d, next as int, line_start as int);
                    }
                }
            }
            if next == 0 {
                return Err(FoldError::InvariantViolated);
            }
            next - 1
        };
        proof {
            lemma_display_summary(self.transforms_spec(), self.text_spec());
            lemma_sum_valid(self.transforms_spec());
            lemma_summary_valid(self.display_spec());
        }
        if line_end < line_start || line_end - line_start > 0xffff_ffff {
            return Err(FoldError::InvariantViolated);
        }
        Ok((line_end - line_start) as u32)
    }

    /// The text of the folded view from display point `point` on.
    pub fn chars_at(&self, point: DisplayPoint, buffer: &Buffer) -> (r: Result<Vec<char>, FoldError>)
        requires
            self.wf(buffer),
        ensures
            display_offset_error(self.transforms_spec(), self.text_spec(), point.0@) matches Some(
                e,
            ) ==> r == Err::<Vec<char>, FoldError>(e),
            display_offset_error(self.transforms_spec(), self.text_spec(), point.0@) is None ==> r is Ok,
            r matches Ok(v) ==> v@ == self.display_spec().subrange(
                display_offset_of(self.transforms_spec(), self.text_spec(), point.0@),
                self.display_spec().len() as int,
            ),
    {
        let offset = match self.to_display_offset(point, buffer) {
            Ok(d) => d.0,
            Err(e) => {
                return Err(e);
            },
        };
        let all = self.text(buffer);
        if offset > all.len() {
            return Err(FoldError::OutOfBounds);
        }
        let mut out: Vec<char> = Vec::new();
        let mut i = offset;
        while i < all.len()
            invariant
                offset <= i <= all@.len(),
                out@ == all@.subrange(offset as int, i as int),
            decreases all@.len() - i,
        {
            out.push(all[i]);
            i = i + 1;
            proof {
                assert(out@ =~= all@.subrange(offset as int, i as int));
            }
        }
        Ok(out)
    }

    /// The merged offset spans of the folds: sorted by start, merged while
    /// the next starts at or before the end of the current one, empty ones
    /// dropped. These are what the view hides.
    pub fn merged_fold_ranges(&self, buffer: &Buffer) -> (r: Vec<(usize, usize)>)
        requires
            self.wf(buffer),
        ensures
            r@.len() == merged_fold_spans(buffer, self.folds_spec()).len(),
            forall|i: int|
                0 <= i < r@.len() ==> ((#[trigger] r@[i]).0 as nat, r@[i].1 as nat)
                    == merged_fold_spans(buffer, self.folds_spec())[i],
    {
        let ghost spans = fold_spans(buffer, self.folds_spec());
        let ghost goal = merged(spans);
        let n = self.folds.len();
        let mut out: Vec<(usize, usize)> = Vec::new();
        let mut fi: usize = 0;
        proof {
            assert forall|k: int| 0 <= k < n implies (#[trigger] spans[k]).0 <= buffer.text_spec().len()
                && spans[k].1 <= buffer.text_spec().len() by {
                buffer.lemma_resolved_bound(self.folds_spec()[k].start);
                buffer.lemma_resolved_bound(self.folds_spec()[k].end);
            }
        }
        while fi < n
            invariant
                self.wf(buffer),
                n == self.folds_spec().len(),
                spans == fold_spans(buffer, self.folds_spec()),
                goal == merged(spans),
                fi <= n,
                out@.map_values(|p: (usize, usize)| (p.0 as nat, p.1 as nat)) + merged_from(
                    spans,
                    fi as int,
                ) == goal,
            decreases n - fi,
        {
            let fi0 = fi;
            let fold_start = buffer.to_offset(&self.folds[fi].start);
            let mut fold_end = buffer.to_offset(&self.folds[fi].end);
            fi = fi + 1;
            while fi < n
                invariant
                    self.wf(buffer),
                    n == self.folds_spec().len(),
                    spans == fold_spans(buffer, self.folds_spec()),
                    fi0 < fi <= n,
                    fold_start == spans[fi0 as int].0,
                    merge_acc(spans, fi as int, fold_start as nat, fold_end as nat) == merged_from(
                        spans,
                        fi0 as int,
                    ),
                ensures
                    fi < n ==> spans[fi as int].0 > fold_end,
                decreases n - fi,
            {
                let next_start = buffer.to_offset(&self.folds[fi].start);
                if next_start > fold_end {
                    break;
                }
                let next_end = buffer.to_offset(&self.folds[fi].end);
                if next_end > fold_end {
                    fold_end = next_end;
                }
                fi = fi + 1;
            }
            let ghost before = out@.map_values(|p: (usize, usize)| (p.0 as nat, p.1 as nat));
            proof {
                assert(merge_acc(spans, fi as int, fold_start as nat, fold_end as nat) == emit(
                    fold_start as nat,
                    fold_end as nat,
                ) + merged_from(spans, fi as int));
            }
            if fold_end > fold_start {
                out.push((fold_start, fold_end));
                proof {
                    assert(out@.map_values(|p: (usize, usize)| (p.0 as nat, p.1 as nat)) =~= before
                        + seq![(fold_start as nat, fold_end as nat)]);
                    assert(before + emit(fold_start as nat, fold_end as nat) + merged_from(spans, fi as int)
                        =~= before + (emit(fold_start as nat, fold_end as nat) + merged_from(spans, fi as int)));
                }
            } else {
                proof {
                    assert(emit(fold_start as nat, fold_end as nat) + merged_from(spans, fi as int)
                        =~= merged_from(spans, fi as int));
                }
            }
        }
        proof {
            assert(out@.map_values(|p: (usize, usize)| (p.0 as nat, p.1 as nat)) =~= goal);
        }
        out
    }

    /// The number of characters in the folded view.
    pub fn len(&self) -> (r: usize)
        requires
            self.inner_wf(),
        ensures
            r == self.total().display.chars,
            r == self.display_spec().len(),
    {
        proof {
            lemma_display_summary(self.transforms_spec(), self.text_spec());
            lemma_summary_valid(self.display_spec());
        }
        self.transforms.summary().display.chars
    }

    /// The point at the end of the folded view.
    pub fn max_point(&self) -> (r: DisplayPoint)
        requires
            self.inner_wf(),
        ensures
            r.0@ == self.total().display.lines,
            r.0@ == summary_of(self.display_spec()).lines,
    {
        proof {
            lemma_display_summary(self.transforms_spec(), self.text_spec());
        }
        DisplayPoint(self.transforms.summary().display.lines)
    }

    /// The earliest point of the folded view with the largest column.
    pub fn rightmost_point(&self) -> (r: DisplayPoint)
        requires
            self.inner_wf(),
        ensures
            r.0@ == self.total().display.rightmost,
            r.0@ == summary_of(self.display_spec()).rightmost,
    {
        proof {
            lemma_display_summary(self.transforms_spec(), self.text_spec());
        }
        DisplayPoint(self.transforms.summary().display.rightmost_point)
    }
}

} // verus!
