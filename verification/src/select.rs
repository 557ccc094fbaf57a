//! Selections: which lines of an input stay, in their order.

use vstd::prelude::*;

use crate::record::{Line, LineView};

verus! {

/// The items whose mark is set, in order.
pub open spec fn selected<T>(items: Seq<T>, marks: Seq<bool>) -> Seq<T>
    decreases items.len(),
{
    if items.len() == 0 {
        Seq::empty()
    } else {
        let rest = selected(items.drop_last(), marks.drop_last());
        if marks.last() {
            rest.push(items.last())
        } else {
            rest
        }
    }
}

/// The number of marks that are set.
pub open spec fn count_marks(marks: Seq<bool>) -> nat
    decreases marks.len(),
{
    if marks.len() == 0 {
        0
    } else {
        count_marks(marks.drop_last()) + if marks.last() {
            1nat
        } else {
            0nat
        }
    }
}

/// Lines as mathematical values.
pub open spec fn line_views(lines: Seq<Line>) -> Seq<LineView> {
    lines.map_values(|l: Line| l@)
}

/// The texts of lines.
pub open spec fn line_texts(lines: Seq<LineView>) -> Seq<Seq<char>> {
    lines.map_values(|l: LineView| l.text)
}

/// One step of a selection.
pub(crate) proof fn lemma_selected_step<T>(items: Seq<T>, marks: Seq<bool>, n: int)
    requires
        0 <= n < items.len(),
        items.len() == marks.len(),
    ensures
        selected(items.take(n + 1), marks.take(n + 1)) == if marks[n] {
            selected(items.take(n), marks.take(n)).push(items[n])
        } else {
            selected(items.take(n), marks.take(n))
        },
        count_marks(marks.take(n + 1)) == count_marks(marks.take(n)) + if marks[n] {
            1nat
        } else {
            0nat
        },
{
    assert(items.take(n + 1).drop_last() =~= items.take(n));
    assert(marks.take(n + 1).drop_last() =~= marks.take(n));
}

/// As many items stay as marks are set.
pub proof fn lemma_selected_len<T>(items: Seq<T>, marks: Seq<bool>)
    requires
        items.len() == marks.len(),
    ensures
        selected(items, marks).len() == count_marks(marks) <= marks.len(),
    decreases items.len(),
{
    if items.len() > 0 {
        lemma_selected_len(items.drop_last(), marks.drop_last());
    }
}

/// Where the items that stay stand in the input.
pub open spec fn places(marks: Seq<bool>) -> Seq<int>
    decreases marks.len(),
{
    if marks.len() == 0 {
        Seq::empty()
    } else {
        let rest = places(marks.drop_last());
        if marks.last() {
            rest.push(marks.len() - 1)
        } else {
            rest
        }
    }
}

/// A selection keeps the order of the input: the items that stay stand in it at increasing
/// places, which are exactly the marked ones.
pub proof fn law_selection_keeps_order<T>(items: Seq<T>, marks: Seq<bool>)
    requires
        items.len() == marks.len(),
    ensures
        places(marks).len() == selected(items, marks).len(),
        forall|k: int|
            0 <= k < places(marks).len() ==> 0 <= #[trigger] places(marks)[k] < items.len()
                && marks[places(marks)[k]] && selected(items, marks)[k]
                == items[places(marks)[k]],
        forall|k: int, l: int|
            0 <= k < l < places(marks).len() ==> #[trigger] places(marks)[k]
                < #[trigger] places(marks)[l],
        forall|i: int|
            0 <= i < marks.len() && #[trigger] marks[i] ==> places(marks).contains(i),
    decreases items.len(),
{
    if items.len() > 0 {
        let shorter = marks.drop_last();
        law_selection_keeps_order(items.drop_last(), shorter);
        assert forall|i: int| 0 <= i < marks.len() && #[trigger] marks[i] implies places(
            marks,
        ).contains(i) by {
            if i < marks.len() - 1 {
                assert(shorter[i]);
                let k = choose|k: int| 0 <= k < places(shorter).len() && places(shorter)[k] == i;
                assert(places(marks)[k] == i);
            } else {
                assert(places(marks)[places(marks).len() - 1] == i);
            }
        }
    }
}

/// Where every mark is set, everything stays.
pub proof fn lemma_all_selected<T>(items: Seq<T>, marks: Seq<bool>)
    requires
        items.len() == marks.len(),
        forall|i: int| 0 <= i < marks.len() ==> #[trigger] marks[i],
    ensures
        selected(items, marks) == items,
        count_marks(marks) == marks.len(),
    decreases items.len(),
{
    if items.len() > 0 {
        lemma_all_selected(items.drop_last(), marks.drop_last());
        assert(selected(items, marks) =~= items);
    } else {
        assert(selected(items, marks) =~= items);
    }
}

/// Where the first mark is set; the end where none is.
pub open spec fn first_mark(marks: Seq<bool>) -> int
    decreases marks.len(),
{
    if marks.len() == 0 {
        0
    } else if marks[0] {
        0
    } else {
        1 + first_mark(marks.drop_first())
    }
}

/// Where a run over lines ends that fail as marked: at the first that fails, or, where these are
/// skipped, behind the last.
pub open spec fn run_end(failures: Seq<bool>, skip_errors: bool) -> int {
    if skip_errors {
        failures.len() as int
    } else {
        first_mark(failures)
    }
}

/// The first mark: it is set, and none before it.
pub proof fn lemma_first_mark(marks: Seq<bool>)
    ensures
        0 <= first_mark(marks) <= marks.len(),
        forall|i: int| 0 <= i < first_mark(marks) ==> !#[trigger] marks[i],
        first_mark(marks) < marks.len() ==> marks[first_mark(marks)],
    decreases marks.len(),
{
    if marks.len() > 0 && !marks[0] {
        let rest = marks.drop_first();
        lemma_first_mark(rest);
        assert forall|i: int| 0 <= i < first_mark(marks) implies !#[trigger] marks[i] by {
            if i > 0 {
                assert(!rest[i - 1]);
            }
        }
    }
}

/// Where the first mark stands, told by what is known of it.
pub proof fn lemma_first_mark_is(marks: Seq<bool>, n: int)
    requires
        0 <= n <= marks.len(),
        forall|i: int| 0 <= i < n ==> !#[trigger] marks[i],
        n < marks.len() ==> marks[n],
    ensures
        first_mark(marks) == n,
{
    lemma_first_mark(marks);
}

/// A selection grows by an item exactly where the item's mark is set, and so does the number of
/// marks.
pub proof fn law_selection_grows_by_marked_items<T>(
    items: Seq<T>,
    marks: Seq<bool>,
    item: T,
    mark: bool,
)
    requires
        items.len() == marks.len(),
    ensures
        selected(Seq::<T>::empty(), Seq::<bool>::empty()).len() == 0,
        count_marks(Seq::empty()) == 0,
        mark ==> selected(items.push(item), marks.push(mark)) == selected(items, marks).push(item)
            && count_marks(marks.push(mark)) == count_marks(marks) + 1,
        !mark ==> selected(items.push(item), marks.push(mark)) == selected(items, marks)
            && count_marks(marks.push(mark)) == count_marks(marks),
{
    assert(items.push(item).drop_last() =~= items);
    assert(marks.push(mark).drop_last() =~= marks);
}

/// A run that passes over failures goes to the end. Another ends at the first line that fails, and
/// where none does behind the last.
pub proof fn law_runs_end_at_the_first_failure(failures: Seq<bool>)
    ensures
        run_end(failures, true) == failures.len(),
        0 <= run_end(failures, false) <= failures.len(),
        forall|i: int| 0 <= i < run_end(failures, false) ==> !#[trigger] failures[i],
        run_end(failures, false) < failures.len() ==> failures[run_end(failures, false)],
{
    lemma_first_mark(failures);
}

/// Lines are viewed one by one, in order, with their texts as they are.
pub proof fn law_lines_are_viewed_in_order(lines: Seq<Line>)
    ensures
        line_views(lines).len() == lines.len(),
        line_texts(line_views(lines)).len() == lines.len(),
        forall|i: int|
            0 <= i < lines.len() ==> #[trigger] line_views(lines)[i] == lines[i]@ && line_texts(
                line_views(lines),
            )[i] == lines[i].text@,
{
}

} // verus!
