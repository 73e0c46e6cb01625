//! The events of a span tree: every span opens its frame, lets its children
//! speak in their order, and closes its frame.

use vstd::prelude::*;
use crate::interner::{covers, frame_index};
use crate::model::{Event, EventType};
use crate::span::{forest_count, forest_names, span_count, span_names, Span};

verus! {

/// The event that opens `span`, with the span's frame looked up in `table`.
pub open spec fn open_event(span: Span, table: Seq<Seq<char>>) -> Event {
    Event {
        event_type: EventType::OpenFrame,
        at: span.start_ns,
        frame: frame_index(table, span.name@) as usize,
    }
}

/// The event that closes `span`, with the span's frame looked up in `table`.
pub open spec fn close_event(span: Span, table: Seq<Seq<char>>) -> Event {
    Event {
        event_type: EventType::CloseFrame,
        at: span.end_ns,
        frame: frame_index(table, span.name@) as usize,
    }
}

/// The events of the tree under `span`: its opening, the events of its
/// children, its closing.
pub open spec fn span_events(span: Span, table: Seq<Seq<char>>) -> Seq<Event>
    decreases span,
{
    seq![open_event(span, table)] + forest_events(span.children@, table) + seq![
        close_event(span, table),
    ]
}

/// The events of all the trees of `forest`, tree after tree.
pub open spec fn forest_events(forest: Seq<Span>, table: Seq<Seq<char>>) -> Seq<Event>
    decreases forest,
{
    if forest.len() == 0 {
        Seq::empty()
    } else {
        forest_events(forest.drop_last(), table) + span_events(forest.last(), table)
    }
}

/// The frames that are open after `events`, the innermost last, when the
/// frames of `stack` were open before. `None` where an event closes a frame
/// that is not the innermost open one.
pub open spec fn nesting_after(stack: Seq<usize>, events: Seq<Event>) -> Option<Seq<usize>>
    decreases events.len(),
{
    if events.len() == 0 {
        Some(stack)
    } else {
        match nesting_after(stack, events.drop_last()) {
            None => None,
            Some(open) => match events.last().event_type {
                EventType::OpenFrame => Some(open.push(events.last().frame)),
                EventType::CloseFrame => if open.len() > 0 && open.last() == events.last().frame {
                    Some(open.drop_last())
                } else {
                    None
                },
            },
        }
    }
}

/// Read as brackets, with one kind of bracket for each frame, the events are
/// balanced: every closing event closes the innermost open frame, and no
/// frame stays open.
pub open spec fn well_nested(events: Seq<Event>) -> bool {
    nesting_after(Seq::empty(), events) == Some(Seq::<usize>::empty())
}

/// The frames that `events` open, in the order of the events.
pub open spec fn opened_frames(events: Seq<Event>) -> Seq<usize>
    decreases events.len(),
{
    if events.len() == 0 {
        Seq::empty()
    } else {
        match events.last().event_type {
            EventType::OpenFrame => opened_frames(events.drop_last()).push(events.last().frame),
            EventType::CloseFrame => opened_frames(events.drop_last()),
        }
    }
}

/// The names that stand in `table` at the places `frames`.
pub open spec fn names_at(table: Seq<Seq<char>>, frames: Seq<usize>) -> Seq<Seq<char>> {
    frames.map_values(|frame: usize| table[frame as int])
}

/// The two events of a span point at the same entry of the table, and where
/// the table holds the span's name, that entry carries it.
pub proof fn span_frame_carries_its_name(span: Span, table: Seq<Seq<char>>)
    requires
        table.contains(span.name@),
        table.len() <= usize::MAX,
    ensures
        close_event(span, table).frame == open_event(span, table).frame,
        open_event(span, table).frame == frame_index(table, span.name@),
        0 <= open_event(span, table).frame < table.len(),
        table[open_event(span, table).frame as int] == span.name@,
{
}

/// The nesting after two lists of events is the nesting after the second,
/// begun where the first ended.
pub proof fn lemma_nesting_concat(stack: Seq<usize>, first: Seq<Event>, second: Seq<Event>)
    ensures
        nesting_after(stack, first + second) == match nesting_after(stack, first) {
            None => None,
            Some(open) => nesting_after(open, second),
        },
    decreases second.len(),
{
    if second.len() == 0 {
        assert(first + second == first);
    } else {
        assert((first + second).drop_last() == first + second.drop_last());
        assert((first + second).last() == second.last());
        lemma_nesting_concat(stack, first, second.drop_last());
    }
}

/// The events of a tree leave the nesting as they found it.
pub proof fn lemma_span_nesting(span: Span, table: Seq<Seq<char>>, stack: Seq<usize>)
    ensures
        nesting_after(stack, span_events(span, table)) == Some(stack),
    decreases span, 1int,
{
    let opening = seq![open_event(span, table)];
    let inner = forest_events(span.children@, table);
    let closing = seq![close_event(span, table)];
    let frame = open_event(span, table).frame;
    assert(nesting_after(stack, opening) == Some(stack.push(frame))) by {
        assert(opening.drop_last() == Seq::<Event>::empty());
        reveal_with_fuel(nesting_after, 2);
    }
    lemma_forest_nesting(span.children@, table, stack.push(frame));
    lemma_nesting_concat(stack, opening, inner);
    assert(nesting_after(stack.push(frame), closing) == Some(stack)) by {
        assert(closing.drop_last() == Seq::<Event>::empty());
        assert(stack.push(frame).drop_last() == stack);
        reveal_with_fuel(nesting_after, 2);
    }
    lemma_nesting_concat(stack, opening + inner, closing);
}

/// The events of a forest leave the nesting as they found it.
pub proof fn lemma_forest_nesting(forest: Seq<Span>, table: Seq<Seq<char>>, stack: Seq<usize>)
    ensures
        nesting_after(stack, forest_events(forest, table)) == Some(stack),
    decreases forest, 0int,
{
    if forest.len() > 0 {
        lemma_forest_nesting(forest.drop_last(), table, stack);
        lemma_span_nesting(forest.last(), table, stack);
        lemma_nesting_concat(
            stack,
            forest_events(forest.drop_last(), table),
            span_events(forest.last(), table),
        );
    }
}

/// The frames that two lists of events open are those of the first and then
/// those of the second.
pub proof fn lemma_opened_frames_concat(first: Seq<Event>, second: Seq<Event>)
    ensures
        opened_frames(first + second) == opened_frames(first) + opened_frames(second),
    decreases second.len(),
{
    if second.len() == 0 {
        assert(first + second == first);
    } else {
        assert((first + second).drop_last() == first + second.drop_last());
        assert((first + second).last() == second.last());
        lemma_opened_frames_concat(first, second.drop_last());
    }
}

/// The frames are opened in the order in which a walk through the tree meets
/// the spans, a parent before its children: the names of the opened frames
/// are the names of the tree.
pub proof fn opens_follow_the_tree(span: Span, table: Seq<Seq<char>>)
    requires
        covers(table, span_names(span)),
        table.len() <= usize::MAX,
    ensures
        names_at(table, opened_frames(span_events(span, table))) == span_names(span),
    decreases span, 1int,
{
    let names = span_names(span);
    let opening = seq![open_event(span, table)];
    let inner = forest_events(span.children@, table);
    let closing = seq![close_event(span, table)];
    assert(names[0] == span.name@);
    span_frame_carries_its_name(span, table);
    assert forall|k: int| 0 <= k < forest_names(span.children@).len() implies table.contains(
        #[trigger] forest_names(span.children@)[k],
    ) by {
        assert(names[k + 1] == forest_names(span.children@)[k]);
    }
    opens_follow_the_forest(span.children@, table);
    assert(opened_frames(opening) == seq![open_event(span, table).frame]) by {
        assert(opening.drop_last() == Seq::<Event>::empty());
        reveal_with_fuel(opened_frames, 2);
    }
    assert(opened_frames(closing) == Seq::<usize>::empty()) by {
        assert(closing.drop_last() == Seq::<Event>::empty());
        reveal_with_fuel(opened_frames, 2);
    }
    lemma_opened_frames_concat(opening, inner);
    lemma_opened_frames_concat(opening + inner, closing);
    assert(names_at(table, opened_frames(span_events(span, table))) =~= names);
}

/// The frames of a forest are opened tree after tree, in each tree a parent
/// before its children.
pub proof fn opens_follow_the_forest(forest: Seq<Span>, table: Seq<Seq<char>>)
    requires
        covers(table, forest_names(forest)),
        table.len() <= usize::MAX,
    ensures
        names_at(table, opened_frames(forest_events(forest, table))) == forest_names(forest),
    decreases forest, 0int,
{
    if forest.len() > 0 {
        let names = forest_names(forest);
        let before = forest_names(forest.drop_last());
        let last = span_names(forest.last());
        assert forall|k: int| 0 <= k < before.len() implies table.contains(#[trigger] before[k]) by {
            assert(names[k] == before[k]);
        }
        assert forall|k: int| 0 <= k < last.len() implies table.contains(#[trigger] last[k]) by {
            assert(names[before.len() + k] == last[k]);
        }
        opens_follow_the_forest(forest.drop_last(), table);
        opens_follow_the_tree(forest.last(), table);
        lemma_opened_frames_concat(
            forest_events(forest.drop_last(), table),
            span_events(forest.last(), table),
        );
        assert(names_at(table, opened_frames(forest_events(forest, table))) =~= names);
    } else {
        assert(names_at(table, opened_frames(forest_events(forest, table))) =~= forest_names(
            forest,
        ));
    }
}

/// A tree has two events for each of its spans.
pub proof fn lemma_span_event_count(span: Span, table: Seq<Seq<char>>)
    ensures
        span_events(span, table).len() == 2 * span_count(span),
    decreases span, 1int,
{
    lemma_forest_event_count(span.children@, table);
}

/// A forest has two events for each of its spans.
pub proof fn lemma_forest_event_count(forest: Seq<Span>, table: Seq<Seq<char>>)
    ensures
        forest_events(forest, table).len() == 2 * forest_count(forest),
    decreases forest, 0int,
{
    if forest.len() > 0 {
        lemma_forest_event_count(forest.drop_last(), table);
        lemma_span_event_count(forest.last(), table);
    }
}

/// The events of a tree do not change when the table grows behind the names
/// of the tree.
pub proof fn lemma_span_events_stable(span: Span, table: Seq<Seq<char>>, longer: Seq<Seq<char>>)
    requires
        table.is_prefix_of(longer),
        longer.no_duplicates(),
        covers(table, span_names(span)),
    ensures
        span_events(span, longer) == span_events(span, table),
    decreases span, 1int,
{
    let names = span_names(span);
    assert(names[0] == span.name@);
    crate::interner::lemma_frame_index_stable(table, longer, span.name@);
    assert forall|k: int| 0 <= k < forest_names(span.children@).len() implies table.contains(
        #[trigger] forest_names(span.children@)[k],
    ) by {
        assert(names[k + 1] == forest_names(span.children@)[k]);
    }
    lemma_forest_events_stable(span.children@, table, longer);
}

/// The events of a forest do not change when the table grows behind the
/// names of the forest.
pub proof fn lemma_forest_events_stable(
    forest: Seq<Span>,
    table: Seq<Seq<char>>,
    longer: Seq<Seq<char>>,
)
    requires
        table.is_prefix_of(longer),
        longer.no_duplicates(),
        covers(table, forest_names(forest)),
    ensures
        forest_events(forest, longer) == forest_events(forest, table),
    decreases forest, 0int,
{
    if forest.len() > 0 {
        let names = forest_names(forest);
        let before = forest_names(forest.drop_last());
        let last = span_names(forest.last());
        assert forall|k: int| 0 <= k < before.len() implies table.contains(#[trigger] before[k]) by {
            assert(names[k] == before[k]);
        }
        assert forall|k: int| 0 <= k < last.len() implies table.contains(#[trigger] last[k]) by {
            assert(names[before.len() + k] == last[k]);
        }
        lemma_forest_events_stable(forest.drop_last(), table, longer);
        lemma_span_events_stable(forest.last(), table, longer);
    }
}

/// Every event of a tree points into a table that holds the names of the tree.
pub proof fn lemma_span_frames_in_table(span: Span, table: Seq<Seq<char>>, k: int)
    requires
        covers(table, span_names(span)),
        0 <= k < span_events(span, table).len(),
    ensures
        span_events(span, table)[k].frame < table.len(),
    decreases span, 1int,
{
    let names = span_names(span);
    let inner = forest_events(span.children@, table);
    assert(names[0] == span.name@);
    assert(table.contains(span.name@));
    assert forall|j: int| 0 <= j < forest_names(span.children@).len() implies table.contains(
        #[trigger] forest_names(span.children@)[j],
    ) by {
        assert(names[j + 1] == forest_names(span.children@)[j]);
    }
    if 1 <= k <= inner.len() {
        lemma_forest_frames_in_table(span.children@, table, k - 1);
    }
}

/// Every event of a forest points into a table that holds the names of the
/// forest.
pub proof fn lemma_forest_frames_in_table(forest: Seq<Span>, table: Seq<Seq<char>>, k: int)
    requires
        covers(table, forest_names(forest)),
        0 <= k < forest_events(forest, table).len(),
    ensures
        forest_events(forest, table)[k].frame < table.len(),
    decreases forest, 0int,
{
    if forest.len() > 0 {
        let names = forest_names(forest);
        let before = forest_names(forest.drop_last());
        let last = span_names(forest.last());
        let head = forest_events(forest.drop_last(), table);
        assert forall|j: int| 0 <= j < before.len() implies table.contains(#[trigger] before[j]) by {
            assert(names[j] == before[j]);
        }
        assert forall|j: int| 0 <= j < last.len() implies table.contains(#[trigger] last[j]) by {
            assert(names[before.len() + j] == last[j]);
        }
        if k < head.len() {
            lemma_forest_frames_in_table(forest.drop_last(), table, k);
        } else {
            lemma_span_frames_in_table(forest.last(), table, k - head.len());
        }
    }
}

} // verus!
