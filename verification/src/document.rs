//! The document that belongs to a forest of spans, and what holds of every
//! such document.

use vstd::prelude::*;
use crate::events::{close_event, nesting_after, open_event, span_events, well_nested};
use crate::interner::{covers, frames_of, intern_all};
use crate::model::{FileView, ProfileView, ValueUnit};
use crate::span::{forest_count, forest_names, span_count, span_names, Span};
use crate::JSON_SCHEMA_URL;

verus! {

/// The names of a forest, each once, in the order in which a walk through the
/// forest meets them first.
pub open spec fn frame_table(spans: Seq<Span>) -> Seq<Seq<char>> {
    intern_all(Seq::empty(), forest_names(spans))
}

/// The profile of a root span: its name, its times in nanoseconds, and the
/// events of its tree, with the frames looked up in `table`.
pub open spec fn profile_of(span: Span, table: Seq<Seq<char>>) -> ProfileView {
    ProfileView::Evented {
        name: span.name@,
        unit: ValueUnit::Nanoseconds,
        start_value: span.start_ns,
        end_value: span.end_ns,
        events: span_events(span, table),
    }
}

/// The document of a forest: one profile for each root, in the order of the
/// roots, and the frames of the forest's names.
pub open spec fn document_of(spans: Seq<Span>) -> FileView {
    FileView {
        schema: JSON_SCHEMA_URL@,
        profiles: Seq::new(spans.len(), |i: int| profile_of(spans[i], frame_table(spans))),
        frames: frames_of(frame_table(spans)),
        active_profile_index: None,
        exporter: None,
        name: None,
    }
}

/// A table that holds the names of a forest holds the names of each of its
/// trees.
pub proof fn lemma_forest_names_cover(forest: Seq<Span>, k: int, table: Seq<Seq<char>>)
    requires
        0 <= k < forest.len(),
        covers(table, forest_names(forest)),
    ensures
        covers(table, span_names(forest[k])),
    decreases forest,
{
    let names = forest_names(forest);
    let before = forest_names(forest.drop_last());
    let last = span_names(forest.last());
    if k == forest.len() - 1 {
        assert forall|j: int| 0 <= j < last.len() implies table.contains(#[trigger] last[j]) by {
            assert(names[before.len() + j] == last[j]);
        }
    } else {
        assert forall|j: int| 0 <= j < before.len() implies table.contains(#[trigger] before[j]) by {
            assert(names[j] == before[j]);
        }
        lemma_forest_names_cover(forest.drop_last(), k, table);
    }
}

/// The names of two forests, one behind the other, are the names of the first
/// and then the names of the second.
pub proof fn lemma_forest_names_concat(first: Seq<Span>, second: Seq<Span>)
    ensures
        forest_names(first + second) == forest_names(first) + forest_names(second),
    decreases second.len(),
{
    if second.len() == 0 {
        assert(first + second == first);
    } else {
        assert((first + second).drop_last() == first + second.drop_last());
        assert((first + second).last() == second.last());
        lemma_forest_names_concat(first, second.drop_last());
    }
}

/// A forest has one name for each of its spans.
pub proof fn lemma_forest_names_len(forest: Seq<Span>)
    ensures
        forest_names(forest).len() == forest_count(forest),
    decreases forest, 0int,
{
    if forest.len() > 0 {
        lemma_forest_names_len(forest.drop_last());
        lemma_span_names_len(forest.last());
    }
}

/// A tree has one name for each of its spans.
pub proof fn lemma_span_names_len(span: Span)
    ensures
        span_names(span).len() == span_count(span),
    decreases span, 1int,
{
    lemma_forest_names_len(span.children@);
}

/// A document has a profile for each root and nothing else that depends on
/// the forest but the frames.
pub proof fn document_shape(spans: Seq<Span>)
    ensures
        document_of(spans).profiles.len() == spans.len(),
        document_of(spans).frames.len() == frame_table(spans).len(),
        forall|i: int|
            0 <= i < spans.len() ==> #[trigger] document_of(spans).profiles[i] == profile_of(
                spans[i],
                frame_table(spans),
            ),
        forall|j: int|
            0 <= j < frame_table(spans).len() ==> #[trigger] document_of(spans).frames[j]
                == crate::model::FrameView::named(frame_table(spans)[j]),
{
}

/// The number of events in a profile is twice the number of spans in the
/// tree under its root.
pub proof fn event_count_is_twice_span_count(spans: Seq<Span>, i: int)
    requires
        0 <= i < spans.len(),
    ensures
        document_of(spans).profiles[i] is Evented,
        document_of(spans).profiles[i]->Evented_events.len() == 2 * span_count(spans[i]),
{
    crate::events::lemma_span_event_count(spans[i], frame_table(spans));
}

/// The events of a profile are balanced: read in order, every closing event
/// closes the frame that was opened last and is still open, and at the end
/// no frame is open. The same holds of the events of every tree inside a
/// profile, whatever was open before them.
pub proof fn events_are_well_nested(spans: Seq<Span>, i: int)
    requires
        0 <= i < spans.len(),
    ensures
        document_of(spans).profiles[i] is Evented,
        well_nested(document_of(spans).profiles[i]->Evented_events),
        document_of(spans).profiles[i]->Evented_events.first() == open_event(
            spans[i],
            frame_table(spans),
        ),
        document_of(spans).profiles[i]->Evented_events.last() == close_event(
            spans[i],
            frame_table(spans),
        ),
        forall|span: Span, stack: Seq<usize>| #[trigger]
            nesting_after(stack, span_events(span, frame_table(spans))) == Some(stack),
{
    crate::events::lemma_span_nesting(spans[i], frame_table(spans), Seq::empty());
    assert forall|span: Span, stack: Seq<usize>| #[trigger]
        nesting_after(stack, span_events(span, frame_table(spans))) == Some(stack) by {
        crate::events::lemma_span_nesting(span, frame_table(spans), stack);
    }
}

/// A document has one frame for each distinct name of the forest: no name
/// stands in the table twice, and the table holds the names of the forest and
/// no others.
pub proof fn frames_are_the_distinct_names(spans: Seq<Span>)
    ensures
        frame_table(spans).no_duplicates(),
        frame_table(spans).to_set() == forest_names(spans).to_set(),
        document_of(spans).frames.len() == forest_names(spans).to_set().len(),
        document_of(spans).frames.len() <= forest_count(spans),
{
    let names = forest_names(spans);
    let table = frame_table(spans);
    crate::interner::lemma_intern_all_grows(Seq::empty(), names);
    assert(table.to_set() =~= names.to_set());
    table.unique_seq_to_set();
    names.lemma_cardinality_of_set();
    lemma_forest_names_len(spans);
}

/// Every event of every profile points at a frame of the document.
pub proof fn event_frames_are_in_range(spans: Seq<Span>, i: int, k: int)
    requires
        0 <= i < spans.len(),
        0 <= k < span_events(spans[i], frame_table(spans)).len(),
    ensures
        0 <= span_events(spans[i], frame_table(spans))[k].frame < document_of(spans).frames.len(),
{
    let table = frame_table(spans);
    crate::interner::lemma_intern_all_grows(Seq::empty(), forest_names(spans));
    lemma_forest_names_cover(spans, i, table);
    crate::events::lemma_span_frames_in_table(spans[i], table, k);
}

/// The profile of a root depends on the tree under that root and on the
/// shared table alone: where two forests have the same table, equal roots
/// have equal profiles, wherever they stand and whatever stands beside them.
pub proof fn profiles_are_isolated(first: Seq<Span>, second: Seq<Span>, i: int, j: int)
    requires
        0 <= i < first.len(),
        0 <= j < second.len(),
        first[i] == second[j],
        frame_table(first) == frame_table(second),
    ensures
        document_of(first).profiles[i] == document_of(second).profiles[j],
{
}

/// Roots that follow do not change the profiles of the roots before them,
/// and the frames of the roots before them keep their places.
pub proof fn later_roots_leave_profiles_alone(spans: Seq<Span>, more: Seq<Span>, i: int)
    requires
        0 <= i < spans.len(),
    ensures
        document_of(spans + more).profiles[i] == document_of(spans).profiles[i],
        frame_table(spans).is_prefix_of(frame_table(spans + more)),
{
    let table = frame_table(spans);
    let longer = frame_table(spans + more);
    lemma_forest_names_concat(spans, more);
    crate::interner::lemma_intern_all_concat(
        Seq::empty(),
        forest_names(spans),
        forest_names(more),
    );
    crate::interner::lemma_intern_all_grows(Seq::empty(), forest_names(spans));
    crate::interner::lemma_intern_all_grows(table, forest_names(more));
    lemma_forest_names_cover(spans, i, table);
    crate::events::lemma_span_events_stable(spans[i], table, longer);
    assert((spans + more)[i] == spans[i]);
}

/// Roots of one forest that have the same name open and close the same
/// frame, and that frame carries their name.
pub proof fn equal_names_share_a_frame(spans: Seq<Span>, i: int, j: int)
    requires
        0 <= i < spans.len(),
        0 <= j < spans.len(),
        spans[i].name@ == spans[j].name@,
        frame_table(spans).len() <= usize::MAX,
    ensures
        open_event(spans[i], frame_table(spans)).frame == open_event(
            spans[j],
            frame_table(spans),
        ).frame,
        close_event(spans[i], frame_table(spans)).frame == open_event(
            spans[j],
            frame_table(spans),
        ).frame,
        frame_table(spans)[open_event(spans[i], frame_table(spans)).frame as int]
            == spans[i].name@,
{
    let table = frame_table(spans);
    crate::interner::lemma_intern_all_grows(Seq::empty(), forest_names(spans));
    lemma_forest_names_cover(spans, i, table);
    assert(span_names(spans[i])[0] == spans[i].name@);
    crate::events::span_frame_carries_its_name(spans[i], table);
}

} // verus!
