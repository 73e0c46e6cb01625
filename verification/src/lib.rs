//! Turns a forest of timed spans into a speedscope document: one evented
//! profile for each root span, over one table of frames that all of them share.

use vstd::prelude::*;
use crate::document::{document_of, frame_table, profile_of};
use crate::events::{forest_events, open_event, span_events};
use crate::interner::{covers, intern_all, FrameTable};
use crate::model::{
    clone_name, name_str, Event, EventType, Frame, Profile, Shared, SpeedscopeFile, ValueUnit,
};
use crate::span::{forest_names, span_names, Span};

pub mod document;
pub mod events;
pub mod interner;
pub mod model;
pub mod span;

verus! {

/// The address of the description of the file format, which every document
/// names.
pub const JSON_SCHEMA_URL: &'static str = "https://www.speedscope.app/file-format-schema.json";

/// Convert spans to the speedscope profile format.
pub fn spans_to_speedscope(spans: Vec<Span>) -> (file: SpeedscopeFile)
    ensures
        file@ == document_of(spans@),
        file.profiles@.len() == spans@.len(),
        file.shared.frames@.len() == frame_table(spans@).len(),
{
    let mut frames = FrameTable::new();
    let mut profiles: Vec<Profile> = Vec::new();
    let mut i: usize = 0;
    assert(spans@.take(0) == Seq::<Span>::empty());
    while i < spans.len()
        invariant
            0 <= i <= spans.len(),
            frames.wf(),
            frames@ == frame_table(spans@.take(i as int)),
            profiles@.len() == i,
            forall|k: int|
                0 <= k < i ==> (#[trigger] profiles@[k])@ == profile_of(spans@[k], frames@),
        decreases spans.len() - i,
    {
        let span = &spans[i];
        let ghost before = frames@;
        let ghost seen = forest_names(spans@.take(i as int));
        let mut events: Vec<Event> = Vec::new();
        span_extend_events(&mut frames, &mut events, span);
        proof {
            assert(spans@.take(i + 1).drop_last() == spans@.take(i as int));
            assert(spans@.take(i + 1).last() == *span);
            crate::interner::lemma_intern_all_concat(Seq::empty(), seen, span_names(*span));
            crate::interner::lemma_intern_all_grows(Seq::empty(), seen);
            crate::interner::lemma_intern_all_grows(before, span_names(*span));
            assert forall|k: int| 0 <= k < i implies (#[trigger] profiles@[k])@ == profile_of(
                spans@[k],
                frames@,
            ) by {
                crate::document::lemma_forest_names_cover(spans@.take(i as int), k, before);
                crate::events::lemma_span_events_stable(spans@[k], before, frames@);
            }
        }
        profiles.push(
            Profile::Evented {
                name: clone_name(&span.name),
                unit: ValueUnit::Nanoseconds,
                start_value: span.start_ns,
                end_value: span.end_ns,
                events,
            },
        );
        i = i + 1;
    }
    assert(spans@.take(i as int) == spans@);
    let table = frames.frames();
    assert(table@.len() == table@.map_values(|f: Frame| f@).len());
    let file = SpeedscopeFile {
        schema: JSON_SCHEMA_URL,
        active_profile_index: None,
        exporter: None,
        name: None,
        profiles,
        shared: Shared { frames: table },
    };
    assert(file@.profiles =~= document_of(spans@).profiles);
    file
}

/// Appends the events of the tree under `span` to `events`, and interns the
/// names of the tree in `frames`, a parent before its children.
pub fn span_extend_events(frames: &mut FrameTable, events: &mut Vec<Event>, span: &Span)
    requires
        old(frames).wf(),
    ensures
        final(frames).wf(),
        final(frames)@ == intern_all(old(frames)@, span_names(*span)),
        final(events)@ == old(events)@ + span_events(*span, final(frames)@),
    decreases span,
{
    let frame = frames.intern(name_str(&span.name));
    events.push(Event { event_type: EventType::OpenFrame, at: span.start_ns, frame });
    let ghost opened = frames@;
    let mut i: usize = 0;
    proof {
        assert(span.children@.take(0) == Seq::<Span>::empty());
        assert(seq![span.name@].drop_last() == Seq::<Seq<char>>::empty());
        assert(intern_all(old(frames)@, seq![span.name@]) == opened) by {
            reveal_with_fuel(intern_all, 2);
        }
    }
    while i < span.children.len()
        invariant
            0 <= i <= span.children.len(),
            old(frames).wf(),
            frames.wf(),
            frame < frames@.len(),
            frames@[frame as int] == span.name@,
            frames@ == intern_all(
                old(frames)@,
                seq![span.name@] + forest_names(span.children@.take(i as int)),
            ),
            events@ == old(events)@ + seq![open_event(*span, frames@)] + forest_events(
                span.children@.take(i as int),
                frames@,
            ),
        decreases span.children.len() - i,
    {
        let child = &span.children[i];
        let ghost before = frames@;
        let ghost done = span.children@.take(i as int);
        let ghost seen = seq![span.name@] + forest_names(done);
        span_extend_events(frames, events, child);
        proof {
            assert(span.children@.take(i + 1).drop_last() == done);
            assert(span.children@.take(i + 1).last() == *child);
            assert(seen + span_names(*child) == seq![span.name@] + forest_names(
                span.children@.take(i + 1),
            ));
            crate::interner::lemma_intern_all_concat(old(frames)@, seen, span_names(*child));
            crate::interner::lemma_intern_all_grows(old(frames)@, seen);
            crate::interner::lemma_intern_all_grows(before, span_names(*child));
            assert(frames@[frame as int] == before.subrange(0, before.len() as int)[frame as int]);
            crate::interner::lemma_frame_index_at(frames@, span.name@, frame as int);
            assert(covers(before, forest_names(done))) by {
                assert forall|k: int| 0 <= k < forest_names(done).len() implies before.contains(
                    #[trigger] forest_names(done)[k],
                ) by {
                    assert(seen[k + 1] == forest_names(done)[k]);
                }
            }
            crate::events::lemma_forest_events_stable(done, before, frames@);
        }
        i = i + 1;
    }
    events.push(Event { event_type: EventType::CloseFrame, at: span.end_ns, frame });
    proof {
        assert(span.children@.take(i as int) == span.children@);
        assert(events@ =~= old(events)@ + span_events(*span, frames@));
    }
}

} // verus!
