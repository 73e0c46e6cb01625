use flamescope::model::{Event, EventType, Frame, Profile, SpeedscopeFile, ValueUnit};
use flamescope::span::Span;
use flamescope::{span_extend_events, spans_to_speedscope, JSON_SCHEMA_URL};
use flamescope::interner::FrameTable;

fn span(name: &'static str, start_ns: u64, end_ns: u64, children: Vec<Span>) -> Span {
    Span { name: name.into(), start_ns, end_ns, children }
}

fn open(at: u64, frame: usize) -> Event {
    Event { event_type: EventType::OpenFrame, at, frame }
}

fn close(at: u64, frame: usize) -> Event {
    Event { event_type: EventType::CloseFrame, at, frame }
}

fn events_of(profile: &Profile) -> &Vec<Event> {
    match profile {
        Profile::Evented { events, .. } => events,
        Profile::Sampled { .. } => panic!("a sampled profile"),
    }
}

fn count(span: &Span) -> usize {
    1 + span.children.iter().map(count).sum::<usize>()
}

fn names_in_order(span: &Span, into: &mut Vec<String>) {
    into.push(span.name.to_string());
    for child in &span.children {
        names_in_order(child, into);
    }
}

fn distinct_in_order(names: &[String]) -> Vec<String> {
    let mut seen: Vec<String> = Vec::new();
    for name in names {
        if !seen.contains(name) {
            seen.push(name.clone());
        }
    }
    seen
}

fn is_balanced(events: &[Event]) -> bool {
    let mut stack: Vec<usize> = Vec::new();
    for e in events {
        match e.event_type {
            EventType::OpenFrame => stack.push(e.frame),
            EventType::CloseFrame => {
                if stack.pop() != Some(e.frame) {
                    return false;
                }
            }
        }
    }
    stack.is_empty()
}

fn sample_forest() -> Vec<Span> {
    vec![
        span(
            "main",
            0,
            1000,
            vec![
                span("load", 10, 200, vec![span("read", 20, 90, vec![]), span("parse", 100, 190, vec![])]),
                span("work", 210, 900, vec![
                    span("step", 220, 300, vec![span("read", 230, 240, vec![])]),
                    span("step", 310, 400, vec![]),
                    span("step", 410, 500, vec![span("parse", 420, 430, vec![])]),
                ]),
            ],
        ),
        span("idle", 1000, 1100, vec![]),
        span("main", 1100, 2000, vec![span("flush", 1200, 1300, vec![span("work", 1210, 1290, vec![])])]),
    ]
}

#[test]
fn single_span() {
    let file = spans_to_speedscope(vec![span("main", 0, 100, vec![])]);
    assert_eq!(
        file.profiles,
        vec![Profile::Evented {
            name: "main".into(),
            unit: ValueUnit::Nanoseconds,
            start_value: 0,
            end_value: 100,
            events: vec![open(0, 0), close(100, 0)],
        }]
    );
    assert_eq!(
        file.shared.frames,
        vec![Frame { name: "main".into(), file: None, line: None, col: None }]
    );
}

#[test]
fn nested_span() {
    let file = spans_to_speedscope(vec![span("main", 0, 100, vec![span("work", 10, 90, vec![])])]);
    assert_eq!(file.profiles.len(), 1);
    assert_eq!(
        events_of(&file.profiles[0]),
        &vec![open(0, 0), open(10, 1), close(90, 1), close(100, 0)]
    );
    assert_eq!(file.shared.frames, vec![Frame::new("main".into()), Frame::new("work".into())]);
}

#[test]
fn repeated_name() {
    let file = spans_to_speedscope(vec![span(
        "main",
        0,
        100,
        vec![span("task", 10, 20, vec![]), span("task", 30, 40, vec![])],
    )]);
    assert_eq!(file.shared.frames, vec![Frame::new("main".into()), Frame::new("task".into())]);
    assert_eq!(
        events_of(&file.profiles[0]),
        &vec![open(0, 0), open(10, 1), close(20, 1), open(30, 1), close(40, 1), close(100, 0)]
    );
}

#[test]
fn empty_forest() {
    let file = spans_to_speedscope(vec![]);
    assert_eq!(file.schema, "https://www.speedscope.app/file-format-schema.json");
    assert!(file.profiles.is_empty());
    assert!(file.shared.frames.is_empty());
    assert_eq!(file.active_profile_index, None);
    assert_eq!(file.exporter, None);
    assert_eq!(file.name, None);
}

#[test]
fn schema_and_absent_fields() {
    assert_eq!(JSON_SCHEMA_URL, "https://www.speedscope.app/file-format-schema.json");
    let file = spans_to_speedscope(sample_forest());
    assert_eq!(file.schema, JSON_SCHEMA_URL);
    assert_eq!(file.active_profile_index, None);
    assert_eq!(file.exporter, None);
    assert_eq!(file.name, None);
}

#[test]
fn one_profile_for_each_root() {
    let forest = sample_forest();
    let file = spans_to_speedscope(sample_forest());
    assert_eq!(file.profiles.len(), 3);
    for (root, profile) in forest.iter().zip(file.profiles.iter()) {
        match profile {
            Profile::Evented { name, unit, start_value, end_value, events } => {
                assert_eq!(name, &root.name);
                assert_eq!(unit, &ValueUnit::Nanoseconds);
                assert_eq!(*start_value, root.start_ns);
                assert_eq!(*end_value, root.end_ns);
                assert_eq!(events[0], open(root.start_ns, events[0].frame));
                assert_eq!(events[events.len() - 1], close(root.end_ns, events[0].frame));
            }
            Profile::Sampled { .. } => panic!("a sampled profile"),
        }
    }
}

#[test]
fn two_events_for_each_span() {
    let forest = sample_forest();
    let file = spans_to_speedscope(sample_forest());
    assert_eq!(events_of(&file.profiles[0]).len(), 20);
    assert_eq!(events_of(&file.profiles[1]).len(), 2);
    assert_eq!(events_of(&file.profiles[2]).len(), 6);
    for (root, profile) in forest.iter().zip(file.profiles.iter()) {
        assert_eq!(events_of(profile).len(), 2 * count(root));
    }
}

#[test]
fn events_are_balanced() {
    let file = spans_to_speedscope(sample_forest());
    for profile in &file.profiles {
        assert!(is_balanced(events_of(profile)));
    }
    assert_eq!(
        events_of(&file.profiles[2]),
        &vec![open(1100, 0), open(1200, 7), open(1210, 4), close(1290, 4), close(1300, 7), close(2000, 0)]
    );
}

#[test]
fn exact_events_of_a_larger_tree() {
    let file = spans_to_speedscope(sample_forest());
    assert_eq!(
        events_of(&file.profiles[0]),
        &vec![
            open(0, 0),
            open(10, 1),
            open(20, 2),
            close(90, 2),
            open(100, 3),
            close(190, 3),
            close(200, 1),
            open(210, 4),
            open(220, 5),
            open(230, 2),
            close(240, 2),
            close(300, 5),
            open(310, 5),
            close(400, 5),
            open(410, 5),
            open(420, 3),
            close(430, 3),
            close(500, 5),
            close(900, 4),
            close(1000, 0),
        ]
    );
    assert_eq!(events_of(&file.profiles[1]), &vec![open(1000, 6), close(1100, 6)]);
}

#[test]
fn one_frame_for_each_distinct_name() {
    let forest = sample_forest();
    let file = spans_to_speedscope(sample_forest());
    let mut names = Vec::new();
    for root in &forest {
        names_in_order(root, &mut names);
    }
    assert_eq!(names.len(), 14);
    let distinct = distinct_in_order(&names);
    assert_eq!(distinct.len(), 8);
    assert_eq!(file.shared.frames.len(), 8);
    let frame_names: Vec<String> = file.shared.frames.iter().map(|f| f.name.to_string()).collect();
    assert_eq!(frame_names, distinct);
    assert_eq!(frame_names, vec!["main", "load", "read", "parse", "work", "step", "idle", "flush"]);
    for frame in &file.shared.frames {
        assert_eq!(frame.file, None);
        assert_eq!(frame.line, None);
        assert_eq!(frame.col, None);
    }
    for profile in &file.profiles {
        for e in events_of(profile) {
            assert!(e.frame < 8);
        }
    }
}

#[test]
fn events_point_at_frames_with_the_span_name() {
    let forest = sample_forest();
    let file = spans_to_speedscope(sample_forest());
    for (root, profile) in forest.iter().zip(file.profiles.iter()) {
        let mut names = Vec::new();
        names_in_order(root, &mut names);
        let opened: Vec<String> = events_of(profile)
            .iter()
            .filter(|e| e.event_type == EventType::OpenFrame)
            .map(|e| file.shared.frames[e.frame].name.to_string())
            .collect();
        assert_eq!(opened, names);
    }
}

#[test]
fn sibling_roots_share_the_frame_table() {
    let file = spans_to_speedscope(vec![
        span("a", 0, 10, vec![span("x", 1, 2, vec![])]),
        span("b", 10, 20, vec![span("x", 11, 12, vec![])]),
        span("a", 20, 30, vec![]),
    ]);
    assert_eq!(
        file.shared.frames,
        vec![Frame::new("a".into()), Frame::new("x".into()), Frame::new("b".into())]
    );
    assert_eq!(events_of(&file.profiles[0]), &vec![open(0, 0), open(1, 1), close(2, 1), close(10, 0)]);
    assert_eq!(events_of(&file.profiles[1]), &vec![open(10, 2), open(11, 1), close(12, 1), close(20, 2)]);
    assert_eq!(events_of(&file.profiles[2]), &vec![open(20, 0), close(30, 0)]);
}

#[test]
fn a_root_gives_the_same_profile_beside_other_roots() {
    let alone = spans_to_speedscope(vec![span("a", 0, 10, vec![span("x", 1, 2, vec![])])]);
    let beside = spans_to_speedscope(vec![
        span("a", 0, 10, vec![span("x", 1, 2, vec![])]),
        span("a", 0, 10, vec![span("x", 1, 2, vec![])]),
    ]);
    assert_eq!(alone.shared, beside.shared);
    assert_eq!(alone.profiles[0], beside.profiles[0]);
    assert_eq!(alone.profiles[0], beside.profiles[1]);
}

#[test]
fn times_pass_through_unchecked() {
    let file = spans_to_speedscope(vec![span("back", 100, 50, vec![span("out", 500, 7, vec![])])]);
    assert_eq!(
        file.profiles,
        vec![Profile::Evented {
            name: "back".into(),
            unit: ValueUnit::Nanoseconds,
            start_value: 100,
            end_value: 50,
            events: vec![open(100, 0), open(500, 1), close(7, 1), close(50, 0)],
        }]
    );
}

#[test]
fn largest_times() {
    let file = spans_to_speedscope(vec![span("all", 0, u64::MAX, vec![])]);
    assert_eq!(events_of(&file.profiles[0]), &vec![open(0, 0), close(u64::MAX, 0)]);
}

#[test]
fn owned_and_borrowed_names_share_a_frame() {
    let owned = Span {
        name: String::from("main").into(),
        start_ns: 5,
        end_ns: 6,
        children: vec![],
    };
    let file = spans_to_speedscope(vec![span("main", 0, 10, vec![owned])]);
    assert_eq!(file.shared.frames.len(), 1);
    assert_eq!(events_of(&file.profiles[0]), &vec![open(0, 0), open(5, 0), close(6, 0), close(10, 0)]);
}

#[test]
fn names_differ_by_case_and_space() {
    let file = spans_to_speedscope(vec![span(
        "",
        0,
        10,
        vec![span("a", 1, 2, vec![]), span("A", 3, 4, vec![]), span("a ", 5, 6, vec![]), span("", 7, 8, vec![])],
    )]);
    let frame_names: Vec<String> = file.shared.frames.iter().map(|f| f.name.to_string()).collect();
    assert_eq!(frame_names, vec!["", "a", "A", "a "]);
    assert_eq!(events_of(&file.profiles[0])[7], open(7, 0));
}

#[test]
fn a_deep_tree() {
    let mut tree = span("leaf", 300, 301, vec![]);
    for depth in (0..300u64).rev() {
        tree = span(if depth % 2 == 0 { "even" } else { "odd" }, depth, 601 - depth, vec![tree]);
    }
    let file = spans_to_speedscope(vec![tree]);
    let events = events_of(&file.profiles[0]);
    assert_eq!(events.len(), 602);
    assert!(is_balanced(events));
    assert_eq!(file.shared.frames.len(), 3);
    assert_eq!(events[0], open(0, 0));
    assert_eq!(events[1], open(1, 1));
    assert_eq!(events[300], open(300, 2));
    assert_eq!(events[301], close(301, 2));
    assert_eq!(events[601], close(601, 0));
}

#[test]
fn a_wide_tree() {
    let children: Vec<Span> = (0..1000u64).map(|i| span("child", 2 * i, 2 * i + 1, vec![])).collect();
    let file = spans_to_speedscope(vec![span("root", 0, 2000, children)]);
    let events = events_of(&file.profiles[0]);
    assert_eq!(events.len(), 2002);
    assert_eq!(file.shared.frames.len(), 2);
    assert_eq!(events[1], open(0, 1));
    assert_eq!(events[2000], close(1999, 1));
    assert_eq!(events[2001], close(2000, 0));
}

#[test]
fn extending_appends_to_what_is_there() {
    let mut frames = FrameTable::new();
    assert_eq!(frames.intern("earlier"), 0);
    let mut events = vec![open(1, 0), close(2, 0)];
    span_extend_events(
        &mut frames,
        &mut events,
        &span("main", 10, 20, vec![span("earlier", 11, 12, vec![])]),
    );
    assert_eq!(
        events,
        vec![open(1, 0), close(2, 0), open(10, 1), open(11, 0), close(12, 0), close(20, 1)]
    );
    assert_eq!(frames.len(), 2);
    assert_eq!(frames.frames(), vec![Frame::new("earlier".into()), Frame::new("main".into())]);
}

#[test]
fn a_whole_document() {
    let file = spans_to_speedscope(vec![span("main", 1, 2, vec![])]);
    let by_hand = SpeedscopeFile {
        schema: "https://www.speedscope.app/file-format-schema.json",
        profiles: vec![Profile::Evented {
            name: "main".into(),
            unit: ValueUnit::Nanoseconds,
            start_value: 1,
            end_value: 2,
            events: vec![open(1, 0), close(2, 0)],
        }],
        shared: flamescope::model::Shared { frames: vec![Frame::new("main".into())] },
        active_profile_index: None,
        exporter: None,
        name: None,
    };
    assert_eq!(file, by_hand);
}
