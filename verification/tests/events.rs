use fast_tracer::events::{
    extract_spans, log_event, replay, reset_events, RawEvent, Registry, TraceError,
};
use fast_tracer::spans::Span;

fn registry_with(logs: Vec<Vec<RawEvent>>) -> Registry {
    let mut registry = Registry::new();
    for log in logs {
        let thread = registry.register();
        for event in log {
            log_event(&mut registry, thread, event);
        }
    }
    registry
}

#[test]
fn span_new_is_blank() {
    let span = Span::new(7);
    assert_eq!(
        span,
        Span {
            id: 7,
            parent: None,
            start: 0,
            end: 0,
            name: "",
            execution_thread: 0,
            creation_thread: 0,
        }
    );
}

#[test]
fn nested_spans_are_rebuilt() {
    let mut registry = registry_with(vec![vec![
        RawEvent::NewSpan(1, "main_task", 0),
        RawEvent::Enter(1, 1_000),
        RawEvent::NewSpan(2, "work", 0),
        RawEvent::Enter(2, 1_100),
        RawEvent::Exit(2, 1_900),
        RawEvent::Exit(1, 2_000),
    ]]);
    let spans = extract_spans(&mut registry).unwrap();
    assert_eq!(spans.len(), 2);
    assert_eq!(
        spans[&1],
        Span {
            id: 1,
            parent: None,
            start: 0,
            end: 1_000,
            name: "main_task",
            execution_thread: 0,
            creation_thread: 0,
        }
    );
    assert_eq!(
        spans[&2],
        Span {
            id: 2,
            parent: Some(1),
            start: 100,
            end: 900,
            name: "work",
            execution_thread: 0,
            creation_thread: 0,
        }
    );
    assert_eq!(registry.threads(), 1);
    assert!(extract_spans(&mut registry).unwrap().is_empty());
}

#[test]
fn counts_balance_on_well_nested_log() {
    let registry = registry_with(vec![vec![
        RawEvent::Enter(1, 10),
        RawEvent::Enter(2, 20),
        RawEvent::Exit(2, 30),
        RawEvent::Enter(3, 40),
        RawEvent::Exit(3, 50),
        RawEvent::Enter(4, 60),
    ]]);
    let replay = replay(&registry).unwrap();
    assert_eq!(replay.entered, 4);
    assert_eq!(replay.exited, 2);
    assert_eq!(replay.unfinished, 2);
    assert_eq!(replay.spans.len(), 4);
    for span in replay.spans.values() {
        assert!(span.end >= span.start);
    }
    assert_eq!(replay.spans.values().map(|span| span.start).min(), Some(0));
}

#[test]
fn unfinished_spans_end_at_the_latest_time() {
    let registry = registry_with(vec![
        vec![RawEvent::Enter(1, 5), RawEvent::Enter(2, 7)],
        vec![RawEvent::Enter(3, 6), RawEvent::Exit(3, 40)],
    ]);
    let replay = replay(&registry).unwrap();
    assert_eq!(replay.unfinished, 2);
    assert_eq!(replay.spans[&1].start, 0);
    assert_eq!(replay.spans[&1].end, 35);
    assert_eq!(replay.spans[&2].start, 2);
    assert_eq!(replay.spans[&2].end, 35);
    assert_eq!(replay.spans[&3].start, 1);
    assert_eq!(replay.spans[&3].end, 35);
    assert_eq!(replay.spans[&3].execution_thread, 1);
}

#[test]
fn explicit_parent_and_threads_are_kept() {
    let registry = registry_with(vec![
        vec![RawEvent::NewSpan(1, "main_task", 0), RawEvent::Enter(1, 0), RawEvent::Exit(1, 9)],
        vec![RawEvent::NewSpan(2, "child", 1), RawEvent::Enter(2, 3), RawEvent::Exit(2, 4)],
    ]);
    let spans = replay(&registry).unwrap().spans;
    assert_eq!(spans[&2].parent, Some(1));
    assert_eq!(spans[&2].creation_thread, 1);
    assert_eq!(spans[&2].execution_thread, 1);
    assert_eq!(spans[&1].parent, None);
}

#[test]
fn label_overrides_the_name() {
    let registry = registry_with(vec![vec![
        RawEvent::NewSpan(1, "main_task", 0),
        RawEvent::StrField(1, "label", "renamed"),
        RawEvent::StrField(1, "colour", "blue"),
        RawEvent::Enter(1, 0),
        RawEvent::Exit(1, 1),
    ]]);
    let spans = replay(&registry).unwrap().spans;
    assert_eq!(spans[&1].name, "renamed");
}

#[test]
fn exit_out_of_order_is_an_error() {
    let mut registry = registry_with(vec![vec![
        RawEvent::Enter(1, 0),
        RawEvent::Enter(2, 1),
        RawEvent::Exit(1, 2),
    ]]);
    assert_eq!(replay(&registry).err(), Some(TraceError::ExitOutOfOrder(1)));
    assert_eq!(extract_spans(&mut registry).err(), Some(TraceError::ExitOutOfOrder(1)));
    assert_eq!(replay(&registry).err(), Some(TraceError::ExitOutOfOrder(1)));
}

#[test]
fn exit_without_enter_is_an_error() {
    let registry = registry_with(vec![vec![RawEvent::Exit(1, 2)]]);
    assert_eq!(replay(&registry).err(), Some(TraceError::ExitOutOfOrder(1)));
}

#[test]
fn exit_on_other_thread_is_an_error() {
    let registry = registry_with(vec![
        vec![],
        vec![RawEvent::Enter(1, 0)],
        vec![RawEvent::Exit(1, 2)],
    ]);
    assert_eq!(replay(&registry).err(), Some(TraceError::ExitOnOtherThread(1)));
}

#[test]
fn label_on_unknown_span_is_an_error() {
    let registry = registry_with(vec![vec![RawEvent::StrField(9, "label", "x")]]);
    assert_eq!(replay(&registry).err(), Some(TraceError::LabelOnUnknownSpan(9)));
}

#[test]
fn span_never_entered_is_an_error() {
    let registry = registry_with(vec![vec![
        RawEvent::NewSpan(1, "main_task", 0),
        RawEvent::NewSpan(2, "idle", 0),
        RawEvent::Enter(1, 0),
        RawEvent::Exit(1, 1),
    ]]);
    assert_eq!(replay(&registry).err(), Some(TraceError::SpanCountMismatch));
}

#[test]
fn span_before_the_origin_is_an_error() {
    let registry = registry_with(vec![vec![
        RawEvent::Enter(1, 5),
        RawEvent::Exit(1, 6),
        RawEvent::Enter(1, 7),
        RawEvent::Exit(1, 8),
        RawEvent::NewSpan(2, "never", 0),
    ]]);
    assert_eq!(replay(&registry).err(), Some(TraceError::TimeBeforeOrigin));
}

#[test]
fn reset_empties_every_log() {
    let mut registry = registry_with(vec![
        vec![RawEvent::Enter(1, 5)],
        vec![RawEvent::Enter(2, 5), RawEvent::Exit(3, 9)],
    ]);
    reset_events(&mut registry);
    assert_eq!(registry.threads(), 2);
    let replay = replay(&registry).unwrap();
    assert!(replay.spans.is_empty());
    assert_eq!(replay.entered, 0);
}

#[test]
fn same_workload_twice_gives_the_same_spans() {
    let workload = |origin: u128, first_id: u64| {
        vec![vec![
            RawEvent::NewSpan(first_id, "main_task", 0),
            RawEvent::Enter(first_id, origin),
            RawEvent::NewSpan(first_id + 1, "work", 0),
            RawEvent::Enter(first_id + 1, origin + 10),
            RawEvent::Exit(first_id + 1, origin + 30),
            RawEvent::Exit(first_id, origin + 50),
        ]]
    };
    let mut registry = registry_with(workload(1_000, 1));
    let first = extract_spans(&mut registry).unwrap();
    for event in workload(77_000, 3).remove(0) {
        log_event(&mut registry, 0, event);
    }
    let second = extract_spans(&mut registry).unwrap();
    assert_eq!(first.len(), second.len());
    for (id, span) in &first {
        let twin = second[&(id + 2)];
        assert_eq!(twin.id, span.id + 2);
        assert_eq!(twin.parent, span.parent.map(|parent| parent + 2));
        assert_eq!(twin.start, span.start);
        assert_eq!(twin.end, span.end);
        assert_eq!(twin.name, span.name);
        assert_eq!(twin.execution_thread, span.execution_thread);
        assert_eq!(twin.creation_thread, span.creation_thread);
    }
}

#[test]
fn nested_log_gives_one_span_for_each_id_whatever_the_clock() {
    let registry = registry_with(vec![vec![
        RawEvent::NewSpan(7, "main_task", 0),
        RawEvent::Enter(7, 100),
        RawEvent::NewSpan(8, "a", 0),
        RawEvent::Enter(8, 90),
        RawEvent::Exit(8, 50),
        RawEvent::NewSpan(9, "b", 0),
        RawEvent::Enter(9, 120),
    ]]);
    let replay = replay(&registry).unwrap();
    let mut ids: Vec<u64> = replay.spans.keys().cloned().collect();
    ids.sort();
    assert_eq!(ids, vec![7, 8, 9]);
    for (id, span) in &replay.spans {
        assert_eq!(span.id, *id);
    }
    assert_eq!((replay.entered, replay.exited, replay.unfinished), (3, 1, 2));
    assert_eq!((replay.spans[&7].start, replay.spans[&7].end), (50, 70));
    assert_eq!((replay.spans[&8].start, replay.spans[&8].end), (40, 0));
    assert_eq!((replay.spans[&9].start, replay.spans[&9].end), (70, 70));
}

#[test]
fn span_never_entered_stays_before_a_later_origin() {
    let workload = |origin: u128| {
        vec![vec![
            RawEvent::Enter(1, origin),
            RawEvent::Exit(1, origin),
            RawEvent::Enter(1, origin + 5),
            RawEvent::Exit(1, origin + 6),
            RawEvent::NewSpan(2, "never", 0),
        ]]
    };
    let first = replay(&registry_with(workload(0))).unwrap();
    assert_eq!(first.spans.len(), 2);
    assert_eq!((first.spans[&2].start, first.spans[&2].end), (0, 0));
    assert_eq!(
        replay(&registry_with(workload(10))).err(),
        Some(TraceError::TimeBeforeOrigin)
    );
}
