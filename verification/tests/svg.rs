use fast_tracer::events::{log_event, RawEvent, Registry, TraceError};
use fast_tracer::graph::LayoutError;
use fast_tracer::spans::Span;
use fast_tracer::stats::{name_stats, stats, NameStats};
use fast_tracer::svg::{gantt_svg, span_colors, DiagramError, Gantt, COLORS_NUMBER};
use std::collections::HashMap;

fn span(id: u64, start: u128, end: u128, name: &'static str, thread: usize) -> (u64, Span) {
    (
        id,
        Span { id, parent: None, start, end, name, execution_thread: thread, creation_thread: thread },
    )
}

#[test]
fn gantt_measures_the_spans() {
    let spans: HashMap<u64, Span> =
        vec![span(1, 10, 100, "a", 0), span(2, 5, 40, "b", 3), span(3, 50, 57, "c", 1)]
            .into_iter()
            .collect();
    let gantt = Gantt::new(spans).unwrap();
    assert_eq!(gantt.start, 5);
    assert_eq!(gantt.end, 100);
    assert_eq!(gantt.min_exec_time, 7);
    assert_eq!(gantt.nb_threads, 4);
    assert_eq!(gantt.spans.len(), 3);
}

#[test]
fn gantt_of_nothing() {
    let gantt = Gantt::new(HashMap::new()).unwrap();
    assert_eq!(gantt.start, u128::MAX);
    assert_eq!(gantt.end, 0);
    assert_eq!(gantt.min_exec_time, u128::MAX);
    assert_eq!(gantt.nb_threads, 0);
}

#[test]
fn gantt_refuses_a_span_that_ends_before_it_starts() {
    let spans: HashMap<u64, Span> =
        vec![span(1, 10, 100, "a", 0), span(2, 50, 40, "b", usize::MAX)].into_iter().collect();
    assert_eq!(Gantt::new(spans).err(), Some(LayoutError::NegativeDuration));
    let spans: HashMap<u64, Span> =
        vec![span(1, 10, 100, "a", 0), span(2, 50, 60, "b", usize::MAX)].into_iter().collect();
    assert_eq!(Gantt::new(spans).err(), Some(LayoutError::SizeOverflow));
}

#[test]
fn gantt_svg_replays_and_empties_the_logs() {
    let mut registry = Registry::new();
    let thread = registry.register();
    log_event(&mut registry, thread, RawEvent::Enter(1, 100));
    log_event(&mut registry, thread, RawEvent::Enter(2, 120));
    log_event(&mut registry, thread, RawEvent::Exit(2, 150));
    log_event(&mut registry, thread, RawEvent::Exit(1, 200));
    let gantt = gantt_svg(&mut registry).unwrap();
    assert_eq!((gantt.start, gantt.end, gantt.min_exec_time, gantt.nb_threads), (0, 100, 30, 1));
    assert!(registry.events(thread).is_empty());

    log_event(&mut registry, thread, RawEvent::Exit(2, 150));
    assert_eq!(
        gantt_svg(&mut registry).err(),
        Some(DiagramError::Trace(TraceError::ExitOutOfOrder(2)))
    );
    assert_eq!(registry.events(thread).len(), 1);
}

#[test]
fn stats_sum_up_by_name() {
    let spans: HashMap<u64, Span> = vec![
        span(1, 0, 100, "main_task", 0),
        span(2, 10, 20, "work", 0),
        span(3, 30, 45, "work", 1),
        span(4, 5, 6, "idle", 0),
        span(5, 50, 58, "work", 0),
    ]
    .into_iter()
    .collect();
    assert_eq!(
        name_stats(&spans).unwrap(),
        vec![
            NameStats { name: "idle", count: 1, total: 1, average: 1, first: 1 },
            NameStats { name: "main_task", count: 1, total: 100, average: 100, first: 100 },
            NameStats { name: "work", count: 3, total: 33, average: 11, first: 10 },
        ]
    );
    assert_eq!(name_stats(&HashMap::new()).unwrap(), vec![]);
}

#[test]
fn stats_round_the_average_down() {
    let spans: HashMap<u64, Span> =
        vec![span(1, 0, 3, "a", 0), span(2, 0, 4, "a", 0)].into_iter().collect();
    assert_eq!(
        name_stats(&spans).unwrap(),
        vec![NameStats { name: "a", count: 2, total: 7, average: 3, first: 3 }]
    );
}

#[test]
fn stats_refuse_what_cannot_be_summed() {
    let backwards: HashMap<u64, Span> = vec![span(1, 4, 3, "a", 0)].into_iter().collect();
    assert_eq!(name_stats(&backwards).err(), Some(LayoutError::NegativeDuration));
    let huge: HashMap<u64, Span> =
        vec![span(1, 0, u128::MAX, "a", 0), span(2, 0, 1, "a", 0)].into_iter().collect();
    assert_eq!(name_stats(&huge).err(), Some(LayoutError::SizeOverflow));
    let apart: HashMap<u64, Span> =
        vec![span(1, 0, u128::MAX, "a", 0), span(2, 0, 1, "b", 0)].into_iter().collect();
    assert_eq!(name_stats(&apart).unwrap().len(), 2);
}

#[test]
fn stats_replay_the_logs() {
    let mut registry = Registry::new();
    let thread = registry.register();
    log_event(&mut registry, thread, RawEvent::NewSpan(1, "main_task", 0));
    log_event(&mut registry, thread, RawEvent::Enter(1, 100));
    log_event(&mut registry, thread, RawEvent::NewSpan(2, "work", 0));
    log_event(&mut registry, thread, RawEvent::Enter(2, 120));
    log_event(&mut registry, thread, RawEvent::Exit(2, 150));
    log_event(&mut registry, thread, RawEvent::Exit(1, 200));
    assert_eq!(
        stats(&mut registry).unwrap(),
        vec![
            NameStats { name: "main_task", count: 1, total: 100, average: 100, first: 100 },
            NameStats { name: "work", count: 1, total: 30, average: 30, first: 30 },
        ]
    );
    assert!(registry.events(thread).is_empty());
}

#[test]
fn colors_go_to_the_names_in_turn() {
    let names = vec!["b", "a", "b", "c", "a", "d", "e", "f", "g", "h", "c", "i"];
    assert_eq!(
        span_colors(&names),
        vec![
            ("b", 0),
            ("a", 1),
            ("c", 2),
            ("d", 3),
            ("e", 4),
            ("f", 5),
            ("g", 6),
            ("h", 0),
            ("i", 1),
        ]
    );
    assert_eq!(span_colors(&Vec::new()), vec![]);
}

#[test]
fn gantt_gives_each_name_one_color() {
    let spans: HashMap<u64, Span> = vec![
        span(1, 0, 100, "main_task", 0),
        span(2, 10, 20, "work", 0),
        span(3, 30, 45, "work", 1),
        span(4, 5, 6, "idle", 0),
    ]
    .into_iter()
    .collect();
    let gantt = Gantt::new(spans).unwrap();
    let mut names: Vec<&str> = gantt.span_colors.iter().map(|(name, _)| *name).collect();
    names.sort();
    assert_eq!(names, vec!["idle", "main_task", "work"]);
    let mut colors: Vec<usize> = gantt.span_colors.iter().map(|(_, color)| *color).collect();
    colors.sort();
    assert_eq!(colors, vec![0, 1, 2]);
    for (name, color) in &gantt.span_colors {
        assert_eq!(gantt.color_of(name), Some(*color));
    }
    assert_eq!(gantt.color_of("absent"), None);
    assert_eq!(COLORS_NUMBER, 7);
}
