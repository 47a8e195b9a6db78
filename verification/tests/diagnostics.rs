use fast_tracer::diagnostics::{discarded_fields, idle_threads};
use fast_tracer::events::{log_event, RawEvent, Registry};

#[test]
fn fields_other_than_the_label_are_discarded() {
    let mut registry = Registry::new();
    let first = registry.register();
    let second = registry.register();
    log_event(&mut registry, second, RawEvent::StrField(1, "size", "big"));
    log_event(&mut registry, first, RawEvent::NewSpan(1, "main_task", 0));
    log_event(&mut registry, first, RawEvent::StrField(1, "colour", "blue"));
    log_event(&mut registry, first, RawEvent::StrField(1, "label", "named"));
    log_event(&mut registry, first, RawEvent::StrField(1, "labels", "x"));
    assert_eq!(discarded_fields(&registry), vec!["colour", "labels", "size"]);
    assert_eq!(discarded_fields(&Registry::new()), Vec::<&str>::new());
}

#[test]
fn threads_without_an_entry_are_idle() {
    let mut registry = Registry::new();
    for _ in 0..4 {
        registry.register();
    }
    log_event(&mut registry, 1, RawEvent::NewSpan(1, "a", 0));
    log_event(&mut registry, 1, RawEvent::Enter(1, 3));
    log_event(&mut registry, 2, RawEvent::NewSpan(2, "b", 0));
    log_event(&mut registry, 3, RawEvent::Exit(1, 4));
    assert_eq!(idle_threads(&registry), vec![0, 2, 3]);
}

#[test]
fn events_come_in_the_order_of_recording() {
    let mut registry = Registry::new();
    let thread = registry.register();
    log_event(&mut registry, thread, RawEvent::Enter(1, 3));
    log_event(&mut registry, thread, RawEvent::Exit(1, 5));
    assert_eq!(registry.events(thread), vec![&RawEvent::Enter(1, 3), &RawEvent::Exit(1, 5)]);
}
