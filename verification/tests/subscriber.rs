use fast_tracer::events::{replay, Registry, TraceError};
use fast_tracer::subscriber::FastSubscriber;

#[test]
fn ids_start_at_one_and_grow() {
    let mut registry = Registry::new();
    let mut subscriber = FastSubscriber::new();
    let context = FastSubscriber::register_thread(&mut registry);
    assert_eq!(context.ordinal(), 0);
    assert_eq!(subscriber.new_span(&mut registry, &context, "a", 0), 1);
    assert_eq!(subscriber.new_span(&mut registry, &context, "b", 1), 2);
    assert_eq!(subscriber.new_span(&mut registry, &context, "c", 0), 3);
    let other = FastSubscriber::register_thread(&mut registry);
    assert_eq!(other.ordinal(), 1);
    assert_eq!(subscriber.new_span(&mut registry, &other, "d", 0), 4);
}

#[test]
fn current_span_follows_enter_and_exit() {
    let mut registry = Registry::new();
    let subscriber = FastSubscriber::new();
    let mut context = FastSubscriber::register_thread(&mut registry);
    assert_eq!(context.current_span(), None);
    subscriber.enter(&mut registry, &mut context, 4, 10);
    assert_eq!(context.current_span(), Some(4));
    subscriber.enter(&mut registry, &mut context, 5, 11);
    assert_eq!(context.current_span(), Some(5));
    assert_eq!(subscriber.exit(&mut registry, &mut context, 5, 12), Ok(()));
    assert_eq!(context.current_span(), Some(4));
    assert_eq!(subscriber.exit(&mut registry, &mut context, 4, 13), Ok(()));
    assert_eq!(context.current_span(), None);
}

#[test]
fn exit_of_a_span_that_is_not_innermost_is_detected() {
    let mut registry = Registry::new();
    let subscriber = FastSubscriber::new();
    let mut context = FastSubscriber::register_thread(&mut registry);
    subscriber.enter(&mut registry, &mut context, 1, 0);
    subscriber.enter(&mut registry, &mut context, 2, 1);
    assert_eq!(
        subscriber.exit(&mut registry, &mut context, 1, 2),
        Err(TraceError::ExitOutOfOrder(1))
    );
    assert_eq!(replay(&registry).err(), Some(TraceError::ExitOutOfOrder(1)));
}

#[test]
fn exit_on_an_empty_stack_is_detected() {
    let mut registry = Registry::new();
    let subscriber = FastSubscriber::new();
    let mut context = FastSubscriber::register_thread(&mut registry);
    assert_eq!(
        subscriber.exit(&mut registry, &mut context, 3, 2),
        Err(TraceError::ExitOutOfOrder(3))
    );
    assert_eq!(context.current_span(), None);
}

#[test]
fn implicit_parent_is_the_open_span() {
    let mut registry = Registry::new();
    let mut subscriber = FastSubscriber::new();
    let mut context = FastSubscriber::register_thread(&mut registry);
    let main = subscriber.new_span(&mut registry, &context, "main_task", 0);
    subscriber.enter(&mut registry, &mut context, main, 100);
    let child = subscriber.new_span(&mut registry, &context, "child", 0);
    subscriber.record_str(&mut registry, &context, child, "label", "named");
    subscriber.enter(&mut registry, &mut context, child, 110);
    assert_eq!(subscriber.exit(&mut registry, &mut context, child, 120), Ok(()));
    assert_eq!(subscriber.exit(&mut registry, &mut context, main, 130), Ok(()));
    let spans = replay(&registry).unwrap().spans;
    assert_eq!(spans[&child].parent, Some(main));
    assert_eq!(spans[&child].name, "named");
    assert_eq!(spans[&child].start, 10);
    assert_eq!(spans[&main].end, 30);
}

#[test]
fn reset_closes_the_spans_left_open() {
    let mut registry = Registry::new();
    let subscriber = FastSubscriber::new();
    let mut context = FastSubscriber::register_thread(&mut registry);
    subscriber.enter(&mut registry, &mut context, 1, 0);
    subscriber.enter(&mut registry, &mut context, 2, 1);
    context.reset();
    assert_eq!(context.current_span(), None);
    assert_eq!(context.ordinal(), 0);
    subscriber.enter(&mut registry, &mut context, 3, 2);
    assert_eq!(subscriber.exit(&mut registry, &mut context, 3, 3), Ok(()));
}
