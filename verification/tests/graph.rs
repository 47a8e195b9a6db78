use fast_tracer::events::{RawEvent, Registry, TraceError};
use fast_tracer::graph::{Content, Graph, LayoutError, Node, Scale, Task};
use fast_tracer::spans::Span;
use fast_tracer::subscriber::FastSubscriber;
use fast_tracer::svg::{svg, DiagramError};
use std::collections::HashMap;

fn span(
    id: u64,
    parent: Option<u64>,
    start: u128,
    end: u128,
    name: &'static str,
    thread: usize,
) -> (u64, Span) {
    (id, Span { id, parent, start, end, name, execution_thread: thread, creation_thread: thread })
}

fn children(node: &Node) -> &Vec<Node> {
    match &node.children {
        Content::Children(children) => children,
        Content::Task(_) => panic!("a task where nodes were expected"),
    }
}

fn task(node: &Node) -> Task {
    match &node.children {
        Content::Task(task) => *task,
        Content::Children(_) => panic!("nodes where a task was expected"),
    }
}

#[test]
fn gaps_surround_the_child() {
    let mut registry = Registry::new();
    let mut subscriber = FastSubscriber::new();
    let mut context = FastSubscriber::register_thread(&mut registry);
    let main = subscriber.new_span(&mut registry, &context, "main_task", 0);
    subscriber.enter(&mut registry, &mut context, main, 0);
    let work = subscriber.new_span(&mut registry, &context, "work", 0);
    subscriber.enter(&mut registry, &mut context, work, 100);
    assert_eq!(subscriber.exit(&mut registry, &mut context, work, 900), Ok(()));
    assert_eq!(subscriber.exit(&mut registry, &mut context, main, 1000), Ok(()));
    let graph = svg(&mut registry).unwrap();

    let root = &graph.root;
    assert!(!root.is_parallel);
    assert_eq!(root.size, [800, 3]);
    assert_eq!(root.position, [0, 0]);
    let row = children(root);
    assert_eq!(row.len(), 3);
    assert_eq!(task(&row[0]), Task { start: 0, end: 100, thread: 0, label: "main_task" });
    assert_eq!(row[0].size, [100, 1]);
    assert_eq!(row[0].position, [700, 0]);
    assert_eq!(task(&row[2]), Task { start: 900, end: 1000, thread: 0, label: "main_task" });
    assert_eq!(row[2].size, [100, 1]);
    assert_eq!(row[2].position, [700, 4]);
    let work_node = &row[1];
    assert!(!work_node.is_parallel);
    assert_eq!(work_node.size, [800, 1]);
    assert_eq!(work_node.position, [0, 2]);
    let inner = children(work_node);
    assert_eq!(inner.len(), 1);
    assert_eq!(task(&inner[0]), Task { start: 100, end: 900, thread: 0, label: "work" });
    assert_eq!(inner[0].position, [0, 2]);

    assert_eq!(graph.start, 0);
    assert_eq!(graph.end, 1000);
    assert_eq!(graph.threads_number, 1);
    assert_eq!(graph.x_scale, Scale { units: 800, pixels: 1920 });
    assert_eq!(graph.y_scale, Scale { units: 4, pixels: 1080 });
}

#[test]
fn gaps_between_sequential_children() {
    let spans: HashMap<u64, Span> = vec![
        span(1, None, 0, 250, "main_task", 0),
        span(2, Some(1), 0, 100, "A", 0),
        span(3, Some(1), 150, 200, "B", 0),
    ]
    .into_iter()
    .collect();
    let graph = Graph::new(&spans).unwrap();
    let row = children(&graph.root);
    assert!(!graph.root.is_parallel);
    assert_eq!(row.len(), 5);
    assert_eq!(task(&row[0]), Task { start: 0, end: 0, thread: 0, label: "main_task" });
    assert_eq!(task(&children(&row[1])[0]), Task { start: 0, end: 100, thread: 0, label: "A" });
    assert_eq!(task(&row[2]), Task { start: 100, end: 150, thread: 0, label: "main_task" });
    assert_eq!(task(&children(&row[3])[0]), Task { start: 150, end: 200, thread: 0, label: "B" });
    assert_eq!(task(&row[4]), Task { start: 200, end: 250, thread: 0, label: "main_task" });
    assert_eq!(graph.root.size, [100, 5]);
    let tops: Vec<u128> = row.iter().map(|node| node.position[1]).collect();
    assert_eq!(tops, vec![0, 2, 4, 6, 8]);
    let lefts: Vec<u128> = row.iter().map(|node| node.position[0]).collect();
    assert_eq!(lefts, vec![100, 0, 50, 50, 50]);
}

#[test]
fn parallel_children_stand_side_by_side() {
    let spans: HashMap<u64, Span> = vec![
        span(1, None, 0, 400, "main_task", 0),
        span(2, Some(1), 0, 400, "parallel", 0),
        span(3, Some(2), 0, 100, "left", 0),
        span(4, Some(2), 0, 300, "right", 1),
    ]
    .into_iter()
    .collect();
    let graph = Graph::new(&spans).unwrap();
    let parallel = &children(&graph.root)[1];
    assert!(parallel.is_parallel);
    assert_eq!(parallel.size, [400, 1]);
    let row = children(parallel);
    assert_eq!(row.len(), 2);
    assert_eq!(row[0].size, [100, 1]);
    assert_eq!(row[1].size, [300, 1]);
    assert_eq!(task(&children(&row[0])[0]).thread, 0);
    assert_eq!(task(&children(&row[1])[0]).thread, 1);
    assert_eq!(parallel.position, [0, 2]);
    assert_eq!(row[0].position, [0, 2]);
    assert_eq!(row[1].position, [200, 2]);
    assert_eq!(graph.root.size, [400, 3]);
    assert_eq!(graph.threads_number, 2);
    assert_eq!(graph.y_scale, Scale { units: 5, pixels: 1080 });
}

#[test]
fn parallel_children_of_unequal_height_are_centred() {
    let spans: HashMap<u64, Span> = vec![
        span(1, None, 0, 10, "main_task", 0),
        span(2, Some(1), 0, 10, "parallel", 0),
        span(3, Some(2), 0, 4, "a", 0),
        span(4, Some(2), 0, 6, "b", 1),
        span(5, Some(4), 2, 3, "inner", 1),
    ]
    .into_iter()
    .collect();
    let graph = Graph::new(&spans).unwrap();
    let parallel = &children(&graph.root)[1];
    assert_eq!(parallel.size, [7, 3]);
    let row = children(parallel);
    assert_eq!(row[0].size, [4, 1]);
    assert_eq!(row[1].size, [3, 3]);
    assert_eq!(row[0].position, [0, parallel.position[1] + 2]);
    assert_eq!(row[1].position, [8, parallel.position[1]]);
}

#[test]
fn siblings_are_ordered_by_name_then_start_then_id() {
    let spans: HashMap<u64, Span> = vec![
        span(1, None, 0, 100, "main_task", 0),
        span(2, Some(1), 0, 100, "parallel", 0),
        span(9, Some(2), 5, 6, "b", 0),
        span(8, Some(2), 7, 8, "a", 0),
        span(7, Some(2), 3, 4, "a", 0),
        span(6, Some(2), 3, 9, "a", 0),
        span(5, Some(2), 1, 2, "ab", 0),
        span(4, Some(2), 1, 2, "", 0),
    ]
    .into_iter()
    .collect();
    let graph = Graph::new(&spans).unwrap();
    let row = children(&children(&graph.root)[1]);
    let order: Vec<(&str, u128, u128)> = row
        .iter()
        .map(|node| {
            let task = task(&children(node)[0]);
            (task.label, task.start, task.end)
        })
        .collect();
    assert_eq!(
        order,
        vec![("", 1, 2), ("a", 3, 9), ("a", 3, 4), ("a", 7, 8), ("ab", 1, 2), ("b", 5, 6)]
    );
}

#[test]
fn no_root_or_several_roots_is_an_error() {
    let none: HashMap<u64, Span> = HashMap::new();
    assert_eq!(Graph::new(&none).err(), Some(LayoutError::RootCount));
    let two: HashMap<u64, Span> =
        vec![span(1, None, 0, 10, "main_task", 0), span(2, None, 0, 10, "main_task", 0)]
            .into_iter()
            .collect();
    assert_eq!(Graph::new(&two).err(), Some(LayoutError::RootCount));
}

#[test]
fn misnamed_root_is_an_error() {
    let spans: HashMap<u64, Span> = vec![span(1, None, 0, 10, "start_task", 0)].into_iter().collect();
    assert_eq!(Graph::new(&spans).err(), Some(LayoutError::RootName));
}

#[test]
fn overlapping_children_are_an_error() {
    let spans: HashMap<u64, Span> = vec![
        span(1, None, 0, 100, "main_task", 0),
        span(2, Some(1), 0, 60, "a", 0),
        span(3, Some(1), 50, 90, "b", 0),
    ]
    .into_iter()
    .collect();
    assert_eq!(Graph::new(&spans).err(), Some(LayoutError::NegativeGap));
}

#[test]
fn children_out_of_name_order_are_an_error() {
    let spans: HashMap<u64, Span> = vec![
        span(1, None, 0, 100, "main_task", 0),
        span(2, Some(1), 0, 40, "b", 0),
        span(3, Some(1), 50, 90, "a", 0),
    ]
    .into_iter()
    .collect();
    assert_eq!(Graph::new(&spans).err(), Some(LayoutError::NegativeGap));
}

#[test]
fn sizes_that_do_not_fit_are_an_error() {
    let spans: HashMap<u64, Span> = vec![
        span(1, None, 0, u128::MAX, "main_task", 0),
        span(2, Some(1), 0, u128::MAX, "parallel", 0),
        span(3, Some(2), 0, u128::MAX, "a", 0),
        span(4, Some(2), 0, u128::MAX, "b", 0),
    ]
    .into_iter()
    .collect();
    assert_eq!(Graph::new(&spans).err(), Some(LayoutError::SizeOverflow));
    let wide: HashMap<u64, Span> =
        vec![span(1, None, 0, u128::MAX / 2 + 1, "main_task", 0)].into_iter().collect();
    assert_eq!(Graph::new(&wide).err(), Some(LayoutError::SizeOverflow));
    let fitting: HashMap<u64, Span> =
        vec![span(1, None, 0, u128::MAX / 2, "main_task", 0)].into_iter().collect();
    assert!(Graph::new(&fitting).is_ok());
}

#[test]
fn root_without_duration_is_an_error() {
    let spans: HashMap<u64, Span> = vec![span(1, None, 5, 5, "main_task", 0)].into_iter().collect();
    assert_eq!(Graph::new(&spans).err(), Some(LayoutError::ZeroDuration));
}

#[test]
fn spans_out_of_reach_of_the_root_are_left_out() {
    let spans: HashMap<u64, Span> = vec![
        span(1, None, 0, 10, "main_task", 0),
        span(2, Some(3), 50, 40, "loop", 0),
        span(3, Some(2), 70, 60, "loop", 4),
        span(4, Some(99), 0, 1, "orphan", 0),
    ]
    .into_iter()
    .collect();
    let graph = Graph::new(&spans).unwrap();
    assert_eq!(children(&graph.root).len(), 1);
    assert_eq!(graph.root.size, [10, 1]);
    assert_eq!(graph.threads_number, 5);
    assert_eq!(graph.end, 60);
}

#[test]
fn new_from_children_adds_and_takes_the_largest() {
    let leaf = |start: u128, end: u128| {
        Node::new_from_task(Task { start, end, thread: 0, label: "t" })
    };
    let side_by_side = Node::new_from_children(vec![leaf(0, 3), leaf(0, 5)], true).unwrap();
    assert_eq!(side_by_side.size, [8, 1]);
    let stacked = Node::new_from_children(vec![leaf(0, 3), leaf(0, 5)], false).unwrap();
    assert_eq!(stacked.size, [5, 2]);
    let empty = Node::new_from_children(vec![], true).unwrap();
    assert_eq!(empty.size, [0, 0]);
    let too_wide = Node::new_from_children(vec![leaf(0, u128::MAX), leaf(0, 1)], true);
    assert_eq!(too_wide.err(), Some(LayoutError::SizeOverflow));
}

#[test]
fn svg_reports_what_went_wrong() {
    let mut registry = Registry::new();
    let subscriber = FastSubscriber::new();
    let mut context = FastSubscriber::register_thread(&mut registry);
    subscriber.enter(&mut registry, &mut context, 1, 0);
    subscriber.enter(&mut registry, &mut context, 2, 1);
    assert_eq!(
        subscriber.exit(&mut registry, &mut context, 1, 2),
        Err(TraceError::ExitOutOfOrder(1))
    );
    assert_eq!(
        svg(&mut registry).err(),
        Some(DiagramError::Trace(TraceError::ExitOutOfOrder(1)))
    );

    let mut registry = Registry::new();
    let mut subscriber = FastSubscriber::new();
    let mut context = FastSubscriber::register_thread(&mut registry);
    let main = subscriber.new_span(&mut registry, &context, "start_task", 0);
    subscriber.enter(&mut registry, &mut context, main, 0);
    assert_eq!(subscriber.exit(&mut registry, &mut context, main, 9), Ok(()));
    assert_eq!(svg(&mut registry).err(), Some(DiagramError::Layout(LayoutError::RootName)));
    assert_eq!(registry.threads(), 1);
    let _ = RawEvent::Enter(0, 0);
}

#[test]
fn tasks_come_in_the_order_of_the_diagram() {
    let spans: HashMap<u64, Span> = vec![
        span(1, None, 0, 100, "main_task", 0),
        span(2, Some(1), 10, 90, "parallel", 0),
        span(3, Some(2), 10, 50, "a", 0),
        span(4, Some(2), 10, 80, "b", 1),
    ]
    .into_iter()
    .collect();
    let graph = Graph::new(&spans).unwrap();
    assert_eq!(
        graph.root.tasks(),
        vec![
            Task { start: 0, end: 10, thread: 0, label: "main_task" },
            Task { start: 10, end: 50, thread: 0, label: "a" },
            Task { start: 10, end: 80, thread: 1, label: "b" },
            Task { start: 90, end: 100, thread: 0, label: "main_task" },
        ]
    );
}

#[test]
fn idle_times_lie_between_the_tasks_of_a_thread() {
    let spans: HashMap<u64, Span> = vec![
        span(1, None, 0, 100, "main_task", 0),
        span(2, Some(1), 10, 90, "parallel", 0),
        span(3, Some(2), 10, 50, "a", 0),
        span(4, Some(2), 20, 80, "b", 1),
        span(5, Some(4), 30, 40, "c", 1),
    ]
    .into_iter()
    .collect();
    let graph = Graph::new(&spans).unwrap();
    assert_eq!(graph.idle_times(0), Ok(vec![(50, 90)]));
    assert_eq!(graph.idle_times(1), Ok(vec![(0, 20), (80, 100)]));
    assert_eq!(graph.idle_times(2), Ok(vec![(0, 100)]));
}

#[test]
fn tasks_of_a_thread_that_overlap_have_no_idle_times() {
    let spans: HashMap<u64, Span> = vec![
        span(1, None, 0, 100, "main_task", 0),
        span(2, Some(1), 10, 90, "parallel", 0),
        span(3, Some(2), 10, 50, "a", 1),
        span(4, Some(2), 20, 80, "b", 1),
    ]
    .into_iter()
    .collect();
    let graph = Graph::new(&spans).unwrap();
    assert_eq!(graph.idle_times(1), Err(LayoutError::NegativeGap));
    assert_eq!(graph.idle_times(0), Ok(vec![(10, 90)]));
}

#[test]
fn new_from_children_keeps_the_children_as_given() {
    let mut first = Node::new_from_task(Task { start: 0, end: 3, thread: 0, label: "a" });
    first.position = [7, 9];
    let second = Node::new_from_task(Task { start: 1, end: 2, thread: 1, label: "b" });
    for is_parallel in [true, false] {
        let row = vec![copy_of_leaf(&first), copy_of_leaf(&second)];
        let node = Node::new_from_children(row, is_parallel).unwrap();
        assert_eq!(node.is_parallel, is_parallel);
        assert_eq!(node.position, [0, 0]);
        let kept = children(&node);
        assert_eq!(kept.len(), 2);
        assert_eq!(task(&kept[0]), Task { start: 0, end: 3, thread: 0, label: "a" });
        assert_eq!(kept[0].position, [7, 9]);
        assert_eq!(kept[0].size, [3, 1]);
        assert_eq!(task(&kept[1]), Task { start: 1, end: 2, thread: 1, label: "b" });
        assert_eq!(kept[1].position, [0, 0]);
    }
}

fn copy_of_leaf(node: &Node) -> Node {
    Node {
        children: Content::Task(task(node)),
        is_parallel: node.is_parallel,
        size: node.size,
        position: node.position,
    }
}
