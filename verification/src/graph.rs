//! The diagram of a set of spans: a tree of nodes laid out side by side or one
//! below the other, and its sizes and positions.
//!
//! Sizes are counted in raw units: time along the first axis, depth along the
//! second. Positions are counted in halves of these units, so that centring a
//! node needs no division. A renderer turns both into its own units by the two
//! scales of the graph.
use crate::children::{children_of, index_children, indexes, sorted_children, span_ids};
use crate::spans::Span;
use crate::text::same_text;
use itertools::Itertools;
use std::collections::HashMap;
use vstd::prelude::*;

verus! {

/// The width of the drawing, in the renderer's units.
pub const SVG_WIDTH: u128 = 1920;

/// The height of the drawing, in the renderer's units.
pub const SVG_HEIGHT: u128 = 1080;

/// The name of the one span that has no parent.
pub const ROOT_NAME: &'static str = "main_task";

/// The name of the spans whose children are laid out side by side.
pub const PARALLEL_NAME: &'static str = "parallel";

/// Why a set of spans cannot be laid out.
#[derive(Clone, Copy, Debug, PartialEq, Eq, Structural)]
pub enum LayoutError {
    /// The spans without a parent are not exactly one.
    RootCount,
    /// The span without a parent does not bear the root's name.
    RootName,
    /// In the order of their names and starts, the children of a span that is
    /// laid out in sequence overlap, or leave the time of their parent.
    NegativeGap,
    /// A span ends before it starts.
    NegativeDuration,
    /// A size does not fit the integers that hold it.
    SizeOverflow,
    /// The root takes no time at all, so that nothing can be scaled to it.
    ZeroDuration,
}

/// A stretch of work on one thread.
#[derive(Clone, Copy, Debug, PartialEq, Eq)]
pub struct Task {
    pub start: u128,
    pub end: u128,
    pub thread: usize,
    pub label: &'static str,
}

/// What a node holds: the nodes below it, or one task.
pub enum Content {
    Children(Vec<Node>),
    Task(Task),
}

/// A node of the diagram.
pub struct Node {
    pub children: Content,
    pub is_parallel: bool,
    /// Width and height, in raw units.
    pub size: [u128; 2],
    /// Left and top, in halves of a raw unit.
    pub position: [u128; 2],
}

/// What a shape holds.
#[verifier::ext_equal]
pub enum ShapeContent {
    Children(Seq<Shape>),
    Task(Task),
}

/// A node without its position.
#[verifier::ext_equal]
pub struct Shape {
    pub content: ShapeContent,
    pub is_parallel: bool,
    pub width: u128,
    pub height: u128,
}

/// The shape of a node; the view of `Node`.
pub open spec fn shape_of(node: Node) -> Shape
    decreases node,
{
    Shape {
        content: match node.children {
            Content::Task(task) => ShapeContent::Task(task),
            Content::Children(nodes) => ShapeContent::Children(
                Seq::new(
                    nodes@.len(),
                    |i: int|
                        if 0 <= i < nodes@.len() {
                            shape_of(nodes@[i])
                        } else {
                            arbitrary()
                        },
                ),
            ),
        },
        is_parallel: node.is_parallel,
        width: node.size[0],
        height: node.size[1],
    }
}

impl View for Node {
    type V = Shape;

    open spec fn view(&self) -> Shape {
        shape_of(*self)
    }
}

/// The shapes of a row of nodes.
pub open spec fn shapes_of(nodes: Seq<Node>) -> Seq<Shape> {
    Seq::new(nodes.len(), |i: int| nodes[i]@)
}

/// The sum of the values.
pub open spec fn sum(values: Seq<u128>) -> int
    decreases values.len(),
{
    if values.len() == 0 {
        0
    } else {
        sum(values.drop_last()) + values.last()
    }
}

/// The largest of the values, and 0 where there is none.
pub open spec fn largest(values: Seq<u128>) -> int
    decreases values.len(),
{
    if values.len() == 0 {
        0
    } else if largest(values.drop_last()) >= values.last() {
        largest(values.drop_last())
    } else {
        values.last() as int
    }
}

pub open spec fn widths(shapes: Seq<Shape>) -> Seq<u128> {
    Seq::new(shapes.len(), |i: int| shapes[i].width)
}

pub open spec fn heights(shapes: Seq<Shape>) -> Seq<u128> {
    Seq::new(shapes.len(), |i: int| shapes[i].height)
}

/// The width of a node over `children`: their sum side by side, the largest
/// in sequence.
pub open spec fn group_width(children: Seq<Shape>, is_parallel: bool) -> int {
    if is_parallel {
        sum(widths(children))
    } else {
        largest(widths(children))
    }
}

/// The height of a node over `children`: the largest side by side, their sum
/// in sequence.
pub open spec fn group_height(children: Seq<Shape>, is_parallel: bool) -> int {
    if is_parallel {
        largest(heights(children))
    } else {
        sum(heights(children))
    }
}

/// The node over `children`, if its size fits.
pub open spec fn group(children: Seq<Shape>, is_parallel: bool) -> Result<Shape, LayoutError> {
    if group_width(children, is_parallel) > u128::MAX || group_height(children, is_parallel)
        > u128::MAX {
        Err(LayoutError::SizeOverflow)
    } else {
        Ok(
            Shape {
                content: ShapeContent::Children(children),
                is_parallel,
                width: group_width(children, is_parallel) as u128,
                height: group_height(children, is_parallel) as u128,
            },
        )
    }
}

/// The node of one task: as wide as the task is long, and one unit high.
pub open spec fn leaf(task: Task) -> Shape {
    Shape {
        content: ShapeContent::Task(task),
        is_parallel: false,
        width: (task.end - task.start) as u128,
        height: 1,
    }
}

/// A sum is no less than the sum of a part of it from the front.
proof fn lemma_sum_grows(values: Seq<u128>, n: int)
    requires
        0 <= n <= values.len(),
    ensures
        sum(values.take(n)) <= sum(values),
    decreases values.len() - n,
{
    if n < values.len() {
        assert(values.take(n + 1).drop_last() == values.take(n));
        lemma_sum_grows(values, n + 1);
    } else {
        assert(values.take(n) == values);
    }
}

impl Node {
    /// The node over `children`, laid out side by side or in sequence. It
    /// holds the children as they are given, in their order, and stands at
    /// the origin.
    pub fn new_from_children(children: Vec<Node>, is_parallel: bool) -> (outcome: Result<
        Node,
        LayoutError,
    >)
        ensures
            match group(shapes_of(children@), is_parallel) {
                Ok(shape) => {
                    &&& outcome matches Ok(node)
                    &&& node@ == shape
                    &&& node.children matches Content::Children(kept)
                    &&& kept@ == children@
                    &&& node.is_parallel == is_parallel
                    &&& node.size[0] == group_width(shapes_of(children@), is_parallel)
                    &&& node.size[1] == group_height(shapes_of(children@), is_parallel)
                    &&& node.position[0] == 0
                    &&& node.position[1] == 0
                },
                Err(error) => outcome matches Err(found) && found == error,
            },
    {
        let ghost shapes = shapes_of(children@);
        let mut width: u128 = 0;
        let mut height: u128 = 0;
        let mut i: usize = 0;
        assert(widths(shapes).take(0) == Seq::<u128>::empty());
        assert(heights(shapes).take(0) == Seq::<u128>::empty());
        while i < children.len()
            invariant
                i <= children@.len(),
                shapes == shapes_of(children@),
                is_parallel ==> width == sum(widths(shapes).take(i as int)) && height == largest(
                    heights(shapes).take(i as int),
                ),
                !is_parallel ==> width == largest(widths(shapes).take(i as int)) && height == sum(
                    heights(shapes).take(i as int),
                ),
            decreases children@.len() - i,
        {
            let child_width = children[i].size[0];
            let child_height = children[i].size[1];
            proof {
                assert(widths(shapes).take(i + 1).drop_last() == widths(shapes).take(i as int));
                assert(heights(shapes).take(i + 1).drop_last() == heights(shapes).take(i as int));
                assert(widths(shapes).take(i + 1).last() == child_width);
                assert(heights(shapes).take(i + 1).last() == child_height);
                lemma_sum_grows(widths(shapes), i + 1);
                lemma_sum_grows(heights(shapes), i + 1);
            }
            if is_parallel {
                width = match width.checked_add(child_width) {
                    Some(total) => total,
                    None => {
                        return Err(LayoutError::SizeOverflow);
                    },
                };
                if child_height > height {
                    height = child_height;
                }
            } else {
                if child_width > width {
                    width = child_width;
                }
                height = match height.checked_add(child_height) {
                    Some(total) => total,
                    None => {
                        return Err(LayoutError::SizeOverflow);
                    },
                };
            }
            i += 1;
        }
        proof {
            assert(widths(shapes).take(i as int) == widths(shapes));
            assert(heights(shapes).take(i as int) == heights(shapes));
        }
        let node = Node {
            children: Content::Children(children),
            is_parallel,
            size: [width, height],
            position: [0, 0],
        };
        assert(node@.content matches ShapeContent::Children(below) && below =~= shapes);
        Ok(node)
    }

    /// The node of one task that does not end before it starts.
    pub fn new_from_task(task: Task) -> (node: Node)
        requires
            task.start <= task.end,
        ensures
            node@ == leaf(task),
            node.children == Content::Task(task),
            node.position[0] == 0,
            node.position[1] == 0,
    {
        let width = task.end - task.start;
        Node { children: Content::Task(task), is_parallel: false, size: [width, 1], position: [0, 0] }
    }
}

/// The two rows taken in turn, `first` giving the first item; when one row
/// is exhausted, the rest of the other follows.
pub open spec fn interleaved<T>(first: Seq<T>, second: Seq<T>) -> Seq<T>
    decreases first.len() + second.len(),
{
    if first.len() == 0 {
        second
    } else {
        seq![first[0]] + interleaved(second, first.skip(1))
    }
}

/// itertools' `interleave`, on two rows of nodes: the nodes of the two rows
/// in turn, starting with `first`, and the rest of the longer row at the end.
#[verifier::external_body]
fn interleave_nodes(first: Vec<Node>, second: Vec<Node>) -> (woven: Vec<Node>)
    ensures
        woven@ == interleaved(first@, second@),
{
    first.into_iter().interleave(second).collect()
}

/// itertools' `tuple_windows`, for pairs: each item with the one that follows
/// it, in order.
#[verifier::external_body]
pub(crate) fn pair_windows(times: Vec<(u128, u128)>) -> (pairs: Vec<((u128, u128), (u128, u128))>)
    ensures
        pairs@.len() == (if times@.len() == 0 {
            0
        } else {
            times@.len() - 1
        }),
        forall|i: int| 0 <= i < pairs@.len() ==> #[trigger] pairs@[i] == (times@[i], times@[i + 1]),
{
    times.into_iter().tuple_windows().collect()
}

/// The stretches of time that a span and its children mark: from nowhere to
/// the span's start, each child from its start to its end, and from the
/// span's end to nowhere.
pub open spec fn times(span: Span, spans: Map<u64, Span>, children: Seq<u64>) -> Seq<(u128, u128)> {
    seq![(0u128, span.start)] + Seq::new(
        children.len(),
        |i: int| (spans[children[i]].start, spans[children[i]].end),
    ) + seq![(span.end, 0u128)]
}

/// What lies between each stretch and the next: from the end of the one to
/// the start of the other.
pub open spec fn gaps(times: Seq<(u128, u128)>) -> Seq<(u128, u128)> {
    Seq::new((times.len() - 1) as nat, |i: int| (times[i].1, times[i + 1].0))
}

/// Whether no gap ends before it starts.
pub open spec fn in_order(gaps: Seq<(u128, u128)>) -> bool {
    forall|i: int| 0 <= i < gaps.len() ==> (#[trigger] gaps[i]).0 <= gaps[i].1
}

/// The task that stands for the time that `span` spends in the gap.
pub open spec fn gap_task(span: Span, gap: (u128, u128)) -> Task {
    Task { start: gap.0, end: gap.1, thread: span.execution_thread, label: span.name }
}

/// The nodes of the gaps of `span`.
pub open spec fn gap_leaves(span: Span, gaps: Seq<(u128, u128)>) -> Seq<Shape> {
    Seq::new(gaps.len(), |i: int| leaf(gap_task(span, gaps[i])))
}

/// The diagram of the span `id` and of what is below it, down to `depth`
/// levels; below these, a node is empty. No span has more levels below it
/// than there are spans.
///
/// A span named `parallel` has its children side by side. Any other span has
/// its children in sequence, with a task of its own before the first, between
/// each and the next, and after the last.
pub open spec fn subgraph(spans: Map<u64, Span>, id: u64, depth: nat) -> Result<Shape, LayoutError>
    decreases depth, 0nat, 0nat,
{
    if depth == 0 {
        group(Seq::empty(), false)
    } else {
        let span = spans[id];
        let children = children_of(spans, id);
        let gaps = gaps(times(span, spans, children));
        if span.name@ != PARALLEL_NAME@ && !in_order(gaps) {
            Err(LayoutError::NegativeGap)
        } else {
            match subgraphs(spans, children, (depth - 1) as nat) {
                Err(error) => Err(error),
                Ok(below) => if span.name@ == PARALLEL_NAME@ {
                    group(below, true)
                } else {
                    group(interleaved(gap_leaves(span, gaps), below), false)
                },
            }
        }
    }
}

/// The diagrams of the spans `ids`, each down to `depth` levels.
pub open spec fn subgraphs(spans: Map<u64, Span>, ids: Seq<u64>, depth: nat) -> Result<
    Seq<Shape>,
    LayoutError,
>
    decreases depth, 1nat, ids.len(),
{
    if ids.len() == 0 {
        Ok(Seq::empty())
    } else {
        match subgraphs(spans, ids.drop_last(), depth) {
            Err(error) => Err(error),
            Ok(before) => match subgraph(spans, ids.last(), depth) {
                Err(error) => Err(error),
                Ok(shape) => Ok(before.push(shape)),
            },
        }
    }
}

/// Once the first diagrams have gone wrong, more spans do not mend them.
proof fn lemma_subgraphs_error_stays(spans: Map<u64, Span>, ids: Seq<u64>, depth: nat, n: int)
    requires
        0 <= n <= ids.len(),
        subgraphs(spans, ids.take(n), depth) is Err,
    ensures
        subgraphs(spans, ids, depth) == subgraphs(spans, ids.take(n), depth),
    decreases ids.len() - n,
{
    if n < ids.len() {
        assert(ids.take(n + 1).drop_last() == ids.take(n));
        lemma_subgraphs_error_stays(spans, ids, depth, n + 1);
    } else {
        assert(ids.take(n) == ids);
    }
}

/// The shapes of two rows taken in turn are the shapes of the rows, taken in
/// turn.
proof fn lemma_shapes_interleaved(first: Seq<Node>, second: Seq<Node>)
    ensures
        shapes_of(interleaved(first, second)) == interleaved(shapes_of(first), shapes_of(second)),
    decreases first.len() + second.len(),
{
    if first.len() == 0 {
        assert(shapes_of(first) =~= Seq::<Shape>::empty());
    } else {
        lemma_shapes_interleaved(second, first.skip(1));
        assert(shapes_of(first).skip(1) =~= shapes_of(first.skip(1)));
        assert(shapes_of(seq![first[0]] + interleaved(second, first.skip(1))) =~= seq![
            first[0]@,
        ] + shapes_of(interleaved(second, first.skip(1))));
    }
}

/// Whether `path` leads from a span without a parent down to a span, each
/// span the parent of the next.
pub open spec fn is_descent(spans: Map<u64, Span>, path: Seq<u64>) -> bool {
    &&& path.len() > 0
    &&& forall|i: int| 0 <= i < path.len() ==> spans.contains_key(#[trigger] path[i])
    &&& spans[path[0]].parent is None
    &&& forall|i: int| 0 < i < path.len() ==> spans[#[trigger] path[i]].parent == Some(path[i - 1])
}

/// No span is met twice on the way down from a span without a parent.
proof fn lemma_descent_distinct(spans: Map<u64, Span>, path: Seq<u64>, i: int, j: int)
    requires
        is_descent(spans, path),
        0 <= i < j < path.len(),
    ensures
        path[i] != path[j],
    decreases i,
{
    if i > 0 && path[i] == path[j] {
        lemma_descent_distinct(spans, path, i - 1, j - 1);
    }
}

/// The way down from a span without a parent is no longer than there are
/// spans.
proof fn lemma_descent_bounded(spans: Map<u64, Span>, path: Seq<u64>)
    requires
        is_descent(spans, path),
        spans.dom().finite(),
    ensures
        path.len() <= spans.dom().len(),
{
    assert(path.no_duplicates()) by {
        assert forall|i: int, j: int| 0 <= i < path.len() && 0 <= j < path.len() && i != j implies path[i]
            != path[j] by {
            if i < j {
                lemma_descent_distinct(spans, path, i, j);
            } else {
                lemma_descent_distinct(spans, path, j, i);
            }
        }
    }
    path.unique_seq_to_set();
    assert(path.to_set().subset_of(spans.dom())) by {
        assert forall|id: u64| path.to_set().contains(id) implies spans.dom().contains(id) by {
            let i = choose|i: int| 0 <= i < path.len() && path[i] == id;
            assert(spans.contains_key(path[i]));
        }
    }
    vstd::set_lib::lemma_len_subset(path.to_set(), spans.dom());
}

/// How many levels a span at the end of `path` can have below it, itself
/// counted.
pub open spec fn levels_left(spans: Map<u64, Span>, path: Seq<u64>) -> nat {
    (spans.dom().len() + 1 - path.len()) as nat
}

/// The diagram of the span `root_id` and of what is below it; `index` gives
/// the children of each span, and `path` is the way down to `root_id`.
#[verifier::loop_isolation(false)]
pub(crate) fn build_graph(
    root_id: u64,
    index: &HashMap<u64, Vec<u64>>,
    spans: &HashMap<u64, Span>,
    Ghost(path): Ghost<Seq<u64>>,
) -> (outcome: Result<Node, LayoutError>)
    requires
        indexes(index@, spans@, spans@.dom()),
        is_descent(spans@, path),
        path.last() == root_id,
    ensures
        match subgraph(spans@, root_id, levels_left(spans@, path)) {
            Ok(shape) => outcome matches Ok(node) && node@ == shape && node.position[0] == 0
                && node.position[1] == 0,
            Err(error) => outcome matches Err(found) && found == error,
        },
    decreases spans@.dom().len() - path.len(),
{
    broadcast use vstd::std_specs::hash::group_hash_axioms;

    let ghost depth = levels_left(spans@, path);
    proof {
        lemma_descent_bounded(spans@, path);
        assert(spans@.contains_key(path[path.len() - 1]));
    }
    let span = *spans.get(&root_id).unwrap();
    let children = sorted_children(root_id, index, spans);
    let is_parallel = same_text(span.name, PARALLEL_NAME);
    let ghost gaps = gaps(times(span, spans@, children@));
    let mut tasks: Vec<Node> = Vec::new();
    if !is_parallel {
        let mut all_times: Vec<(u128, u128)> = Vec::new();
        all_times.push((0, span.start));
        let mut i: usize = 0;
        while i < children.len()
            invariant
                i <= children@.len(),
                forall|k: int| 0 <= k < children@.len() ==> spans@.contains_key(#[trigger] children@[k]),
                all_times@ == seq![(0u128, span.start)] + Seq::new(
                    i as nat,
                    |k: int| (spans@[children@[k]].start, spans@[children@[k]].end),
                ),
            decreases children@.len() - i,
        {
            let child = *spans.get(&children[i]).unwrap();
            all_times.push((child.start, child.end));
            i += 1;
        }
        all_times.push((span.end, 0));
        assert(all_times@ == times(span, spans@, children@));
        let windows = pair_windows(all_times);
        assert(windows@.len() == gaps.len());
        let mut i: usize = 0;
        while i < windows.len()
            invariant
                i <= windows@.len(),
                windows@.len() == gaps.len(),
                forall|k: int|
                    0 <= k < gaps.len() ==> (#[trigger] windows@[k]).0.1 == gaps[k].0 && windows@[k].1.0
                        == gaps[k].1,
                forall|k: int| 0 <= k < i ==> (#[trigger] gaps[k]).0 <= gaps[k].1,
                shapes_of(tasks@) == gap_leaves(span, gaps.take(i as int)),
            decreases windows@.len() - i,
        {
            let (before, after) = windows[i];
            let start = before.1;
            let end = after.0;
            if end < start {
                assert(!in_order(gaps));
                return Err(LayoutError::NegativeGap);
            }
            let task = Task { start, end, thread: span.execution_thread, label: span.name };
            let ghost row = tasks@;
            tasks.push(Node::new_from_task(task));
            i += 1;
            assert(shapes_of(tasks@) =~= shapes_of(row).push(leaf(task)));
            assert(gap_leaves(span, gaps.take(i as int)) =~= gap_leaves(
                span,
                gaps.take(i - 1),
            ).push(leaf(gap_task(span, gaps[i - 1]))));
        }
        assert(gaps.take(i as int) == gaps);
        assert(in_order(gaps));
    }
    let mut below: Vec<Node> = Vec::new();
    let mut i: usize = 0;
    assert(children@.take(0) == Seq::<u64>::empty());
    assert(shapes_of(below@) =~= Seq::<Shape>::empty());
    while i < children.len()
        invariant
            i <= children@.len(),
            depth > 0,
            depth == levels_left(spans@, path),
            is_descent(spans@, path),
            path.last() == root_id,
            path.len() <= spans@.dom().len(),
            indexes(index@, spans@, spans@.dom()),
            forall|k: int| 0 <= k < children@.len() ==> spans@.contains_key(#[trigger] children@[k]),
            subgraphs(spans@, children@.take(i as int), (depth - 1) as nat) == Ok::<
                Seq<Shape>,
                LayoutError,
            >(shapes_of(below@)),
        decreases children@.len() - i,
    {
        assert(children@.take(i + 1).drop_last() == children@.take(i as int));
        assert(children@.take(i + 1).last() == children@[i as int]);
        let ghost deeper = path.push(children@[i as int]);
        proof {
            assert(children@.contains(children@[i as int]));
            assert(crate::children::is_child(spans@, children@[i as int], root_id));
            assert(is_descent(spans@, deeper)) by {
                assert forall|k: int| 0 <= k < deeper.len() implies spans@.contains_key(
                    #[trigger] deeper[k],
                ) by {
                    if k < path.len() {
                        assert(deeper[k] == path[k]);
                    }
                }
                assert forall|k: int| 0 < k < deeper.len() implies spans@[#[trigger] deeper[k]].parent
                    == Some(deeper[k - 1]) by {
                    if k < path.len() {
                        assert(deeper[k] == path[k] && deeper[k - 1] == path[k - 1]);
                    }
                }
                assert(deeper[0] == path[0]);
            }
            lemma_descent_bounded(spans@, deeper);
        }
        match build_graph(children[i], index, spans, Ghost(deeper)) {
            Ok(node) => {
                let ghost row = below@;
                below.push(node);
                assert(shapes_of(below@) =~= shapes_of(row).push(node@));
            },
            Err(error) => {
                proof {
                    lemma_subgraphs_error_stays(spans@, children@, (depth - 1) as nat, i + 1);
                }
                return Err(error);
            },
        }
        i += 1;
    }
    assert(children@.take(i as int) == children@);
    if is_parallel {
        Node::new_from_children(below, true)
    } else {
        proof {
            lemma_shapes_interleaved(tasks@, below@);
        }
        Node::new_from_children(interleave_nodes(tasks, below), false)
    }
}

/// Whether every node over other nodes is as large as `group` makes it.
pub open spec fn consistent(shape: Shape) -> bool
    decreases shape,
{
    match shape.content {
        ShapeContent::Task(task) => true,
        ShapeContent::Children(children) => {
            &&& shape.width == group_width(children, shape.is_parallel)
            &&& shape.height == group_height(children, shape.is_parallel)
            &&& forall|i: int| 0 <= i < children.len() ==> consistent(#[trigger] children[i])
        },
    }
}

/// The left edge of the child `i` of `parent`, in halves of a raw unit: side
/// by side, each child follows the one before it; in sequence, each is
/// centred in the width of its parent.
pub open spec fn child_left(parent: Node, children: Seq<Node>, i: int) -> int {
    if parent.is_parallel {
        parent.position[0] + 2 * sum(widths(shapes_of(children)).take(i))
    } else {
        parent.position[0] + parent.size[0] - children[i].size[0]
    }
}

/// The top edge of the child `i` of `parent`, in halves of a raw unit: side
/// by side, each child is centred in the height of its parent; in sequence,
/// each follows the one before it.
pub open spec fn child_top(parent: Node, children: Seq<Node>, i: int) -> int {
    if parent.is_parallel {
        parent.position[1] + parent.size[1] - children[i].size[1]
    } else {
        parent.position[1] + 2 * sum(heights(shapes_of(children)).take(i))
    }
}

/// Whether every node below `node` stands where its parent puts it.
pub open spec fn placed(node: Node) -> bool
    decreases node,
{
    match node.children {
        Content::Task(task) => true,
        Content::Children(children) => forall|i: int|
            0 <= i < children@.len() ==> {
                &&& (#[trigger] children@[i]).position[0] == child_left(node, children@, i)
                &&& children@[i].position[1] == child_top(node, children@, i)
                &&& placed(children@[i])
            },
    }
}

/// Neither a sum nor a largest value is below 0.
proof fn lemma_not_negative(values: Seq<u128>)
    ensures
        sum(values) >= 0,
        largest(values) >= 0,
    decreases values.len(),
{
    if values.len() > 0 {
        lemma_not_negative(values.drop_last());
    }
}

/// The largest of the values is no less than any of them.
proof fn lemma_largest_bounds(values: Seq<u128>, i: int)
    requires
        0 <= i < values.len(),
    ensures
        values[i] <= largest(values),
    decreases values.len(),
{
    if i < values.len() - 1 {
        lemma_largest_bounds(values.drop_last(), i);
    }
}

impl Node {
    /// Puts every node below this one in its place, this one staying where it
    /// is.
    fn compute_positions(&mut self)
        requires
            consistent(old(self)@),
            old(self).position[0] + 2 * old(self).size[0] <= u128::MAX,
            old(self).position[1] + 2 * old(self).size[1] <= u128::MAX,
        ensures
            final(self)@ == old(self)@,
            final(self).position == old(self).position,
            placed(*final(self)),
        decreases old(self)@,
    {
        let left = self.position[0];
        let top = self.position[1];
        let width = self.size[0];
        let height = self.size[1];
        let is_parallel = self.is_parallel;
        let ghost shape = self@;
        match &mut self.children {
            Content::Task(_) => {},
            Content::Children(children) => {
                let ghost before = children@;
                let ghost shapes = shapes_of(before);
                assert(shape.content matches ShapeContent::Children(below) && below =~= shapes);
                let mut i: usize = 0;
                let mut offset: u128 = 0;
                assert(widths(shapes).take(0) == Seq::<u128>::empty());
                assert(heights(shapes).take(0) == Seq::<u128>::empty());
                while i < children.len()
                    invariant
                        i <= children@.len(),
                        children@.len() == before.len(),
                        shapes == shapes_of(before),
                        shape == old(self)@,
                        shape.content == ShapeContent::Children(shapes),
                        shape.is_parallel == is_parallel,
                        shape.width == width,
                        shape.height == height,
                        consistent(shape),
                        left + 2 * width <= u128::MAX,
                        top + 2 * height <= u128::MAX,
                        forall|k: int| 0 <= k < before.len() ==> (#[trigger] children@[k])@ == shapes[k],
                        forall|k: int| i <= k < before.len() ==> #[trigger] children@[k] == before[k],
                        is_parallel ==> offset == 2 * sum(widths(shapes).take(i as int)),
                        !is_parallel ==> offset == 2 * sum(heights(shapes).take(i as int)),
                        forall|k: int|
                            0 <= k < i ==> {
                                &&& placed(#[trigger] children@[k])
                                &&& is_parallel ==> children@[k].position[0] == left + 2 * sum(
                                    widths(shapes).take(k),
                                ) && children@[k].position[1] == top + height - shapes[k].height
                                &&& !is_parallel ==> children@[k].position[0] == left + width
                                    - shapes[k].width && children@[k].position[1] == top + 2 * sum(
                                    heights(shapes).take(k),
                                )
                            },
                    decreases children@.len() - i,
                {
                    let ghost row = children@;
                    let child = &mut children[i];
                    proof {
                        assert(child@ == shapes[i as int]);
                        assert(widths(shapes).take(i + 1).drop_last() == widths(shapes).take(
                            i as int,
                        ));
                        assert(heights(shapes).take(i + 1).drop_last() == heights(shapes).take(
                            i as int,
                        ));
                        assert(widths(shapes).take(i + 1).last() == child.size[0]);
                        assert(heights(shapes).take(i + 1).last() == child.size[1]);
                        lemma_sum_grows(widths(shapes), i + 1);
                        lemma_sum_grows(heights(shapes), i + 1);
                        lemma_largest_bounds(widths(shapes), i as int);
                        lemma_largest_bounds(heights(shapes), i as int);
                    }
                    if is_parallel {
                        child.position = [left + offset, top + (height - child.size[1])];
                        offset = offset + 2 * child.size[0];
                    } else {
                        child.position = [left + (width - child.size[0]), top + offset];
                        offset = offset + 2 * child.size[1];
                    }
                    assert(child@ == shapes[i as int]);
                    assert(decreases_to!(shape => shape.content->Children_0[i as int]));
                    child.compute_positions();
                    i += 1;
                }
            },
        }
        proof {
            match &self.children {
                Content::Task(_) => {},
                Content::Children(children) => {
                    assert(self@.content matches ShapeContent::Children(below) && below
                        =~= shapes_of(children@));
                    assert(shapes_of(children@) =~= shape.content->Children_0);
                    assert(widths(shapes_of(children@)) =~= widths(shape.content->Children_0));
                },
            }
        }
    }
}

/// How many raw units stand for how many of the renderer's units.
#[derive(Clone, Copy, Debug, PartialEq, Eq, Structural)]
pub struct Scale {
    pub units: u128,
    pub pixels: u128,
}

/// The diagram of a set of spans, laid out.
pub struct Graph {
    pub root: Node,
    /// The earliest start of a span.
    pub start: u128,
    /// The latest end of a span.
    pub end: u128,
    /// One more than the highest ordinal of a thread that ran a span.
    pub threads_number: usize,
    /// The width of the root, for the width of the drawing.
    pub x_scale: Scale,
    /// The height of the root and one unit for each thread, for the height of
    /// the drawing.
    pub y_scale: Scale,
}

/// The spans that have no parent.
pub open spec fn roots_of(spans: Map<u64, Span>) -> Set<u64> {
    Set::new(|id: u64| spans.contains_key(id) && spans[id].parent is None)
}

/// Whether `count` is one more than the highest thread that ran a span.
pub open spec fn is_thread_count(spans: Map<u64, Span>, count: int) -> bool {
    &&& forall|id: u64| #[trigger] spans.contains_key(id) ==> spans[id].execution_thread < count
    &&& exists|id: u64| #[trigger] spans.contains_key(id) && spans[id].execution_thread + 1 == count
}

/// One more than the highest thread that ran a span.
pub open spec fn thread_count(spans: Map<u64, Span>) -> int {
    choose|count: int| is_thread_count(spans, count)
}

/// Whether `time` is the earliest start of a span.
pub open spec fn is_earliest_start(spans: Map<u64, Span>, time: u128) -> bool {
    &&& forall|id: u64| #[trigger] spans.contains_key(id) ==> spans[id].start >= time
    &&& exists|id: u64| #[trigger] spans.contains_key(id) && spans[id].start == time
}

/// Whether `time` is the latest end of a span.
pub open spec fn is_latest_end(spans: Map<u64, Span>, time: u128) -> bool {
    &&& forall|id: u64| #[trigger] spans.contains_key(id) ==> spans[id].end <= time
    &&& exists|id: u64| #[trigger] spans.contains_key(id) && spans[id].end == time
}

/// Whether positions in halves of a unit fit for a diagram of this shape with
/// room for `threads` threads below it.
pub open spec fn fits(shape: Shape, threads: int) -> bool {
    &&& 2 * shape.width <= u128::MAX
    &&& 2 * (shape.height + threads) <= u128::MAX
    &&& threads <= usize::MAX
}

/// The diagram of the spans: that of the one span without a parent, which is
/// named as the root is, and of all that is below it.
pub open spec fn layout(spans: Map<u64, Span>) -> Result<Shape, LayoutError> {
    if roots_of(spans).len() != 1 {
        Err(LayoutError::RootCount)
    } else if spans[roots_of(spans).choose()].name@ != ROOT_NAME@ {
        Err(LayoutError::RootName)
    } else {
        match subgraph(spans, roots_of(spans).choose(), spans.dom().len()) {
            Err(error) => Err(error),
            Ok(shape) => if !fits(shape, thread_count(spans)) {
                Err(LayoutError::SizeOverflow)
            } else if shape.width == 0 {
                Err(LayoutError::ZeroDuration)
            } else {
                Ok(shape)
            },
        }
    }
}

/// Two rows of consistent shapes taken in turn are consistent shapes.
proof fn lemma_interleaved_consistent(first: Seq<Shape>, second: Seq<Shape>)
    requires
        forall|i: int| 0 <= i < first.len() ==> consistent(#[trigger] first[i]),
        forall|i: int| 0 <= i < second.len() ==> consistent(#[trigger] second[i]),
    ensures
        forall|i: int|
            0 <= i < interleaved(first, second).len() ==> consistent(
                #[trigger] interleaved(first, second)[i],
            ),
    decreases first.len() + second.len(),
{
    if first.len() > 0 {
        let rest = first.skip(1);
        assert forall|i: int| 0 <= i < rest.len() implies consistent(#[trigger] rest[i]) by {
            assert(rest[i] == first[i + 1]);
        }
        lemma_interleaved_consistent(second, rest);
        let woven = interleaved(first, second);
        assert forall|i: int| 0 <= i < woven.len() implies consistent(#[trigger] woven[i]) by {
            if i == 0 {
                assert(woven[0] == first[0]);
            } else {
                assert(woven[i] == interleaved(second, rest)[i - 1]);
            }
        }
    }
}

/// Every diagram is consistent.
pub proof fn lemma_subgraph_consistent(spans: Map<u64, Span>, id: u64, depth: nat)
    ensures
        subgraph(spans, id, depth) matches Ok(shape) ==> consistent(shape),
    decreases depth, 0nat, 0nat,
{
    if depth > 0 {
        let span = spans[id];
        let children = children_of(spans, id);
        let gaps = gaps(times(span, spans, children));
        lemma_subgraphs_consistent(spans, children, (depth - 1) as nat);
        match subgraphs(spans, children, (depth - 1) as nat) {
            Ok(below) => {
                let leaves = gap_leaves(span, gaps);
                assert forall|i: int| 0 <= i < leaves.len() implies consistent(
                    #[trigger] leaves[i],
                ) by {}
                lemma_interleaved_consistent(leaves, below);
                if let Ok(shape) = subgraph(spans, id, depth) {
                    let row = if span.name@ == PARALLEL_NAME@ {
                        below
                    } else {
                        interleaved(leaves, below)
                    };
                    assert(shape.content == ShapeContent::Children(row));
                    assert forall|i: int| 0 <= i < row.len() implies consistent(
                        #[trigger] row[i],
                    ) by {}
                    lemma_not_negative(widths(row));
                    lemma_not_negative(heights(row));
                }
            },
            Err(_) => {},
        }
    }
}

/// Every diagram of a row is consistent.
pub proof fn lemma_subgraphs_consistent(spans: Map<u64, Span>, ids: Seq<u64>, depth: nat)
    ensures
        subgraphs(spans, ids, depth) matches Ok(shapes) ==> forall|i: int|
            0 <= i < shapes.len() ==> consistent(#[trigger] shapes[i]),
    decreases depth, 1nat, ids.len(),
{
    if ids.len() > 0 {
        lemma_subgraphs_consistent(spans, ids.drop_last(), depth);
        lemma_subgraph_consistent(spans, ids.last(), depth);
    }
}

/// A sum up to a place is no more than the sum up to a later place.
proof fn lemma_sum_ordered(values: Seq<u128>, i: int, j: int)
    requires
        0 <= i <= j <= values.len(),
    ensures
        sum(values.take(i)) <= sum(values.take(j)),
{
    assert(values.take(j).take(i) == values.take(i));
    lemma_sum_grows(values.take(j), i);
}

/// A node that is in its place lies inside its parent: neither further left
/// nor further up, and ending neither further right nor further down.
pub proof fn lemma_child_inside(parent: Node, i: int)
    requires
        placed(parent),
        consistent(parent@),
        parent.children is Children,
        0 <= i < parent.children->Children_0@.len(),
    ensures
        ({
            let child = parent.children->Children_0@[i];
            &&& parent.position[0] <= child.position[0]
            &&& child.position[0] + 2 * child.size[0] <= parent.position[0] + 2 * parent.size[0]
            &&& parent.position[1] <= child.position[1]
            &&& child.position[1] + 2 * child.size[1] <= parent.position[1] + 2 * parent.size[1]
        }),
{
    let children = parent.children->Children_0@;
    let shapes = shapes_of(children);
    assert(parent@.content matches ShapeContent::Children(below) && below =~= shapes);
    assert(children[i].position[0] == child_left(parent, children, i));
    assert(widths(shapes)[i] == children[i].size[0]);
    assert(heights(shapes)[i] == children[i].size[1]);
    assert(widths(shapes).take(i + 1).drop_last() == widths(shapes).take(i));
    assert(heights(shapes).take(i + 1).drop_last() == heights(shapes).take(i));
    lemma_sum_grows(widths(shapes), i + 1);
    lemma_sum_grows(heights(shapes), i + 1);
    lemma_not_negative(widths(shapes).take(i));
    lemma_not_negative(heights(shapes).take(i));
    lemma_largest_bounds(widths(shapes), i);
    lemma_largest_bounds(heights(shapes), i);
}

/// Of two nodes in their places under one parent, the earlier ends where the
/// later starts or before: to its left side by side, above it in sequence.
pub proof fn lemma_siblings_apart(parent: Node, i: int, j: int)
    requires
        placed(parent),
        parent.children is Children,
        0 <= i < j < parent.children->Children_0@.len(),
    ensures
        ({
            let first = parent.children->Children_0@[i];
            let second = parent.children->Children_0@[j];
            if parent.is_parallel {
                first.position[0] + 2 * first.size[0] <= second.position[0]
            } else {
                first.position[1] + 2 * first.size[1] <= second.position[1]
            }
        }),
{
    let children = parent.children->Children_0@;
    let shapes = shapes_of(children);
    assert(children[i].position[0] == child_left(parent, children, i));
    assert(children[j].position[0] == child_left(parent, children, j));
    assert(widths(shapes)[i] == children[i].size[0]);
    assert(heights(shapes)[i] == children[i].size[1]);
    assert(widths(shapes).take(i + 1).drop_last() == widths(shapes).take(i));
    assert(heights(shapes).take(i + 1).drop_last() == heights(shapes).take(i));
    lemma_sum_ordered(widths(shapes), i + 1, j);
    lemma_sum_ordered(heights(shapes), i + 1, j);
}

/// What a pass over the spans finds.
pub(crate) struct Survey {
    pub(crate) max_thread: usize,
    pub(crate) start: u128,
    pub(crate) end: u128,
    pub(crate) roots: Vec<u64>,
}

/// Looks at every span once.
pub(crate) fn survey(spans: &HashMap<u64, Span>, ids: &Vec<u64>) -> (found: Survey)
    requires
        ids@.no_duplicates(),
        forall|id: u64| ids@.contains(id) <==> spans@.contains_key(id),
    ensures
        found.roots@.no_duplicates(),
        forall|id: u64| found.roots@.contains(id) <==> roots_of(spans@).contains(id),
        ids@.len() > 0 ==> is_thread_count(spans@, found.max_thread + 1),
        ids@.len() > 0 ==> is_earliest_start(spans@, found.start),
        ids@.len() > 0 ==> is_latest_end(spans@, found.end),
        ids@.len() == 0 ==> found.max_thread == 0 && found.start == u128::MAX && found.end == 0,
{
    let mut max_thread: usize = 0;
    let mut start: u128 = u128::MAX;
    let mut end: u128 = 0;
    let mut roots: Vec<u64> = Vec::new();
    let mut k: usize = 0;
    while k < ids.len()
        invariant
            k <= ids@.len(),
            ids@.no_duplicates(),
            forall|id: u64| ids@.contains(id) <==> spans@.contains_key(id),
            roots@.no_duplicates(),
            forall|id: u64|
                roots@.contains(id) <==> (exists|j: int|
                    0 <= j < k && #[trigger] ids@[j] == id && spans@[id].parent is None),
            forall|j: int|
                0 <= j < k ==> {
                    &&& spans@[#[trigger] ids@[j]].execution_thread <= max_thread
                    &&& spans@[ids@[j]].start >= start
                    &&& spans@[ids@[j]].end <= end
                },
            k == 0 ==> max_thread == 0 && start == u128::MAX && end == 0,
            k > 0 ==> exists|j: int|
                0 <= j < k && spans@[#[trigger] ids@[j]].execution_thread == max_thread,
            k > 0 ==> exists|j: int| 0 <= j < k && spans@[#[trigger] ids@[j]].start == start,
            k > 0 ==> exists|j: int| 0 <= j < k && spans@[#[trigger] ids@[j]].end == end,
        decreases ids@.len() - k,
    {
        let id = ids[k];
        assert(ids@.contains(id));
        let span = *spans.get(&id).unwrap();
        let ghost thread_at = if k > 0 {
            choose|j: int| 0 <= j < k && spans@[#[trigger] ids@[j]].execution_thread == max_thread
        } else {
            0
        };
        let ghost start_at = if k > 0 {
            choose|j: int| 0 <= j < k && spans@[#[trigger] ids@[j]].start == start
        } else {
            0
        };
        let ghost end_at = if k > 0 {
            choose|j: int| 0 <= j < k && spans@[#[trigger] ids@[j]].end == end
        } else {
            0
        };
        let ghost old_roots = roots@;
        if span.execution_thread >= max_thread {
            max_thread = span.execution_thread;
            assert(spans@[ids@[k as int]].execution_thread == max_thread);
        } else {
            assert(spans@[ids@[thread_at]].execution_thread == max_thread);
        }
        if span.start <= start {
            start = span.start;
            assert(spans@[ids@[k as int]].start == start);
        } else {
            assert(spans@[ids@[start_at]].start == start);
        }
        if span.end >= end {
            end = span.end;
            assert(spans@[ids@[k as int]].end == end);
        } else {
            assert(spans@[ids@[end_at]].end == end);
        }
        if span.parent.is_none() {
            roots.push(id);
            proof {
                assert(!old_roots.contains(id)) by {
                    if old_roots.contains(id) {
                        let j = choose|j: int|
                            0 <= j < k && #[trigger] ids@[j] == id && spans@[id].parent is None;
                        assert(ids@[j] == ids@[k as int]);
                    }
                }
                assert(roots@[old_roots.len() as int] == id);
                assert forall|other: u64|
                    roots@.contains(other) <==> (exists|j: int|
                        0 <= j < k + 1 && #[trigger] ids@[j] == other && spans@[other].parent
                            is None) by {
                    if old_roots.contains(other) {
                        let at = choose|at: int| 0 <= at < old_roots.len() && old_roots[at] == other;
                        assert(roots@[at] == other);
                        let j = choose|j: int|
                            0 <= j < k && #[trigger] ids@[j] == other && spans@[other].parent
                                is None;
                        assert(0 <= j < k + 1 && ids@[j] == other);
                    }
                    if other == id {
                        assert(ids@[k as int] == other);
                    }
                    if exists|j: int|
                        0 <= j < k + 1 && #[trigger] ids@[j] == other && spans@[other].parent
                            is None {
                        let j = choose|j: int|
                            0 <= j < k + 1 && #[trigger] ids@[j] == other && spans@[other].parent
                                is None;
                        if j < k {
                            assert(old_roots.contains(other));
                        }
                    }
                    if roots@.contains(other) {
                        let at = choose|at: int| 0 <= at < roots@.len() && roots@[at] == other;
                        if at < old_roots.len() {
                            assert(old_roots[at] == other);
                        }
                    }
                }
            }
        } else {
            assert forall|other: u64|
                roots@.contains(other) <==> (exists|j: int|
                    0 <= j < k + 1 && #[trigger] ids@[j] == other && spans@[other].parent
                        is None) by {
                if roots@.contains(other) {
                    let j = choose|j: int|
                        0 <= j < k && #[trigger] ids@[j] == other && spans@[other].parent is None;
                    assert(0 <= j < k + 1 && ids@[j] == other);
                }
                if exists|j: int|
                    0 <= j < k + 1 && #[trigger] ids@[j] == other && spans@[other].parent is None {
                    let j = choose|j: int|
                        0 <= j < k + 1 && #[trigger] ids@[j] == other && spans@[other].parent
                            is None;
                    assert(j < k);
                }
            }
        }
        k += 1;
    }
    proof {
        assert forall|id: u64| roots@.contains(id) <==> roots_of(spans@).contains(id) by {
            if roots_of(spans@).contains(id) {
                assert(ids@.contains(id));
                let j = choose|j: int| 0 <= j < ids@.len() && ids@[j] == id;
                assert(ids@[j] == id);
            }
            if roots@.contains(id) {
                let j = choose|j: int|
                    0 <= j < k && #[trigger] ids@[j] == id && spans@[id].parent is None;
                assert(ids@.contains(ids@[j]));
            }
        }
        if ids@.len() > 0 {
            let a = choose|j: int|
                0 <= j < k && spans@[#[trigger] ids@[j]].execution_thread == max_thread;
            assert(spans@.contains_key(ids@[a])) by {
                assert(ids@.contains(ids@[a]));
            }
            let b = choose|j: int| 0 <= j < k && spans@[#[trigger] ids@[j]].start == start;
            assert(spans@.contains_key(ids@[b])) by {
                assert(ids@.contains(ids@[b]));
            }
            let c = choose|j: int| 0 <= j < k && spans@[#[trigger] ids@[j]].end == end;
            assert(spans@.contains_key(ids@[c])) by {
                assert(ids@.contains(ids@[c]));
            }
            assert forall|id: u64| #[trigger] spans@.contains_key(id) implies spans@[id].execution_thread
                < max_thread + 1 && spans@[id].start >= start && spans@[id].end <= end by {
                assert(ids@.contains(id));
                let j = choose|j: int| 0 <= j < ids@.len() && ids@[j] == id;
                assert(ids@[j] == id);
            }
        }
    }
    Survey { max_thread, start, end, roots }
}

impl Graph {
    /// Whether this is the diagram of `spans`, of the shape `shape`: the root
    /// at the origin, every node in its place, and the scales those that fit
    /// the root and one lane for each thread to the drawing.
    pub open spec fn depicts(self, spans: Map<u64, Span>, shape: Shape) -> bool {
        &&& self.root@ == shape
        &&& self.root.position[0] == 0
        &&& self.root.position[1] == 0
        &&& placed(self.root)
        &&& self.threads_number == thread_count(spans)
        &&& is_earliest_start(spans, self.start)
        &&& is_latest_end(spans, self.end)
        &&& self.x_scale == (Scale { units: shape.width, pixels: SVG_WIDTH })
        &&& self.y_scale == (Scale {
            units: (shape.height + thread_count(spans)) as u128,
            pixels: SVG_HEIGHT,
        })
    }

    /// Lays out the spans.
    pub fn new(spans: &HashMap<u64, Span>) -> (outcome: Result<Graph, LayoutError>)
        ensures
            match layout(spans@) {
                Ok(shape) => outcome matches Ok(graph) && graph.depicts(spans@, shape),
                Err(error) => outcome matches Err(found) && found == error,
            },
    {
        let ids = span_ids(spans);
        let Survey { max_thread, start, end, roots } = survey(spans, &ids);
        proof {
            roots@.unique_seq_to_set();
            assert(roots@.to_set() =~= roots_of(spans@));
        }
        if roots.len() != 1 {
            return Err(LayoutError::RootCount);
        }
        let root_id = roots[0];
        proof {
            assert(roots@.contains(root_id));
            assert(roots_of(spans@).contains(roots_of(spans@).choose()));
            let chosen = roots_of(spans@).choose();
            assert(roots@.contains(chosen));
            let at = choose|at: int| 0 <= at < roots@.len() && roots@[at] == chosen;
            assert(chosen == root_id);
            assert(ids@.len() > 0) by {
                assert(ids@.contains(root_id));
            }
            assert(thread_count(spans@) == max_thread + 1) by {
                let count = thread_count(spans@);
                assert(is_thread_count(spans@, max_thread + 1));
                assert(is_thread_count(spans@, count));
            }
        }
        let root_span = *spans.get(&root_id).unwrap();
        if !same_text(root_span.name, ROOT_NAME) {
            return Err(LayoutError::RootName);
        }
        let index = index_children(spans, &ids);
        let ghost top = Seq::<u64>::empty().push(root_id);
        let mut root = match build_graph(root_id, &index, spans, Ghost(top)) {
            Ok(root) => root,
            Err(error) => {
                return Err(error);
            },
        };
        let width = root.size[0];
        let height = root.size[1];
        if max_thread == usize::MAX || width > u128::MAX / 2 || height > u128::MAX / 2
            - max_thread as u128 - 1 {
            return Err(LayoutError::SizeOverflow);
        }
        if width == 0 {
            return Err(LayoutError::ZeroDuration);
        }
        let threads_number = max_thread + 1;
        root.position = [0, 0];
        proof {
            lemma_subgraph_consistent(spans@, root_id, ids@.len());
        }
        root.compute_positions();
        Ok(
            Graph {
                root,
                start,
                end,
                threads_number,
                x_scale: Scale { units: width, pixels: SVG_WIDTH },
                y_scale: Scale { units: height + threads_number as u128, pixels: SVG_HEIGHT },
            },
        )
    }
}

} // verus!
