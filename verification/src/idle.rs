//! The tasks of a diagram, and the time that a thread spends between them.
use crate::graph::{
    gaps, in_order, pair_windows, shapes_of, Content, Graph, LayoutError, Node, Shape,
    ShapeContent, Task,
};
use vstd::prelude::*;
use vstd::relations::{sorted_by, total_ordering};

verus! {

/// The rows one after the other.
pub open spec fn joined(rows: Seq<Seq<Task>>) -> Seq<Task>
    decreases rows.len(),
{
    if rows.len() == 0 {
        Seq::empty()
    } else {
        joined(rows.drop_last()) + rows.last()
    }
}

/// The tasks of a diagram, from the first node to the last.
pub open spec fn tasks_of(shape: Shape) -> Seq<Task>
    decreases shape,
{
    match shape.content {
        ShapeContent::Task(task) => seq![task],
        ShapeContent::Children(children) => joined(task_rows(children)),
    }
}

/// The tasks of each of the diagrams.
pub open spec fn task_rows(shapes: Seq<Shape>) -> Seq<Seq<Task>>
    decreases shapes,
{
    Seq::new(
        shapes.len(),
        |i: int|
            if 0 <= i < shapes.len() {
                tasks_of(shapes[i])
            } else {
                Seq::empty()
            },
    )
}

/// From start to end, the tasks among `tasks` that run on `thread`.
pub open spec fn stretches_of(tasks: Seq<Task>, thread: usize) -> Seq<(u128, u128)>
    decreases tasks.len(),
{
    if tasks.len() == 0 {
        Seq::empty()
    } else if tasks.last().thread == thread {
        stretches_of(tasks.drop_last(), thread).push((tasks.last().start, tasks.last().end))
    } else {
        stretches_of(tasks.drop_last(), thread)
    }
}

/// Whether the stretch `a` comes no later than `b`: it starts before it, or
/// with it and ends no later.
pub open spec fn stretch_le(a: (u128, u128), b: (u128, u128)) -> bool {
    a.0 < b.0 || (a.0 == b.0 && a.1 <= b.1)
}

/// The order of stretches.
pub open spec fn stretch_order() -> spec_fn((u128, u128), (u128, u128)) -> bool {
    |a: (u128, u128), b: (u128, u128)| stretch_le(a, b)
}

/// The gaps that are not empty.
pub open spec fn not_empty(gaps: Seq<(u128, u128)>) -> Seq<(u128, u128)>
    decreases gaps.len(),
{
    if gaps.len() == 0 {
        Seq::empty()
    } else if gaps.last().0 != gaps.last().1 {
        not_empty(gaps.drop_last()).push(gaps.last())
    } else {
        not_empty(gaps.drop_last())
    }
}

/// The stretches in their order, between the time 0 and the time `end`.
pub open spec fn day_of(stretches: Seq<(u128, u128)>, end: u128) -> Seq<(u128, u128)> {
    seq![(0u128, 0u128)] + stretches.sort_by(stretch_order()) + seq![(end, end)]
}

/// The stretches of time up to `end` during which `thread` runs none of
/// `tasks`; there are none where two tasks of the thread overlap, or where
/// one ends after `end`.
pub open spec fn idle_between(tasks: Seq<Task>, thread: usize, end: u128) -> Result<
    Seq<(u128, u128)>,
    LayoutError,
> {
    let between = gaps(day_of(stretches_of(tasks, thread), end));
    if in_order(between) {
        Ok(not_empty(between))
    } else {
        Err(LayoutError::NegativeGap)
    }
}

/// `[T]::sort_unstable` on stretches: the same stretches, each as often as
/// before, in their order.
#[verifier::external_body]
fn sort_stretches(stretches: &mut Vec<(u128, u128)>)
    ensures
        final(stretches)@.to_multiset() == old(stretches)@.to_multiset(),
        forall|i: int, j: int|
            0 <= i < j < final(stretches)@.len() ==> stretch_le(
                #[trigger] final(stretches)@[i],
                #[trigger] final(stretches)@[j],
            ),
{
    stretches.sort_unstable()
}

/// The order of stretches is an order.
proof fn lemma_stretch_order()
    ensures
        total_ordering(stretch_order()),
{
    let order = stretch_order();
    assert forall|a: (u128, u128), b: (u128, u128)| #[trigger] order(a, b) && #[trigger] order(
        b,
        a,
    ) implies a == b by {}
    assert(vstd::relations::reflexive(order));
    assert(vstd::relations::antisymmetric(order));
    assert(vstd::relations::transitive(order));
    assert(vstd::relations::strongly_connected(order));
}

impl Node {
    /// The tasks of the diagram, from the first node to the last.
    pub fn tasks(&self) -> (tasks: Vec<Task>)
        ensures
            tasks@ == tasks_of(self@),
    {
        let mut tasks: Vec<Task> = Vec::new();
        self.collect_tasks(&mut tasks);
        tasks
    }

    fn collect_tasks(&self, tasks: &mut Vec<Task>)
        ensures
            final(tasks)@ == old(tasks)@ + tasks_of(self@),
        decreases self@,
    {
        match &self.children {
            Content::Task(task) => {
                tasks.push(*task);
                assert(tasks@ =~= old(tasks)@ + seq![*task]);
            },
            Content::Children(children) => {
                let ghost shapes = shapes_of(children@);
                let ghost rows = task_rows(shapes);
                assert(self@.content matches ShapeContent::Children(below) && below =~= shapes);
                assert(tasks_of(self@) == joined(rows));
                let mut i: usize = 0;
                assert(rows.take(0) =~= Seq::<Seq<Task>>::empty());
                assert(tasks@ =~= old(tasks)@ + joined(rows.take(0)));
                while i < children.len()
                    invariant
                        i <= children@.len(),
                        shapes == shapes_of(children@),
                        rows == task_rows(shapes),
                        self@.content == ShapeContent::Children(shapes),
                        self.children == Content::Children(*children),
                        tasks@ == old(tasks)@ + joined(rows.take(i as int)),
                    decreases children@.len() - i,
                {
                    assert(children@[i as int]@ == shapes[i as int]);
                    assert(decreases_to!(self@ => self@.content->Children_0[i as int]));
                    children[i].collect_tasks(tasks);
                    proof {
                        assert(rows.take(i + 1).drop_last() =~= rows.take(i as int));
                        assert(rows.take(i + 1).last() == tasks_of(children@[i as int]@));
                        assert(tasks@ =~= old(tasks)@ + joined(rows.take(i + 1)));
                    }
                    i += 1;
                }
                assert(rows.take(i as int) =~= rows);
            },
        }
    }
}

impl Graph {
    /// The stretches of time, from the time 0 to the latest end of a span,
    /// during which `thread` runs no task of the diagram.
    pub fn idle_times(&self, thread: usize) -> (outcome: Result<Vec<(u128, u128)>, LayoutError>)
        ensures
            match idle_between(tasks_of(self.root@), thread, self.end) {
                Ok(idle) => outcome matches Ok(found) && found@ == idle,
                Err(error) => outcome matches Err(found) && found == error,
            },
    {
        let tasks = self.root.tasks();
        let mut stretches: Vec<(u128, u128)> = Vec::new();
        let mut i: usize = 0;
        assert(tasks@.take(0) =~= Seq::<Task>::empty());
        while i < tasks.len()
            invariant
                i <= tasks@.len(),
                stretches@ == stretches_of(tasks@.take(i as int), thread),
            decreases tasks@.len() - i,
        {
            assert(tasks@.take(i + 1).drop_last() =~= tasks@.take(i as int));
            assert(tasks@.take(i + 1).last() == tasks@[i as int]);
            if tasks[i].thread == thread {
                stretches.push((tasks[i].start, tasks[i].end));
            }
            i += 1;
        }
        assert(tasks@.take(i as int) =~= tasks@);
        let ghost unsorted = stretches@;
        sort_stretches(&mut stretches);
        proof {
            lemma_stretch_order();
            unsorted.lemma_sort_by_ensures(stretch_order());
            assert(sorted_by(stretches@, stretch_order()));
            vstd::seq_lib::lemma_sorted_unique(
                stretches@,
                unsorted.sort_by(stretch_order()),
                stretch_order(),
            );
        }
        let mut day: Vec<(u128, u128)> = Vec::new();
        day.push((0, 0));
        let mut i: usize = 0;
        while i < stretches.len()
            invariant
                i <= stretches@.len(),
                day@ == seq![(0u128, 0u128)] + stretches@.take(i as int),
            decreases stretches@.len() - i,
        {
            day.push(stretches[i]);
            i += 1;
            assert(day@ =~= seq![(0u128, 0u128)] + stretches@.take(i as int));
        }
        assert(stretches@.take(i as int) =~= stretches@);
        day.push((self.end, self.end));
        let ghost between = gaps(day@);
        assert(day@ =~= day_of(stretches_of(tasks@, thread), self.end));
        let windows = pair_windows(day);
        assert(windows@.len() == between.len());
        let mut idle: Vec<(u128, u128)> = Vec::new();
        let mut i: usize = 0;
        assert(between.take(0) =~= Seq::<(u128, u128)>::empty());
        while i < windows.len()
            invariant
                i <= windows@.len(),
                windows@.len() == between.len(),
                forall|k: int|
                    0 <= k < between.len() ==> (#[trigger] windows@[k]).0.1 == between[k].0
                        && windows@[k].1.0 == between[k].1,
                forall|k: int| 0 <= k < i ==> (#[trigger] between[k]).0 <= between[k].1,
                idle@ == not_empty(between.take(i as int)),
                tasks@ == tasks_of(self.root@),
                between == gaps(day_of(stretches_of(tasks@, thread), self.end)),
            decreases windows@.len() - i,
        {
            let (before, after) = windows[i];
            let start = before.1;
            let end = after.0;
            assert(between.take(i + 1).drop_last() =~= between.take(i as int));
            assert(between.take(i + 1).last() == between[i as int]);
            if end < start {
                assert(!in_order(between));
                return Err(LayoutError::NegativeGap);
            }
            if start != end {
                idle.push((start, end));
            }
            i += 1;
        }
        assert(between.take(i as int) =~= between);
        assert(in_order(between));
        Ok(idle)
    }
}

} // verus!
