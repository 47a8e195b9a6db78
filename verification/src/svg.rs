//! From the logs to the diagram that a renderer draws.
use crate::children::span_ids;
use crate::events::{extract_spans, reconstruct, Registry, TraceError};
use crate::graph::{
    is_earliest_start, is_latest_end, is_thread_count, layout, survey, thread_count, Graph,
    LayoutError, Survey,
};
use crate::spans::Span;
use crate::text::same_text;
use std::collections::HashMap;
use vstd::prelude::*;

verus! {

/// Why the logs give no diagram.
#[derive(Clone, Copy, Debug, PartialEq, Eq, Structural)]
pub enum DiagramError {
    /// The logs describe no spans.
    Trace(TraceError),
    /// The spans cannot be laid out.
    Layout(LayoutError),
}

/// The diagram of what the threads have recorded: replays the logs, empties
/// them for the next collection, and lays out the spans.
///
/// Logs that describe no spans are left as they are.
pub fn svg(registry: &mut Registry) -> (outcome: Result<Graph, DiagramError>)
    ensures
        final(registry)@.len() == old(registry)@.len(),
        match reconstruct(old(registry)@) {
            Err(error) => {
                &&& outcome matches Err(DiagramError::Trace(found))
                &&& found == error
                &&& *final(registry) == *old(registry)
            },
            Ok(reconstruction) => {
                &&& final(registry).wf()
                &&& forall|thread: int|
                    0 <= thread < final(registry)@.len() ==> (#[trigger] final(registry)@[thread]).len()
                        == 0
                &&& match layout(reconstruction.spans) {
                    Err(error) => outcome matches Err(DiagramError::Layout(found)) && found
                        == error,
                    Ok(shape) => outcome matches Ok(graph) && graph.depicts(
                        reconstruction.spans,
                        shape,
                    ),
                }
            },
        },
{
    let spans = match extract_spans(registry) {
        Ok(spans) => spans,
        Err(error) => {
            return Err(DiagramError::Trace(error));
        },
    };
    match Graph::new(&spans) {
        Ok(graph) => Ok(graph),
        Err(error) => Err(DiagramError::Layout(error)),
    }
}

/// How many colours the names of the spans share.
pub const COLORS_NUMBER: usize = 7;

/// A name with the index of its colour.
pub type NameColor = (&'static str, usize);

/// Whether one of `colors` is for the name `name`.
pub open spec fn is_colored(colors: Seq<NameColor>, name: Seq<char>) -> bool {
    exists|k: int| 0 <= k < colors.len() && (#[trigger] colors[k]).0@ == name
}

/// The colours of `names`: each name gets a colour where it is first met,
/// the colours taken in turn.
pub open spec fn colors_of(names: Seq<&'static str>) -> Seq<NameColor>
    decreases names.len(),
{
    if names.len() == 0 {
        Seq::empty()
    } else {
        let before = colors_of(names.drop_last());
        if is_colored(before, names.last()@) {
            before
        } else {
            before.push((names.last(), (before.len() % COLORS_NUMBER as nat) as usize))
        }
    }
}

/// Whether `colors` gives each of the names `names` one colour: no name
/// twice, no name that is not among `names`, and the colours in turn, so that
/// up to `COLORS_NUMBER` names have colours that differ.
pub open spec fn colors_names(colors: Seq<NameColor>, names: Set<Seq<char>>) -> bool {
    &&& forall|i: int, j: int|
        0 <= i < j < colors.len() ==> (#[trigger] colors[i]).0@ != (#[trigger] colors[j]).0@
    &&& forall|k: int| 0 <= k < colors.len() ==> names.contains((#[trigger] colors[k]).0@)
    &&& forall|name: Seq<char>| names.contains(name) ==> is_colored(colors, name)
    &&& forall|k: int| 0 <= k < colors.len() ==> (#[trigger] colors[k]).1 == k % COLORS_NUMBER as int
    &&& forall|k: int| 0 <= k < colors.len() ==> (#[trigger] colors[k]).1 < COLORS_NUMBER
    &&& colors.len() <= COLORS_NUMBER ==> forall|i: int, j: int|
        0 <= i < j < colors.len() ==> (#[trigger] colors[i]).1 != (#[trigger] colors[j]).1
}

/// The names that are met in `names`.
pub open spec fn names_met(names: Seq<&'static str>) -> Set<Seq<char>> {
    Set::new(|name: Seq<char>| exists|i: int| 0 <= i < names.len() && (#[trigger] names[i])@ == name)
}

/// In whatever order names are met, each of them gets one colour, and up to
/// `COLORS_NUMBER` names get colours that differ.
pub proof fn lemma_colors_of(names: Seq<&'static str>)
    ensures
        colors_names(colors_of(names), names_met(names)),
    decreases names.len(),
{
    let colors = colors_of(names);
    if names.len() > 0 {
        let rest = names.drop_last();
        let before = colors_of(rest);
        let last = names.last();
        lemma_colors_of(rest);
        assert(names[names.len() - 1] == last);
        assert forall|k: int| 0 <= k < colors.len() implies names_met(names).contains(
            (#[trigger] colors[k]).0@,
        ) by {
            if k < before.len() {
                assert(colors[k] == before[k]);
                assert(names_met(rest).contains(before[k].0@));
                let i = choose|i: int| 0 <= i < rest.len() && (#[trigger] rest[i])@ == before[k].0@;
                assert(names[i] == rest[i]);
            }
        }
        assert forall|name: Seq<char>| names_met(names).contains(name) implies is_colored(
            colors,
            name,
        ) by {
            let i = choose|i: int| 0 <= i < names.len() && (#[trigger] names[i])@ == name;
            if i < rest.len() {
                assert(rest[i] == names[i]);
                assert(names_met(rest).contains(name));
                let k = choose|k: int| 0 <= k < before.len() && (#[trigger] before[k]).0@ == name;
                assert(colors[k] == before[k]);
            } else if is_colored(before, last@) {
                let k = choose|k: int| 0 <= k < before.len() && (#[trigger] before[k]).0@ == last@;
                assert(colors[k] == before[k]);
            } else {
                assert(colors[before.len() as int].0@ == name);
            }
        }
        assert forall|i: int, j: int| 0 <= i < j < colors.len() implies (#[trigger] colors[i]).0@
            != (#[trigger] colors[j]).0@ by {
            if j < before.len() {
                assert(colors[i] == before[i] && colors[j] == before[j]);
            } else {
                assert(colors[i] == before[i]);
            }
        }
        assert forall|k: int| 0 <= k < colors.len() implies (#[trigger] colors[k]).1 == k
            % COLORS_NUMBER as int && colors[k].1 < COLORS_NUMBER by {
            if k < before.len() {
                assert(colors[k] == before[k]);
            }
        }
    }
}

/// The colours of `names`: each name gets a colour where it is first met,
/// the colours taken in turn.
pub fn span_colors(names: &Vec<&'static str>) -> (colors: Vec<NameColor>)
    ensures
        colors@ == colors_of(names@),
        colors_names(colors@, names_met(names@)),
{
    let mut colors: Vec<NameColor> = Vec::new();
    let mut i: usize = 0;
    assert(names@.take(0) =~= Seq::<&'static str>::empty());
    while i < names.len()
        invariant
            i <= names@.len(),
            colors@ == colors_of(names@.take(i as int)),
            colors@.len() <= i,
        decreases names@.len() - i,
    {
        let name = names[i];
        assert(names@.take(i + 1).drop_last() =~= names@.take(i as int));
        assert(names@.take(i + 1).last() == name);
        let mut known = false;
        let mut k: usize = 0;
        while k < colors.len()
            invariant
                k <= colors@.len(),
                !known ==> forall|j: int| 0 <= j < k ==> (#[trigger] colors@[j]).0@ != name@,
                known ==> is_colored(colors@, name@),
            decreases colors@.len() - k,
        {
            if same_text(colors[k].0, name) {
                known = true;
            }
            k += 1;
        }
        if !known {
            let next = colors.len() % COLORS_NUMBER;
            colors.push((name, next));
        }
        i += 1;
    }
    proof {
        assert(names@.take(i as int) =~= names@);
        lemma_colors_of(names@);
    }
    colors
}

/// Whether no span ends before it starts.
pub open spec fn all_forward(spans: Map<u64, Span>) -> bool {
    forall|id: u64| #[trigger] spans.contains_key(id) ==> spans[id].start <= spans[id].end
}

/// Whether `time` is the duration of the shortest span.
pub open spec fn is_shortest_duration(spans: Map<u64, Span>, time: u128) -> bool {
    &&& forall|id: u64| #[trigger] spans.contains_key(id) ==> spans[id].end - spans[id].start >= time
    &&& exists|id: u64| #[trigger] spans.contains_key(id) && spans[id].end - spans[id].start == time
}

/// The spans with what a chart of them over time is scaled by.
pub struct Gantt {
    /// The earliest start of a span.
    pub start: u128,
    /// The latest end of a span.
    pub end: u128,
    /// The duration of the shortest span.
    pub min_exec_time: u128,
    pub spans: HashMap<u64, Span>,
    /// The colour of each name of a span, the names in the order in which a
    /// walk through the spans has met them.
    pub span_colors: Vec<NameColor>,
    /// One more than the highest ordinal of a thread that ran a span.
    pub nb_threads: usize,
}

/// The names of the spans.
pub open spec fn names_of(spans: Map<u64, Span>) -> Set<Seq<char>> {
    Set::new(
        |name: Seq<char>| exists|id: u64| #[trigger] spans.contains_key(id) && spans[id].name@ == name,
    )
}

/// The names of the spans `ids`, in their order.
fn names_in_order(spans: &HashMap<u64, Span>, ids: &Vec<u64>) -> (names: Vec<&'static str>)
    requires
        forall|id: u64| ids@.contains(id) <==> spans@.contains_key(id),
    ensures
        names_met(names@) == names_of(spans@),
{
    let mut names: Vec<&'static str> = Vec::new();
    let mut k: usize = 0;
    while k < ids.len()
        invariant
            k <= ids@.len(),
            forall|id: u64| ids@.contains(id) <==> spans@.contains_key(id),
            names@.len() == k,
            forall|j: int| 0 <= j < k ==> #[trigger] names@[j] == spans@[ids@[j]].name,
        decreases ids@.len() - k,
    {
        let id = ids[k];
        assert(ids@.contains(id));
        let span = *spans.get(&id).unwrap();
        names.push(span.name);
        k += 1;
    }
    proof {
        assert forall|name: Seq<char>| names_met(names@).contains(name) <==> names_of(
            spans@,
        ).contains(name) by {
            if names_met(names@).contains(name) {
                let j = choose|j: int| 0 <= j < names@.len() && (#[trigger] names@[j])@ == name;
                assert(ids@.contains(ids@[j]));
                assert(spans@.contains_key(ids@[j]) && spans@[ids@[j]].name@ == name);
            }
            if names_of(spans@).contains(name) {
                let id = choose|id: u64| #[trigger]
                    spans@.contains_key(id) && spans@[id].name@ == name;
                assert(ids@.contains(id));
                let j = choose|j: int| 0 <= j < ids@.len() && ids@[j] == id;
                assert(names@[j]@ == name);
            }
        }
        assert(names_met(names@) =~= names_of(spans@));
    }
    names
}

impl Gantt {
    /// Whether this holds `spans`, a colour for each of their names, and
    /// their extent; of no spans, the extent is that of nothing: from the
    /// latest time to the earliest.
    pub open spec fn summarizes(self, spans: Map<u64, Span>) -> bool {
        &&& self.spans@ == spans
        &&& colors_names(self.span_colors@, names_of(spans))
        &&& if spans.dom().len() == 0 {
            &&& self.start == u128::MAX
            &&& self.end == 0
            &&& self.min_exec_time == u128::MAX
            &&& self.nb_threads == 0
        } else {
            &&& is_earliest_start(spans, self.start)
            &&& is_latest_end(spans, self.end)
            &&& is_shortest_duration(spans, self.min_exec_time)
            &&& self.nb_threads == thread_count(spans)
        }
    }

    /// The spans with their extent and a colour for each of their names.
    pub fn new(spans: HashMap<u64, Span>) -> (outcome: Result<Gantt, LayoutError>)
        ensures
            if !all_forward(spans@) {
                outcome matches Err(error) && error == LayoutError::NegativeDuration
            } else if spans@.dom().len() > 0 && thread_count(spans@) > usize::MAX {
                outcome matches Err(error) && error == LayoutError::SizeOverflow
            } else {
                outcome matches Ok(gantt) && gantt.summarizes(spans@)
            },
    {
        let ids = span_ids(&spans);
        let Survey { max_thread, start, end, roots: _ } = survey(&spans, &ids);
        let mut min_exec_time: u128 = u128::MAX;
        let mut k: usize = 0;
        while k < ids.len()
            invariant
                k <= ids@.len(),
                forall|id: u64| ids@.contains(id) <==> spans@.contains_key(id),
                forall|j: int|
                    0 <= j < k ==> spans@[#[trigger] ids@[j]].start <= spans@[ids@[j]].end
                        && spans@[ids@[j]].end - spans@[ids@[j]].start >= min_exec_time,
                k == 0 ==> min_exec_time == u128::MAX,
                k > 0 ==> exists|j: int|
                    0 <= j < k && spans@[#[trigger] ids@[j]].end - spans@[ids@[j]].start
                        == min_exec_time,
            decreases ids@.len() - k,
        {
            let id = ids[k];
            assert(ids@.contains(id));
            let span = *spans.get(&id).unwrap();
            if span.end < span.start {
                return Err(LayoutError::NegativeDuration);
            }
            let ghost shortest = if k > 0 {
                choose|j: int|
                    0 <= j < k && spans@[#[trigger] ids@[j]].end - spans@[ids@[j]].start
                        == min_exec_time
            } else {
                0
            };
            if span.end - span.start <= min_exec_time {
                min_exec_time = span.end - span.start;
                assert(spans@[ids@[k as int]].end - spans@[ids@[k as int]].start == min_exec_time);
            } else {
                assert(spans@[ids@[shortest]].end - spans@[ids@[shortest]].start == min_exec_time);
            }
            k += 1;
        }
        proof {
            assert forall|id: u64| #[trigger] spans@.contains_key(id) implies spans@[id].start
                <= spans@[id].end && spans@[id].end - spans@[id].start >= min_exec_time by {
                assert(ids@.contains(id));
                let j = choose|j: int| 0 <= j < ids@.len() && ids@[j] == id;
                assert(ids@[j] == id);
            }
            if ids@.len() > 0 {
                let j = choose|j: int|
                    0 <= j < k && spans@[#[trigger] ids@[j]].end - spans@[ids@[j]].start
                        == min_exec_time;
                assert(spans@.contains_key(ids@[j])) by {
                    assert(ids@.contains(ids@[j]));
                }
                assert(thread_count(spans@) == max_thread + 1) by {
                    let count = thread_count(spans@);
                    assert(is_thread_count(spans@, max_thread + 1));
                    assert(is_thread_count(spans@, count));
                }
            }
        }
        if ids.len() > 0 && max_thread == usize::MAX {
            return Err(LayoutError::SizeOverflow);
        }
        let nb_threads = if ids.len() == 0 {
            0
        } else {
            max_thread + 1
        };
        let names = names_in_order(&spans, &ids);
        let span_colors = span_colors(&names);
        Ok(Gantt { start, end, min_exec_time, spans, span_colors, nb_threads })
    }

    /// The colour of the spans named `name`, if there is such a span.
    pub fn color_of(&self, name: &str) -> (color: Option<usize>)
        ensures
            match color {
                Some(index) => exists|k: int|
                    0 <= k < self.span_colors@.len() && (#[trigger] self.span_colors@[k]).0@
                        == name@ && self.span_colors@[k].1 == index,
                None => !is_colored(self.span_colors@, name@),
            },
    {
        let mut k: usize = 0;
        while k < self.span_colors.len()
            invariant
                k <= self.span_colors@.len(),
                forall|j: int| 0 <= j < k ==> (#[trigger] self.span_colors@[j]).0@ != name@,
            decreases self.span_colors@.len() - k,
        {
            if same_text(self.span_colors[k].0, name) {
                return Some(self.span_colors[k].1);
            }
            k += 1;
        }
        None
    }
}

/// The chart of what the threads have recorded: replays the logs, empties
/// them for the next collection, and measures the spans.
///
/// Logs that describe no spans are left as they are.
pub fn gantt_svg(registry: &mut Registry) -> (outcome: Result<Gantt, DiagramError>)
    ensures
        final(registry)@.len() == old(registry)@.len(),
        match reconstruct(old(registry)@) {
            Err(error) => {
                &&& outcome matches Err(DiagramError::Trace(found))
                &&& found == error
                &&& *final(registry) == *old(registry)
            },
            Ok(reconstruction) => {
                &&& final(registry).wf()
                &&& forall|thread: int|
                    0 <= thread < final(registry)@.len() ==> (#[trigger] final(registry)@[thread]).len()
                        == 0
                &&& if !all_forward(reconstruction.spans) {
                    outcome matches Err(DiagramError::Layout(error)) && error
                        == LayoutError::NegativeDuration
                } else if reconstruction.spans.dom().len() > 0 && thread_count(
                    reconstruction.spans,
                ) > usize::MAX {
                    outcome matches Err(DiagramError::Layout(error)) && error
                        == LayoutError::SizeOverflow
                } else {
                    outcome matches Ok(gantt) && gantt.summarizes(reconstruction.spans)
                }
            },
        },
{
    let spans = match extract_spans(registry) {
        Ok(spans) => spans,
        Err(error) => {
            return Err(DiagramError::Trace(error));
        },
    };
    match Gantt::new(spans) {
        Ok(gantt) => Ok(gantt),
        Err(error) => Err(DiagramError::Layout(error)),
    }
}

} // verus!
