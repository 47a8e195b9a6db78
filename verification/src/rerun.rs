//! A workload that is recorded again, later and under fresh ids, gives the
//! same spans.
use crate::events::{
    close_unfinished, end_thread, none_before, rebase, reconstruct, replay_logs, replay_step,
    replay_thread, RawEvent, ReplayState, TraceError,
};
use crate::laws::time_of;
use crate::spans::Span;
use vstd::prelude::*;

verus! {

/// Whether `ids` gives different ids other names, and 0 the name 0.
pub open spec fn renames(ids: spec_fn(u64) -> u64) -> bool {
    &&& ids(0) == 0
    &&& forall|a: u64, b: u64| #[trigger] ids(a) == #[trigger] ids(b) ==> a == b
}

/// The event as it is recorded `delay` later, under the ids that `ids` gives.
pub open spec fn moved(event: RawEvent, ids: spec_fn(u64) -> u64, delay: u128) -> RawEvent {
    match event {
        RawEvent::NewSpan(id, name, parent) => RawEvent::NewSpan(ids(id), name, ids(parent)),
        RawEvent::StrField(id, field, value) => RawEvent::StrField(ids(id), field, value),
        RawEvent::Enter(id, time) => RawEvent::Enter(ids(id), (time + delay) as u128),
        RawEvent::Exit(id, time) => RawEvent::Exit(ids(id), (time + delay) as u128),
    }
}

/// The events of a thread, each moved.
pub open spec fn moved_log(events: Seq<RawEvent>, ids: spec_fn(u64) -> u64, delay: u128) -> Seq<
    RawEvent,
> {
    Seq::new(events.len(), |i: int| moved(events[i], ids, delay))
}

/// The logs of all threads, each moved.
pub open spec fn moved_logs(logs: Seq<Seq<RawEvent>>, ids: spec_fn(u64) -> u64, delay: u128) -> Seq<
    Seq<RawEvent>,
> {
    Seq::new(logs.len(), |thread: int| moved_log(logs[thread], ids, delay))
}

/// Whether every time of `events` can be `delay` later.
pub open spec fn can_be_delayed(events: Seq<RawEvent>, delay: u128) -> bool {
    forall|i: int|
        0 <= i < events.len() ==> (time_of(#[trigger] events[i]) matches Some(time) ==> time + delay
            <= u128::MAX)
}

/// The span under the ids that `ids` gives.
pub open spec fn renamed(span: Span, ids: spec_fn(u64) -> u64) -> Span {
    Span {
        id: ids(span.id),
        parent: match span.parent {
            Some(parent) => Some(ids(parent)),
            None => None,
        },
        ..span
    }
}

/// The ids, each under the name that `ids` gives.
spec fn renamed_row(row: Seq<u64>, ids: spec_fn(u64) -> u64) -> Seq<u64> {
    Seq::new(row.len(), |i: int| ids(row[i]))
}

/// Whether `second` is `first` recorded again: the same but for the id, and
/// for the times that an event has set.
spec fn twin_spans(
    first: Span,
    second: Span,
    ids: spec_fn(u64) -> u64,
    delay: u128,
    started: bool,
    ended: bool,
) -> bool {
    &&& second.id == ids(first.id)
    &&& second.parent == renamed(first, ids).parent
    &&& second.name == first.name
    &&& second.execution_thread == first.execution_thread
    &&& second.creation_thread == first.creation_thread
    &&& if started {
        second.start == first.start + delay
    } else {
        first.start == 0 && second.start == 0
    }
    &&& if ended {
        second.end == first.end + delay
    } else {
        first.end == 0 && second.end == 0
    }
}

/// Whether the spans `second` are the spans `first` recorded again; `started`
/// and `ended` are the spans whose start and end an event has set.
spec fn twin_maps(
    first: Map<u64, Span>,
    second: Map<u64, Span>,
    ids: spec_fn(u64) -> u64,
    delay: u128,
    started: Set<u64>,
    ended: Set<u64>,
) -> bool {
    &&& forall|id: u64| first.contains_key(id) <==> second.contains_key(#[trigger] ids(id))
    &&& forall|other: u64| #[trigger]
        second.contains_key(other) ==> exists|id: u64|
            first.contains_key(id) && #[trigger] ids(id) == other
    &&& forall|id: u64| started.contains(id) || ended.contains(id) ==> first.contains_key(id)
    &&& forall|id: u64| #[trigger]
        first.contains_key(id) ==> first[id].id == id && twin_spans(
            first[id],
            second[ids(id)],
            ids,
            delay,
            started.contains(id),
            ended.contains(id),
        )
}

/// Whether the replay `second` is the replay `first` of the same events
/// recorded again.
spec fn twins(
    first: ReplayState,
    second: ReplayState,
    ids: spec_fn(u64) -> u64,
    delay: u128,
    started: Set<u64>,
    ended: Set<u64>,
) -> bool {
    &&& second.entered == first.entered
    &&& second.exited == first.exited
    &&& second.active == renamed_row(first.active, ids)
    &&& second.unfinished == renamed_row(first.unfinished, ids)
    &&& if first.min_time <= first.max_time {
        second.min_time == first.min_time + delay && second.max_time == first.max_time + delay
    } else {
        &&& first.min_time == u128::MAX
        &&& first.max_time == 0
        &&& second.min_time == u128::MAX
        &&& second.max_time == 0
        &&& first.entered == 0
    }
    &&& twin_maps(first.spans, second.spans, ids, delay, started, ended)
}

/// Putting twin spans under twin ids keeps twin maps.
proof fn lemma_twin_insert(
    first: Map<u64, Span>,
    second: Map<u64, Span>,
    ids: spec_fn(u64) -> u64,
    delay: u128,
    started: Set<u64>,
    ended: Set<u64>,
    id: u64,
    one: Span,
    other: Span,
    started_after: Set<u64>,
    ended_after: Set<u64>,
)
    requires
        renames(ids),
        twin_maps(first, second, ids, delay, started, ended),
        one.id == id,
        twin_spans(one, other, ids, delay, started_after.contains(id), ended_after.contains(id)),
        forall|known: u64|
            known != id ==> started_after.contains(known) == started.contains(known)
                && ended_after.contains(known) == ended.contains(known),
    ensures
        twin_maps(
            first.insert(id, one),
            second.insert(ids(id), other),
            ids,
            delay,
            started_after,
            ended_after,
        ),
{
    let first_after = first.insert(id, one);
    let second_after = second.insert(ids(id), other);
    assert forall|known: u64| first_after.contains_key(known) <==> second_after.contains_key(
        #[trigger] ids(known),
    ) by {
        assert(first.contains_key(known) <==> second.contains_key(ids(known)));
    }
    assert forall|name: u64| #[trigger] second_after.contains_key(name) implies exists|known: u64|
        first_after.contains_key(known) && #[trigger] ids(known) == name by {
        if name == ids(id) {
            assert(first_after.contains_key(id) && ids(id) == name);
        } else {
            assert(second.contains_key(name));
            let known = choose|known: u64| first.contains_key(known) && #[trigger] ids(known) == name;
            assert(first_after.contains_key(known) && ids(known) == name);
        }
    }
    assert forall|known: u64| #[trigger] first_after.contains_key(known) implies first_after[known].id
        == known && twin_spans(
        first_after[known],
        second_after[ids(known)],
        ids,
        delay,
        started_after.contains(known),
        ended_after.contains(known),
    ) by {
        if known != id {
            assert(first.contains_key(known));
            assert(ids(known) != ids(id));
        }
    }
}

/// One event keeps twin replays twins.
proof fn lemma_step_twins(
    first: ReplayState,
    second: ReplayState,
    ids: spec_fn(u64) -> u64,
    delay: u128,
    started: Set<u64>,
    ended: Set<u64>,
    thread: usize,
    event: RawEvent,
) -> (sets: (Set<u64>, Set<u64>))
    requires
        renames(ids),
        twins(first, second, ids, delay, started, ended),
        time_of(event) matches Some(time) ==> time + delay <= u128::MAX,
        replay_step(first, thread, event) is Ok,
    ensures
        replay_step(second, thread, moved(event, ids, delay)) is Ok,
        twins(
            replay_step(first, thread, event)->Ok_0,
            replay_step(second, thread, moved(event, ids, delay))->Ok_0,
            ids,
            delay,
            sets.0,
            sets.1,
        ),
{
    assert(replay_step(second, thread, moved(event, ids, delay)) is Ok) by {
        match event {
            RawEvent::Exit(id, _) => {
                assert(first.spans.contains_key(id) <==> second.spans.contains_key(ids(id)));
                assert(first.active.len() > 0 && first.active.last() == id);
                assert(second.active.len() == first.active.len());
                assert(second.active.last() == ids(first.active.last()));
            },
            RawEvent::StrField(id, _, _) => {
                assert(first.spans.contains_key(id) <==> second.spans.contains_key(ids(id)));
            },
            _ => {},
        }
    }
    let first_after = replay_step(first, thread, event)->Ok_0;
    let second_after = replay_step(second, thread, moved(event, ids, delay))->Ok_0;
    match event {
        RawEvent::NewSpan(id, name, parent) => {
            assert(first.spans.contains_key(id) <==> second.spans.contains_key(ids(id)));
            if first.active.len() > 0 {
                assert(second.active.last() == ids(first.active.last()));
            }
            assert(parent == 0 <==> ids(parent) == 0) by {
                assert(ids(parent) == ids(0) ==> parent == 0);
            }
            lemma_twin_insert(
                first.spans,
                second.spans,
                ids,
                delay,
                started,
                ended,
                id,
                first_after.spans[id],
                second_after.spans[ids(id)],
                started,
                ended,
            );
            assert(first_after.spans =~= first.spans.insert(id, first_after.spans[id]));
            assert(second_after.spans =~= second.spans.insert(ids(id), second_after.spans[ids(id)]));
            (started, ended)
        },
        RawEvent::Enter(id, time) => {
            assert(first.spans.contains_key(id) <==> second.spans.contains_key(ids(id)));
            let started_after = started.insert(id);
            lemma_twin_insert(
                first.spans,
                second.spans,
                ids,
                delay,
                started,
                ended,
                id,
                first_after.spans[id],
                second_after.spans[ids(id)],
                started_after,
                ended,
            );
            assert(first_after.spans =~= first.spans.insert(id, first_after.spans[id]));
            assert(second_after.spans =~= second.spans.insert(ids(id), second_after.spans[ids(id)]));
            assert(second_after.active =~= renamed_row(first_after.active, ids));
            (started_after, ended)
        },
        RawEvent::Exit(id, time) => {
            assert(first.spans.contains_key(id) <==> second.spans.contains_key(ids(id)));
            let ended_after = ended.insert(id);
            lemma_twin_insert(
                first.spans,
                second.spans,
                ids,
                delay,
                started,
                ended,
                id,
                first_after.spans[id],
                second_after.spans[ids(id)],
                started,
                ended_after,
            );
            assert(first_after.spans =~= first.spans.insert(id, first_after.spans[id]));
            assert(second_after.spans =~= second.spans.insert(ids(id), second_after.spans[ids(id)]));
            assert(second_after.active =~= renamed_row(first_after.active, ids));
            (started, ended_after)
        },
        RawEvent::StrField(id, field, value) => {
            assert(first.spans.contains_key(id) <==> second.spans.contains_key(ids(id)));
            if first_after.spans != first.spans {
                lemma_twin_insert(
                    first.spans,
                    second.spans,
                    ids,
                    delay,
                    started,
                    ended,
                    id,
                    first_after.spans[id],
                    second_after.spans[ids(id)],
                    started,
                    ended,
                );
                assert(first_after.spans =~= first.spans.insert(id, first_after.spans[id]));
                assert(second_after.spans =~= second.spans.insert(
                    ids(id),
                    second_after.spans[ids(id)],
                ));
            }
            (started, ended)
        },
    }
}

/// The events of a thread keep twin replays twins.
proof fn lemma_thread_twins(
    first: ReplayState,
    second: ReplayState,
    ids: spec_fn(u64) -> u64,
    delay: u128,
    started: Set<u64>,
    ended: Set<u64>,
    thread: usize,
    events: Seq<RawEvent>,
) -> (sets: (Set<u64>, Set<u64>))
    requires
        renames(ids),
        twins(first, second, ids, delay, started, ended),
        can_be_delayed(events, delay),
        replay_thread(first, thread, events) is Ok,
    ensures
        replay_thread(second, thread, moved_log(events, ids, delay)) is Ok,
        twins(
            replay_thread(first, thread, events)->Ok_0,
            replay_thread(second, thread, moved_log(events, ids, delay))->Ok_0,
            ids,
            delay,
            sets.0,
            sets.1,
        ),
    decreases events.len(),
{
    if events.len() == 0 {
        (started, ended)
    } else {
        let before = events.drop_last();
        assert(moved_log(events, ids, delay).drop_last() =~= moved_log(before, ids, delay));
        assert(moved_log(events, ids, delay).last() == moved(events.last(), ids, delay));
        assert(can_be_delayed(before, delay)) by {
            assert forall|i: int| 0 <= i < before.len() implies (time_of(
                #[trigger] before[i],
            ) matches Some(time) ==> time + delay <= u128::MAX) by {
                assert(before[i] == events[i]);
            }
        }
        let sets = lemma_thread_twins(first, second, ids, delay, started, ended, thread, before);
        assert(events[events.len() - 1] == events.last());
        lemma_step_twins(
            replay_thread(first, thread, before)->Ok_0,
            replay_thread(second, thread, moved_log(before, ids, delay))->Ok_0,
            ids,
            delay,
            sets.0,
            sets.1,
            thread,
            events.last(),
        )
    }
}

/// The logs of all threads give twin replays.
proof fn lemma_logs_twins(logs: Seq<Seq<RawEvent>>, ids: spec_fn(u64) -> u64, delay: u128) -> (sets: (
    Set<u64>,
    Set<u64>,
))
    requires
        renames(ids),
        forall|thread: int| 0 <= thread < logs.len() ==> can_be_delayed(#[trigger] logs[thread], delay),
        replay_logs(logs) is Ok,
    ensures
        replay_logs(moved_logs(logs, ids, delay)) is Ok,
        twins(
            replay_logs(logs)->Ok_0,
            replay_logs(moved_logs(logs, ids, delay))->Ok_0,
            ids,
            delay,
            sets.0,
            sets.1,
        ),
    decreases logs.len(),
{
    if logs.len() == 0 {
        assert(renamed_row(Seq::<u64>::empty(), ids) =~= Seq::<u64>::empty());
        (Set::empty(), Set::empty())
    } else {
        let rest = logs.drop_last();
        assert(moved_logs(logs, ids, delay).drop_last() =~= moved_logs(rest, ids, delay));
        assert(moved_logs(logs, ids, delay).last() == moved_log(logs.last(), ids, delay));
        assert(forall|thread: int| 0 <= thread < rest.len() ==> rest[thread] == logs[thread]);
        assert(logs[logs.len() - 1] == logs.last());
        let sets = lemma_logs_twins(rest, ids, delay);
        let thread = (logs.len() - 1) as usize;
        let first = replay_logs(rest)->Ok_0;
        let second = replay_logs(moved_logs(rest, ids, delay))->Ok_0;
        let after = lemma_thread_twins(first, second, ids, delay, sets.0, sets.1, thread, logs.last());
        let first_after = replay_thread(first, thread, logs.last())->Ok_0;
        let second_after = replay_thread(second, thread, moved_log(logs.last(), ids, delay))->Ok_0;
        assert(end_thread(second_after).unfinished =~= renamed_row(
            end_thread(first_after).unfinished,
            ids,
        ));
        assert(end_thread(second_after).active =~= renamed_row(end_thread(first_after).active, ids));
        after
    }
}

/// Closing the twins of spans at twin times keeps twin maps.
proof fn lemma_close_twins(
    first: Map<u64, Span>,
    second: Map<u64, Span>,
    ids: spec_fn(u64) -> u64,
    delay: u128,
    started: Set<u64>,
    ended: Set<u64>,
    unfinished: Seq<u64>,
    time: u128,
) -> (ended_after: Set<u64>)
    requires
        renames(ids),
        twin_maps(first, second, ids, delay, started, ended),
        time + delay <= u128::MAX,
    ensures
        twin_maps(
            close_unfinished(first, unfinished, time),
            close_unfinished(second, renamed_row(unfinished, ids), (time + delay) as u128),
            ids,
            delay,
            started,
            ended_after,
        ),
    decreases unfinished.len(),
{
    if unfinished.len() == 0 {
        ended
    } else {
        let rest = unfinished.drop_last();
        let id = unfinished.last();
        assert(renamed_row(unfinished, ids).drop_last() =~= renamed_row(rest, ids));
        assert(renamed_row(unfinished, ids).last() == ids(id));
        let ended_before = lemma_close_twins(first, second, ids, delay, started, ended, rest, time);
        let first_before = close_unfinished(first, rest, time);
        let second_before = close_unfinished(second, renamed_row(rest, ids), (time + delay) as u128);
        let first_after = close_unfinished(first, unfinished, time);
        let second_after = close_unfinished(
            second,
            renamed_row(unfinished, ids),
            (time + delay) as u128,
        );
        assert(first_before.contains_key(id) <==> second_before.contains_key(ids(id)));
        let ended_after = ended_before.insert(id);
        lemma_twin_insert(
            first_before,
            second_before,
            ids,
            delay,
            started,
            ended_before,
            id,
            first_after[id],
            second_after[ids(id)],
            started,
            ended_after,
        );
        assert(first_after =~= first_before.insert(id, first_after[id]));
        assert(second_after =~= second_before.insert(ids(id), second_after[ids(id)]));
        ended_after
    }
}

/// The same workload, recorded again `delay` later and under other ids,
/// gives the same spans but for their ids, and the same counts. Where a span
/// is created and never entered, the workload recorded later gives no spans
/// at all: such a span stays at the time 0, before the earliest time.
pub proof fn lemma_same_workload_same_spans(
    logs: Seq<Seq<RawEvent>>,
    ids: spec_fn(u64) -> u64,
    delay: u128,
)
    requires
        renames(ids),
        forall|thread: int| 0 <= thread < logs.len() ==> can_be_delayed(#[trigger] logs[thread], delay),
        reconstruct(logs) is Ok,
    ensures
        match reconstruct(moved_logs(logs, ids, delay)) {
            Ok(second) => {
                let first = reconstruct(logs)->Ok_0;
                &&& forall|id: u64| #[trigger]
                    first.spans.contains_key(id) ==> second.spans.contains_key(ids(id))
                        && second.spans[ids(id)] == renamed(first.spans[id], ids)
                &&& forall|other: u64| #[trigger]
                    second.spans.contains_key(other) ==> exists|id: u64|
                        first.spans.contains_key(id) && #[trigger] ids(id) == other
                &&& second.entered == first.entered
                &&& second.exited == first.exited
                &&& second.unfinished == first.unfinished
            },
            Err(error) => error == TraceError::TimeBeforeOrigin && delay > 0,
        },
{
    let sets = lemma_logs_twins(logs, ids, delay);
    let first = replay_logs(logs)->Ok_0;
    let second = replay_logs(moved_logs(logs, ids, delay))->Ok_0;
    let first_closed = close_unfinished(first.spans, first.unfinished, first.max_time);
    let second_closed = close_unfinished(second.spans, second.unfinished, second.max_time);
    let found = reconstruct(logs)->Ok_0;
    crate::laws::lemma_spans_finite(logs);
    crate::laws::lemma_counts_balance(logs);
    assert(found.spans.dom() =~= first_closed.dom());
    assert(rebase(second_closed, second.min_time).dom() =~= second_closed.dom());
    if first.min_time <= first.max_time {
        let ended = lemma_close_twins(
            first.spans,
            second.spans,
            ids,
            delay,
            sets.0,
            sets.1,
            first.unfinished,
            first.max_time,
        );
        // as many spans, since different ids have different names
        assert(first_closed.dom().map(ids) =~= second_closed.dom()) by {
            assert forall|other: u64|
                first_closed.dom().map(ids).contains(other) <==> second_closed.dom().contains(
                    other,
                ) by {
                if second_closed.contains_key(other) {
                    let id = choose|id: u64|
                        first_closed.contains_key(id) && #[trigger] ids(id) == other;
                    assert(first_closed.dom().contains(id) && ids(id) == other);
                }
                if first_closed.dom().map(ids).contains(other) {
                    let id = choose|id: u64| first_closed.dom().contains(id) && ids(id) == other;
                    assert(second_closed.contains_key(ids(id)));
                }
            }
        }
        assert(vstd::relations::injective_on(ids, first_closed.dom()));
        vstd::set_lib::lemma_map_size(first_closed.dom(), second_closed.dom(), ids);
        if delay == 0 {
            assert forall|other: u64| #[trigger] second_closed.contains_key(other) implies second_closed[other].start
                >= second.min_time && second_closed[other].end >= second.min_time by {
                let id = choose|id: u64| first_closed.contains_key(id) && #[trigger] ids(id) == other;
                assert(first_closed.contains_key(id));
            }
            assert(none_before(second_closed, second.min_time));
        }
        if none_before(second_closed, second.min_time) {
            let again = reconstruct(moved_logs(logs, ids, delay))->Ok_0;
            assert forall|id: u64| #[trigger] found.spans.contains_key(id) implies again.spans.contains_key(
                ids(id),
            ) && again.spans[ids(id)] == renamed(found.spans[id], ids) by {
                assert(first_closed.contains_key(id));
                assert(second_closed.contains_key(ids(id)));
            }
            assert forall|other: u64| #[trigger] again.spans.contains_key(other) implies exists|
                id: u64,
            | found.spans.contains_key(id) && #[trigger] ids(id) == other by {
                assert(second_closed.contains_key(other));
                let id = choose|id: u64| first_closed.contains_key(id) && #[trigger] ids(id) == other;
                assert(found.spans.contains_key(id) && ids(id) == other);
            }
        }
    } else {
        // no time was met: no span was entered, and there is no span
        assert(first.unfinished.len() == 0);
        assert(second.unfinished.len() == 0);
        assert(first_closed == first.spans);
        assert(second_closed == second.spans);
        assert(first_closed.dom().len() == 0);
        assert(first_closed.dom() =~= Set::<u64>::empty());
        assert(second_closed.dom() =~= Set::<u64>::empty()) by {
            assert forall|other: u64| !second_closed.contains_key(other) by {
                if second.spans.contains_key(other) {
                    let id = choose|id: u64| first.spans.contains_key(id) && #[trigger] ids(id) == other;
                    assert(first_closed.dom().contains(id));
                }
            }
        }
        assert(none_before(second_closed, second.min_time));
    }
}

} // verus!
