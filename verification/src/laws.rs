//! What holds of every replay.
use crate::events::{
    close_unfinished, earlier, end_thread, initial_state, innermost, later, none_before, rebase,
    reconstruct, replay_logs, replay_step, replay_thread, RawEvent, ReplayState, TraceError,
    LABEL_FIELD,
};
use crate::spans::Span;
use vstd::prelude::*;

verus! {

/// Whether each span entered has been exited or is still open.
pub open spec fn balanced(state: ReplayState) -> bool {
    state.entered == state.exited + state.active.len() + state.unfinished.len()
}

proof fn lemma_thread_balanced(state: ReplayState, thread: usize, events: Seq<RawEvent>)
    requires
        balanced(state),
    ensures
        replay_thread(state, thread, events) matches Ok(after) ==> balanced(after),
    decreases events.len(),
{
    if events.len() > 0 {
        lemma_thread_balanced(state, thread, events.drop_last());
    }
}

proof fn lemma_logs_balanced(logs: Seq<Seq<RawEvent>>)
    ensures
        replay_logs(logs) matches Ok(state) ==> balanced(state) && state.active.len() == 0,
    decreases logs.len(),
{
    if logs.len() > 0 {
        lemma_logs_balanced(logs.drop_last());
        if let Ok(before) = replay_logs(logs.drop_last()) {
            lemma_thread_balanced(before, (logs.len() - 1) as usize, logs.last());
        }
    }
}

/// In every reconstruction, each span that was entered was exited or left
/// unfinished, and there are as many spans as times a span was entered.
pub proof fn lemma_counts_balance(logs: Seq<Seq<RawEvent>>)
    ensures
        reconstruct(logs) matches Ok(found) ==> found.entered == found.exited + found.unfinished
            && found.entered == found.spans.dom().len(),
{
    lemma_logs_balanced(logs);
    if let Ok(state) = replay_logs(logs) {
        let closed = close_unfinished(state.spans, state.unfinished, state.max_time);
        assert(rebase(closed, state.min_time).dom() =~= closed.dom());
    }
}

/// What closing does: the spans named are ended at `time`, the others are
/// left as they are.
pub proof fn lemma_close_unfinished(spans: Map<u64, Span>, unfinished: Seq<u64>, time: u128)
    requires
        forall|i: int| 0 <= i < unfinished.len() ==> spans.contains_key(#[trigger] unfinished[i]),
    ensures
        close_unfinished(spans, unfinished, time).dom() == spans.dom(),
        forall|id: u64| #[trigger]
            spans.contains_key(id) ==> close_unfinished(spans, unfinished, time)[id] == (
            if unfinished.contains(id) {
                Span { end: time, ..spans[id] }
            } else {
                spans[id]
            }),
    decreases unfinished.len(),
{
    if unfinished.len() > 0 {
        let rest = unfinished.drop_last();
        let last = unfinished.last();
        lemma_close_unfinished(spans, rest, time);
        let before = close_unfinished(spans, rest, time);
        let after = close_unfinished(spans, unfinished, time);
        assert(spans.contains_key(last));
        assert(after.dom() =~= spans.dom());
        assert forall|id: u64| #[trigger] spans.contains_key(id) implies after[id] == (
        if unfinished.contains(id) {
            Span { end: time, ..spans[id] }
        } else {
            spans[id]
        }) by {
            if rest.contains(id) {
                let i = choose|i: int| 0 <= i < rest.len() && rest[i] == id;
                assert(unfinished[i] == id);
            }
            if unfinished.contains(id) && id != last {
                let i = choose|i: int| 0 <= i < unfinished.len() && unfinished[i] == id;
                assert(rest[i] == id);
            }
            assert(unfinished[unfinished.len() - 1] == last);
        }
    }
}

/// The spans that are open after `events`, innermost last, where each exit
/// closes the innermost open span; `None` where one does not.
pub open spec fn nesting(events: Seq<RawEvent>) -> Option<Seq<u64>>
    decreases events.len(),
{
    if events.len() == 0 {
        Some(Seq::empty())
    } else {
        match nesting(events.drop_last()) {
            None => None,
            Some(open) => match events.last() {
                RawEvent::Enter(id, _) => Some(open.push(id)),
                RawEvent::Exit(id, _) => if innermost(open) == Some(id) {
                    Some(open.drop_last())
                } else {
                    None
                },
                _ => Some(open),
            },
        }
    }
}

/// The time of an event that has one.
pub open spec fn time_of(event: RawEvent) -> Option<u128> {
    match event {
        RawEvent::Enter(_, time) => Some(time),
        RawEvent::Exit(_, time) => Some(time),
        _ => None,
    }
}

/// Whether no event bears an earlier time than an event before it.
pub open spec fn in_time_order(events: Seq<RawEvent>) -> bool {
    forall|i: int, j: int|
        0 <= i < j < events.len() ==> (time_of(#[trigger] events[i]) matches Some(first) ==> (
        time_of(#[trigger] events[j]) matches Some(second) ==> first <= second))
}

/// Whether the span `id` is entered at the place `i` of `events`.
pub open spec fn enters_at(events: Seq<RawEvent>, i: int, id: u64) -> bool {
    0 <= i < events.len() && (events[i] matches RawEvent::Enter(entered, _) && entered == id)
}

/// Whether the span `id` is entered somewhere in `events`.
pub open spec fn enters(events: Seq<RawEvent>, id: u64) -> bool {
    exists|i: int| enters_at(events, i, id)
}

/// Whether no span is entered twice.
pub open spec fn entered_once(events: Seq<RawEvent>) -> bool {
    forall|i: int, j: int, id: u64|
        #![trigger enters_at(events, i, id), enters_at(events, j, id)]
        enters_at(events, i, id) && enters_at(events, j, id) ==> i == j
}

/// Whether the span `id` is created at the place `i` of `events`.
pub open spec fn creates_at(events: Seq<RawEvent>, i: int, id: u64) -> bool {
    0 <= i < events.len() && (events[i] matches RawEvent::NewSpan(created, _, _) && created == id)
}

/// Whether the span `id` is created or entered at the place `i` of `events`.
pub open spec fn names_at(events: Seq<RawEvent>, i: int, id: u64) -> bool {
    creates_at(events, i, id) || enters_at(events, i, id)
}

/// Whether the event at the place `i` labels a span that no event before it
/// has created or entered.
pub open spec fn labels_unknown(events: Seq<RawEvent>, i: int) -> bool {
    events[i] matches RawEvent::StrField(id, field, _) && field@ == LABEL_FIELD@ && !(exists|
        j: int,
    |
        0 <= j < i && #[trigger] names_at(events, j, id))
}

/// Whether each span that is created is entered as well, and each span that
/// is labelled has been created or entered before.
pub open spec fn every_span_entered(events: Seq<RawEvent>) -> bool {
    &&& forall|i: int, id: u64| #[trigger] creates_at(events, i, id) ==> enters(events, id)
    &&& forall|i: int| 0 <= i < events.len() ==> !#[trigger] labels_unknown(events, i)
}

/// Whether the span `id` is exited at the place `j` of `events`.
pub open spec fn exits_at(events: Seq<RawEvent>, j: int, id: u64) -> bool {
    0 <= j < events.len() && (events[j] matches RawEvent::Exit(exited, _) && exited == id)
}

/// Whether the span `id` is entered at the time `time` at the place `i`.
pub open spec fn enters_at_time(events: Seq<RawEvent>, i: int, id: u64, time: u128) -> bool {
    0 <= i < events.len() && events[i] == RawEvent::Enter(id, time)
}

/// Whether the span `id` is exited at the time `time` at the place `j`.
pub open spec fn exits_at_time(events: Seq<RawEvent>, j: int, id: u64, time: u128) -> bool {
    0 <= j < events.len() && events[j] == RawEvent::Exit(id, time)
}

/// How many of the events are entries.
pub open spec fn count_enters(events: Seq<RawEvent>) -> nat
    decreases events.len(),
{
    if events.len() == 0 {
        0
    } else if events.last() is Enter {
        count_enters(events.drop_last()) + 1
    } else {
        count_enters(events.drop_last())
    }
}

/// How many of the events are exits.
pub open spec fn count_exits(events: Seq<RawEvent>) -> nat
    decreases events.len(),
{
    if events.len() == 0 {
        0
    } else if events.last() is Exit {
        count_exits(events.drop_last()) + 1
    } else {
        count_exits(events.drop_last())
    }
}

/// The earliest time of an event, and the latest time there is where no
/// event has a time.
pub open spec fn earliest_time(events: Seq<RawEvent>) -> u128
    decreases events.len(),
{
    if events.len() == 0 {
        u128::MAX
    } else {
        match time_of(events.last()) {
            Some(time) => earlier(earliest_time(events.drop_last()), time),
            None => earliest_time(events.drop_last()),
        }
    }
}

/// The latest time of an event, and 0 where no event has a time.
pub open spec fn latest_time(events: Seq<RawEvent>) -> u128
    decreases events.len(),
{
    if events.len() == 0 {
        0
    } else {
        match time_of(events.last()) {
            Some(time) => later(latest_time(events.drop_last()), time),
            None => latest_time(events.drop_last()),
        }
    }
}

/// The time of each event lies between the earliest and the latest.
pub proof fn lemma_time_bounds(events: Seq<RawEvent>, i: int)
    requires
        0 <= i < events.len(),
        time_of(events[i]) is Some,
    ensures
        earliest_time(events) <= time_of(events[i])->0 <= latest_time(events),
    decreases events.len(),
{
    if i < events.len() - 1 {
        lemma_time_bounds(events.drop_last(), i);
    }
}

/// What holds after the first `n` events of a thread that nests its spans;
/// `entered_at` and `exited_at` give the places at which the spans were
/// entered and exited so far.
spec fn orderly(
    events: Seq<RawEvent>,
    n: int,
    state: ReplayState,
    entered_at: Map<u64, int>,
    exited_at: Map<u64, int>,
) -> bool {
    &&& nesting(events.take(n)) == Some(state.active)
    &&& state.unfinished.len() == 0
    &&& state.spans.dom().finite()
    &&& entered_at.dom().finite()
    &&& entered_at.dom().len() == state.entered
    &&& state.entered == count_enters(events.take(n))
    &&& state.exited == count_exits(events.take(n))
    &&& state.entered == state.exited + state.active.len()
    &&& state.min_time == earliest_time(events.take(n))
    &&& state.max_time == latest_time(events.take(n))
    &&& state.active.no_duplicates()
    &&& forall|i: int, id: u64|
        0 <= i < n && #[trigger] enters_at(events, i, id) ==> entered_at.contains_key(id)
            && entered_at[id] == i
    &&& forall|j: int, id: u64|
        0 <= j < n && #[trigger] exits_at(events, j, id) ==> exited_at.contains_key(id)
            && exited_at[id] == j
    &&& forall|id: u64| #[trigger] entered_at.contains_key(id) ==> noted(events, n, state, entered_at, exited_at, id)
    &&& forall|id: u64| exited_at.contains_key(id) ==> entered_at.contains_key(id)
    &&& forall|k: int|
        0 <= k < state.active.len() ==> entered_at.contains_key(#[trigger] state.active[k])
    &&& forall|id: u64| #[trigger]
        state.spans.contains_key(id) ==> {
            &&& state.spans[id].id == id
            &&& entered_at.contains_key(id) || (state.spans[id].end == 0 && exists|i: int|
                0 <= i < n && #[trigger] creates_at(events, i, id))
        }
}

/// What holds of a span that was entered among the first `n` events.
spec fn noted(
    events: Seq<RawEvent>,
    n: int,
    state: ReplayState,
    entered_at: Map<u64, int>,
    exited_at: Map<u64, int>,
    id: u64,
) -> bool {
    &&& 0 <= entered_at[id] < n
    &&& state.spans.contains_key(id)
    &&& enters_at_time(events, entered_at[id], id, state.spans[id].start)
    &&& state.spans[id].execution_thread == 0
    &&& if exited_at.contains_key(id) {
        &&& entered_at[id] < exited_at[id] < n
        &&& exits_at_time(events, exited_at[id], id, state.spans[id].end)
        &&& !state.active.contains(id)
    } else {
        state.active.contains(id) && state.spans[id].end == 0
    }
}

/// Where the spans nest in a log, they nest in what comes first of it.
proof fn lemma_nesting_starts(events: Seq<RawEvent>, n: int)
    requires
        0 <= n <= events.len(),
        nesting(events) is Some,
    ensures
        nesting(events.take(n)) is Some,
    decreases events.len() - n,
{
    if n < events.len() {
        lemma_nesting_starts(events, n + 1);
        assert(events.take(n + 1).drop_last() == events.take(n));
    } else {
        assert(events.take(n) == events);
    }
}

proof fn lemma_orderly(events: Seq<RawEvent>, n: int) -> (at: (Map<u64, int>, Map<u64, int>))
    requires
        0 <= n <= events.len(),
        every_span_entered(events),
        nesting(events) is Some,
        entered_once(events),
    ensures
        replay_thread(initial_state(), 0, events.take(n)) matches Ok(state) && orderly(
            events,
            n,
            state,
            at.0,
            at.1,
        ),
    decreases n,
{
    if n == 0 {
        assert(events.take(0) =~= Seq::<RawEvent>::empty());
        (Map::empty(), Map::empty())
    } else {
        let last = n - 1;
        let event = events[last];
        let before = lemma_orderly(events, last);
        assert(events.take(n).drop_last() == events.take(last));
        assert(events.take(n).last() == event);
        lemma_nesting_starts(events, n);
        let state = replay_thread(initial_state(), 0, events.take(last))->Ok_0;
        assert(!labels_unknown(events, last));
        match event {
            RawEvent::Enter(id, time) => {
                lemma_enter_step(events, n, state, before.0, before.1);
                (before.0.insert(id, last), before.1)
            },
            RawEvent::Exit(id, time) => {
                lemma_exit_step(events, n, state, before.0, before.1);
                (before.0, before.1.insert(id, last))
            },
            RawEvent::NewSpan(id, _, _) => {
                let after = replay_step(state, 0, event)->Ok_0;
                assert(creates_at(events, last, id));
                assert(after.spans.dom() =~= state.spans.dom().insert(id));
                lemma_untimed_step(events, n, state, after, before.0, before.1, Some(id));
                before
            },
            RawEvent::StrField(id, field, _) => {
                if field@ == LABEL_FIELD@ {
                    let j = choose|j: int| 0 <= j < last && #[trigger] names_at(events, j, id);
                    if enters_at(events, j, id) {
                        assert(before.0.contains_key(id));
                        assert(noted(events, last, state, before.0, before.1, id));
                    } else {
                        lemma_created_is_known(events, last, j, id);
                    }
                }
                let after = replay_step(state, 0, event)->Ok_0;
                assert(after.spans.dom() =~= state.spans.dom());
                lemma_untimed_step(events, n, state, after, before.0, before.1, None);
                before
            },
        }
    }
}

/// What an event that is neither an entry nor an exit leaves as it is.
proof fn lemma_places_kept(
    events: Seq<RawEvent>,
    n: int,
    entered_at: Map<u64, int>,
    exited_at: Map<u64, int>,
)
    requires
        0 < n <= events.len(),
        !(events[n - 1] is Enter),
        !(events[n - 1] is Exit),
        forall|i: int, id: u64|
            0 <= i < n - 1 && #[trigger] enters_at(events, i, id) ==> entered_at.contains_key(id)
                && entered_at[id] == i,
        forall|j: int, id: u64|
            0 <= j < n - 1 && #[trigger] exits_at(events, j, id) ==> exited_at.contains_key(id)
                && exited_at[id] == j,
    ensures
        forall|i: int, id: u64|
            0 <= i < n && #[trigger] enters_at(events, i, id) ==> entered_at.contains_key(id)
                && entered_at[id] == i,
        forall|j: int, id: u64|
            0 <= j < n && #[trigger] exits_at(events, j, id) ==> exited_at.contains_key(id)
                && exited_at[id] == j,
{
}

/// An entry keeps the order.
proof fn lemma_enter_step(
    events: Seq<RawEvent>,
    n: int,
    state: ReplayState,
    entered_at: Map<u64, int>,
    exited_at: Map<u64, int>,
)
    requires
        0 < n <= events.len(),
        entered_once(events),
        orderly(events, n - 1, state, entered_at, exited_at),
        events[n - 1] is Enter,
        nesting(events.take(n)) is Some,
        events.take(n).drop_last() == events.take(n - 1),
        events.take(n).last() == events[n - 1],
    ensures
        replay_step(state, 0, events[n - 1]) matches Ok(after) && orderly(
            events,
            n,
            after,
            entered_at.insert(events[n - 1]->Enter_0, n - 1),
            exited_at,
        ),
{
    let last = n - 1;
    let event = events[last];
    let id = event->Enter_0;
    let time = event->Enter_1;
    let after = replay_step(state, 0, event)->Ok_0;
    let entered_after = entered_at.insert(id, last);
    assert(enters_at(events, last, id));
    assert(!entered_at.contains_key(id)) by {
        if entered_at.contains_key(id) {
            assert(noted(events, last, state, entered_at, exited_at, id));
            assert(enters_at(events, entered_at[id], id) && enters_at(events, last, id));
        }
    }
    assert(!exited_at.contains_key(id));
    assert(!state.active.contains(id)) by {
        if state.active.contains(id) {
            let k = choose|k: int| 0 <= k < state.active.len() && state.active[k] == id;
            assert(entered_at.contains_key(state.active[k]));
        }
    }
    assert(entered_after.dom() =~= entered_at.dom().insert(id));
    assert(after.spans.dom() =~= state.spans.dom().insert(id));
    assert(after.active.no_duplicates()) by {
        assert forall|a: int, b: int|
            0 <= a < after.active.len() && 0 <= b < after.active.len() && a != b implies after.active[a]
            != after.active[b] by {
            if a < state.active.len() {
                assert(state.active.contains(state.active[a]));
            }
            if b < state.active.len() {
                assert(state.active.contains(state.active[b]));
            }
        }
    }
    assert forall|i: int, other: u64|
        0 <= i < n && #[trigger] enters_at(events, i, other) implies entered_after.contains_key(
        other,
    ) && entered_after[other] == i by {
        if i < last {
            assert(entered_at.contains_key(other) && entered_at[other] == i);
            assert(other != id);
        }
    }
    assert forall|j: int, other: u64|
        0 <= j < n && #[trigger] exits_at(events, j, other) implies exited_at.contains_key(other)
        && exited_at[other] == j by {
        assert(j < last);
    }
    assert(after.active[state.active.len() as int] == id);
    assert forall|other: u64| #[trigger] entered_after.contains_key(other) implies noted(
        events,
        n,
        after,
        entered_after,
        exited_at,
        other,
    ) by {
        if other != id {
            assert(noted(events, last, state, entered_at, exited_at, other));
            if state.active.contains(other) {
                let k = choose|k: int| 0 <= k < state.active.len() && state.active[k] == other;
                assert(after.active[k] == other);
            }
            if after.active.contains(other) {
                let k = choose|k: int| 0 <= k < after.active.len() && after.active[k] == other;
                assert(state.active[k] == other);
            }
        } else {
            if state.spans.contains_key(id) {
                assert(state.spans[id].end == 0);
            }
        }
    }
    assert forall|k: int| 0 <= k < after.active.len() implies entered_after.contains_key(
        #[trigger] after.active[k],
    ) by {
        if k < state.active.len() {
            assert(entered_at.contains_key(state.active[k]));
        }
    }
    assert forall|other: u64| #[trigger] after.spans.contains_key(other) implies {
        &&& after.spans[other].id == other
        &&& entered_after.contains_key(other) || (after.spans[other].end == 0 && exists|i: int|
            0 <= i < n && #[trigger] creates_at(events, i, other))
    } by {
        if other != id {
            assert(state.spans.contains_key(other));
            if !entered_at.contains_key(other) {
                let i = choose|i: int| 0 <= i < last && #[trigger] creates_at(events, i, other);
                assert(0 <= i < n && creates_at(events, i, other));
            }
        } else if state.spans.contains_key(id) {
            assert(state.spans[id].id == id);
        }
    }
}

/// An exit of the innermost open span keeps the order.
proof fn lemma_exit_step(
    events: Seq<RawEvent>,
    n: int,
    state: ReplayState,
    entered_at: Map<u64, int>,
    exited_at: Map<u64, int>,
)
    requires
        0 < n <= events.len(),
        orderly(events, n - 1, state, entered_at, exited_at),
        events[n - 1] is Exit,
        nesting(events.take(n)) is Some,
        events.take(n).drop_last() == events.take(n - 1),
        events.take(n).last() == events[n - 1],
    ensures
        replay_step(state, 0, events[n - 1]) matches Ok(after) && orderly(
            events,
            n,
            after,
            entered_at,
            exited_at.insert(events[n - 1]->Exit_0, n - 1),
        ),
{
    let last = n - 1;
    let event = events[last];
    let id = event->Exit_0;
    let time = event->Exit_1;
    assert(innermost(state.active) == Some(id));
    let top = state.active.len() - 1;
    assert(state.active[top] == id);
    assert(state.active.contains(id));
    assert(entered_at.contains_key(state.active[top]));
    assert(noted(events, last, state, entered_at, exited_at, id));
    assert(!exited_at.contains_key(id));
    let after = replay_step(state, 0, event)->Ok_0;
    let exited_after = exited_at.insert(id, last);
    assert(after.spans.dom() =~= state.spans.dom());
    assert(exits_at(events, last, id));
    assert(!after.active.contains(id)) by {
        if after.active.contains(id) {
            let k = choose|k: int| 0 <= k < after.active.len() && after.active[k] == id;
            assert(state.active[k] == id && state.active[top] == id);
        }
    }
    assert(after.active.no_duplicates());
    assert forall|i: int, other: u64|
        0 <= i < n && #[trigger] enters_at(events, i, other) implies entered_at.contains_key(other)
        && entered_at[other] == i by {
        assert(i < last);
    }
    assert forall|j: int, other: u64|
        0 <= j < n && #[trigger] exits_at(events, j, other) implies exited_after.contains_key(
        other,
    ) && exited_after[other] == j by {
        if j < last {
            assert(exited_at.contains_key(other) && exited_at[other] == j);
            assert(other != id);
        }
    }
    assert forall|other: u64| #[trigger] entered_at.contains_key(other) implies noted(
        events,
        n,
        after,
        entered_at,
        exited_after,
        other,
    ) by {
        assert(noted(events, last, state, entered_at, exited_at, other));
        if other != id {
            if state.active.contains(other) {
                let k = choose|k: int| 0 <= k < state.active.len() && state.active[k] == other;
                assert(after.active[k] == other);
            }
            if after.active.contains(other) {
                let k = choose|k: int| 0 <= k < after.active.len() && after.active[k] == other;
                assert(state.active[k] == other);
            }
        }
    }
    assert forall|k: int| 0 <= k < after.active.len() implies entered_at.contains_key(
        #[trigger] after.active[k],
    ) by {
        assert(entered_at.contains_key(state.active[k]));
    }
    assert forall|other: u64| #[trigger] after.spans.contains_key(other) implies {
        &&& after.spans[other].id == other
        &&& entered_at.contains_key(other) || (after.spans[other].end == 0 && exists|i: int|
            0 <= i < n && #[trigger] creates_at(events, i, other))
    } by {
        assert(state.spans.contains_key(other));
        if !entered_at.contains_key(other) {
            let i = choose|i: int| 0 <= i < last && #[trigger] creates_at(events, i, other);
            assert(0 <= i < n && creates_at(events, i, other));
        }
    }
}

/// A span that one of the first `n` events creates is known after them.
proof fn lemma_created_is_known(events: Seq<RawEvent>, n: int, j: int, id: u64)
    requires
        0 <= j < n <= events.len(),
        creates_at(events, j, id),
        replay_thread(initial_state(), 0, events.take(n)) is Ok,
    ensures
        (replay_thread(initial_state(), 0, events.take(n))->Ok_0).spans.contains_key(id),
    decreases n,
{
    assert(events.take(n).drop_last() == events.take(n - 1));
    assert(events.take(n).last() == events[n - 1]);
    if j < n - 1 {
        lemma_created_is_known(events, n - 1, j, id);
    }
}

/// An event without a time that changes spans in their names only, or
/// brings in the span `created`, keeps the order.
proof fn lemma_untimed_step(
    events: Seq<RawEvent>,
    n: int,
    state: ReplayState,
    after: ReplayState,
    entered_at: Map<u64, int>,
    exited_at: Map<u64, int>,
    created: Option<u64>,
)
    requires
        0 < n <= events.len(),
        orderly(events, n - 1, state, entered_at, exited_at),
        time_of(events[n - 1]) is None,
        nesting(events.take(n)) == Some(state.active),
        events.take(n).drop_last() == events.take(n - 1),
        events.take(n).last() == events[n - 1],
        created matches Some(id) ==> creates_at(events, n - 1, id) && after.spans[id].id == id && (
        !state.spans.contains_key(id) ==> after.spans[id].end == 0),
        after.spans.dom() == (match created {
            Some(id) => state.spans.dom().insert(id),
            None => state.spans.dom(),
        }),
        forall|id: u64|
            state.spans.contains_key(id) ==> (#[trigger] after.spans[id]).start
                == state.spans[id].start && after.spans[id].end == state.spans[id].end
                && after.spans[id].execution_thread == state.spans[id].execution_thread
                && after.spans[id].id == state.spans[id].id,
        after.active == state.active,
        after.unfinished == state.unfinished,
        after.entered == state.entered,
        after.exited == state.exited,
        after.min_time == state.min_time,
        after.max_time == state.max_time,
    ensures
        orderly(events, n, after, entered_at, exited_at),
{
    let last = n - 1;
    lemma_places_kept(events, n, entered_at, exited_at);
    assert forall|id: u64| #[trigger] entered_at.contains_key(id) implies noted(
        events,
        n,
        after,
        entered_at,
        exited_at,
        id,
    ) by {
        assert(noted(events, last, state, entered_at, exited_at, id));
    }
    assert forall|id: u64| #[trigger] after.spans.contains_key(id) implies {
        &&& after.spans[id].id == id
        &&& entered_at.contains_key(id) || (after.spans[id].end == 0 && exists|i: int|
            0 <= i < n && #[trigger] creates_at(events, i, id))
    } by {
        if state.spans.contains_key(id) {
            if !entered_at.contains_key(id) {
                let i = choose|i: int| 0 <= i < last && #[trigger] creates_at(events, i, id);
                assert(0 <= i < n && creates_at(events, i, id));
            }
        } else {
            assert(creates_at(events, last, id));
        }
    }
}

/// A thread that enters each of its spans once and exits spans in the
/// reverse order of their entry gives one span for each span entered, under
/// its id. The spans are as many as the entries; each was exited or is left
/// unfinished. A span starts at the time of its entry and ends at the time
/// of its exit, which comes after its entry; a span that was not exited ends
/// at the latest time. All times are counted from the earliest.
pub proof fn lemma_well_nested_spans(events: Seq<RawEvent>)
    requires
        every_span_entered(events),
        nesting(events) is Some,
        entered_once(events),
    ensures
        reconstruct(seq![events]) matches Ok(found) && {
            &&& forall|id: u64| found.spans.contains_key(id) <==> enters(events, id)
            &&& forall|id: u64| #[trigger] found.spans.contains_key(id) ==> found.spans[id].id == id
            &&& found.spans.dom().finite()
            &&& found.spans.dom().len() == count_enters(events)
            &&& found.entered == count_enters(events)
            &&& found.exited == count_exits(events)
            &&& found.unfinished == nesting(events)->0.len()
            &&& found.entered == found.exited + found.unfinished
            &&& forall|i: int, id: u64, time: u128| #[trigger]
                enters_at_time(events, i, id, time) ==> found.spans[id].start == time
                    - earliest_time(events)
            &&& forall|j: int, id: u64, time: u128| #[trigger]
                exits_at_time(events, j, id, time) ==> found.spans[id].end == time - earliest_time(
                    events,
                )
            &&& forall|i: int, j: int, id: u64|
                #![trigger enters_at(events, i, id), exits_at(events, j, id)]
                enters_at(events, i, id) && exits_at(events, j, id) ==> i < j
            &&& forall|id: u64| #[trigger]
                found.spans.contains_key(id) ==> (nesting(events)->0.contains(id) <==> !exists|
                    j: int,
                | exits_at(events, j, id))
            &&& forall|id: u64| #[trigger]
                nesting(events)->0.contains(id) ==> found.spans.contains_key(id)
                    && found.spans[id].end == latest_time(events) - earliest_time(events)
        },
{
    let logs = seq![events];
    let n = events.len() as int;
    let at = lemma_orderly(events, n);
    let entered_at = at.0;
    let exited_at = at.1;
    assert(events.take(n) == events);
    assert(logs.drop_last() =~= Seq::<Seq<RawEvent>>::empty());
    assert(logs.last() == events);
    assert(replay_logs(logs.drop_last()) == Ok::<ReplayState, TraceError>(initial_state()));
    let replayed = replay_thread(initial_state(), 0, events)->Ok_0;
    let state = end_thread(replayed);
    assert(replay_logs(logs) == Ok::<ReplayState, TraceError>(state));
    assert(state.unfinished =~= replayed.active);
    // every span has been entered
    assert(state.spans.dom() =~= entered_at.dom()) by {
        assert forall|id: u64| state.spans.contains_key(id) implies entered_at.contains_key(
            id,
        ) by {
            if !entered_at.contains_key(id) {
                let i = choose|i: int| 0 <= i < n && #[trigger] creates_at(events, i, id);
                assert(creates_at(events, i, id));
                let j = choose|j: int| enters_at(events, j, id);
                assert(0 <= j < n && enters_at(events, j, id));
            }
        }
        assert forall|id: u64| entered_at.contains_key(id) implies state.spans.contains_key(
            id,
        ) by {
            assert(noted(events, n, replayed, entered_at, exited_at, id));
        }
    }
    assert forall|k: int| 0 <= k < state.unfinished.len() implies state.spans.contains_key(
        #[trigger] state.unfinished[k],
    ) by {
        assert(entered_at.contains_key(replayed.active[k]));
    }
    lemma_close_unfinished(state.spans, state.unfinished, state.max_time);
    let closed = close_unfinished(state.spans, state.unfinished, state.max_time);
    let earliest = earliest_time(events);
    let latest = latest_time(events);
    assert forall|id: u64| #[trigger] closed.contains_key(id) implies {
        &&& entered_at.contains_key(id)
        &&& closed[id].id == id
        &&& enters_at_time(events, entered_at[id], id, closed[id].start)
        &&& earliest <= closed[id].start
        &&& earliest <= closed[id].end
        &&& if exited_at.contains_key(id) {
            exits_at_time(events, exited_at[id], id, closed[id].end) && !replayed.active.contains(
                id,
            )
        } else {
            replayed.active.contains(id) && closed[id].end == latest
        }
    } by {
        assert(state.spans.contains_key(id));
        assert(noted(events, n, replayed, entered_at, exited_at, id));
        lemma_time_bounds(events, entered_at[id]);
        if exited_at.contains_key(id) {
            lemma_time_bounds(events, exited_at[id]);
        }
    }
    assert(none_before(closed, state.min_time));
    assert(rebase(closed, state.min_time).dom() =~= closed.dom());
    lemma_counts_balance(logs);
    let found = reconstruct(logs)->Ok_0;
    assert forall|id: u64| found.spans.contains_key(id) <==> enters(events, id) by {
        if enters(events, id) {
            let j = choose|j: int| enters_at(events, j, id);
            assert(0 <= j < n && enters_at(events, j, id));
        }
        if found.spans.contains_key(id) {
            assert(closed.contains_key(id));
            assert(enters_at(events, entered_at[id], id));
        }
    }
    assert forall|id: u64| #[trigger] found.spans.contains_key(id) implies found.spans[id].id
        == id by {
        assert(closed.contains_key(id));
    }
    assert forall|i: int, id: u64, time: u128| #[trigger]
        enters_at_time(events, i, id, time) implies found.spans[id].start == time - earliest by {
        assert(enters_at(events, i, id));
        assert(entered_at.contains_key(id) && entered_at[id] == i);
        assert(closed.contains_key(id));
    }
    assert forall|j: int, id: u64, time: u128| #[trigger]
        exits_at_time(events, j, id, time) implies found.spans[id].end == time - earliest by {
        assert(exits_at(events, j, id));
        assert(exited_at.contains_key(id) && exited_at[id] == j);
        assert(entered_at.contains_key(id));
        assert(closed.contains_key(id));
    }
    assert forall|i: int, j: int, id: u64|
        #![trigger enters_at(events, i, id), exits_at(events, j, id)]
        enters_at(events, i, id) && exits_at(events, j, id) implies i < j by {
        assert(entered_at.contains_key(id) && entered_at[id] == i);
        assert(exited_at.contains_key(id) && exited_at[id] == j);
        assert(noted(events, n, replayed, entered_at, exited_at, id));
    }
    assert forall|id: u64| #[trigger] found.spans.contains_key(id) implies (nesting(
        events,
    )->0.contains(id) <==> !exists|j: int| exits_at(events, j, id)) by {
        assert(closed.contains_key(id));
        if exited_at.contains_key(id) {
            assert(exits_at(events, exited_at[id], id));
        }
        if exists|j: int| exits_at(events, j, id) {
            let j = choose|j: int| exits_at(events, j, id);
            assert(0 <= j < n && exits_at(events, j, id));
        }
    }
    assert forall|id: u64| #[trigger] nesting(events)->0.contains(id) implies found.spans.contains_key(
        id,
    ) && found.spans[id].end == latest - earliest by {
        let k = choose|k: int| 0 <= k < replayed.active.len() && replayed.active[k] == id;
        assert(entered_at.contains_key(replayed.active[k]));
        assert(closed.contains_key(id));
    }
}

/// A thread that enters each of its spans once, exits spans in the reverse
/// order of their entry, and keeps its clock gives one span for each span
/// entered, none of which ends before it starts; each span entered is exited
/// or left unfinished, and the spans are as many as the entries.
pub proof fn lemma_well_nested_log(events: Seq<RawEvent>)
    requires
        every_span_entered(events),
        nesting(events) is Some,
        in_time_order(events),
        entered_once(events),
    ensures
        reconstruct(seq![events]) matches Ok(found) && {
            &&& forall|id: u64| found.spans.contains_key(id) <==> enters(events, id)
            &&& forall|id: u64| #[trigger]
                found.spans.contains_key(id) ==> found.spans[id].start <= found.spans[id].end
            &&& found.entered == found.exited + found.unfinished
            &&& found.entered == found.spans.dom().len()
        },
{
    lemma_well_nested_spans(events);
    let found = reconstruct(seq![events])->Ok_0;
    assert forall|id: u64| #[trigger] found.spans.contains_key(id) implies found.spans[id].start
        <= found.spans[id].end by {
        assert(enters(events, id));
        let i = choose|i: int| enters_at(events, i, id);
        assert(enters_at(events, i, id));
        let start = events[i]->Enter_1;
        assert(events[i] == RawEvent::Enter(id, start));
        assert(enters_at_time(events, i, id, start));
        lemma_time_bounds(events, i);
        if exists|j: int| exits_at(events, j, id) {
            let j = choose|j: int| exits_at(events, j, id);
            let end = events[j]->Exit_1;
            assert(exits_at_time(events, j, id, end));
            assert(enters_at(events, i, id) && exits_at(events, j, id));
            assert(time_of(events[i]) == Some(start) && time_of(events[j]) == Some(end));
        } else {
            assert(nesting(events)->0.contains(id));
        }
    }
}

/// The earliest time of an event of any thread.
pub open spec fn earliest_in(logs: Seq<Seq<RawEvent>>) -> u128
    decreases logs.len(),
{
    if logs.len() == 0 {
        u128::MAX
    } else {
        earlier(earliest_in(logs.drop_last()), earliest_time(logs.last()))
    }
}

/// The latest time of an event of any thread.
pub open spec fn latest_in(logs: Seq<Seq<RawEvent>>) -> u128
    decreases logs.len(),
{
    if logs.len() == 0 {
        0
    } else {
        later(latest_in(logs.drop_last()), latest_time(logs.last()))
    }
}

proof fn lemma_thread_times(state: ReplayState, thread: usize, events: Seq<RawEvent>)
    ensures
        replay_thread(state, thread, events) matches Ok(after) ==> after.min_time == earlier(
            state.min_time,
            earliest_time(events),
        ) && after.max_time == later(state.max_time, latest_time(events)),
    decreases events.len(),
{
    if events.len() > 0 {
        lemma_thread_times(state, thread, events.drop_last());
    }
}

proof fn lemma_logs_times(logs: Seq<Seq<RawEvent>>)
    ensures
        replay_logs(logs) matches Ok(state) ==> state.min_time == earliest_in(logs)
            && state.max_time == latest_in(logs),
    decreases logs.len(),
{
    if logs.len() > 0 {
        lemma_logs_times(logs.drop_last());
        if let Ok(before) = replay_logs(logs.drop_last()) {
            lemma_thread_times(before, (logs.len() - 1) as usize, logs.last());
        }
    }
}

/// In every reconstruction, the times are counted from the earliest time of
/// an event of any thread, and the spans left open are closed at the latest
/// one.
pub proof fn lemma_times_from_earliest(logs: Seq<Seq<RawEvent>>)
    ensures
        reconstruct(logs) matches Ok(found) ==> found.spans == rebase(
            close_unfinished(
                replay_logs(logs)->Ok_0.spans,
                replay_logs(logs)->Ok_0.unfinished,
                latest_in(logs),
            ),
            earliest_in(logs),
        ),
{
    lemma_logs_times(logs);
}

/// What holds of a replay between two events, of the spans `entered` so far:
/// a span that was never entered starts at 0, and unless a span was entered
/// twice, one of the spans starts at the earliest time.
spec fn grounded(state: ReplayState, entered: Set<u64>) -> bool {
    &&& entered.finite()
    &&& entered.len() <= state.entered
    &&& forall|id: u64| entered.contains(id) ==> state.spans.contains_key(id)
    &&& forall|id: u64| #[trigger]
        state.spans.contains_key(id) && !entered.contains(id) ==> state.spans[id].start == 0
    &&& state.entered == 0 ==> state.min_time == u128::MAX
    &&& state.entered > 0 ==> state.entered > entered.len() || exists|id: u64|
        entered.contains(id) && (#[trigger] state.spans[id]).start == state.min_time
}

/// Whether a thread with an open span has met the time of an event.
spec fn timed(events: Seq<RawEvent>, state: ReplayState) -> bool {
    state.active.len() > 0 ==> state.entered > 0 && exists|i: int|
        0 <= i < events.len() && (time_of(#[trigger] events[i]) matches Some(time)
            && state.min_time <= time)
}

proof fn lemma_thread_grounded(
    state: ReplayState,
    thread: usize,
    events: Seq<RawEvent>,
    entered: Set<u64>,
) -> (entered_after: Set<u64>)
    requires
        grounded(state, entered),
        state.active.len() == 0,
        in_time_order(events),
    ensures
        replay_thread(state, thread, events) matches Ok(after) ==> grounded(after, entered_after)
            && timed(events, after),
    decreases events.len(),
{
    if events.len() == 0 {
        entered
    } else {
        let before = events.drop_last();
        let event = events.last();
        let last = events.len() - 1;
        assert(forall|i: int| 0 <= i < before.len() ==> before[i] == events[i]);
        assert(in_time_order(before));
        let entered_before = lemma_thread_grounded(state, thread, before, entered);
        match replay_thread(state, thread, before) {
            Err(_) => entered,
            Ok(middle) => match replay_step(middle, thread, event) {
                Err(_) => entered,
                Ok(after) => {
                    assert(events[last] == event);
                    match event {
                        RawEvent::Enter(id, time) => {
                            let entered_after = entered_before.insert(id);
                            assert(time_of(events[last]) == Some(time));
                            if middle.entered > 0 && middle.entered == entered_before.len() {
                                let witness = choose|w: u64|
                                    entered_before.contains(w) && (#[trigger] middle.spans[w]).start
                                        == middle.min_time;
                                if entered_before.contains(id) {
                                } else if time < middle.min_time {
                                    assert(entered_after.contains(id) && after.spans[id].start
                                        == after.min_time);
                                } else {
                                    assert(entered_after.contains(witness)
                                        && after.spans[witness].start == after.min_time);
                                }
                            } else if middle.entered == 0 {
                                assert(entered_after.contains(id) && after.spans[id].start
                                    == after.min_time);
                            }
                            entered_after
                        },
                        RawEvent::Exit(id, time) => {
                            let i = choose|i: int|
                                0 <= i < before.len() && (time_of(#[trigger] before[i]) matches Some(
                                    met,
                                ) && middle.min_time <= met);
                            assert(time_of(events[i]) is Some);
                            assert(time_of(events[last]) == Some(time));
                            assert(after.min_time == middle.min_time);
                            if middle.entered > entered_before.len() {
                            } else {
                                let witness = choose|w: u64|
                                    entered_before.contains(w) && (#[trigger] middle.spans[w]).start
                                        == middle.min_time;
                                assert(middle.spans.contains_key(witness));
                                assert(entered_before.contains(witness)
                                    && after.spans[witness].start == after.min_time);
                            }
                            entered_before
                        },
                        RawEvent::NewSpan(id, _, _) => {
                            if middle.active.len() > 0 {
                                let i = choose|i: int|
                                    0 <= i < before.len() && (time_of(
                                        #[trigger] before[i],
                                    ) matches Some(met) && middle.min_time <= met);
                                assert(time_of(events[i]) is Some);
                            }
                            if middle.entered > 0 && middle.entered == entered_before.len() {
                                let witness = choose|w: u64|
                                    entered_before.contains(w) && (#[trigger] middle.spans[w]).start
                                        == middle.min_time;
                                assert(entered_before.contains(witness)
                                    && after.spans[witness].start == after.min_time);
                            }
                            entered_before
                        },
                        RawEvent::StrField(id, _, _) => {
                            if middle.active.len() > 0 {
                                let i = choose|i: int|
                                    0 <= i < before.len() && (time_of(
                                        #[trigger] before[i],
                                    ) matches Some(met) && middle.min_time <= met);
                                assert(time_of(events[i]) is Some);
                            }
                            if middle.entered > 0 && middle.entered == entered_before.len() {
                                let witness = choose|w: u64|
                                    entered_before.contains(w) && (#[trigger] middle.spans[w]).start
                                        == middle.min_time;
                                assert(entered_before.contains(witness)
                                    && after.spans[witness].start == after.min_time);
                            }
                            entered_before
                        },
                    }
                },
            },
        }
    }
}

proof fn lemma_logs_grounded(logs: Seq<Seq<RawEvent>>) -> (entered: Set<u64>)
    requires
        forall|thread: int| 0 <= thread < logs.len() ==> in_time_order(#[trigger] logs[thread]),
    ensures
        replay_logs(logs) matches Ok(state) ==> grounded(state, entered) && state.active.len()
            == 0,
    decreases logs.len(),
{
    if logs.len() == 0 {
        Set::empty()
    } else {
        let rest = logs.drop_last();
        assert(forall|thread: int| 0 <= thread < rest.len() ==> rest[thread] == logs[thread]);
        let entered_before = lemma_logs_grounded(rest);
        match replay_logs(rest) {
            Err(_) => Set::empty(),
            Ok(before) => lemma_thread_grounded(
                before,
                (logs.len() - 1) as usize,
                logs.last(),
                entered_before,
            ),
        }
    }
}

/// Closing leaves every start as it is; a span that it brings in starts at 0.
proof fn lemma_close_keeps_starts(spans: Map<u64, Span>, unfinished: Seq<u64>, time: u128)
    requires
        spans.dom().finite(),
    ensures
        close_unfinished(spans, unfinished, time).dom().finite(),
        forall|id: u64|
            spans.contains_key(id) ==> close_unfinished(spans, unfinished, time).contains_key(id),
        forall|id: u64| #[trigger]
            close_unfinished(spans, unfinished, time).contains_key(id) ==> close_unfinished(
                spans,
                unfinished,
                time,
            )[id].start == (if spans.contains_key(id) {
                spans[id].start
            } else {
                0
            }),
    decreases unfinished.len(),
{
    if unfinished.len() > 0 {
        lemma_close_keeps_starts(spans, unfinished.drop_last(), time);
    }
}

/// The spans of a replay are finitely many.
proof fn lemma_thread_finite(state: ReplayState, thread: usize, events: Seq<RawEvent>)
    requires
        state.spans.dom().finite(),
    ensures
        replay_thread(state, thread, events) matches Ok(after) ==> after.spans.dom().finite(),
    decreases events.len(),
{
    if events.len() > 0 {
        lemma_thread_finite(state, thread, events.drop_last());
    }
}

proof fn lemma_logs_finite(logs: Seq<Seq<RawEvent>>)
    ensures
        replay_logs(logs) matches Ok(state) ==> state.spans.dom().finite(),
    decreases logs.len(),
{
    if logs.len() > 0 {
        lemma_logs_finite(logs.drop_last());
        if let Ok(before) = replay_logs(logs.drop_last()) {
            lemma_thread_finite(before, (logs.len() - 1) as usize, logs.last());
        }
    }
}

/// The spans that logs amount to are finitely many.
pub proof fn lemma_spans_finite(logs: Seq<Seq<RawEvent>>)
    ensures
        replay_logs(logs) matches Ok(state) ==> close_unfinished(
            state.spans,
            state.unfinished,
            state.max_time,
        ).dom().finite(),
{
    lemma_logs_finite(logs);
    if let Ok(state) = replay_logs(logs) {
        lemma_close_keeps_starts(state.spans, state.unfinished, state.max_time);
    }
}

/// Where every thread keeps its clock, the earliest span of a reconstruction
/// starts at 0.
pub proof fn lemma_rebased_to_zero(logs: Seq<Seq<RawEvent>>)
    requires
        forall|thread: int| 0 <= thread < logs.len() ==> in_time_order(#[trigger] logs[thread]),
    ensures
        reconstruct(logs) matches Ok(found) ==> (found.spans.dom().len() > 0 ==> exists|id: u64|
            found.spans.contains_key(id) && (#[trigger] found.spans[id]).start == 0),
{
    if let Ok(found) = reconstruct(logs) {
        let state = replay_logs(logs)->Ok_0;
        let entered = lemma_logs_grounded(logs);
        lemma_logs_finite(logs);
        lemma_close_keeps_starts(state.spans, state.unfinished, state.max_time);
        let closed = close_unfinished(state.spans, state.unfinished, state.max_time);
        assert(found.spans.dom() =~= closed.dom());
        if found.spans.dom().len() > 0 {
            if state.entered > entered.len() {
                if forall|id: u64| closed.contains_key(id) ==> entered.contains(id) {
                    assert(closed.dom().subset_of(entered));
                    vstd::set_lib::lemma_len_subset(closed.dom(), entered);
                }
                let stray = choose|id: u64| closed.contains_key(id) && !entered.contains(id);
                assert(closed.contains_key(stray));
                assert(closed[stray].start == 0);
                assert(found.spans.contains_key(stray) && found.spans[stray].start == 0);
            } else {
                let first = choose|id: u64|
                    entered.contains(id) && (#[trigger] state.spans[id]).start == state.min_time;
                assert(closed.contains_key(first));
                assert(found.spans.contains_key(first) && found.spans[first].start == 0);
            }
        }
    }
}

} // verus!
