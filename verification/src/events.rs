//! Events, the places they are stored into, and the replay that turns them
//! into spans.
use crate::spans::Span;
use crate::storage::Storage;
use crate::text::same_text;
use std::collections::HashMap;
use vstd::prelude::*;

verus! {

/// What a thread writes in its log.
#[derive(Clone, Copy, Debug, PartialEq, Eq)]
pub enum RawEvent {
    /// A span was created: its id, its name, and its parent or 0 for the
    /// span that is open on the creating thread.
    NewSpan(u64, &'static str, u64),
    /// A string was attached to a span: the span's id, the field's name, the
    /// value.
    StrField(u64, &'static str, &'static str),
    /// A span was entered: its id and the time.
    Enter(u64, u128),
    /// A span was exited: its id and the time.
    Exit(u64, u128),
}

/// Why a set of logs cannot be turned into spans.
#[derive(Clone, Copy, Debug, PartialEq, Eq, Structural)]
pub enum TraceError {
    /// The span was exited on another thread than the one that entered it.
    ExitOnOtherThread(u64),
    /// The span was exited while it was not the innermost open span of its
    /// thread.
    ExitOutOfOrder(u64),
    /// A label was attached to a span that no earlier event speaks of.
    LabelOnUnknownSpan(u64),
    /// The spans are not as many as the times a span was entered.
    SpanCountMismatch,
    /// A span was never entered, so that it lies before the earliest time
    /// recorded.
    TimeBeforeOrigin,
}

/// The only field of a span that the replay reads.
pub const LABEL_FIELD: &'static str = "label";

/// Where a replay stands between two events.
#[verifier::ext_equal]
pub struct ReplayState {
    /// The spans met so far.
    pub spans: Map<u64, Span>,
    /// The spans open on the thread under replay, innermost last.
    pub active: Seq<u64>,
    /// The spans left open by the threads replayed before.
    pub unfinished: Seq<u64>,
    /// How many times a span was entered.
    pub entered: nat,
    /// How many times a span was exited.
    pub exited: nat,
    /// The earliest time met.
    pub min_time: u128,
    /// The latest time met.
    pub max_time: u128,
}

/// The state before the first event.
pub open spec fn initial_state() -> ReplayState {
    ReplayState {
        spans: Map::empty(),
        active: Seq::empty(),
        unfinished: Seq::empty(),
        entered: 0,
        exited: 0,
        min_time: u128::MAX,
        max_time: 0,
    }
}

/// The span `id` as far as known: spans come into being when first named.
pub open spec fn span_or_blank(spans: Map<u64, Span>, id: u64) -> Span {
    if spans.contains_key(id) {
        spans[id]
    } else {
        Span::blank(id)
    }
}

/// The innermost open span, if any.
pub open spec fn innermost(active: Seq<u64>) -> Option<u64> {
    if active.len() > 0 {
        Some(active.last())
    } else {
        None
    }
}

pub open spec fn earlier(a: u128, b: u128) -> u128 {
    if a <= b {
        a
    } else {
        b
    }
}

pub open spec fn later(a: u128, b: u128) -> u128 {
    if a >= b {
        a
    } else {
        b
    }
}

/// What one event of thread `thread` makes of the state.
pub open spec fn replay_step(state: ReplayState, thread: usize, event: RawEvent) -> Result<
    ReplayState,
    TraceError,
> {
    match event {
        RawEvent::NewSpan(id, name, parent) => {
            let span = Span {
                name,
                parent: if parent == 0 {
                    innermost(state.active)
                } else {
                    Some(parent)
                },
                creation_thread: thread,
                ..span_or_blank(state.spans, id)
            };
            Ok(ReplayState { spans: state.spans.insert(id, span), ..state })
        },
        RawEvent::Enter(id, time) => {
            let span = Span {
                start: time,
                execution_thread: thread,
                ..span_or_blank(state.spans, id)
            };
            Ok(
                ReplayState {
                    spans: state.spans.insert(id, span),
                    active: state.active.push(id),
                    entered: state.entered + 1,
                    min_time: earlier(state.min_time, time),
                    max_time: later(state.max_time, time),
                    ..state
                },
            )
        },
        RawEvent::Exit(id, time) => {
            let known = span_or_blank(state.spans, id);
            if known.execution_thread != thread {
                Err(TraceError::ExitOnOtherThread(id))
            } else if innermost(state.active) != Some(id) {
                Err(TraceError::ExitOutOfOrder(id))
            } else {
                Ok(
                    ReplayState {
                        spans: state.spans.insert(id, Span { end: time, ..known }),
                        active: state.active.drop_last(),
                        exited: state.exited + 1,
                        min_time: earlier(state.min_time, time),
                        max_time: later(state.max_time, time),
                        ..state
                    },
                )
            }
        },
        RawEvent::StrField(id, field, value) => {
            if field@ != LABEL_FIELD@ {
                Ok(state)
            } else if state.spans.contains_key(id) {
                Ok(
                    ReplayState {
                        spans: state.spans.insert(id, Span { name: value, ..state.spans[id] }),
                        ..state
                    },
                )
            } else {
                Err(TraceError::LabelOnUnknownSpan(id))
            }
        },
    }
}

/// The state after the events of one thread, taken in the order of the log.
pub open spec fn replay_thread(state: ReplayState, thread: usize, events: Seq<RawEvent>) -> Result<
    ReplayState,
    TraceError,
>
    decreases events.len(),
{
    if events.len() == 0 {
        Ok(state)
    } else {
        match replay_thread(state, thread, events.drop_last()) {
            Ok(before) => replay_step(before, thread, events.last()),
            Err(error) => Err(error),
        }
    }
}

/// The state when a thread's log is exhausted: what it left open joins the
/// unfinished spans.
pub open spec fn end_thread(state: ReplayState) -> ReplayState {
    ReplayState {
        active: Seq::empty(),
        unfinished: state.unfinished + state.active,
        ..state
    }
}

/// The state after all the logs, the threads taken in the order of their
/// registration.
pub open spec fn replay_logs(logs: Seq<Seq<RawEvent>>) -> Result<ReplayState, TraceError>
    decreases logs.len(),
{
    if logs.len() == 0 {
        Ok(initial_state())
    } else {
        match replay_logs(logs.drop_last()) {
            Ok(before) => match replay_thread(before, (logs.len() - 1) as usize, logs.last()) {
                Ok(after) => Ok(end_thread(after)),
                Err(error) => Err(error),
            },
            Err(error) => Err(error),
        }
    }
}

/// The spans once each of `unfinished` has been closed at `time`.
pub open spec fn close_unfinished(spans: Map<u64, Span>, unfinished: Seq<u64>, time: u128) -> Map<
    u64,
    Span,
>
    decreases unfinished.len(),
{
    if unfinished.len() == 0 {
        spans
    } else {
        let closed = close_unfinished(spans, unfinished.drop_last(), time);
        let id = unfinished.last();
        closed.insert(id, Span { end: time, ..span_or_blank(closed, id) })
    }
}

/// Whether every span starts and ends at `origin` or later.
pub open spec fn none_before(spans: Map<u64, Span>, origin: u128) -> bool {
    forall|id: u64| #[trigger]
        spans.contains_key(id) ==> spans[id].start >= origin && spans[id].end >= origin
}

/// The span with its times counted from `origin`.
pub open spec fn rebased(span: Span, origin: u128) -> Span {
    Span { start: (span.start - origin) as u128, end: (span.end - origin) as u128, ..span }
}

/// The spans with their times counted from `origin`.
pub open spec fn rebase(spans: Map<u64, Span>, origin: u128) -> Map<u64, Span> {
    Map::new(|id: u64| spans.contains_key(id), |id: u64| rebased(spans[id], origin))
}

/// What a set of logs amounts to.
#[verifier::ext_equal]
pub struct Reconstruction {
    /// The spans, by id, with their times counted from the earliest one.
    pub spans: Map<u64, Span>,
    /// How many times a span was entered.
    pub entered: nat,
    /// How many times a span was exited.
    pub exited: nat,
    /// How many spans were still open at the end of their thread's log.
    pub unfinished: nat,
}

/// The spans that the logs of all threads describe, or the reason why they
/// describe none.
pub open spec fn reconstruct(logs: Seq<Seq<RawEvent>>) -> Result<Reconstruction, TraceError> {
    match replay_logs(logs) {
        Err(error) => Err(error),
        Ok(state) => {
            let closed = close_unfinished(state.spans, state.unfinished, state.max_time);
            if state.entered != closed.dom().len() {
                Err(TraceError::SpanCountMismatch)
            } else if !none_before(closed, state.min_time) {
                Err(TraceError::TimeBeforeOrigin)
            } else {
                Ok(
                    Reconstruction {
                        spans: rebase(closed, state.min_time),
                        entered: state.entered,
                        exited: state.exited,
                        unfinished: state.unfinished.len(),
                    },
                )
            }
        },
    }
}

/// The logs of all threads, in the order in which the threads were
/// registered.
///
/// Its view is the sequence of the logs, each the sequence of its events.
pub struct Registry {
    logs: Vec<Storage<RawEvent>>,
}

impl View for Registry {
    type V = Seq<Seq<RawEvent>>;

    closed spec fn view(&self) -> Seq<Seq<RawEvent>> {
        Seq::new(self.logs@.len(), |i: int| self.logs@[i]@)
    }
}

impl Registry {
    /// Every log is well formed.
    pub closed spec fn wf(&self) -> bool {
        forall|i: int| 0 <= i < self.logs@.len() ==> (#[trigger] self.logs@[i]).wf()
    }

    /// A registry without threads.
    pub fn new() -> (registry: Self)
        ensures
            registry.wf(),
            registry@ == Seq::<Seq<RawEvent>>::empty(),
    {
        Registry { logs: Vec::new() }
    }

    /// How many threads are registered.
    pub fn threads(&self) -> (count: usize)
        ensures
            count == self@.len(),
    {
        self.logs.len()
    }

    /// The events of `thread`, in the order in which they were recorded.
    pub fn events(&self, thread: usize) -> (events: Vec<&RawEvent>)
        requires
            thread < self@.len(),
        ensures
            events@.unref() == self@[thread as int],
    {
        self.logs[thread].iter()
    }

    /// Gives a new thread its empty log, and returns the thread's ordinal.
    pub fn register(&mut self) -> (thread: usize)
        requires
            old(self).wf(),
        ensures
            final(self).wf(),
            thread == old(self)@.len(),
            final(self)@ == old(self)@.push(Seq::<RawEvent>::empty()),
    {
        let thread = self.logs.len();
        self.logs.push(Storage::new());
        thread
    }
}

/// Empties the log of every thread; the threads stay registered.
pub fn reset_events(registry: &mut Registry)
    ensures
        final(registry).wf(),
        final(registry)@.len() == old(registry)@.len(),
        forall|thread: int|
            0 <= thread < final(registry)@.len() ==> (#[trigger] final(registry)@[thread]).len()
                == 0,
{
    let mut thread: usize = 0;
    while thread < registry.logs.len()
        invariant
            registry.logs@.len() == old(registry).logs@.len(),
            thread <= registry.logs@.len(),
            forall|i: int|
                0 <= i < thread ==> (#[trigger] registry.logs@[i]).wf() && registry.logs@[i]@.len()
                    == 0,
        decreases registry.logs@.len() - thread,
    {
        registry.logs[thread].reset();
        thread += 1;
    }
}

/// Appends `event` to the log of `thread`.
pub fn log_event(registry: &mut Registry, thread: usize, event: RawEvent)
    requires
        old(registry).wf(),
        thread < old(registry)@.len(),
    ensures
        final(registry).wf(),
        final(registry)@ == old(registry)@.update(
            thread as int,
            old(registry)@[thread as int].push(event),
        ),
{
    registry.logs[thread].push(event);
}

/// The replay at work: the state between two events, and the ids of the
/// spans in the order in which they were first named.
struct Replayer {
    spans: HashMap<u64, Span>,
    ids: Vec<u64>,
    active: Vec<u64>,
    unfinished: Vec<u64>,
    entered: u128,
    exited: u128,
    min_time: u128,
    max_time: u128,
}

impl Replayer {
    spec fn state(&self) -> ReplayState {
        ReplayState {
            spans: self.spans@,
            active: self.active@,
            unfinished: self.unfinished@,
            entered: self.entered as nat,
            exited: self.exited as nat,
            min_time: self.min_time,
            max_time: self.max_time,
        }
    }

    spec fn wf(&self) -> bool {
        &&& self.ids@.no_duplicates()
        &&& forall|id: u64| self.spans@.contains_key(id) <==> self.ids@.contains(id)
        &&& forall|i: int|
            0 <= i < self.active@.len() ==> self.spans@.contains_key(#[trigger] self.active@[i])
        &&& forall|i: int|
            0 <= i < self.unfinished@.len() ==> self.spans@.contains_key(
                #[trigger] self.unfinished@[i],
            )
    }

    fn new() -> (replayer: Self)
        ensures
            replayer.wf(),
            replayer.state() == initial_state(),
    {
        Replayer {
            spans: HashMap::new(),
            ids: Vec::new(),
            active: Vec::new(),
            unfinished: Vec::new(),
            entered: 0,
            exited: 0,
            min_time: u128::MAX,
            max_time: 0,
        }
    }

    /// The span `id` as far as known.
    fn known(&self, id: u64) -> (span: Span)
        ensures
            span == span_or_blank(self.spans@, id),
    {
        match self.spans.get(&id) {
            Some(span) => *span,
            None => Span::new(id),
        }
    }

    /// Keeps `span` as what is known of the span `id`.
    fn store(&mut self, id: u64, span: Span)
        requires
            old(self).wf(),
        ensures
            final(self).wf(),
            final(self).spans@ == old(self).spans@.insert(id, span),
            final(self).active@ == old(self).active@,
            final(self).unfinished@ == old(self).unfinished@,
            final(self).entered == old(self).entered,
            final(self).exited == old(self).exited,
            final(self).min_time == old(self).min_time,
            final(self).max_time == old(self).max_time,
    {
        let ghost before = self.ids@;
        if !self.spans.contains_key(&id) {
            self.ids.push(id);
            assert(!before.contains(id));
            assert(self.ids@[before.len() as int] == id);
            assert forall|other: u64| before.contains(other) implies self.ids@.contains(other) by {
                let i = choose|i: int| 0 <= i < before.len() && before[i] == other;
                assert(self.ids@[i] == other);
            }
        }
        assert(self.ids@.contains(id));
        assert(forall|other: u64|
            self.ids@.contains(other) <==> (other == id || before.contains(other)));
        self.spans.insert(id, span);
        assert forall|other: u64| self.spans@.contains_key(other) <==> self.ids@.contains(
            other,
        ) by {
            assert(old(self).spans@.contains_key(other) <==> before.contains(other));
        }
    }

    fn note_time(&mut self, time: u128)
        ensures
            final(self).min_time == earlier(old(self).min_time, time),
            final(self).max_time == later(old(self).max_time, time),
            final(self).spans == old(self).spans,
            final(self).ids == old(self).ids,
            final(self).active == old(self).active,
            final(self).unfinished == old(self).unfinished,
            final(self).entered == old(self).entered,
            final(self).exited == old(self).exited,
    {
        if time < self.min_time {
            self.min_time = time;
        }
        if time > self.max_time {
            self.max_time = time;
        }
    }

    /// Replays one event of thread `thread`.
    fn apply(&mut self, thread: usize, event: RawEvent) -> (outcome: Result<(), TraceError>)
        requires
            old(self).wf(),
            old(self).entered < u128::MAX,
            old(self).exited < u128::MAX,
        ensures
            final(self).wf(),
            final(self).entered + final(self).exited <= old(self).entered + old(self).exited + 1,
            match replay_step(old(self).state(), thread, event) {
                Ok(state) => outcome is Ok && final(self).state() == state,
                Err(error) => outcome == Err::<(), TraceError>(error),
            },
    {
        match event {
            RawEvent::NewSpan(id, name, parent) => {
                let known = self.known(id);
                let parent = if parent == 0 {
                    if self.active.len() > 0 {
                        Some(self.active[self.active.len() - 1])
                    } else {
                        None
                    }
                } else {
                    Some(parent)
                };
                self.store(id, Span { name, parent, creation_thread: thread, ..known });
                Ok(())
            },
            RawEvent::Enter(id, time) => {
                let known = self.known(id);
                self.entered = self.entered + 1;
                self.store(id, Span { start: time, execution_thread: thread, ..known });
                self.active.push(id);
                self.note_time(time);
                Ok(())
            },
            RawEvent::Exit(id, time) => {
                let known = self.known(id);
                if known.execution_thread != thread {
                    return Err(TraceError::ExitOnOtherThread(id));
                }
                if self.active.len() == 0 || self.active[self.active.len() - 1] != id {
                    return Err(TraceError::ExitOutOfOrder(id));
                }
                self.exited = self.exited + 1;
                self.store(id, Span { end: time, ..known });
                self.active.pop();
                self.note_time(time);
                Ok(())
            },
            RawEvent::StrField(id, field, value) => {
                if !same_text(field, LABEL_FIELD) {
                    return Ok(());
                }
                let known = match self.spans.get(&id) {
                    Some(span) => *span,
                    None => {
                        return Err(TraceError::LabelOnUnknownSpan(id));
                    },
                };
                self.store(id, Span { name: value, ..known });
                Ok(())
            },
        }
    }
}

/// Once a thread's events have gone wrong, more events do not mend them.
proof fn lemma_thread_error_stays(state: ReplayState, thread: usize, events: Seq<RawEvent>, n: int)
    requires
        0 <= n <= events.len(),
        replay_thread(state, thread, events.take(n)) is Err,
    ensures
        replay_thread(state, thread, events) == replay_thread(state, thread, events.take(n)),
    decreases events.len() - n,
{
    if n < events.len() {
        assert(events.take(n + 1).drop_last() == events.take(n));
        lemma_thread_error_stays(state, thread, events, n + 1);
    } else {
        assert(events.take(n) == events);
    }
}

/// Once the logs of the first threads have gone wrong, more logs do not mend
/// them.
proof fn lemma_logs_error_stays(logs: Seq<Seq<RawEvent>>, n: int)
    requires
        0 <= n <= logs.len(),
        replay_logs(logs.take(n)) is Err,
    ensures
        replay_logs(logs) == replay_logs(logs.take(n)),
    decreases logs.len() - n,
{
    if n < logs.len() {
        assert(logs.take(n + 1).drop_last() == logs.take(n));
        lemma_logs_error_stays(logs, n + 1);
    } else {
        assert(logs.take(n) == logs);
    }
}

/// What a set of logs amounts to, as `replay` hands it out.
pub struct Replay {
    /// The spans, by id, with their times counted from the earliest one.
    pub spans: HashMap<u64, Span>,
    /// How many times a span was entered.
    pub entered: u128,
    /// How many times a span was exited.
    pub exited: u128,
    /// How many spans were still open at the end of their thread's log.
    pub unfinished: u128,
}

impl View for Replay {
    type V = Reconstruction;

    open spec fn view(&self) -> Reconstruction {
        Reconstruction {
            spans: self.spans@,
            entered: self.entered as nat,
            exited: self.exited as nat,
            unfinished: self.unfinished as nat,
        }
    }
}

/// Replays the logs of all threads and returns the spans they describe.
///
/// The logs are left as they are.
pub fn replay(registry: &Registry) -> (outcome: Result<Replay, TraceError>)
    ensures
        match reconstruct(registry@) {
            Ok(reconstruction) => outcome matches Ok(replay) && replay@ == reconstruction,
            Err(error) => outcome matches Err(found) && found == error,
        },
        outcome matches Ok(replay) ==> replay.entered == replay.exited + replay.unfinished
            && replay.entered == replay.spans@.len(),
{
    proof {
        crate::laws::lemma_counts_balance(registry@);
    }
    let mut replayer = Replayer::new();
    let mut thread: usize = 0;
    assert(registry@.take(0) == Seq::<Seq<RawEvent>>::empty());
    while thread < registry.logs.len()
        invariant
            thread <= registry.logs@.len(),
            registry@.len() == registry.logs@.len(),
            replayer.wf(),
            replayer.active@.len() == 0,
            replay_logs(registry@.take(thread as int)) == Ok::<ReplayState, TraceError>(
                replayer.state(),
            ),
            replayer.entered + replayer.exited <= thread * usize::MAX,
        decreases registry.logs@.len() - thread,
    {
        let events = registry.logs[thread].iter();
        let ghost log = registry@[thread as int];
        let ghost start = replayer.state();
        let mut i: usize = 0;
        assert(log.take(0) == Seq::<RawEvent>::empty());
        while i < events.len()
            invariant
                i <= events@.len(),
                thread < registry.logs@.len(),
                thread < usize::MAX,
                registry@.len() == registry.logs@.len(),
                events@.unref() == log,
                log == registry@[thread as int],
                replay_logs(registry@.take(thread as int)) == Ok::<ReplayState, TraceError>(start),
                replayer.wf(),
                replay_thread(start, thread, log.take(i as int)) == Ok::<ReplayState, TraceError>(
                    replayer.state(),
                ),
                replayer.entered + replayer.exited <= thread * usize::MAX + i,
            decreases events@.len() - i,
        {
            let event = *events[i];
            assert(thread * usize::MAX + i < u128::MAX) by (nonlinear_arith)
                requires
                    thread < usize::MAX,
                    i < usize::MAX,
                    usize::MAX <= 0xffff_ffff_ffff_ffff,
                    u128::MAX == 0xffff_ffff_ffff_ffff_ffff_ffff_ffff_ffff,
            ;
            assert(log.take(i + 1).drop_last() == log.take(i as int));
            assert(log.take(i + 1).last() == event);
            match replayer.apply(thread, event) {
                Ok(()) => {},
                Err(error) => {
                    proof {
                        lemma_thread_error_stays(start, thread, log, i + 1);
                        assert(registry@.take(thread + 1).drop_last() == registry@.take(
                            thread as int,
                        ));
                        assert(registry@.take(thread + 1).last() == log);
                        lemma_logs_error_stays(registry@, thread + 1);
                    }
                    return Err(error);
                },
            }
            i += 1;
        }
        assert(log.take(i as int) == log);
        replayer.unfinished.append(&mut replayer.active);
        proof {
            assert(registry@.take(thread + 1).drop_last() == registry@.take(thread as int));
            assert(registry@.take(thread + 1).last() == log);
            assert((thread + 1) * usize::MAX == thread * usize::MAX + usize::MAX)
                by (nonlinear_arith);
        }
        thread += 1;
    }
    assert(registry@.take(thread as int) == registry@);
    let Replayer { mut spans, ids, active: _, unfinished, entered, exited, min_time, max_time } =
        replayer;
    let ghost replayed = spans@;
    let mut k: usize = 0;
    while k < unfinished.len()
        invariant
            k <= unfinished@.len(),
            spans@ == close_unfinished(replayed, unfinished@.take(k as int), max_time),
            spans@.dom() == replayed.dom(),
            forall|i: int| 0 <= i < unfinished@.len() ==> replayed.contains_key(#[trigger] unfinished@[i]),
        decreases unfinished@.len() - k,
    {
        let id = unfinished[k];
        assert(unfinished@.take(k + 1).drop_last() == unfinished@.take(k as int));
        let known = match spans.get(&id) {
            Some(span) => *span,
            None => Span::new(id),
        };
        spans.insert(id, Span { end: max_time, ..known });
        k += 1;
    }
    assert(unfinished@.take(k as int) == unfinished@);
    let ghost closed = spans@;
    if entered != spans.len() as u128 {
        return Err(TraceError::SpanCountMismatch);
    }
    let mut k: usize = 0;
    while k < ids.len()
        invariant
            k <= ids@.len(),
            reconstruct(registry@) == (if none_before(closed, min_time) {
                Ok::<Reconstruction, TraceError>(
                    Reconstruction {
                        spans: rebase(closed, min_time),
                        entered: entered as nat,
                        exited: exited as nat,
                        unfinished: unfinished@.len(),
                    },
                )
            } else {
                Err::<Reconstruction, TraceError>(TraceError::TimeBeforeOrigin)
            }),
            ids@.no_duplicates(),
            forall|id: u64| closed.contains_key(id) <==> ids@.contains(id),
            spans@.dom() == closed.dom(),
            forall|j: int|
                0 <= j < k ==> {
                    &&& closed[#[trigger] ids@[j]].start >= min_time
                    &&& closed[ids@[j]].end >= min_time
                    &&& spans@[ids@[j]] == rebased(closed[ids@[j]], min_time)
                },
            forall|j: int| k <= j < ids@.len() ==> spans@[#[trigger] ids@[j]] == closed[ids@[j]],
        decreases ids@.len() - k,
    {
        let id = ids[k];
        assert(ids@.contains(id));
        let span = match spans.get(&id) {
            Some(span) => *span,
            None => Span::new(id),
        };
        if span.start < min_time || span.end < min_time {
            assert(!none_before(closed, min_time));
            return Err(TraceError::TimeBeforeOrigin);
        }
        spans.insert(
            id,
            Span { start: span.start - min_time, end: span.end - min_time, ..span },
        );
        k += 1;
    }
    proof {
        assert forall|id: u64| #[trigger] closed.contains_key(id) implies closed[id].start
            >= min_time && closed[id].end >= min_time && spans@[id] == rebased(
            closed[id],
            min_time,
        ) by {
            let j = choose|j: int| 0 <= j < ids@.len() && ids@[j] == id;
            assert(ids@[j] == id);
        }
        assert(spans@ =~= rebase(closed, min_time));
    }
    Ok(Replay { spans, entered, exited, unfinished: unfinished.len() as u128 })
}

/// Replays the logs of all threads, returns the spans they describe, and
/// empties the logs for the next collection.
///
/// Logs that describe no spans are left as they are.
pub fn extract_spans(registry: &mut Registry) -> (outcome: Result<HashMap<u64, Span>, TraceError>)
    ensures
        final(registry)@.len() == old(registry)@.len(),
        match reconstruct(old(registry)@) {
            Ok(reconstruction) => {
                &&& outcome matches Ok(spans)
                &&& spans@ == reconstruction.spans
                &&& final(registry).wf()
                &&& forall|thread: int|
                    0 <= thread < final(registry)@.len() ==> (#[trigger] final(registry)@[thread]).len()
                        == 0
            },
            Err(error) => {
                &&& outcome matches Err(found)
                &&& found == error
                &&& *final(registry) == *old(registry)
            },
        },
{
    match replay(registry) {
        Ok(replay) => {
            reset_events(registry);
            Ok(replay.spans)
        },
        Err(error) => Err(error),
    }
}

} // verus!
