//! What the instrumented code calls: the allocation of span ids and the
//! recording of events, each thread in its own log.
use crate::events::{log_event, RawEvent, Registry, TraceError};
use crate::storage::Storage;
use vstd::prelude::*;

verus! {

/// What one thread keeps for itself: its ordinal, and the spans it has
/// entered and not yet exited, innermost last.
pub struct ThreadContext {
    ordinal: usize,
    stack: Storage<u64>,
}

impl ThreadContext {
    /// The stack is well formed.
    pub closed spec fn wf(&self) -> bool {
        self.stack.wf()
    }

    /// The thread's ordinal: the place of its log in the registry.
    pub closed spec fn thread(&self) -> usize {
        self.ordinal
    }

    /// The spans that the thread has entered and not yet exited, innermost
    /// last.
    pub closed spec fn open(&self) -> Seq<u64> {
        self.stack@
    }

    /// The thread's ordinal.
    pub fn ordinal(&self) -> (ordinal: usize)
        ensures
            ordinal == self.thread(),
    {
        self.ordinal
    }

    /// Forgets the spans that the thread has entered: for a new collection,
    /// which starts with no span open.
    pub fn reset(&mut self)
        ensures
            final(self).wf(),
            final(self).thread() == old(self).thread(),
            final(self).open() == Seq::<u64>::empty(),
    {
        self.stack.reset();
    }

    /// The innermost span that the thread has entered and not yet exited.
    pub fn current_span(&self) -> (current: Option<u64>)
        requires
            self.wf(),
        ensures
            current == (if self.open().len() > 0 {
                Some(self.open().last())
            } else {
                None
            }),
    {
        match self.stack.last() {
            Some(id) => Some(*id),
            None => None,
        }
    }
}

/// The source of span ids.
pub struct FastSubscriber {
    next_task_id: u64,
}

impl FastSubscriber {
    /// The id that the next span will get.
    pub closed spec fn next_id(&self) -> u64 {
        self.next_task_id
    }

    /// A subscriber whose first span gets the id 1; 0 stands for no span.
    pub fn new() -> (subscriber: Self)
        ensures
            subscriber.next_id() == 1,
    {
        FastSubscriber { next_task_id: 1 }
    }

    /// Gives a thread its log in the registry and its context.
    pub fn register_thread(registry: &mut Registry) -> (context: ThreadContext)
        requires
            old(registry).wf(),
        ensures
            final(registry).wf(),
            final(registry)@ == old(registry)@.push(Seq::<RawEvent>::empty()),
            context.wf(),
            context.thread() == old(registry)@.len(),
            context.open() == Seq::<u64>::empty(),
    {
        let ordinal = registry.register();
        ThreadContext { ordinal, stack: Storage::new() }
    }

    /// Creates a span: takes the next id for it and records its creation.
    /// `parent` is the id of its parent, or 0 for the span that is open on
    /// the thread when the logs are replayed.
    pub fn new_span(
        &mut self,
        registry: &mut Registry,
        context: &ThreadContext,
        name: &'static str,
        parent: u64,
    ) -> (id: u64)
        requires
            old(registry).wf(),
            context.thread() < old(registry)@.len(),
        ensures
            id == old(self).next_id(),
            final(self).next_id() == (if id == u64::MAX {
                0
            } else {
                id + 1
            }),
            final(registry).wf(),
            final(registry)@ == old(registry)@.update(
                context.thread() as int,
                old(registry)@[context.thread() as int].push(RawEvent::NewSpan(id, name, parent)),
            ),
    {
        let id = self.next_task_id;
        self.next_task_id = id.wrapping_add(1);
        log_event(registry, context.ordinal, RawEvent::NewSpan(id, name, parent));
        id
    }

    /// Attaches the string `value` to the span `id` under the name `field`.
    pub fn record_str(
        &self,
        registry: &mut Registry,
        context: &ThreadContext,
        id: u64,
        field: &'static str,
        value: &'static str,
    )
        requires
            old(registry).wf(),
            context.thread() < old(registry)@.len(),
        ensures
            final(registry).wf(),
            final(registry)@ == old(registry)@.update(
                context.thread() as int,
                old(registry)@[context.thread() as int].push(RawEvent::StrField(id, field, value)),
            ),
    {
        log_event(registry, context.ordinal, RawEvent::StrField(id, field, value));
    }

    /// Enters the span `id` at the time `now`: the span becomes the innermost
    /// open one of the thread, and the event is recorded.
    pub fn enter(&self, registry: &mut Registry, context: &mut ThreadContext, id: u64, now: u128)
        requires
            old(registry).wf(),
            old(context).wf(),
            old(context).thread() < old(registry)@.len(),
        ensures
            final(registry).wf(),
            final(context).wf(),
            final(context).thread() == old(context).thread(),
            final(context).open() == old(context).open().push(id),
            final(registry)@ == old(registry)@.update(
                old(context).thread() as int,
                old(registry)@[old(context).thread() as int].push(RawEvent::Enter(id, now)),
            ),
    {
        context.stack.push(id);
        log_event(registry, context.ordinal, RawEvent::Enter(id, now));
    }

    /// Exits the span `id` at the time `now`: the event is recorded, and the
    /// innermost open span of the thread is closed. That span has to be `id`:
    /// spans are exited in the reverse order of their entry.
    pub fn exit(
        &self,
        registry: &mut Registry,
        context: &mut ThreadContext,
        id: u64,
        now: u128,
    ) -> (outcome: Result<(), TraceError>)
        requires
            old(registry).wf(),
            old(context).wf(),
            old(context).thread() < old(registry)@.len(),
        ensures
            final(registry).wf(),
            final(context).wf(),
            final(context).thread() == old(context).thread(),
            final(registry)@ == old(registry)@.update(
                old(context).thread() as int,
                old(registry)@[old(context).thread() as int].push(RawEvent::Exit(id, now)),
            ),
            final(context).open() == (if old(context).open().len() > 0 {
                old(context).open().drop_last()
            } else {
                old(context).open()
            }),
            outcome == (if old(context).open().len() > 0 && old(context).open().last() == id {
                Ok::<(), TraceError>(())
            } else {
                Err::<(), TraceError>(TraceError::ExitOutOfOrder(id))
            }),
    {
        log_event(registry, context.ordinal, RawEvent::Exit(id, now));
        match context.stack.pop() {
            Some(top) => {
                if top == id {
                    Ok(())
                } else {
                    Err(TraceError::ExitOutOfOrder(id))
                }
            },
            None => Err(TraceError::ExitOutOfOrder(id)),
        }
    }
}

} // verus!
