//! What a replay passes over without failing, for a caller to report.
use crate::events::{RawEvent, Registry, LABEL_FIELD};
use crate::text::same_text;
use vstd::prelude::*;

verus! {

/// The names of the fields of `events` that the replay does not read, in the
/// order of the events.
pub open spec fn discarded_in(events: Seq<RawEvent>) -> Seq<&'static str>
    decreases events.len(),
{
    if events.len() == 0 {
        Seq::empty()
    } else {
        let before = discarded_in(events.drop_last());
        match events.last() {
            RawEvent::StrField(_, field, _) => if field@ != LABEL_FIELD@ {
                before.push(field)
            } else {
                before
            },
            _ => before,
        }
    }
}

/// The names of the fields that the replay does not read, in the order of
/// the threads and of their events.
pub open spec fn discarded(logs: Seq<Seq<RawEvent>>) -> Seq<&'static str>
    decreases logs.len(),
{
    if logs.len() == 0 {
        Seq::empty()
    } else {
        discarded(logs.drop_last()) + discarded_in(logs.last())
    }
}

/// Whether no span is entered in `events`.
pub open spec fn enters_nothing(events: Seq<RawEvent>) -> bool {
    forall|i: int| 0 <= i < events.len() ==> !(#[trigger] events[i] is Enter)
}

/// The names of the fields that the replay does not read, in the order of
/// the threads and of their events.
pub fn discarded_fields(registry: &Registry) -> (fields: Vec<&'static str>)
    ensures
        fields@ == discarded(registry@),
{
    let mut fields: Vec<&'static str> = Vec::new();
    let mut thread: usize = 0;
    assert(registry@.take(0) == Seq::<Seq<RawEvent>>::empty());
    while thread < registry.threads()
        invariant
            thread <= registry@.len(),
            fields@ == discarded(registry@.take(thread as int)),
        decreases registry@.len() - thread,
    {
        let events = registry.events(thread);
        let ghost log = registry@[thread as int];
        let ghost before = fields@;
        let mut i: usize = 0;
        assert(log.take(0) == Seq::<RawEvent>::empty());
        while i < events.len()
            invariant
                i <= events@.len(),
                events@.unref() == log,
                fields@ == before + discarded_in(log.take(i as int)),
            decreases events@.len() - i,
        {
            assert(log.take(i + 1).drop_last() == log.take(i as int));
            assert(log.take(i + 1).last() == *events@[i as int]);
            match *events[i] {
                RawEvent::StrField(_, field, _) => {
                    if !same_text(field, LABEL_FIELD) {
                        fields.push(field);
                    }
                },
                _ => {},
            }
            i += 1;
        }
        assert(log.take(i as int) == log);
        assert(registry@.take(thread + 1).drop_last() == registry@.take(thread as int));
        assert(registry@.take(thread + 1).last() == log);
        thread += 1;
    }
    assert(registry@.take(thread as int) == registry@);
    fields
}

/// The threads that have entered no span, in the order of their registration.
pub fn idle_threads(registry: &Registry) -> (threads: Vec<usize>)
    ensures
        forall|i: int, j: int| 0 <= i < j < threads@.len() ==> threads@[i] < threads@[j],
        forall|thread: usize|
            threads@.contains(thread) <==> (thread < registry@.len() && enters_nothing(
                registry@[thread as int],
            )),
{
    let mut threads: Vec<usize> = Vec::new();
    let mut thread: usize = 0;
    while thread < registry.threads()
        invariant
            thread <= registry@.len(),
            forall|i: int, j: int| 0 <= i < j < threads@.len() ==> threads@[i] < threads@[j],
            forall|i: int| 0 <= i < threads@.len() ==> threads@[i] < thread,
            forall|other: usize|
                threads@.contains(other) <==> (other < thread && enters_nothing(
                    registry@[other as int],
                )),
        decreases registry@.len() - thread,
    {
        let events = registry.events(thread);
        let ghost log = registry@[thread as int];
        let mut idle = true;
        let mut i: usize = 0;
        while i < events.len()
            invariant
                i <= events@.len(),
                events@.unref() == log,
                idle == enters_nothing(log.take(i as int)),
            decreases events@.len() - i,
        {
            let ghost seen = log.take(i as int);
            match *events[i] {
                RawEvent::Enter(_, _) => {
                    idle = false;
                },
                _ => {},
            }
            i += 1;
            proof {
                let next = log.take(i as int);
                assert(next[i - 1] == *events@[i - 1]);
                assert(forall|k: int| 0 <= k < seen.len() ==> seen[k] == next[k]);
            }
        }
        assert(log.take(i as int) == log);
        let ghost before = threads@;
        if idle {
            threads.push(thread);
            assert(threads@[before.len() as int] == thread);
        }
        proof {
            assert forall|other: usize|
                threads@.contains(other) <==> (other < thread + 1 && enters_nothing(
                    registry@[other as int],
                )) by {
                if before.contains(other) {
                    let at = choose|at: int| 0 <= at < before.len() && before[at] == other;
                    assert(threads@[at] == other);
                }
                if threads@.contains(other) {
                    let at = choose|at: int| 0 <= at < threads@.len() && threads@[at] == other;
                    if at < before.len() {
                        assert(before[at] == other);
                    }
                }
            }
        }
        thread += 1;
    }
    threads
}

} // verus!
