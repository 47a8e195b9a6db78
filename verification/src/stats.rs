//! How long the spans of each name took.
use crate::children::{
    in_order, is_listing, lemma_listing_exists, lemma_listing_unique, span_ids,
};
use crate::events::{extract_spans, reconstruct, Registry};
use crate::graph::LayoutError;
use crate::spans::Span;
use crate::svg::DiagramError;
use crate::text::same_text;
use std::collections::HashMap;
use vstd::prelude::*;

verus! {

/// What the spans of one name took.
#[derive(Clone, Copy, Debug, PartialEq, Eq)]
pub struct NameStats {
    pub name: &'static str,
    /// How many spans bear the name.
    pub count: usize,
    /// How long they took together.
    pub total: u128,
    /// How long one of them took, the total shared evenly and rounded down.
    pub average: u128,
    /// How long the first of them took: the one that started first, and of
    /// several of these the one of the least id.
    pub first: u128,
}

/// All the spans, in the order of siblings: by name, then by start, then by
/// id.
pub open spec fn spans_in_order(spans: Map<u64, Span>) -> Seq<u64> {
    choose|list: Seq<u64>| is_listing(spans, spans.dom(), list)
}

/// Where the spans are finitely many, `spans_in_order` lists them.
pub proof fn lemma_spans_in_order(spans: Map<u64, Span>)
    requires
        spans.dom().finite(),
    ensures
        is_listing(spans, spans.dom(), spans_in_order(spans)),
{
    lemma_listing_exists(spans, spans.dom());
}

/// The row of a name that one span of the duration `time` bears.
pub open spec fn first_of_name(name: &'static str, time: u128) -> NameStats {
    NameStats { name, count: 1, total: time, average: time, first: time }
}

/// The row with one more span, of the duration `time`.
pub open spec fn one_more(row: NameStats, time: u128) -> NameStats {
    NameStats {
        count: (row.count + 1) as usize,
        total: (row.total + time) as u128,
        average: ((row.total + time) / (row.count + 1)) as u128,
        ..row
    }
}

/// The rows of the names of the spans `ids`, which stand name by name.
pub open spec fn tally(spans: Map<u64, Span>, ids: Seq<u64>) -> Result<Seq<NameStats>, LayoutError>
    decreases ids.len(),
{
    if ids.len() == 0 {
        Ok(Seq::empty())
    } else {
        match tally(spans, ids.drop_last()) {
            Err(error) => Err(error),
            Ok(rows) => {
                let span = spans[ids.last()];
                if span.end < span.start {
                    Err(LayoutError::NegativeDuration)
                } else if rows.len() > 0 && rows.last().name@ == span.name@ {
                    if rows.last().total + (span.end - span.start) > u128::MAX {
                        Err(LayoutError::SizeOverflow)
                    } else {
                        Ok(
                            rows.drop_last().push(
                                one_more(rows.last(), (span.end - span.start) as u128),
                            ),
                        )
                    }
                } else {
                    Ok(rows.push(first_of_name(span.name, (span.end - span.start) as u128)))
                }
            },
        }
    }
}

/// Once the first spans have gone wrong, more spans do not mend them.
proof fn lemma_tally_error_stays(spans: Map<u64, Span>, ids: Seq<u64>, n: int)
    requires
        0 <= n <= ids.len(),
        tally(spans, ids.take(n)) is Err,
    ensures
        tally(spans, ids) == tally(spans, ids.take(n)),
    decreases ids.len() - n,
{
    if n < ids.len() {
        assert(ids.take(n + 1).drop_last() == ids.take(n));
        lemma_tally_error_stays(spans, ids, n + 1);
    } else {
        assert(ids.take(n) == ids);
    }
}

/// For each name of a span, in the order of the names, what the spans of
/// that name took.
pub fn name_stats(spans: &HashMap<u64, Span>) -> (outcome: Result<Vec<NameStats>, LayoutError>)
    ensures
        match tally(spans@, spans_in_order(spans@)) {
            Ok(rows) => outcome matches Ok(found) && found@ == rows,
            Err(error) => outcome matches Err(found) && found == error,
        },
{
    let ids = span_ids(spans);
    assert forall|k: int| 0 <= k < ids@.len() implies spans@.contains_key(#[trigger] ids@[k]) by {
        assert(ids@.contains(ids@[k]));
    }
    let sorted = in_order(&ids, spans);
    proof {
        assert(ids@.to_set() =~= spans@.dom());
        lemma_listing_unique(spans@, spans@.dom(), sorted@, spans_in_order(spans@));
    }
    let mut rows: Vec<NameStats> = Vec::new();
    let mut i: usize = 0;
    assert(sorted@.take(0) == Seq::<u64>::empty());
    while i < sorted.len()
        invariant
            i <= sorted@.len(),
            sorted@ == spans_in_order(spans@),
            forall|id: u64| sorted@.contains(id) ==> spans@.contains_key(id),
            tally(spans@, sorted@.take(i as int)) == Ok::<Seq<NameStats>, LayoutError>(rows@),
            forall|k: int| 0 <= k < rows@.len() ==> 1 <= (#[trigger] rows@[k]).count <= i,
        decreases sorted@.len() - i,
    {
        let id = sorted[i];
        assert(sorted@.contains(id));
        assert(sorted@.take(i + 1).drop_last() == sorted@.take(i as int));
        assert(sorted@.take(i + 1).last() == id);
        let span = *spans.get(&id).unwrap();
        if span.end < span.start {
            proof {
                lemma_tally_error_stays(spans@, sorted@, i + 1);
            }
            return Err(LayoutError::NegativeDuration);
        }
        let time = span.end - span.start;
        let same_name = rows.len() > 0 && same_text(rows[rows.len() - 1].name, span.name);
        if same_name {
            let ghost before = rows@;
            let row = rows.pop().unwrap();
            let total = match row.total.checked_add(time) {
                Some(total) => total,
                None => {
                    proof {
                        lemma_tally_error_stays(spans@, sorted@, i + 1);
                    }
                    return Err(LayoutError::SizeOverflow);
                },
            };
            let count = row.count + 1;
            rows.push(NameStats { count, total, average: total / (count as u128), ..row });
            assert(rows@ =~= before.drop_last().push(one_more(before.last(), time)));
        } else {
            rows.push(NameStats { name: span.name, count: 1, total: time, average: time, first: time });
        }
        i += 1;
    }
    assert(sorted@.take(i as int) == sorted@);
    Ok(rows)
}

/// What the spans of each name took, as the threads have recorded them:
/// replays the logs, empties them for the next collection, and sums up.
///
/// Logs that describe no spans are left as they are.
pub fn stats(registry: &mut Registry) -> (outcome: Result<Vec<NameStats>, DiagramError>)
    ensures
        final(registry)@.len() == old(registry)@.len(),
        match reconstruct(old(registry)@) {
            Err(error) => {
                &&& outcome matches Err(DiagramError::Trace(found))
                &&& found == error
                &&& *final(registry) == *old(registry)
            },
            Ok(reconstruction) => {
                &&& final(registry).wf()
                &&& forall|thread: int|
                    0 <= thread < final(registry)@.len() ==> (#[trigger] final(registry)@[thread]).len()
                        == 0
                &&& match tally(reconstruction.spans, spans_in_order(reconstruction.spans)) {
                    Ok(rows) => outcome matches Ok(found) && found@ == rows,
                    Err(error) => outcome matches Err(DiagramError::Layout(found)) && found
                        == error,
                }
            },
        },
{
    let spans = match extract_spans(registry) {
        Ok(spans) => spans,
        Err(error) => {
            return Err(DiagramError::Trace(error));
        },
    };
    match name_stats(&spans) {
        Ok(rows) => Ok(rows),
        Err(error) => Err(DiagramError::Layout(error)),
    }
}

} // verus!
