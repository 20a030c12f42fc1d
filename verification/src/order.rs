//! Why priorities bring the chunks back in order: the chunks that were
//! published with their priorities are read back in the order in which they
//! were published, in whatever order, and however often, a response holds
//! their records.

use crate::indexed::{
    lemma_payload_map_dom, numbered, numbered_chunks, ordered_payloads, payload_map,
    payloads_below, priorities,
};
use vstd::prelude::*;

verus! {

/// The payloads of `records`, in order.
pub open spec fn payloads_of(records: Seq<(int, Seq<char>)>) -> Seq<Seq<char>> {
    records.map_values(|record: (int, Seq<char>)| record.1)
}

/// The priorities of `records` go up from each record to the next.
pub open spec fn increasing(records: Seq<(int, Seq<char>)>) -> bool {
    forall|j: int, k: int|
        0 <= j < k < records.len() ==> (#[trigger] records[j]).0 < (#[trigger] records[k]).0
}

/// `held` has a payload for the priorities of `records` and for no others,
/// and for each the payload that stands beside it in `records`.
pub open spec fn holds_exactly(held: Map<int, Seq<char>>, records: Seq<(int, Seq<char>)>) -> bool {
    &&& forall|k: int|
        0 <= k < records.len() ==> held.contains_key((#[trigger] records[k]).0)
            && held[records[k].0] == records[k].1
    &&& forall|p: int|
        held.contains_key(p) ==> exists|k: int|
            0 <= k < records.len() && (#[trigger] records[k]).0 == p
}

/// The chunks of lines keep their order when they are given priorities, and
/// the priorities go up, starting no lower than `first`.
pub proof fn lemma_numbered(lines: Seq<Seq<Seq<char>>>, first: int)
    ensures
        payloads_of(numbered(lines, first)) == lines.flatten(),
        increasing(numbered(lines, first)),
        forall|k: int|
            0 <= k < numbered(lines, first).len() ==> (#[trigger] numbered(lines, first)[k]).0
                >= first,
    decreases lines.len(),
{
    if lines.len() == 0 {
        assert(payloads_of(numbered(lines, first)) =~= lines.flatten());
    } else {
        let here = numbered_chunks(lines[0], first);
        let after = numbered(lines.drop_first(), first + lines[0].len() + 1);
        lemma_numbered(lines.drop_first(), first + lines[0].len() + 1);
        assert(payloads_of(here) =~= lines[0]);
        assert(payloads_of(here + after) =~= payloads_of(here) + payloads_of(after));
        assert forall|j: int, k: int| 0 <= j < k < (here + after).len() implies (#[trigger] (here
            + after)[j]).0 < (#[trigger] (here + after)[k]).0 by {
            if j >= here.len() {
                assert((here + after)[j] == after[j - here.len()]);
                assert((here + after)[k] == after[k - here.len()]);
            } else if k >= here.len() {
                assert((here + after)[k] == after[k - here.len()]);
            }
        }
        assert forall|k: int| 0 <= k < (here + after).len() implies (#[trigger] (here
            + after)[k]).0 >= first by {
            if k >= here.len() {
                assert((here + after)[k] == after[k - here.len()]);
            }
        }
    }
}

/// The payload that a priority has was beside it in one of the records.
pub proof fn lemma_payload_source(records: Seq<(int, Seq<char>)>, p: int)
    requires
        payload_map(records).contains_key(p),
    ensures
        records.contains((p, payload_map(records)[p])),
    decreases records.len(),
{
    if records.len() > 0 {
        let before = records.drop_last();
        if records.last().0 == p {
            assert(records[records.len() - 1] == (p, payload_map(records)[p]));
        } else {
            lemma_payload_source(before, p);
            let i = choose|i: int|
                0 <= i < before.len() && before[i] == (p, payload_map(before)[p]);
            assert(records[i] == (p, payload_map(records)[p]));
        }
    }
}

/// Records that are, in some order, those of `published` give each priority
/// the payload that it has in `published`, where no priority occurs there
/// twice.
pub proof fn lemma_same_records_same_payloads(
    response: Seq<(int, Seq<char>)>,
    published: Seq<(int, Seq<char>)>,
)
    requires
        increasing(published),
        forall|record: (int, Seq<char>)|
            response.contains(record) <==> published.contains(record),
    ensures
        holds_exactly(payload_map(response), published),
{
    let held = payload_map(response);
    lemma_payload_map_dom(response);
    assert forall|p: int| held.contains_key(p) implies exists|k: int|
        0 <= k < published.len() && (#[trigger] published[k]).0 == p by {
        lemma_payload_source(response, p);
        assert(published.contains((p, held[p])));
        let k = choose|k: int| 0 <= k < published.len() && published[k] == (p, held[p]);
        assert(published[k].0 == p);
    }
    assert forall|k: int| 0 <= k < published.len() implies held.contains_key(
        (#[trigger] published[k]).0,
    ) && held[published[k].0] == published[k].1 by {
        let p = published[k].0;
        assert(published.contains(published[k]));
        assert(response.contains(published[k]));
        let i = choose|i: int| 0 <= i < response.len() && response[i] == published[k];
        assert(response[i].0 == p);
        assert(priorities(response).contains(p));
        lemma_payload_source(response, p);
        let m = choose|m: int| 0 <= m < published.len() && published[m] == (p, held[p]);
        assert(published[m].0 == published[k].0);
        if m < k {
            assert(published[m].0 < published[k].0);
        } else if k < m {
            assert(published[k].0 < published[m].0);
        }
    }
}

/// Read by priority up to `bound`, the payloads are those of the first `j`
/// records, where these are the records with a priority below `bound`.
pub proof fn lemma_payloads_in_order(
    held: Map<int, Seq<char>>,
    records: Seq<(int, Seq<char>)>,
    bound: int,
    j: int,
)
    requires
        increasing(records),
        holds_exactly(held, records),
        -128 <= bound,
        0 <= j <= records.len(),
        forall|k: int| 0 <= k < records.len() ==> (#[trigger] records[k]).0 >= -128,
        forall|k: int| 0 <= k < j ==> (#[trigger] records[k]).0 < bound,
        forall|k: int| j <= k < records.len() ==> (#[trigger] records[k]).0 >= bound,
    ensures
        payloads_below(held, bound) == payloads_of(records.take(j)),
    decreases bound + 128,
{
    if bound == -128 {
        if j > 0 {
            assert(records[0].0 < bound);
        }
        assert(payloads_of(records.take(j)) =~= Seq::<Seq<char>>::empty());
    } else if held.contains_key(bound - 1) {
        let k = choose|k: int| 0 <= k < records.len() && (#[trigger] records[k]).0 == bound - 1;
        if k >= j {
            assert(records[k].0 >= bound);
        }
        if k < j - 1 {
            assert(records[k].0 < records[j - 1].0);
            assert(records[j - 1].0 < bound);
        }
        assert(k == j - 1);
        assert forall|i: int| 0 <= i < j - 1 implies (#[trigger] records[i]).0 < bound - 1 by {
            assert(records[i].0 < records[j - 1].0);
        }
        lemma_payloads_in_order(held, records, bound - 1, j - 1);
        assert(held[records[j - 1].0] == records[j - 1].1);
        assert(payloads_of(records.take(j)) =~= payloads_of(records.take(j - 1)).push(
            records[j - 1].1,
        ));
    } else {
        assert forall|i: int| 0 <= i < j implies (#[trigger] records[i]).0 < bound - 1 by {
            assert(held.contains_key(records[i].0));
        }
        lemma_payloads_in_order(held, records, bound - 1, j);
    }
}

/// Chunks that were given their priorities come back in the order in which
/// they stood in their lines, from a response that holds their records in
/// any order, each as often as it likes and no others. This needs every
/// priority to fit: none above 127.
pub proof fn lemma_order_restored(lines: Seq<Seq<Seq<char>>>, response: Seq<(int, Seq<char>)>)
    requires
        forall|k: int|
            0 <= k < numbered(lines, 0).len() ==> (#[trigger] numbered(lines, 0)[k]).0 <= 127,
        forall|record: (int, Seq<char>)|
            response.contains(record) <==> numbered(lines, 0).contains(record),
    ensures
        ordered_payloads(payload_map(response)) == lines.flatten(),
{
    let published = numbered(lines, 0);
    lemma_numbered(lines, 0);
    lemma_same_records_same_payloads(response, published);
    lemma_payloads_in_order(payload_map(response), published, 128, published.len() as int);
    assert(published.take(published.len() as int) =~= published);
}

} // verus!
