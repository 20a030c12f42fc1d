//! Key lines from records that carry their own order.
//!
//! A response comes in no order. Where a line was cut into several records,
//! each record holds two character strings: a priority and a payload. The
//! payloads are put back in the order of their priorities.

use crate::codec::{chunk_texts, TxtChunk, MAX_CHUNK_BYTES};
use crate::priority::{parse_priority, priority_value};
use crate::records::{string_from_rdata, FormatError};
use crate::text::{byte_len, lemma_byte_len_encoded, to_chars};
use vstd::prelude::*;
use vstd::string::*;
use vstd::utf8::*;

verus! {

/// The most records that a response with priorities can hold.
pub const MAX_RECORDS: usize = 256;

/// A payload with the priority that gives its place.
#[derive(Debug, Clone, PartialEq, Eq)]
pub struct PriorityIndexedRecord {
    pub priority: i8,
    pub payload: String,
}

impl View for PriorityIndexedRecord {
    type V = (int, Seq<char>);

    open spec fn view(&self) -> (int, Seq<char>) {
        (self.priority as int, self.payload@)
    }
}

/// The views of `records`, in order.
pub open spec fn record_views(records: Seq<PriorityIndexedRecord>) -> Seq<(int, Seq<char>)> {
    records.map_values(|r: PriorityIndexedRecord| r@)
}

/// The priority and the payload that a record of `strings` holds, or what is
/// wrong with it: the number of its character strings, then its priority,
/// then the encoding of its payload.
pub open spec fn indexed_record(strings: Seq<Seq<u8>>) -> Result<(int, Seq<char>), FormatError> {
    if strings.len() != 2 {
        Err(FormatError::MalformedRecord)
    } else if priority_value(strings[0]) is None {
        Err(FormatError::InvalidPriority)
    } else if !valid_utf8(strings[1]) {
        Err(FormatError::UnexpectedResponseEncoding)
    } else {
        Ok((priority_value(strings[0])->0, decode_utf8(strings[1])))
    }
}

/// What the records of a response hold, in the order of the response, or
/// what is wrong with the first record that is not as it should be.
pub open spec fn indexed_records(records: Seq<Seq<Seq<u8>>>) -> Result<
    Seq<(int, Seq<char>)>,
    FormatError,
>
    decreases records.len(),
{
    if records.len() == 0 {
        Ok(Seq::empty())
    } else {
        match indexed_records(records.drop_last()) {
            Err(e) => Err(e),
            Ok(before) => match indexed_record(records.last()) {
                Err(e) => Err(e),
                Ok(record) => Ok(before.push(record)),
            },
        }
    }
}

/// The payload of each priority. Of two records with one priority, the later
/// one counts.
pub open spec fn payload_map(records: Seq<(int, Seq<char>)>) -> Map<int, Seq<char>>
    decreases records.len(),
{
    if records.len() == 0 {
        Map::empty()
    } else {
        payload_map(records.drop_last()).insert(records.last().0, records.last().1)
    }
}

/// The payloads of the priorities from -128 up to `bound`, `bound` itself
/// left out, from the lowest priority to the highest.
pub open spec fn payloads_below(payloads: Map<int, Seq<char>>, bound: int) -> Seq<Seq<char>>
    decreases bound + 128,
{
    if bound <= -128 {
        Seq::empty()
    } else if payloads.contains_key(bound - 1) {
        payloads_below(payloads, bound - 1).push(payloads[bound - 1])
    } else {
        payloads_below(payloads, bound - 1)
    }
}

/// The payloads of all priorities, from the lowest priority to the highest.
pub open spec fn ordered_payloads(payloads: Map<int, Seq<char>>) -> Seq<Seq<char>> {
    payloads_below(payloads, 128)
}

/// The payloads of a response in the order of their priorities, or why the
/// response cannot be read: it holds more than 256 records, or one of its
/// records is not as it should be.
pub open spec fn decode_indexed_spec(records: Seq<Seq<Seq<u8>>>) -> Result<
    Seq<Seq<char>>,
    FormatError,
> {
    if records.len() > MAX_RECORDS {
        Err(FormatError::CapacityExceeded)
    } else {
        match indexed_records(records) {
            Err(e) => Err(e),
            Ok(held) => Ok(ordered_payloads(payload_map(held))),
        }
    }
}

/// The text that a slot holds.
pub open spec fn slot_text(slot: Option<String>) -> Option<Seq<char>> {
    match slot {
        Some(payload) => Some(payload@),
        None => None,
    }
}

impl PriorityIndexedRecord {
    /// Reads a record from its character strings: the priority, then the
    /// payload.
    pub fn parse(strings: &Vec<Vec<u8>>) -> (record: Result<PriorityIndexedRecord, FormatError>)
        ensures
            match record {
                Ok(r) => indexed_record(strings.deep_view()) == Ok::<(int, Seq<char>), FormatError>(
                    r@,
                ),
                Err(e) => indexed_record(strings.deep_view()) == Err::<
                    (int, Seq<char>),
                    FormatError,
                >(e),
            },
    {
        if strings.len() != 2 {
            return Err(FormatError::MalformedRecord);
        }
        assert(strings.deep_view()[0] =~= strings[0]@);
        assert(strings.deep_view()[1] =~= strings[1]@);
        let priority = match parse_priority(&strings[0]) {
            Ok(p) => p,
            Err(e) => {
                return Err(e);
            },
        };
        match string_from_rdata(&strings[1]) {
            Ok(payload) => Ok(PriorityIndexedRecord { priority, payload }),
            Err(e) => Err(e),
        }
    }
}

/// The payloads of `records` in the order of their priorities, from the
/// lowest to the highest. Of two records with one priority, the later one
/// counts.
pub fn order_payloads(records: &Vec<PriorityIndexedRecord>) -> (payloads: Vec<String>)
    ensures
        payloads.deep_view() == ordered_payloads(payload_map(record_views(records@))),
{
    let ghost views = record_views(records@);
    let mut slots: Vec<Option<String>> = Vec::new();
    while slots.len() < 256
        invariant
            slots.len() <= 256,
            forall|k: int| 0 <= k < slots.len() ==> #[trigger] slots[k] is None,
        decreases 256 - slots.len(),
    {
        slots.push(None);
    }
    let mut i: usize = 0;
    assert(views.take(0) =~= Seq::<(int, Seq<char>)>::empty());
    while i < records.len()
        invariant
            i <= records.len(),
            views == record_views(records@),
            slots.len() == 256,
            forall|k: int|
                0 <= k < 256 ==> slot_text(#[trigger] slots[k]) == (if payload_map(
                    views.take(i as int),
                ).contains_key(k - 128) {
                    Some(payload_map(views.take(i as int))[k - 128])
                } else {
                    None
                }),
        decreases records.len() - i,
    {
        let record = &records[i];
        let at: usize = (record.priority as i16 + 128) as usize;
        proof {
            assert(views.take(i + 1).drop_last() =~= views.take(i as int));
            assert(views.take(i + 1).last() == record@);
        }
        slots.set(at, Some(record.payload.clone()));
        i += 1;
    }
    assert(views.take(i as int) =~= views);
    let ghost held = payload_map(views);
    let mut payloads: Vec<String> = Vec::new();
    let mut k: usize = 0;
    while k < 256
        invariant
            k <= 256,
            slots.len() == 256,
            forall|j: int|
                0 <= j < 256 ==> slot_text(#[trigger] slots[j]) == (if held.contains_key(j - 128) {
                    Some(held[j - 128])
                } else {
                    None
                }),
            payloads.deep_view() == payloads_below(held, k - 128),
        decreases 256 - k,
    {
        let ghost before = payloads.deep_view();
        match &slots[k] {
            Some(payload) => {
                payloads.push(payload.clone());
                assert(payloads.deep_view() =~= before.push(payload@));
            },
            None => {},
        }
        k += 1;
    }
    payloads
}

/// The payloads of a response whose records carry priorities, in the order
/// of the priorities.
pub fn decode_indexed(records: &Vec<Vec<Vec<u8>>>) -> (payloads: Result<Vec<String>, FormatError>)
    ensures
        match payloads {
            Ok(p) => decode_indexed_spec(records.deep_view()) == Ok::<Seq<Seq<char>>, FormatError>(
                p.deep_view(),
            ),
            Err(e) => decode_indexed_spec(records.deep_view()) == Err::<
                Seq<Seq<char>>,
                FormatError,
            >(e),
        },
{
    if records.len() > MAX_RECORDS {
        return Err(FormatError::CapacityExceeded);
    }
    let ghost all = records.deep_view();
    let mut held: Vec<PriorityIndexedRecord> = Vec::new();
    let mut i: usize = 0;
    assert(all.take(0) =~= Seq::<Seq<Seq<u8>>>::empty());
    assert(record_views(held@) =~= Seq::<(int, Seq<char>)>::empty());
    while i < records.len()
        invariant
            i <= records.len() <= MAX_RECORDS,
            all == records.deep_view(),
            indexed_records(all.take(i as int)) == Ok::<Seq<(int, Seq<char>)>, FormatError>(
                record_views(held@),
            ),
        decreases records.len() - i,
    {
        proof {
            assert(all.take(i + 1).drop_last() =~= all.take(i as int));
            assert(all.take(i + 1).last() == records[i as int].deep_view());
        }
        match PriorityIndexedRecord::parse(&records[i]) {
            Ok(record) => {
                assert(record_views(held@.push(record)) =~= record_views(held@).push(record@));
                held.push(record);
            },
            Err(e) => {
                proof {
                    assert(indexed_records(all.take(i + 1)) == Err::<
                        Seq<(int, Seq<char>)>,
                        FormatError,
                    >(e));
                    lemma_error_stays(all, i + 1);
                }
                return Err(e);
            },
        }
        i += 1;
    }
    assert(all.take(i as int) =~= all);
    Ok(order_payloads(&held))
}

/// An error among the first records of a response is the error of the whole
/// response.
pub proof fn lemma_error_stays(records: Seq<Seq<Seq<u8>>>, k: int)
    requires
        0 <= k <= records.len(),
        indexed_records(records.take(k)) is Err,
    ensures
        indexed_records(records) == indexed_records(records.take(k)),
    decreases records.len(),
{
    if k == records.len() {
        assert(records.take(k) =~= records);
    } else {
        assert(records.drop_last().take(k) =~= records.take(k));
        lemma_error_stays(records.drop_last(), k);
    }
}

/// The priorities that occur in `records`.
pub open spec fn priorities(records: Seq<(int, Seq<char>)>) -> Set<int> {
    Set::new(|p: int| exists|i: int| 0 <= i < records.len() && (#[trigger] records[i]).0 == p)
}

/// The priorities from -128 up to `bound`, `bound` itself left out, that
/// have a payload.
pub open spec fn keys_below(payloads: Map<int, Seq<char>>, bound: int) -> Set<int> {
    Set::new(|p: int| -128 <= p < bound && payloads.contains_key(p))
}

/// The priorities that have a payload are those that occur in the records.
pub proof fn lemma_payload_map_dom(records: Seq<(int, Seq<char>)>)
    ensures
        payload_map(records).dom() =~= priorities(records),
    decreases records.len(),
{
    if records.len() > 0 {
        let before = records.drop_last();
        lemma_payload_map_dom(before);
        assert forall|p: int| priorities(records).contains(p) <==> #[trigger] priorities(
            before,
        ).insert(records.last().0).contains(p) by {
            if priorities(records).contains(p) {
                let i = choose|i: int| 0 <= i < records.len() && (#[trigger] records[i]).0 == p;
                if i < before.len() {
                    assert(before[i].0 == p);
                }
            }
            if priorities(before).contains(p) {
                let i = choose|i: int| 0 <= i < before.len() && (#[trigger] before[i]).0 == p;
                assert(records[i].0 == p);
            }
            if p == records.last().0 {
                assert(records[records.len() - 1].0 == p);
            }
        }
    }
}

/// There is one payload for each priority that has one.
pub proof fn lemma_payloads_below_len(payloads: Map<int, Seq<char>>, bound: int)
    requires
        -128 <= bound <= 128,
    ensures
        keys_below(payloads, bound).finite(),
        payloads_below(payloads, bound).len() == keys_below(payloads, bound).len(),
    decreases bound + 128,
{
    if bound == -128 {
        assert(keys_below(payloads, bound) =~= Set::<int>::empty());
    } else {
        lemma_payloads_below_len(payloads, bound - 1);
        if payloads.contains_key(bound - 1) {
            assert(keys_below(payloads, bound) =~= keys_below(payloads, bound - 1).insert(
                bound - 1,
            ));
        } else {
            assert(keys_below(payloads, bound) =~= keys_below(payloads, bound - 1));
        }
    }
}

/// Records with priorities in range give one payload for each priority that
/// occurs among them, however often it occurs.
pub proof fn lemma_one_payload_per_priority(records: Seq<(int, Seq<char>)>)
    requires
        forall|i: int| 0 <= i < records.len() ==> -128 <= (#[trigger] records[i]).0 <= 127,
    ensures
        priorities(records).finite(),
        ordered_payloads(payload_map(records)).len() == priorities(records).len(),
{
    let held = payload_map(records);
    lemma_payload_map_dom(records);
    lemma_payloads_below_len(held, 128);
    assert forall|p: int| held.dom().contains(p) implies keys_below(held, 128).contains(p) by {
        let i = choose|i: int| 0 <= i < records.len() && (#[trigger] records[i]).0 == p;
        assert(-128 <= records[i].0 <= 127);
    }
    assert(keys_below(held, 128) =~= held.dom());
}

/// The priorities that records hold are in range.
pub proof fn lemma_indexed_records_in_range(records: Seq<Seq<Seq<u8>>>)
    requires
        indexed_records(records) is Ok,
    ensures
        indexed_records(records)->Ok_0.len() == records.len(),
        forall|i: int|
            0 <= i < records.len() ==> -128 <= (#[trigger] indexed_records(records)->Ok_0[i]).0
                <= 127,
    decreases records.len(),
{
    if records.len() > 0 {
        lemma_indexed_records_in_range(records.drop_last());
    }
}

/// A response of at most 256 records, each with a priority and a payload,
/// can be read, also where a priority occurs more than once: there is then
/// one payload for each priority that occurs.
pub proof fn lemma_duplicates_overwrite(records: Seq<Seq<Seq<u8>>>)
    requires
        records.len() <= MAX_RECORDS,
        indexed_records(records) is Ok,
    ensures
        decode_indexed_spec(records) is Ok,
        priorities(indexed_records(records)->Ok_0).finite(),
        decode_indexed_spec(records)->Ok_0.len() == priorities(
            indexed_records(records)->Ok_0,
        ).len(),
{
    lemma_indexed_records_in_range(records);
    lemma_one_payload_per_priority(indexed_records(records)->Ok_0);
}

/// The characters `ssh-`, with which the type of a key starts.
pub open spec fn key_marker() -> Seq<char> {
    seq!['s', 's', 'h', '-']
}

/// Whether a line ends with `payload`, as far as one can tell: the payload
/// does not fill its chunk, and it either is no start of a key or holds a
/// space. A guess: a line of 255 bytes or a multiple of that looks
/// unfinished, and a later chunk with a space looks like an end.
pub open spec fn ends_line(payload: Seq<char>) -> bool {
    &&& byte_len(payload) < MAX_CHUNK_BYTES
    &&& (!(payload.len() >= 4 && payload.take(4) == key_marker()) || payload.contains(' '))
}

/// The lines that `payloads` spell after `pending`, the part of a line that
/// has no end yet: a line ends with each payload of which `ends_line` holds,
/// and with the last payload.
pub open spec fn lines_after(pending: Option<Seq<char>>, payloads: Seq<Seq<char>>) -> Seq<
    Seq<char>,
>
    decreases payloads.len(),
{
    if payloads.len() == 0 {
        match pending {
            Some(part) => seq![part],
            None => Seq::empty(),
        }
    } else {
        let joined = match pending {
            Some(part) => part + payloads[0],
            None => payloads[0],
        };
        if ends_line(payloads[0]) {
            seq![joined] + lines_after(None, payloads.drop_first())
        } else {
            lines_after(Some(joined), payloads.drop_first())
        }
    }
}

/// Whether `chars` holds a space.
fn has_space(chars: &Vec<char>) -> (found: bool)
    ensures
        found == chars@.contains(' '),
{
    let mut i: usize = 0;
    while i < chars.len()
        invariant
            i <= chars.len(),
            forall|j: int| 0 <= j < i ==> chars[j] != ' ',
        decreases chars.len() - i,
    {
        if chars[i] == ' ' {
            return true;
        }
        i += 1;
    }
    false
}

/// Whether a line ends with `payload`, as far as one can tell.
pub fn is_complete(payload: &str) -> (complete: bool)
    ensures
        complete == ends_line(payload@),
{
    proof {
        lemma_byte_len_encoded(payload@);
    }
    if payload.as_bytes().len() >= MAX_CHUNK_BYTES {
        return false;
    }
    let chars = to_chars(payload);
    if chars.len() >= 4 && chars[0] == 's' && chars[1] == 's' && chars[2] == 'h' && chars[3]
        == '-' {
        assert(chars@.take(4) =~= key_marker());
        has_space(&chars)
    } else {
        proof {
            if chars.len() >= 4 {
                let head = chars@.take(4);
                assert(head[0] == chars[0] && head[1] == chars[1] && head[2] == chars[2]
                    && head[3] == chars[3]);
                assert(key_marker()[0] == 's' && key_marker()[1] == 's' && key_marker()[2] == 'h'
                    && key_marker()[3] == '-');
            }
        }
        true
    }
}

/// The key lines that `payloads` spell, read in the order given: payloads
/// are joined up to each one with which a line ends.
pub fn key_lines(payloads: &Vec<String>) -> (lines: Vec<String>)
    ensures
        lines.deep_view() == lines_after(None, payloads.deep_view()),
{
    let ghost all = payloads.deep_view();
    let mut lines: Vec<String> = Vec::new();
    let mut pending = String::new();
    let mut open = false;
    let mut i: usize = 0;
    assert(all.skip(0) =~= all);
    assert(lines.deep_view() =~= Seq::<Seq<char>>::empty());
    while i < payloads.len()
        invariant
            i <= payloads.len(),
            all == payloads.deep_view(),
            !open ==> pending@ == Seq::<char>::empty(),
            lines_after(None, all) == lines.deep_view() + lines_after(
                if open {
                    Some(pending@)
                } else {
                    None
                },
                all.skip(i as int),
            ),
        decreases payloads.len() - i,
    {
        let ghost before = lines.deep_view();
        let ghost part = pending@;
        proof {
            assert(all.skip(i as int)[0] == payloads[i as int]@);
            assert(all.skip(i as int).drop_first() =~= all.skip(i + 1));
            assert(Seq::<char>::empty() + payloads[i as int]@ =~= payloads[i as int]@);
        }
        pending.append(payloads[i].as_str());
        if is_complete(payloads[i].as_str()) {
            lines.push(pending);
            pending = String::new();
            open = false;
            proof {
                let joined = part + payloads[i as int]@;
                assert(lines.deep_view() =~= before.push(joined));
                assert(before + (seq![joined] + lines_after(None, all.skip(i + 1)))
                    =~= before.push(joined) + lines_after(None, all.skip(i + 1)));
            }
        } else {
            open = true;
        }
        i += 1;
    }
    if open {
        let ghost before = lines.deep_view();
        lines.push(pending);
        assert(lines.deep_view() =~= before + seq![pending@]);
    } else {
        assert(lines.deep_view() + Seq::<Seq<char>>::empty() =~= lines.deep_view());
    }
    lines
}

/// The chunks of one line with their priorities, which count up from
/// `first`.
pub open spec fn numbered_chunks(chunks: Seq<Seq<char>>, first: int) -> Seq<(int, Seq<char>)> {
    Seq::new(chunks.len(), |j: int| (first + j, chunks[j]))
}

/// The chunks of `lines` with their priorities. The priorities count up from
/// `first` through the chunks of all lines, and skip one number after each
/// line.
pub open spec fn numbered(lines: Seq<Seq<Seq<char>>>, first: int) -> Seq<(int, Seq<char>)>
    decreases lines.len(),
{
    if lines.len() == 0 {
        Seq::empty()
    } else {
        numbered_chunks(lines[0], first) + numbered(
            lines.drop_first(),
            first + lines[0].len() + 1,
        )
    }
}

/// The texts of the chunks of `lines`.
pub open spec fn line_texts(lines: Seq<Vec<TxtChunk>>) -> Seq<Seq<Seq<char>>> {
    lines.map_values(|chunks: Vec<TxtChunk>| chunk_texts(chunks@))
}

/// Gives each chunk of `lines` its priority: the records to publish, in the
/// order of the chunks. The priorities start at 0 and count through all
/// lines, with one number left out after each line. Fails where a chunk
/// would get a priority above 127.
pub fn assign_priorities(lines: &Vec<Vec<TxtChunk>>) -> (records: Result<
    Vec<PriorityIndexedRecord>,
    FormatError,
>)
    ensures
        match records {
            Ok(rs) => record_views(rs@) == numbered(line_texts(lines@), 0),
            Err(e) => {
                &&& e == FormatError::CapacityExceeded
                &&& exists|k: int|
                    0 <= k < numbered(line_texts(lines@), 0).len() && (#[trigger] numbered(
                        line_texts(lines@),
                        0,
                    )[k]).0 > 127
            },
        },
{
    let ghost all = line_texts(lines@);
    let ghost mut base: int = 0;
    let mut records: Vec<PriorityIndexedRecord> = Vec::new();
    let mut next: usize = 0;
    let mut i: usize = 0;
    assert(all.skip(0) =~= all);
    assert(record_views(records@) =~= Seq::<(int, Seq<char>)>::empty());
    while i < lines.len()
        invariant
            i <= lines.len(),
            all == line_texts(lines@),
            0 <= base,
            next == if base < 128 {
                base
            } else {
                128
            },
            numbered(all, 0) == record_views(records@) + numbered(all.skip(i as int), base),
        decreases lines.len() - i,
    {
        let chunks = &lines[i];
        let ghost done = record_views(records@);
        let ghost here = numbered_chunks(all[i as int], base);
        let ghost rest = numbered(all.skip(i + 1), base + all[i as int].len() + 1);
        proof {
            assert(all.skip(i as int)[0] == all[i as int]);
            assert(all.skip(i as int).drop_first() =~= all.skip(i + 1));
            assert(all[i as int] == chunk_texts(chunks@));
            assert(here.take(0) =~= Seq::<(int, Seq<char>)>::empty());
            assert(done + here.take(0) =~= done);
        }
        let mut j: usize = 0;
        while j < chunks.len()
            invariant
                j <= chunks.len(),
                i < lines.len(),
                all == line_texts(lines@),
                all[i as int] == chunk_texts(chunks@),
                here == numbered_chunks(all[i as int], base),
                0 <= base,
                next == if base + j < 128 {
                    base + j
                } else {
                    128
                },
                numbered(all, 0) == done + (here + rest),
                record_views(records@) == done + here.take(j as int),
            decreases chunks.len() - j,
        {
            if next > 127 {
                proof {
                    let k = done.len() + j;
                    assert(numbered(all, 0)[k] == here[j as int]);
                    assert(here[j as int].0 == base + j);
                }
                return Err(FormatError::CapacityExceeded);
            }
            let record = PriorityIndexedRecord {
                priority: next as i8,
                payload: chunks[j].as_str().to_owned(),
            };
            proof {
                assert(record@ == here[j as int]);
                assert(record_views(records@.push(record)) =~= record_views(records@).push(
                    record@,
                ));
                assert(done + here.take(j + 1) =~= (done + here.take(j as int)).push(
                    here[j as int],
                ));
            }
            records.push(record);
            next += 1;
            j += 1;
        }
        proof {
            assert(here.take(j as int) =~= here);
            assert(done + (here + rest) =~= (done + here) + rest);
            base = base + all[i as int].len() + 1;
        }
        if next < 128 {
            next += 1;
        }
        i += 1;
    }
    assert(record_views(records@) + Seq::<(int, Seq<char>)>::empty() =~= record_views(records@));
    Ok(records)
}

} // verus!
