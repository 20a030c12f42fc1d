//! The records to publish for the lines of a key file, each written as one
//! line of text: the name, the record type, and the record's character
//! strings in quotes.

use crate::codec::{chunk_texts, encode, encode_spec, TxtChunk};
use crate::indexed::{
    assign_priorities, line_texts, numbered, record_views, PriorityIndexedRecord,
};
use crate::priority::{decimal_chars, priority_text};
use crate::records::FormatError;
use vstd::prelude::*;
use vstd::string::*;

verus! {

/// The characters `. TXT`, which stand between the name and the character
/// strings.
pub open spec fn record_tag() -> Seq<char> {
    seq!['.', ' ', 'T', 'X', 'T']
}

/// Each of `strings` after a space and between quotes.
pub open spec fn quoted(strings: Seq<Seq<char>>) -> Seq<char>
    decreases strings.len(),
{
    if strings.len() == 0 {
        Seq::empty()
    } else {
        quoted(strings.drop_last()) + seq![' ', '"'] + strings.last() + seq!['"']
    }
}

/// The line for the record of `address` that holds `strings`.
pub open spec fn record_line_spec(address: Seq<char>, strings: Seq<Seq<char>>) -> Seq<char> {
    address + record_tag() + quoted(strings)
}

/// The two character strings of a record with a priority: the priority in
/// decimal, then the payload.
pub open spec fn indexed_strings(record: (int, Seq<char>)) -> Seq<Seq<char>> {
    seq![decimal_chars(record.0), record.1]
}

/// Starts the line of a record of `address`.
fn line_start(address: &str) -> (line: String)
    ensures
        line@ == address@ + record_tag(),
{
    let mut line = address.to_owned();
    line.push('.');
    line.push(' ');
    line.push('T');
    line.push('X');
    line.push('T');
    assert(line@ =~= address@ + record_tag());
    line
}

/// Adds `text` to `line`, after a space and between quotes.
fn push_quoted(line: &mut String, text: &str)
    ensures
        final(line)@ == old(line)@ + seq![' ', '"'] + text@ + seq!['"'],
{
    let ghost before = line@;
    line.push(' ');
    line.push('"');
    line.append(text);
    line.push('"');
    assert(line@ =~= before + seq![' ', '"'] + text@ + seq!['"']);
}

/// The line for the record of `address` that holds `chunks`, one quoted
/// string for each chunk.
pub fn record_line(address: &str, chunks: &Vec<TxtChunk>) -> (line: String)
    ensures
        line@ == record_line_spec(address@, chunk_texts(chunks@)),
{
    let ghost texts = chunk_texts(chunks@);
    let mut line = line_start(address);
    let mut i: usize = 0;
    assert(texts.take(0) =~= Seq::<Seq<char>>::empty());
    assert(line@ + Seq::<char>::empty() =~= line@);
    while i < chunks.len()
        invariant
            i <= chunks.len(),
            texts == chunk_texts(chunks@),
            line@ == address@ + record_tag() + quoted(texts.take(i as int)),
        decreases chunks.len() - i,
    {
        let ghost before = line@;
        push_quoted(&mut line, chunks[i].as_str());
        proof {
            assert(texts.take(i + 1).drop_last() =~= texts.take(i as int));
            assert(texts.take(i + 1).last() == chunks[i as int]@);
            assert(line@ =~= address@ + record_tag() + quoted(texts.take(i + 1)));
        }
        i += 1;
    }
    assert(texts.take(i as int) =~= texts);
    line
}

/// The line for a record of `address` that holds a priority and a payload.
pub fn indexed_record_line(address: &str, record: &PriorityIndexedRecord) -> (line: String)
    ensures
        line@ == record_line_spec(address@, indexed_strings(record@)),
{
    let mut line = line_start(address);
    let priority = priority_text(record.priority);
    push_quoted(&mut line, priority.as_str());
    push_quoted(&mut line, record.payload.as_str());
    proof {
        let strings = indexed_strings(record@);
        assert(strings.drop_last() =~= seq![decimal_chars(record@.0)]);
        assert(strings.drop_last().drop_last() =~= Seq::<Seq<char>>::empty());
        reveal_with_fuel(quoted, 3);
        assert(line@ =~= record_line_spec(address@, strings));
    }
    line
}

/// The lines to publish for the key lines `lines` under `address`: one
/// record for each key line, which holds the chunks of that line.
pub fn publish_records(address: &str, lines: &Vec<String>) -> (records: Vec<String>)
    ensures
        records.deep_view() == lines.deep_view().map_values(
            |line: Seq<char>| record_line_spec(address@, encode_spec(line)),
        ),
{
    let mut records: Vec<String> = Vec::new();
    let mut i: usize = 0;
    while i < lines.len()
        invariant
            i <= lines.len(),
            records.len() == i,
            forall|j: int|
                0 <= j < i ==> (#[trigger] records[j])@ == record_line_spec(
                    address@,
                    encode_spec(lines[j]@),
                ),
        decreases lines.len() - i,
    {
        let chunks = encode(lines[i].as_str());
        records.push(record_line(address, &chunks));
        i += 1;
    }
    assert(records.deep_view() =~= lines.deep_view().map_values(
        |line: Seq<char>| record_line_spec(address@, encode_spec(line)),
    ));
    records
}

/// The chunks of each of `lines`.
pub open spec fn encoded_lines(lines: Seq<Seq<char>>) -> Seq<Seq<Seq<char>>> {
    lines.map_values(|line: Seq<char>| encode_spec(line))
}

/// The lines to publish for the key lines `lines` under `address`, where
/// every chunk goes into a record of its own, with its priority. Fails where
/// there are too many chunks for the priorities.
pub fn publish_indexed(address: &str, lines: &Vec<String>) -> (records: Result<
    Vec<String>,
    FormatError,
>)
    ensures
        match records {
            Ok(rs) => rs.deep_view() == numbered(encoded_lines(lines.deep_view()), 0).map_values(
                |record: (int, Seq<char>)| record_line_spec(address@, indexed_strings(record)),
            ),
            Err(e) => {
                &&& e == FormatError::CapacityExceeded
                &&& exists|k: int|
                    0 <= k < numbered(encoded_lines(lines.deep_view()), 0).len() && (
                    #[trigger] numbered(encoded_lines(lines.deep_view()), 0)[k]).0 > 127
            },
        },
{
    let mut encoded: Vec<Vec<TxtChunk>> = Vec::new();
    let mut i: usize = 0;
    while i < lines.len()
        invariant
            i <= lines.len(),
            encoded.len() == i,
            forall|j: int|
                0 <= j < i ==> chunk_texts((#[trigger] encoded[j])@) == encode_spec(lines[j]@),
        decreases lines.len() - i,
    {
        encoded.push(encode(lines[i].as_str()));
        i += 1;
    }
    assert(line_texts(encoded@) =~= encoded_lines(lines.deep_view()));
    let numbered_records = match assign_priorities(&encoded) {
        Ok(rs) => rs,
        Err(e) => {
            return Err(e);
        },
    };
    let ghost views = record_views(numbered_records@);
    let mut records: Vec<String> = Vec::new();
    let mut k: usize = 0;
    while k < numbered_records.len()
        invariant
            k <= numbered_records.len(),
            records.len() == k,
            views == record_views(numbered_records@),
            forall|j: int|
                0 <= j < k ==> (#[trigger] records[j])@ == record_line_spec(
                    address@,
                    indexed_strings(views[j]),
                ),
        decreases numbered_records.len() - k,
    {
        records.push(indexed_record_line(address, &numbered_records[k]));
        k += 1;
    }
    assert(records.deep_view() =~= views.map_values(
        |record: (int, Seq<char>)| record_line_spec(address@, indexed_strings(record)),
    ));
    Ok(records)
}

} // verus!
