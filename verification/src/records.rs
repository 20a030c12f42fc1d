//! Key lines from the TXT records of a response, where every record holds one
//! whole line: the line is the record's character strings, joined.

use crate::text::utf8_text;
use vstd::prelude::*;
use vstd::string::*;
use vstd::utf8::*;

verus! {

/// Why a response could not be read as key lines.
#[derive(Debug, Clone, Copy, PartialEq, Eq)]
pub enum FormatError {
    /// A character string that should be text is not UTF-8.
    UnexpectedResponseEncoding,
    /// A priority is not a decimal number that fits in eight bits with sign.
    InvalidPriority,
    /// The response holds more records than there are priorities.
    CapacityExceeded,
    /// A record that should hold a priority and a payload holds fewer or
    /// more than two character strings.
    MalformedRecord,
}

/// Every one of `strings` is UTF-8.
pub open spec fn all_utf8(strings: Seq<Seq<u8>>) -> bool {
    forall|i: int| 0 <= i < strings.len() ==> valid_utf8(#[trigger] strings[i])
}

/// The text of a record: its character strings, decoded and joined in order.
/// `None` where one of them is not UTF-8.
pub open spec fn record_text(strings: Seq<Seq<u8>>) -> Option<Seq<char>> {
    if all_utf8(strings) {
        Some(strings.map_values(|bytes: Seq<u8>| decode_utf8(bytes)).flatten())
    } else {
        None
    }
}

/// The lines of a response, one for each record, in the order of the records.
/// `None` where a record has no text.
pub open spec fn response_lines(records: Seq<Seq<Seq<u8>>>) -> Option<Seq<Seq<char>>> {
    if forall|i: int| 0 <= i < records.len() ==> record_text(#[trigger] records[i]) is Some {
        Some(records.map_values(|strings: Seq<Seq<u8>>| record_text(strings)->0))
    } else {
        None
    }
}

/// The text that `resp` holds in UTF-8, or the error that says it holds none.
pub fn string_from_rdata(resp: &Vec<u8>) -> (text: Result<String, FormatError>)
    ensures
        match text {
            Ok(t) => valid_utf8(resp@) && t@ == decode_utf8(resp@),
            Err(e) => e == FormatError::UnexpectedResponseEncoding && !valid_utf8(resp@),
        },
{
    match utf8_text(resp) {
        Some(t) => {
            proof {
                encode_utf8_decode_utf8(t@);
            }
            Ok(t)
        },
        None => Err(FormatError::UnexpectedResponseEncoding),
    }
}

/// The text of the record that holds `strings`.
pub fn join_strings(strings: &Vec<Vec<u8>>) -> (line: Result<String, FormatError>)
    ensures
        match line {
            Ok(l) => record_text(strings.deep_view()) == Some(l@),
            Err(e) => e == FormatError::UnexpectedResponseEncoding && record_text(
                strings.deep_view(),
            ) is None,
        },
{
    let ghost all = strings.deep_view();
    let ghost texts = all.map_values(|bytes: Seq<u8>| decode_utf8(bytes));
    let mut line = String::new();
    let mut i: usize = 0;
    assert(texts.take(0) =~= Seq::<Seq<char>>::empty());
    while i < strings.len()
        invariant
            i <= strings.len(),
            all == strings.deep_view(),
            texts == all.map_values(|bytes: Seq<u8>| decode_utf8(bytes)),
            forall|j: int| 0 <= j < i ==> valid_utf8(#[trigger] all[j]),
            line@ == texts.take(i as int).flatten(),
        decreases strings.len() - i,
    {
        assert(all[i as int] =~= strings[i as int]@);
        match string_from_rdata(&strings[i]) {
            Ok(part) => {
                proof {
                    assert(texts.take(i + 1) =~= texts.take(i as int).push(part@));
                    texts.take(i as int).lemma_flatten_push(part@);
                }
                line.append(part.as_str());
            },
            Err(e) => {
                return Err(e);
            },
        }
        i += 1;
    }
    assert(texts.take(i as int) =~= texts);
    Ok(line)
}

/// The key lines of a response in which every record holds one whole line.
pub fn join_records(records: &Vec<Vec<Vec<u8>>>) -> (lines: Result<Vec<String>, FormatError>)
    ensures
        match lines {
            Ok(l) => response_lines(records.deep_view()) == Some(l.deep_view()),
            Err(e) => e == FormatError::UnexpectedResponseEncoding && response_lines(
                records.deep_view(),
            ) is None,
        },
{
    let ghost all = records.deep_view();
    let mut lines: Vec<String> = Vec::new();
    let mut i: usize = 0;
    while i < records.len()
        invariant
            i <= records.len(),
            all == records.deep_view(),
            lines.len() == i,
            forall|j: int| 0 <= j < i ==> record_text(#[trigger] all[j]) == Some(lines[j]@),
        decreases records.len() - i,
    {
        assert(all[i as int] == records[i as int].deep_view());
        match join_strings(&records[i]) {
            Ok(line) => {
                lines.push(line);
            },
            Err(e) => {
                return Err(e);
            },
        }
        i += 1;
    }
    assert(lines.deep_view() =~= all.map_values(|strings: Seq<Seq<u8>>| record_text(strings)->0));
    Ok(lines)
}

/// A response to a TXT query, read as the public keys of a user.
pub trait TxtLookupExt {
    /// The records of the response, each as the list of its character
    /// strings.
    spec fn txt_records(&self) -> Seq<Seq<Seq<u8>>>;

    /// The key lines of the response, one for each record: the record's
    /// character strings, joined. Fails where one of them is not UTF-8.
    fn public_ssh_keys(&self) -> (keys: Result<Vec<String>, FormatError>)
        ensures
            match keys {
                Ok(lines) => response_lines(self.txt_records()) == Some(lines.deep_view()),
                Err(e) => e == FormatError::UnexpectedResponseEncoding && response_lines(
                    self.txt_records(),
                ) is None,
            },
    ;
}

/// The key lines of the answer to a query. A query that brought no answer
/// (`None`) stands for a user without keys: that is no error, and there are
/// no lines.
pub fn keys_or_none<T: TxtLookupExt>(answer: Option<&T>) -> (keys: Result<
    Vec<String>,
    FormatError,
>)
    ensures
        match answer {
            None => keys matches Ok(lines) && lines.deep_view() == Seq::<Seq<char>>::empty(),
            Some(response) => match keys {
                Ok(lines) => response_lines(response.txt_records()) == Some(lines.deep_view()),
                Err(e) => e == FormatError::UnexpectedResponseEncoding && response_lines(
                    response.txt_records(),
                ) is None,
            },
        },
{
    match answer {
        None => {
            let lines: Vec<String> = Vec::new();
            assert(lines.deep_view() =~= Seq::<Seq<char>>::empty());
            Ok(lines)
        },
        Some(response) => response.public_ssh_keys(),
    }
}

impl TxtLookupExt for Vec<Vec<Vec<u8>>> {
    open spec fn txt_records(&self) -> Seq<Seq<Seq<u8>>> {
        self.deep_view()
    }

    fn public_ssh_keys(&self) -> (keys: Result<Vec<String>, FormatError>) {
        join_records(self)
    }
}

} // verus!
