//! Key lines straight from a resolver's answer to a TXT query.

use crate::indexed::{decode_indexed, decode_indexed_spec, key_lines, lines_after};
use crate::records::{join_records, FormatError, TxtLookupExt};
use trust_dns_resolver::lookup::TxtLookup;
use vstd::prelude::*;

verus! {

/// `trust_dns_resolver::lookup::TxtLookup`, a resolver's answer to a TXT
/// query. Nothing inside it is seen here but through `txt_strings`.
#[verifier::external_type_specification]
#[verifier::external_body]
pub struct ExTxtLookup(trust_dns_resolver::lookup::TxtLookup);

/// The TXT records that `lookup` holds, in the order in which its iterator
/// yields them, each as the list of its character strings.
pub uninterp spec fn lookup_strings(lookup: TxtLookup) -> Seq<Seq<Seq<u8>>>;

/// `TxtLookup::iter` and, on each record it yields, `TXT::txt_data`: copies
/// the character strings of every TXT record of the answer, keeping the order
/// of the records and of the strings within a record.
#[verifier::external_body]
fn txt_strings(lookup: &TxtLookup) -> (records: Vec<Vec<Vec<u8>>>)
    ensures
        records.deep_view() == lookup_strings(*lookup),
{
    lookup.iter().map(|txt| txt.txt_data().iter().map(|s| s.to_vec()).collect()).collect()
}

impl TxtLookupExt for TxtLookup {
    open spec fn txt_records(&self) -> Seq<Seq<Seq<u8>>> {
        lookup_strings(*self)
    }

    fn public_ssh_keys(&self) -> (keys: Result<Vec<String>, FormatError>) {
        let records = txt_strings(self);
        join_records(&records)
    }
}

/// The key lines of an answer whose records carry priorities: the payloads
/// in the order of their priorities, joined up to each one with which a line
/// ends.
pub fn indexed_ssh_keys(lookup: &TxtLookup) -> (keys: Result<Vec<String>, FormatError>)
    ensures
        match keys {
            Ok(lines) => decode_indexed_spec(lookup_strings(*lookup)) matches Ok(payloads)
                && lines.deep_view() == lines_after(None, payloads),
            Err(e) => decode_indexed_spec(lookup_strings(*lookup)) == Err::<
                Seq<Seq<char>>,
                FormatError,
            >(e),
        },
{
    let records = txt_strings(lookup);
    match decode_indexed(&records) {
        Ok(payloads) => Ok(key_lines(&payloads)),
        Err(e) => Err(e),
    }
}

} // verus!
