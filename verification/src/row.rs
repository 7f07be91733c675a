//! What the validator takes from outside: the row type of the `csv` crate with
//! three of its methods, and the lowercasing of the standard library. Nothing
//! in this file is proved; the contracts restate what the called functions
//! document.

use csv::StringRecord;
use vstd::prelude::*;

verus! {

/// `csv::StringRecord`, one row of text fields. The type is opaque here; the
/// contracts below speak of it through `record_fields`.
#[verifier::external_type_specification]
#[verifier::external_body]
pub struct ExStringRecord(csv::StringRecord);

/// The fields that a row holds, in order, each as its sequence of characters.
pub uninterp spec fn record_fields(record: StringRecord) -> Seq<Seq<char>>;

/// What `str::to_lowercase` returns for the text `s`.
pub uninterp spec fn lowercased(s: Seq<char>) -> Seq<char>;

/// What `str::trim` returns for the text `s`: the text without its leading
/// and trailing whitespace.
pub uninterp spec fn trimmed(s: Seq<char>) -> Seq<char>;

/// Calls `StringRecord::len`, which returns the number of fields in the row.
#[verifier::external_body]
pub(crate) fn field_count(record: &StringRecord) -> (n: usize)
    ensures
        n == record_fields(*record).len(),
{
    record.len()
}

/// Calls `StringRecord::get`, which returns the field at index `i`, or `None`
/// when the row has no field at that index.
#[verifier::external_body]
pub(crate) fn field<'a>(record: &'a StringRecord, i: usize) -> (f: Option<&'a str>)
    ensures
        match f {
            Some(text) => i < record_fields(*record).len() && text@ == record_fields(*record)[i as int],
            None => i >= record_fields(*record).len(),
        },
{
    record.get(i)
}

/// Calls `str::to_lowercase`, which returns the lowercase equivalent of the
/// text as a new string. The result is only named, not described.
#[verifier::external_body]
pub(crate) fn lowercase(s: &str) -> (r: String)
    ensures
        r@ == lowercased(s@),
{
    s.to_lowercase()
}

/// Calls `StringRecord::trim` on a copy of the row. That method replaces the
/// row by one with as many fields, each the `str::trim` of the field in its
/// place.
#[verifier::external_body]
pub(crate) fn trimmed_row(record: &StringRecord) -> (r: StringRecord)
    ensures
        record_fields(r).len() == record_fields(*record).len(),
        forall|i: int|
            0 <= i < record_fields(r).len() ==> #[trigger] record_fields(r)[i] == trimmed(
                record_fields(*record)[i],
            ),
{
    let mut copy = record.clone();
    copy.trim();
    copy
}

} // verus!
