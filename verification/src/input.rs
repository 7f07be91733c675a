//! Transaction records and the validator that builds them from raw rows.

use crate::parse::{amount_of, parse_amount, parse_unsigned, unsigned_of};
use crate::row::{field, field_count, lowercase, lowercased, record_fields, trimmed, trimmed_row};
use csv::StringRecord;
use vstd::prelude::*;

verus! {

/// All possible transaction types.
#[derive(Debug, Clone, Copy, PartialEq, Eq, Structural)]
pub enum TransactionType {
    Deposit,
    Withdrawal,
    Dispute,
    Resolve,
    Chargeback,
}

impl TransactionType {
    /// Deposits and withdrawals carry their own amount; the other kinds refer
    /// back to an earlier transaction.
    pub open spec fn needs_amount(self) -> bool {
        self is Deposit || self is Withdrawal
    }
}

/// The largest magnitude that an amount can have, in billionths.
pub const MAX_AMOUNT_NANOS: i128 = 4_000_000_000_000_000_000_999_999_999;

/// An exact decimal amount, counted in billionths of one unit.
#[derive(Debug, Clone, Copy, PartialEq, Eq, Structural)]
pub struct Amount {
    pub nanos: i128,
}

impl Amount {
    /// The amount lies within the range that amounts are read in.
    pub open spec fn valid(self) -> bool {
        -MAX_AMOUNT_NANOS <= self.nanos <= MAX_AMOUNT_NANOS
    }
}

/// One validated transaction.
#[derive(Debug, Clone, Copy, PartialEq, Eq)]
pub struct InputRecord {
    pub kind: TransactionType,
    pub client: u16,
    pub tx: u32,
    pub amount: Option<Amount>,
}

impl InputRecord {
    /// A deposit or a withdrawal always carries an amount, and an amount
    /// that is carried lies within the range of amounts.
    pub open spec fn well_formed(self) -> bool {
        &&& self.kind.needs_amount() ==> self.amount is Some
        &&& self.amount is Some ==> self.amount.unwrap().valid()
    }
}

/// The kind that a name stands for. The name is compared as it is: the
/// caller lowers it first.
pub open spec fn kind_of(name: Seq<char>) -> Option<TransactionType> {
    if name == "deposit"@ {
        Some(TransactionType::Deposit)
    } else if name == "withdrawal"@ {
        Some(TransactionType::Withdrawal)
    } else if name == "dispute"@ {
        Some(TransactionType::Dispute)
    } else if name == "resolve"@ {
        Some(TransactionType::Resolve)
    } else if name == "chargeback"@ {
        Some(TransactionType::Chargeback)
    } else {
        None
    }
}

/// The record that a row of the given kind yields from the texts of its
/// client, its transaction and its amount, or `None` where the row is
/// rejected: the client must be read, then the transaction; the amount may be
/// unreadable only where the kind takes none.
pub open spec fn record_of(
    kind: TransactionType,
    client: Seq<char>,
    tx: Seq<char>,
    amount: Seq<char>,
) -> Option<InputRecord> {
    match (unsigned_of(client, 0xffff), unsigned_of(tx, 0xffff_ffff)) {
        (Some(c), Some(t)) => {
            let a = amount_of(amount);
            if a is None && kind.needs_amount() {
                None
            } else {
                Some(InputRecord { kind, client: c as u16, tx: t as u32, amount: a })
            }
        },
        _ => None,
    }
}

/// The record that a row with the given fields yields, or `None` where the
/// row is rejected. The rules apply in order: the kind, the number of fields,
/// then the client, the transaction and the amount.
pub open spec fn row_record(fields: Seq<Seq<char>>) -> Option<InputRecord> {
    if fields.len() == 0 {
        None
    } else {
        match kind_of(lowercased(fields[0])) {
            None => None,
            Some(kind) => if fields.len() != 4 {
                None
            } else {
                record_of(kind, fields[1], fields[2], fields[3])
            },
        }
    }
}

/// Whether two texts hold the same characters.
fn same_text(a: &str, b: &str) -> (r: bool)
    ensures
        r == (a@ == b@),
{
    let n = a.unicode_len();
    if n != b.unicode_len() {
        return false;
    }
    let mut i: usize = 0;
    while i < n
        invariant
            n == a@.len(),
            n == b@.len(),
            i <= n,
            forall|j: int| 0 <= j < i ==> a@[j] == b@[j],
        decreases n - i,
    {
        if a.get_char(i) != b.get_char(i) {
            return false;
        }
        i += 1;
    }
    assert(a@ =~= b@);
    true
}

/// Recognises one of the five kind names, written in lower case.
pub fn parse_kind(lowered: &str) -> (r: Option<TransactionType>)
    ensures
        r == kind_of(lowered@),
{
    if same_text(lowered, "deposit") {
        Some(TransactionType::Deposit)
    } else if same_text(lowered, "withdrawal") {
        Some(TransactionType::Withdrawal)
    } else if same_text(lowered, "dispute") {
        Some(TransactionType::Dispute)
    } else if same_text(lowered, "resolve") {
        Some(TransactionType::Resolve)
    } else if same_text(lowered, "chargeback") {
        Some(TransactionType::Chargeback)
    } else {
        None
    }
}

/// Turns one row into a transaction record, or rejects it with `None`.
///
/// A row is accepted when its first field names a kind, in any letter case,
/// it has exactly four fields, the second and third are a client and a
/// transaction identifier in range, and the fourth is a decimal amount. The
/// amount may be missing or unreadable only where the kind takes none.
pub fn make_input_record(s_record: &StringRecord) -> (r: Option<InputRecord>)
    ensures
        r == row_record(record_fields(*s_record)),
        r is Some ==> r.unwrap().well_formed(),
{
    let transaction_type = match field(s_record, 0) {
        Some(s) => {
            let lowered = lowercase(s);
            match parse_kind(lowered.as_str()) {
                Some(kind) => kind,
                None => {
                    return None;
                },
            }
        },
        None => {
            return None;
        },
    };
    if field_count(s_record) != 4 {
        return None;
    }
    match (field(s_record, 1), field(s_record, 2), field(s_record, 3)) {
        (Some(client), Some(tx), Some(amount)) => build_record(transaction_type, client, tx, amount),
        _ => None,
    }
}

/// Builds the record of a row whose kind is known from the texts of its other
/// three fields, or rejects the row with `None`.
pub fn build_record(kind: TransactionType, client: &str, tx: &str, amount: &str) -> (r: Option<
    InputRecord,
>)
    ensures
        r == record_of(kind, client@, tx@, amount@),
        r is Some ==> r.unwrap().well_formed(),
{
    let client_id: u16 = match parse_unsigned(client, 0xffff) {
        Some(v) => v as u16,
        None => {
            return None;
        },
    };
    let transaction_id: u32 = match parse_unsigned(tx, 0xffff_ffff) {
        Some(v) => v as u32,
        None => {
            return None;
        },
    };
    let amount = match parse_amount(amount) {
        Some(a) => Some(a),
        None => match kind {
            TransactionType::Dispute | TransactionType::Resolve | TransactionType::Chargeback => None,
            _ => {
                return None;
            },
        },
    };
    Some(InputRecord { kind, client: client_id, tx: transaction_id, amount })
}

/// The fields of a row, every field without its leading and trailing
/// whitespace.
pub open spec fn trimmed_fields(row: StringRecord) -> Seq<Seq<char>> {
    Seq::new(record_fields(row).len(), |j: int| trimmed(record_fields(row)[j]))
}

/// Trims the fields of one row and validates it.
pub fn process_row(row: &StringRecord) -> (r: Option<InputRecord>)
    ensures
        r == row_record(trimmed_fields(*row)),
        r is Some ==> r.unwrap().well_formed(),
{
    let s_record = trimmed_row(row);
    assert(record_fields(s_record) =~= trimmed_fields(*row));
    make_input_record(&s_record)
}

/// The trimmed fields of each row of a sequence of rows.
pub open spec fn rows_fields(rows: Seq<StringRecord>) -> Seq<Seq<Seq<char>>> {
    Seq::new(rows.len(), |i: int| trimmed_fields(rows[i]))
}

/// The records of the rows that are accepted, in the order of the rows.
pub open spec fn accepted_records(rows: Seq<Seq<Seq<char>>>) -> Seq<InputRecord>
    decreases rows.len(),
{
    if rows.len() == 0 {
        Seq::empty()
    } else {
        match row_record(rows.last()) {
            Some(record) => accepted_records(rows.drop_last()).push(record),
            None => accepted_records(rows.drop_last()),
        }
    }
}

/// The positions of the rows that are rejected, in ascending order.
pub open spec fn rejected_rows(rows: Seq<Seq<Seq<char>>>) -> Seq<usize>
    decreases rows.len(),
{
    if rows.len() == 0 {
        Seq::empty()
    } else {
        match row_record(rows.last()) {
            Some(_) => rejected_rows(rows.drop_last()),
            None => rejected_rows(rows.drop_last()).push((rows.len() - 1) as usize),
        }
    }
}

/// Trims the fields of every row and validates it. Returns the records of
/// the accepted rows, in order, and the positions of the rejected rows, for
/// the caller to report. A rejected row never stops the rows after it.
pub fn process_rows(rows: &Vec<StringRecord>) -> (r: (Vec<InputRecord>, Vec<usize>))
    ensures
        r.0@ == accepted_records(rows_fields(rows@)),
        r.1@ == rejected_rows(rows_fields(rows@)),
        forall|i: int| 0 <= i < r.0.len() ==> (#[trigger] r.0[i]).well_formed(),
{
    let mut res: Vec<InputRecord> = Vec::new();
    let mut rejected: Vec<usize> = Vec::new();
    let ghost all = rows_fields(rows@);
    let mut i: usize = 0;
    while i < rows.len()
        invariant
            i <= rows.len(),
            all == rows_fields(rows@),
            res@ == accepted_records(all.subrange(0, i as int)),
            rejected@ == rejected_rows(all.subrange(0, i as int)),
            forall|k: int| 0 <= k < res.len() ==> (#[trigger] res[k]).well_formed(),
        decreases rows.len() - i,
    {
        proof {
            let next = all.subrange(0, i + 1);
            assert(next.drop_last() =~= all.subrange(0, i as int));
            assert(next.last() == trimmed_fields(rows@[i as int]));
        }
        match process_row(&rows[i]) {
            Some(record) => res.push(record),
            None => rejected.push(i),
        }
        i += 1;
    }
    assert(all.subrange(0, rows.len() as int) =~= all);
    (res, rejected)
}

/// A row is rejected exactly when its kind is not recognised, or it does not
/// have four fields, or its client or its transaction cannot be read, or its
/// kind needs an amount and the amount cannot be read.
pub proof fn lemma_row_rejected(fields: Seq<Seq<char>>)
    ensures
        row_record(fields) is None <==> {
            ||| kind_of(lowercased(fields[0])) is None
            ||| fields.len() != 4
            ||| unsigned_of(fields[1], 0xffff) is None
            ||| unsigned_of(fields[2], 0xffff_ffff) is None
            ||| (amount_of(fields[3]) is None && kind_of(lowercased(fields[0])).unwrap().needs_amount())
        },
{
}

/// The accepted records of two runs of rows, one after the other, are those
/// of the first followed by those of the second.
pub proof fn lemma_accepted_records_concat(a: Seq<Seq<Seq<char>>>, b: Seq<Seq<Seq<char>>>)
    ensures
        accepted_records(a + b) == accepted_records(a) + accepted_records(b),
    decreases b.len(),
{
    if b.len() == 0 {
        assert(a + b =~= a);
        assert(accepted_records(a) + accepted_records(b) =~= accepted_records(a));
    } else {
        lemma_accepted_records_concat(a, b.drop_last());
        assert((a + b).drop_last() =~= a + b.drop_last());
        assert((a + b).last() == b.last());
        assert(accepted_records(a + b) =~= accepted_records(a) + accepted_records(b));
    }
}

/// A rejected row, wherever it stands among the rows, yields no record: the
/// accepted records are those of the rows without it.
pub proof fn lemma_rejected_row_yields_nothing(
    before: Seq<Seq<Seq<char>>>,
    row: Seq<Seq<char>>,
    after: Seq<Seq<Seq<char>>>,
)
    requires
        row_record(row) is None,
    ensures
        accepted_records(before + seq![row] + after) == accepted_records(before + after),
{
    let one = seq![row];
    assert(one.drop_last() =~= Seq::<Seq<Seq<char>>>::empty());
    assert(one.last() == row);
    assert(accepted_records(one.drop_last()) =~= Seq::<InputRecord>::empty());
    assert(accepted_records(one) =~= Seq::<InputRecord>::empty());
    lemma_accepted_records_concat(before, one);
    lemma_accepted_records_concat(before + one, after);
    lemma_accepted_records_concat(before, after);
    assert(accepted_records(before) + accepted_records(one) =~= accepted_records(before));
}

} // verus!
