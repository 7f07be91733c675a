//! The ledger engine: replays transaction records into account balances.

use crate::input::{
    accepted_records, lemma_rejected_row_yields_nothing, row_record, Amount, InputRecord,
    TransactionType, MAX_AMOUNT_NANOS,
};
use std::collections::HashMap;
use vstd::prelude::*;

verus! {

broadcast use vstd::std_specs::hash::group_hash_axioms;

/// A sum of money of any sign: `units` whole units and `nanos` billionths on
/// top of them.
#[derive(Debug, Copy, Clone, Default, PartialEq, Eq)]
pub struct Balance {
    pub units: i128,
    pub nanos: u32,
}

impl Balance {
    /// The sum in billionths.
    pub open spec fn value(self) -> int {
        self.units * 1_000_000_000 + self.nanos
    }

    /// The billionths stay below one unit, so that each sum is written in
    /// one way only.
    pub open spec fn well_formed(self) -> bool {
        self.nanos < 1_000_000_000
    }

    /// The sum is well formed and at most `n` largest amounts away from zero.
    spec fn within(self, n: int) -> bool {
        &&& self.well_formed()
        &&& -n * 4_000_000_000_000_000_001 <= self.units <= n * 4_000_000_000_000_000_001
    }

    /// The sum moved by `delta` billionths.
    fn shifted(self, delta: i128, Ghost(n): Ghost<int>) -> (r: Balance)
        requires
            self.within(n),
            0 <= n < 0xffff_ffff_ffff_ffff,
            -MAX_AMOUNT_NANOS <= delta <= MAX_AMOUNT_NANOS,
        ensures
            r.value() == self.value() + delta,
            r.within(n + 1),
    {
        if delta >= 0 {
            let magnitude: u128 = delta as u128;
            let whole: i128 = (magnitude / 1_000_000_000) as i128;
            let part: u64 = (magnitude % 1_000_000_000) as u64;
            let sum: u64 = self.nanos as u64 + part;
            if sum >= 1_000_000_000 {
                Balance { units: self.units + whole + 1, nanos: (sum - 1_000_000_000) as u32 }
            } else {
                Balance { units: self.units + whole, nanos: sum as u32 }
            }
        } else {
            let magnitude: u128 = (-delta) as u128;
            let whole: i128 = (magnitude / 1_000_000_000) as i128;
            let part: u64 = (magnitude % 1_000_000_000) as u64;
            if self.nanos as u64 >= part {
                Balance { units: self.units - whole, nanos: (self.nanos as u64 - part) as u32 }
            } else {
                Balance {
                    units: self.units - whole - 1,
                    nanos: (self.nanos as u64 + 1_000_000_000 - part) as u32,
                }
            }
        }
    }
}

/// The balances of one client.
#[derive(Debug, Copy, Clone, Default, PartialEq, Eq)]
pub struct OutputRecord {
    pub client: u16,
    pub available: Balance,
    pub held: Balance,
    pub total: Balance,
    pub locked: bool,
}

/// The mathematical value of an account: each balance as one unbounded
/// integer, in billionths.
pub struct Account {
    pub client: u16,
    pub available: int,
    pub held: int,
    pub total: int,
    pub locked: bool,
}

impl View for OutputRecord {
    type V = Account;

    open spec fn view(&self) -> Account {
        Account {
            client: self.client,
            available: self.available.value(),
            held: self.held.value(),
            total: self.total.value(),
            locked: self.locked,
        }
    }
}

impl OutputRecord {
    /// Each of the three balances is well formed.
    pub open spec fn well_formed(self) -> bool {
        self.available.well_formed() && self.held.well_formed() && self.total.well_formed()
    }

    /// Builds an account from its five fields.
    pub fn new(client: u16, available: Balance, held: Balance, total: Balance, locked: bool) -> (r:
        Self)
        ensures
            r == (OutputRecord { client, available, held, total, locked }),
    {
        OutputRecord { client, available, held, total, locked }
    }
}

/// The amount of the first record at or after `from` that matches the client
/// and the transaction and carries an amount.
pub open spec fn lookup_amount_from(
    records: Seq<InputRecord>,
    client: u16,
    tx: u32,
    from: int,
) -> Option<Amount>
    decreases records.len() - from,
{
    if from < 0 || from >= records.len() {
        None
    } else if records[from].client == client && records[from].tx == tx && records[from].amount
        is Some {
        records[from].amount
    } else {
        lookup_amount_from(records, client, tx, from + 1)
    }
}

/// The amount that a dispute, resolve or chargeback of `(client, tx)` moves:
/// that of the first matching record, anywhere in the sequence, with an amount.
pub open spec fn lookup_amount(records: Seq<InputRecord>, client: u16, tx: u32) -> Option<Amount> {
    lookup_amount_from(records, client, tx, 0)
}

/// Whether the record at `i` is a dispute of `(client, tx)`.
pub open spec fn dispute_at(records: Seq<InputRecord>, i: int, client: u16, tx: u32) -> bool {
    0 <= i < records.len() && records[i].kind is Dispute && records[i].client == client
        && records[i].tx == tx
}

/// Whether any record in the sequence, earlier or later, disputes
/// `(client, tx)`.
pub open spec fn is_disputed(records: Seq<InputRecord>, client: u16, tx: u32) -> bool {
    exists|i: int| dispute_at(records, i, client, tx)
}

/// The account map after one more record. Lookups read the whole sequence
/// `records`; a record whose precondition fails leaves the map as it was.
pub open spec fn step(records: Seq<InputRecord>, accounts: Map<u16, Account>, r: InputRecord) -> Map<
    u16,
    Account,
> {
    let c = r.client;
    if !accounts.contains_key(c) {
        match (r.kind, r.amount) {
            (TransactionType::Deposit, Some(a)) => accounts.insert(
                c,
                Account {
                    client: c,
                    available: a.nanos as int,
                    held: 0,
                    total: a.nanos as int,
                    locked: false,
                },
            ),
            _ => accounts,
        }
    } else {
        let acc = accounts[c];
        match r.kind {
            TransactionType::Deposit => match r.amount {
                Some(a) => accounts.insert(
                    c,
                    Account { available: acc.available + a.nanos, total: acc.total + a.nanos, ..acc },
                ),
                None => accounts,
            },
            TransactionType::Withdrawal => match r.amount {
                Some(a) => if a.nanos <= acc.available {
                    accounts.insert(
                        c,
                        Account {
                            available: acc.available - a.nanos,
                            total: acc.total - a.nanos,
                            ..acc
                        },
                    )
                } else {
                    accounts
                },
                None => accounts,
            },
            TransactionType::Dispute => match lookup_amount(records, c, r.tx) {
                Some(a) => accounts.insert(
                    c,
                    Account { available: acc.available - a.nanos, held: acc.held + a.nanos, ..acc },
                ),
                None => accounts,
            },
            TransactionType::Resolve => match lookup_amount(records, c, r.tx) {
                Some(a) => if is_disputed(records, c, r.tx) {
                    accounts.insert(
                        c,
                        Account {
                            available: acc.available + a.nanos,
                            held: acc.held - a.nanos,
                            ..acc
                        },
                    )
                } else {
                    accounts
                },
                None => accounts,
            },
            TransactionType::Chargeback => match lookup_amount(records, c, r.tx) {
                Some(a) => accounts.insert(
                    c,
                    Account {
                        total: acc.total - a.nanos,
                        held: acc.held - a.nanos,
                        locked: true,
                        ..acc
                    },
                ),
                None => accounts,
            },
        }
    }
}

/// The account map after the first `n` records, applied from left to right.
pub open spec fn replay(records: Seq<InputRecord>, n: int) -> Map<u16, Account>
    decreases n,
{
    if n <= 0 {
        Map::empty()
    } else {
        step(records, replay(records, n - 1), records[n - 1])
    }
}

/// The account map after every record.
pub open spec fn final_accounts(records: Seq<InputRecord>) -> Map<u16, Account> {
    replay(records, records.len() as int)
}

/// Finds the amount that `(client, transaction_id)` refers to.
pub fn get_transaction_amount(records: &Vec<InputRecord>, client: u16, transaction_id: u32) -> (r:
    Option<Amount>)
    ensures
        r == lookup_amount(records@, client, transaction_id),
        r is Some ==> exists|i: int| 0 <= i < records.len() && (#[trigger] records[i]).amount == r,
{
    let mut i: usize = 0;
    while i < records.len()
        invariant
            i <= records.len(),
            lookup_amount(records@, client, transaction_id) == lookup_amount_from(
                records@,
                client,
                transaction_id,
                i as int,
            ),
        decreases records.len() - i,
    {
        let record = &records[i];
        if record.client == client && record.tx == transaction_id {
            if let Some(amt) = record.amount {
                return Some(amt);
            }
        }
        i += 1;
    }
    None
}

/// Checks whether a dispute exists for the given client and transaction.
pub fn check_dispute(records: &Vec<InputRecord>, client: u16, transaction_id: u32) -> (r: bool)
    ensures
        r == is_disputed(records@, client, transaction_id),
{
    let mut i: usize = 0;
    while i < records.len()
        invariant
            i <= records.len(),
            forall|j: int| 0 <= j < i ==> !dispute_at(records@, j, client, transaction_id),
        decreases records.len() - i,
    {
        let record = &records[i];
        if record.kind == TransactionType::Dispute && record.client == client && record.tx
            == transaction_id {
            assert(dispute_at(records@, i as int, client, transaction_id));
            return true;
        }
        i += 1;
    }
    false
}

/// Each balance of `acc` lies within `n` largest amounts of zero.
spec fn within(acc: OutputRecord, n: int) -> bool {
    acc.available.within(n) && acc.held.within(n) && acc.total.within(n)
}

/// The executable map `m` holds exactly the accounts of `accounts`, each
/// within `n` times the largest amount.
spec fn mirrors(m: Map<u16, OutputRecord>, accounts: Map<u16, Account>, n: int) -> bool {
    &&& forall|c: u16| m.contains_key(c) <==> accounts.contains_key(c)
    &&& forall|c: u16| #[trigger]
        m.contains_key(c) ==> m[c]@ == accounts[c] && m[c].client == c && within(m[c], n)
}

/// Whether some account in `accounts` belongs to client `c`.
pub open spec fn has_account(accounts: Seq<OutputRecord>, c: u16) -> bool {
    exists|i: int| 0 <= i < accounts.len() && #[trigger] accounts[i].client == c
}

/// Computes the balance of each client from the full sequence of records.
///
/// The records are applied from left to right. A client has an account from
/// its first deposit on; the accounts come out in ascending order of client.
pub fn make_client_output_records(input_records: &Vec<InputRecord>) -> (res: Vec<OutputRecord>)
    requires
        forall|i: int| 0 <= i < input_records.len() ==> (#[trigger] input_records[i]).well_formed(),
    ensures
        forall|i: int, j: int| 0 <= i < j < res.len() ==> res[i].client < res[j].client,
        forall|i: int|
            0 <= i < res.len() ==> final_accounts(input_records@).contains_key(
                (#[trigger] res[i]).client,
            ) && res[i]@ == final_accounts(input_records@)[res[i].client],
        forall|c: u16| final_accounts(input_records@).contains_key(c) ==> has_account(res@, c),
        forall|i: int|
            0 <= i < res.len() ==> (#[trigger] res[i]).total.value() == res[i].available.value()
                + res[i].held.value(),
        accounts_of(res@) == final_accounts(input_records@),
        forall|i: int| 0 <= i < res.len() ==> (#[trigger] res[i]).well_formed(),
{
    let mut output: HashMap<u16, OutputRecord> = HashMap::new();
    let mut i: usize = 0;
    while i < input_records.len()
        invariant
            i <= input_records.len(),
            forall|k: int|
                0 <= k < input_records.len() ==> (#[trigger] input_records[k]).well_formed(),
            mirrors(output@, replay(input_records@, i as int), i as int),
        decreases input_records.len() - i,
    {
        let record = &input_records[i];
        let client = record.client;
        let existing: Option<OutputRecord> = match output.get(&client) {
            Some(acc) => Some(*acc),
            None => None,
        };
        assert(record.well_formed());
        let ghost n = i as int;
        match existing {
            None => {
                match record.kind {
                    TransactionType::Deposit => {
                        let amount = record.amount.unwrap().nanos;
                        let zero = Balance { units: 0, nanos: 0 };
                        let funds = zero.shifted(amount, Ghost(n));
                        let temp = OutputRecord::new(client, funds, zero, funds, false);
                        output.insert(client, temp);
                    },
                    _ => {},
                }
            },
            Some(acc) => {
                assert(within(acc, n));
                match record.kind {
                    TransactionType::Deposit => {
                        let amount = record.amount.unwrap().nanos;
                        let next = OutputRecord {
                            available: acc.available.shifted(amount, Ghost(n)),
                            total: acc.total.shifted(amount, Ghost(n)),
                            ..acc
                        };
                        output.insert(client, next);
                    },
                    TransactionType::Withdrawal => {
                        let amount = record.amount.unwrap().nanos;
                        let rest = acc.available.shifted(-amount, Ghost(n));
                        if rest.units >= 0 {
                            let next = OutputRecord {
                                available: rest,
                                total: acc.total.shifted(-amount, Ghost(n)),
                                ..acc
                            };
                            output.insert(client, next);
                        }
                    },
                    TransactionType::Dispute => {
                        if let Some(transaction) = get_transaction_amount(
                            input_records,
                            client,
                            record.tx,
                        ) {
                            let amount = transaction.nanos;
                            let next = OutputRecord {
                                available: acc.available.shifted(-amount, Ghost(n)),
                                held: acc.held.shifted(amount, Ghost(n)),
                                ..acc
                            };
                            output.insert(client, next);
                        }
                    },
                    TransactionType::Resolve => {
                        if let Some(transaction) = get_transaction_amount(
                            input_records,
                            client,
                            record.tx,
                        ) {
                            if check_dispute(input_records, client, record.tx) {
                                let amount = transaction.nanos;
                                let next = OutputRecord {
                                    available: acc.available.shifted(amount, Ghost(n)),
                                    held: acc.held.shifted(-amount, Ghost(n)),
                                    ..acc
                                };
                                output.insert(client, next);
                            }
                        }
                    },
                    TransactionType::Chargeback => {
                        if let Some(transaction) = get_transaction_amount(
                            input_records,
                            client,
                            record.tx,
                        ) {
                            let amount = transaction.nanos;
                            let next = OutputRecord {
                                total: acc.total.shifted(-amount, Ghost(n)),
                                held: acc.held.shifted(-amount, Ghost(n)),
                                locked: true,
                                ..acc
                            };
                            output.insert(client, next);
                        }
                    },
                }
            },
        }
        i += 1;
    }
    proof {
        lemma_replay_balanced(input_records@, input_records.len() as int);
    }
    let res = collect_accounts(&output);
    proof {
        lemma_listing_is_map(res@, final_accounts(input_records@));
    }
    res
}

/// A listing in ascending order of client that holds each account of a map,
/// and no other, reads as that map.
proof fn lemma_listing_is_map(listing: Seq<OutputRecord>, accounts: Map<u16, Account>)
    requires
        forall|i: int, j: int| 0 <= i < j < listing.len() ==> listing[i].client < listing[j].client,
        forall|i: int|
            0 <= i < listing.len() ==> accounts.contains_key((#[trigger] listing[i]).client)
                && listing[i]@ == accounts[listing[i].client],
        forall|c: u16| accounts.contains_key(c) ==> has_account(listing, c),
    ensures
        accounts_of(listing) == accounts,
{
    assert forall|c: u16| has_account(listing, c) implies accounts.contains_key(c)
        && listing[account_index(listing, c)]@ == accounts[c] by {
        let i = account_index(listing, c);
        assert(listing[i].client == c);
    }
    assert(accounts_of(listing) =~= accounts);
}

/// Lists the accounts of `output` in ascending order of client.
fn collect_accounts(output: &HashMap<u16, OutputRecord>) -> (res: Vec<OutputRecord>)
    requires
        forall|c: u16| #[trigger] output@.contains_key(c) ==> output@[c].client == c,
    ensures
        forall|i: int, j: int| 0 <= i < j < res.len() ==> res[i].client < res[j].client,
        forall|i: int|
            0 <= i < res.len() ==> output@.contains_key((#[trigger] res[i]).client) && res[i]
                == output@[res[i].client],
        forall|c: u16| output@.contains_key(c) ==> has_account(res@, c),
{
    let mut res: Vec<OutputRecord> = Vec::new();
    let mut next: u32 = 0;
    while next <= 0xffff
        invariant
            next <= 0x1_0000,
            forall|c: u16| #[trigger] output@.contains_key(c) ==> output@[c].client == c,
            forall|i: int, j: int| 0 <= i < j < res.len() ==> res[i].client < res[j].client,
            forall|i: int| 0 <= i < res.len() ==> (#[trigger] res[i]).client < next,
            forall|i: int|
                0 <= i < res.len() ==> output@.contains_key((#[trigger] res[i]).client) && res[i]
                    == output@[res[i].client],
            forall|c: u16| c < next && output@.contains_key(c) ==> has_account(res@, c),
        decreases 0x1_0000 - next,
    {
        let client: u16 = next as u16;
        let ghost before = res@;
        if let Some(acc) = output.get(&client) {
            res.push(*acc);
            assert(res@[before.len() as int].client == client);
        }
        assert forall|c: u16| c < next + 1 && output@.contains_key(c) implies has_account(
            res@,
            c,
        ) by {
            if c < next {
                assert(has_account(before, c));
                let k = choose|k: int| 0 <= k < before.len() && #[trigger] before[k].client == c;
                assert(res@[k].client == c);
            }
        }
        next += 1;
    }
    res
}

/// In every account of the map the total is the sum of the available and the
/// held funds, and the account is filed under its own client.
pub open spec fn balanced(accounts: Map<u16, Account>) -> bool {
    forall|c: u16| #[trigger]
        accounts.contains_key(c) ==> accounts[c].total == accounts[c].available + accounts[c].held
            && accounts[c].client == c
}

/// No record of any kind breaks the balance equation.
pub proof fn lemma_step_balanced(records: Seq<InputRecord>, accounts: Map<u16, Account>, r: InputRecord)
    requires
        balanced(accounts),
    ensures
        balanced(step(records, accounts, r)),
{
    let after = step(records, accounts, r);
    assert forall|c: u16| #[trigger] after.contains_key(c) implies after[c].total
        == after[c].available + after[c].held && after[c].client == c by {
        if c != r.client {
            assert(accounts.contains_key(c));
        }
    }
}

/// The balance equation holds of every account after every prefix of the
/// records.
pub proof fn lemma_replay_balanced(records: Seq<InputRecord>, n: int)
    ensures
        balanced(replay(records, n)),
    decreases n,
{
    if n > 0 {
        lemma_replay_balanced(records, n - 1);
        lemma_step_balanced(records, replay(records, n - 1), records[n - 1]);
    }
}

/// Two sequences of records that begin with the same `n` records, and in
/// which every lookup of an amount and of a dispute gives the same answer,
/// replay alike over those `n` records. Records that are added at the end
/// bear on the earlier ones only through the lookups.
pub proof fn lemma_replay_of_common_prefix(a: Seq<InputRecord>, b: Seq<InputRecord>, n: int)
    requires
        0 <= n <= a.len(),
        n <= b.len(),
        forall|i: int| 0 <= i < n ==> a[i] == b[i],
        forall|c: u16, t: u32| #[trigger] lookup_amount(a, c, t) == lookup_amount(b, c, t),
        forall|c: u16, t: u32| #[trigger] is_disputed(a, c, t) == is_disputed(b, c, t),
    ensures
        replay(a, n) == replay(b, n),
    decreases n,
{
    if n > 0 {
        lemma_replay_of_common_prefix(a, b, n - 1);
        let r = a[n - 1];
        let before = replay(a, n - 1);
        assert(lookup_amount(a, r.client, r.tx) == lookup_amount(b, r.client, r.tx));
        assert(is_disputed(a, r.client, r.tx) == is_disputed(b, r.client, r.tx));
        assert(step(a, before, r) == step(b, before, r));
    }
}

/// A deposit for a client without an account opens exactly one account: the
/// amount is available, nothing is held, and the account is not locked.
pub proof fn lemma_first_deposit_opens_account(
    records: Seq<InputRecord>,
    accounts: Map<u16, Account>,
    r: InputRecord,
)
    requires
        r.kind is Deposit,
        r.amount is Some,
        !accounts.contains_key(r.client),
    ensures
        step(records, accounts, r) == accounts.insert(
            r.client,
            Account {
                client: r.client,
                available: r.amount.unwrap().nanos as int,
                held: 0,
                total: r.amount.unwrap().nanos as int,
                locked: false,
            },
        ),
        step(records, accounts, r).dom() == accounts.dom().insert(r.client),
{
}

/// A withdrawal of more than the available funds, or from a client without
/// an account, changes nothing.
pub proof fn lemma_overdrawn_withdrawal_ignored(
    records: Seq<InputRecord>,
    accounts: Map<u16, Account>,
    r: InputRecord,
)
    requires
        r.kind is Withdrawal,
        r.amount is Some,
        !accounts.contains_key(r.client) || r.amount.unwrap().nanos > accounts[r.client].available,
    ensures
        step(records, accounts, r) == accounts,
{
}

/// What the map says of client `c`: its account, or `None`.
pub open spec fn account_of(accounts: Map<u16, Account>, c: u16) -> Option<Account> {
    if accounts.contains_key(c) {
        Some(accounts[c])
    } else {
        None
    }
}

/// A record of one client leaves the accounts of every other client alone.
pub proof fn lemma_step_keeps_other_clients(
    records: Seq<InputRecord>,
    accounts: Map<u16, Account>,
    r: InputRecord,
    c: u16,
)
    requires
        r.client != c,
    ensures
        account_of(step(records, accounts, r), c) == account_of(accounts, c),
{
}

/// Records `from` up to `to` that all belong to other clients leave the
/// account of client `c` as it was.
pub proof fn lemma_replay_keeps_untouched_client(records: Seq<InputRecord>, from: int, to: int, c: u16)
    requires
        0 <= from <= to <= records.len(),
        forall|k: int| from <= k < to ==> (#[trigger] records[k]).client != c,
    ensures
        account_of(replay(records, to), c) == account_of(replay(records, from), c),
    decreases to - from,
{
    if from < to {
        lemma_replay_keeps_untouched_client(records, from, to - 1, c);
        lemma_step_keeps_other_clients(records, replay(records, to - 1), records[to - 1], c);
    }
}

/// A dispute at `n` and a later resolve at `m` of the same client and
/// transaction, with no record of that client between them, leave the
/// client's account as it was before the dispute.
pub proof fn lemma_dispute_then_resolve_restores(records: Seq<InputRecord>, n: int, m: int)
    requires
        0 <= n < m < records.len(),
        records[n].kind is Dispute,
        records[m].kind is Resolve,
        records[n].client == records[m].client,
        records[n].tx == records[m].tx,
        forall|k: int| n < k < m ==> (#[trigger] records[k]).client != records[n].client,
    ensures
        account_of(replay(records, m + 1), records[n].client) == account_of(
            replay(records, n),
            records[n].client,
        ),
{
    let c = records[n].client;
    assert(dispute_at(records, n, c, records[n].tx));
    assert(replay(records, n + 1) == step(records, replay(records, n), records[n]));
    lemma_replay_keeps_untouched_client(records, n + 1, m, c);
    assert(replay(records, m + 1) == step(records, replay(records, m), records[m]));
}

/// A chargeback on an existing account whose transaction is found takes the
/// amount out of the total and the held funds and locks the account, whether
/// or not the transaction was ever disputed.
pub proof fn lemma_chargeback_locks(
    records: Seq<InputRecord>,
    accounts: Map<u16, Account>,
    r: InputRecord,
)
    requires
        r.kind is Chargeback,
        accounts.contains_key(r.client),
        lookup_amount(records, r.client, r.tx) is Some,
    ensures
        step(records, accounts, r) == accounts.insert(
            r.client,
            Account {
                client: accounts[r.client].client,
                available: accounts[r.client].available,
                held: accounts[r.client].held - lookup_amount(records, r.client, r.tx).unwrap().nanos,
                total: accounts[r.client].total - lookup_amount(records, r.client, r.tx).unwrap().nanos,
                locked: true,
            },
        ),
{
}

/// A dispute at `n` and a later chargeback at `m` of the same client and
/// transaction, with no record of that client between them, on an existing
/// account whose transaction is found: the chargeback locks the account and
/// takes the amount out of the total and the held funds. Over both records the
/// available funds and the total fall by the amount, and the held funds end
/// where they began.
pub proof fn lemma_dispute_then_chargeback(records: Seq<InputRecord>, n: int, m: int)
    requires
        0 <= n < m < records.len(),
        records[n].kind is Dispute,
        records[m].kind is Chargeback,
        records[n].client == records[m].client,
        records[n].tx == records[m].tx,
        forall|k: int| n < k < m ==> (#[trigger] records[k]).client != records[n].client,
        replay(records, n).contains_key(records[n].client),
        lookup_amount(records, records[n].client, records[n].tx) is Some,
    ensures
        ({
            let c = records[n].client;
            let a = lookup_amount(records, c, records[n].tx).unwrap().nanos;
            let before = replay(records, n)[c];
            let disputed = replay(records, m)[c];
            let after = replay(records, m + 1)[c];
            &&& replay(records, m + 1).contains_key(c)
            &&& after.locked
            &&& after.total == disputed.total - a
            &&& after.held == disputed.held - a
            &&& after.available == before.available - a
            &&& after.held == before.held
            &&& after.total == before.total - a
        }),
{
    let c = records[n].client;
    assert(replay(records, n + 1) == step(records, replay(records, n), records[n]));
    lemma_replay_keeps_untouched_client(records, n + 1, m, c);
    assert(replay(records, m + 1) == step(records, replay(records, m), records[m]));
}

/// Whether the record at `i` is a deposit of client `c` that carries an
/// amount.
pub open spec fn deposit_at(records: Seq<InputRecord>, i: int, c: u16) -> bool {
    0 <= i < records.len() && records[i].kind is Deposit && records[i].client == c
        && records[i].amount is Some
}

/// After the first `n` records a client has an account exactly when one of
/// those records is a deposit of that client: no other kind of record opens an
/// account.
pub proof fn lemma_accounts_are_depositors(records: Seq<InputRecord>, n: int, c: u16)
    requires
        0 <= n <= records.len(),
    ensures
        replay(records, n).contains_key(c) <==> exists|i: int| i < n && deposit_at(records, i, c),
    decreases n,
{
    if n > 0 {
        lemma_accounts_are_depositors(records, n - 1, c);
        let before = replay(records, n - 1);
        let r = records[n - 1];
        if before.contains_key(c) {
            let i = choose|i: int| i < n - 1 && deposit_at(records, i, c);
            assert(i < n && deposit_at(records, i, c));
            assert(replay(records, n).contains_key(c));
        } else if deposit_at(records, n - 1, c) {
            assert(replay(records, n).contains_key(c));
        } else {
            assert(!replay(records, n).contains_key(c));
            assert forall|i: int| i < n && deposit_at(records, i, c) implies false by {
                assert(i < n - 1);
            }
        }
    }
}

/// An account, once opened, is never removed, and a locked account stays
/// locked whatever records follow.
pub proof fn lemma_accounts_and_locks_stay(records: Seq<InputRecord>, n: int, m: int, c: u16)
    requires
        0 <= n <= m <= records.len(),
        replay(records, n).contains_key(c),
    ensures
        replay(records, m).contains_key(c),
        replay(records, n)[c].locked ==> replay(records, m)[c].locked,
    decreases m - n,
{
    if n < m {
        lemma_accounts_and_locks_stay(records, n, m - 1, c);
    }
}

/// No two accounts of the sequence belong to the same client.
pub open spec fn distinct_clients(accounts: Seq<OutputRecord>) -> bool {
    forall|i: int, j: int|
        0 <= i < accounts.len() && 0 <= j < accounts.len() && i != j ==> (#[trigger] accounts[i]).client
            != (#[trigger] accounts[j]).client
}

/// The position of the account of client `c`, where there is one.
pub open spec fn account_index(accounts: Seq<OutputRecord>, c: u16) -> int {
    choose|i: int| 0 <= i < accounts.len() && #[trigger] accounts[i].client == c
}

/// A sequence of accounts read as a map from client to account.
pub open spec fn accounts_of(accounts: Seq<OutputRecord>) -> Map<u16, Account> {
    Map::new(|c: u16| has_account(accounts, c), |c: u16| accounts[account_index(accounts, c)]@)
}

/// Two listings of the same accounts, in whatever order, are the same map
/// from client to account.
pub proof fn lemma_accounts_order_independent(a: Seq<OutputRecord>, b: Seq<OutputRecord>)
    requires
        distinct_clients(a),
        distinct_clients(b),
        a.to_multiset() == b.to_multiset(),
    ensures
        accounts_of(a) == accounts_of(b),
{
    a.to_multiset_ensures();
    b.to_multiset_ensures();
    assert forall|c: u16| has_account(a, c) implies has_account(b, c) && b[account_index(b, c)]
        == a[account_index(a, c)] by {
        let i = account_index(a, c);
        assert(a.contains(a[i]));
        assert(b.to_multiset().count(a[i]) > 0);
        assert(b.contains(a[i]));
        let j = choose|j: int| 0 <= j < b.len() && b[j] == a[i];
        assert(b[j].client == c);
    }
    assert forall|c: u16| has_account(b, c) implies has_account(a, c) by {
        let j = account_index(b, c);
        assert(b.contains(b[j]));
        assert(a.to_multiset().count(b[j]) > 0);
        assert(a.contains(b[j]));
        let i = choose|i: int| 0 <= i < a.len() && a[i] == b[j];
        assert(a[i].client == c);
    }
    assert(accounts_of(a) =~= accounts_of(b));
}

/// A rejected row affects no account: the final accounts are those of the
/// rows without it.
pub proof fn lemma_rejected_row_changes_no_account(
    before: Seq<Seq<Seq<char>>>,
    row: Seq<Seq<char>>,
    after: Seq<Seq<Seq<char>>>,
)
    requires
        row_record(row) is None,
    ensures
        final_accounts(accepted_records(before + seq![row] + after)) == final_accounts(
            accepted_records(before + after),
        ),
{
    lemma_rejected_row_yields_nothing(before, row, after);
}

} // verus!
