//! Assembling a block's transactions, with their account locks, from the rows
//! that storage returns for one slot.

use crate::contention::{AccountLock, LockModel, Transaction, TxModel};
use vstd::hash_map::StringHashMap;
use vstd::prelude::*;

verus! {

/// The list of strings that `serde_json` decodes from a text, `None` where it
/// reports an error.
pub uninterp spec fn json_string_list(text: Seq<char>) -> Option<Seq<Seq<char>>>;

/// Calls `serde_json::from_str::<Vec<String>>`. Its contract claims only that
/// the result is the named decoding of the text: the same text always gives
/// the same list, or always an error.
#[verifier::external_body]
fn decode_string_list(text: &str) -> (res: Option<Vec<String>>)
    ensures
        match res {
            Some(v) => json_string_list(text@) == Some(v.deep_view()),
            None => json_string_list(text@) is None,
        },
{
    serde_json::from_str::<Vec<String>>(text).ok()
}

/// The program ids stored as JSON text: the decoded list, or none where the
/// text does not decode.
pub open spec fn decoded_program_ids(json: Seq<char>) -> Seq<Seq<char>> {
    match json_string_list(json) {
        Some(v) => v,
        None => seq![],
    }
}

/// Decodes a stored program id list; a list that does not decode counts as
/// empty.
pub fn program_ids_from_json(json: &str) -> (res: Vec<String>)
    ensures
        res.deep_view() == decoded_program_ids(json@),
{
    match decode_string_list(json) {
        Some(v) => v,
        None => {
            let v: Vec<String> = Vec::new();
            assert(v.deep_view() =~= Seq::<Seq<char>>::empty());
            v
        },
    }
}

/// One stored transaction row of a slot.
pub struct TransactionRow {
    pub signature: String,
    pub tx_index: i64,
    pub program_ids_json: String,
}

/// One stored account lock row of a slot; `is_writable` is stored as an
/// integer flag.
pub struct LockRow {
    pub signature: String,
    pub account_pubkey: String,
    pub is_writable: i64,
}

/// A stored lock row as a value.
pub struct LockRowModel {
    pub signature: Seq<char>,
    pub account: Seq<char>,
    pub flag: i64,
}

impl View for LockRow {
    type V = LockRowModel;

    open spec fn view(&self) -> LockRowModel {
        LockRowModel {
            signature: self.signature@,
            account: self.account_pubkey@,
            flag: self.is_writable,
        }
    }
}

/// The lock a stored row describes: any nonzero flag means a write lock.
pub open spec fn lock_of_row(r: LockRowModel) -> LockModel {
    LockModel { account: r.account, writable: r.flag != 0 }
}

/// The locks of the rows with a given signature, in row order.
pub open spec fn locks_for(rows: Seq<LockRowModel>, sig: Seq<char>) -> Seq<LockModel>
    decreases rows.len(),
{
    if rows.len() == 0 {
        seq![]
    } else if rows.last().signature == sig {
        locks_for(rows.drop_last(), sig).push(lock_of_row(rows.last()))
    } else {
        locks_for(rows.drop_last(), sig)
    }
}

/// No earlier transaction row has the same signature as row `i`.
pub open spec fn first_of_signature(rows: Seq<TransactionRow>, i: int) -> bool {
    forall|j: int| 0 <= j < i ==> #[trigger] rows[j].signature@ != rows[i].signature@
}

/// The transaction that row `i` becomes: its locks are those of the lock rows
/// with its signature, given to the first transaction row of that signature
/// only.
pub open spec fn assembled(
    tx_rows: Seq<TransactionRow>,
    lock_rows: Seq<LockRowModel>,
    i: int,
) -> TxModel {
    TxModel {
        signature: tx_rows[i].signature@,
        tx_index: tx_rows[i].tx_index,
        program_ids: decoded_program_ids(tx_rows[i].program_ids_json@),
        locks: if first_of_signature(tx_rows, i) {
            locks_for(lock_rows, tx_rows[i].signature@)
        } else {
            seq![]
        },
    }
}

/// Builds a block's transactions, in the order of `tx_rows`, and hands each
/// its account locks from `lock_rows`.
pub fn assemble_block_transactions(tx_rows: &Vec<TransactionRow>, lock_rows: &Vec<LockRow>) -> (res:
    Vec<Transaction>)
    ensures
        res@.len() == tx_rows@.len(),
        forall|i: int|
            0 <= i < res@.len() ==> #[trigger] res@[i]@ == assembled(
                tx_rows@,
                lock_rows@.map_values(|r: LockRow| r@),
                i,
            ),
{
    let ghost rows = lock_rows@.map_values(|r: LockRow| r@);
    let mut index: StringHashMap<usize> = StringHashMap::new();
    let mut buckets: Vec<Vec<AccountLock>> = Vec::new();
    let mut r: usize = 0;
    while r < lock_rows.len()
        invariant
            r <= lock_rows@.len(),
            rows == lock_rows@.map_values(|r: LockRow| r@),
            forall|s: Seq<char>|
                #[trigger] index@.contains_key(s) <==> exists|j: int|
                    0 <= j < r && #[trigger] rows[j].signature == s,
            forall|s: Seq<char>|
                #[trigger] index@.contains_key(s) ==> index@[s] < buckets@.len() && buckets@[index@[s] as int]@.map_values(
                    |l: AccountLock| l@,
                ) == locks_for(rows.take(r as int), s),
            forall|s1: Seq<char>, s2: Seq<char>|
                #[trigger] index@.contains_key(s1) && #[trigger] index@.contains_key(s2) && s1 != s2
                    ==> index@[s1] != index@[s2],
        decreases lock_rows@.len() - r,
    {
        let row = &lock_rows[r];
        let lock = AccountLock {
            account_pubkey: row.account_pubkey.clone(),
            is_writable: row.is_writable != 0,
        };
        let ghost next = rows.take(r + 1);
        proof {
            assert(next.drop_last() =~= rows.take(r as int));
            assert(next.last() == row@);
            assert(lock@ == lock_of_row(row@));
            assert forall|s: Seq<char>| s != row.signature@ implies locks_for(next, s) == locks_for(
                rows.take(r as int),
                s,
            ) by {}
        }
        let ghost old_index = index@;
        let ghost old_buckets = buckets@;
        match index.get(row.signature.as_str()) {
            Some(at) => {
                let at = *at;
                buckets[at].push(lock);
                proof {
                    assert forall|s: Seq<char>| #[trigger] index@.contains_key(s) implies index@[s]
                        < buckets@.len() && buckets@[index@[s] as int]@.map_values(
                        |l: AccountLock| l@,
                    ) == locks_for(next, s) by {
                        if s == row.signature@ {
                            assert(buckets@[at as int]@.map_values(|l: AccountLock| l@)
                                =~= old_buckets[at as int]@.map_values(|l: AccountLock| l@).push(
                                lock@,
                            ));
                        } else {
                            assert(index@[s] != at);
                            assert(buckets@[index@[s] as int] == old_buckets[index@[s] as int]);
                        }
                    }
                    assert forall|s: Seq<char>| #[trigger] index@.contains_key(s) <==> exists|j: int|
                        0 <= j < r + 1 && #[trigger] rows[j].signature == s by {
                        if s == row.signature@ {
                            assert(rows[r as int].signature == s);
                        }
                    }
                }
            },
            None => {
                let at = buckets.len();
                let mut fresh: Vec<AccountLock> = Vec::new();
                fresh.push(lock);
                buckets.push(fresh);
                index.insert(row.signature.clone(), at);
                proof {
                    assert(locks_for(rows.take(r as int), row.signature@) =~= seq![]) by {
                        lemma_locks_for_absent(rows.take(r as int), row.signature@);
                    }
                    assert forall|s: Seq<char>| #[trigger] index@.contains_key(s) implies index@[s]
                        < buckets@.len() && buckets@[index@[s] as int]@.map_values(
                        |l: AccountLock| l@,
                    ) == locks_for(next, s) by {
                        if s == row.signature@ {
                            assert(buckets@[at as int]@.map_values(|l: AccountLock| l@) =~= seq![
                                lock@,
                            ]);
                        } else {
                            assert(old_index.contains_key(s));
                            assert(buckets@[index@[s] as int] == old_buckets[index@[s] as int]);
                        }
                    }
                    assert forall|s: Seq<char>| #[trigger] index@.contains_key(s) <==> exists|j: int|
                        0 <= j < r + 1 && #[trigger] rows[j].signature == s by {
                        if s == row.signature@ {
                            assert(rows[r as int].signature == s);
                        } else if exists|j: int| 0 <= j < r + 1 && #[trigger] rows[j].signature == s {
                            let j = choose|j: int| 0 <= j < r + 1 && #[trigger] rows[j].signature == s;
                            assert(j < r);
                        }
                    }
                    assert forall|s1: Seq<char>, s2: Seq<char>|
                        #[trigger] index@.contains_key(s1) && #[trigger] index@.contains_key(s2) && s1
                            != s2 implies index@[s1] != index@[s2] by {
                        if s1 != row.signature@ {
                            assert(old_index.contains_key(s1));
                        }
                        if s2 != row.signature@ {
                            assert(old_index.contains_key(s2));
                        }
                    }
                }
            },
        }
        r += 1;
    }
    assert(rows.take(lock_rows@.len() as int) =~= rows);
    let ghost grouped = index@;
    let mut res: Vec<Transaction> = Vec::new();
    let mut i: usize = 0;
    while i < tx_rows.len()
        invariant
            i <= tx_rows@.len(),
            rows == lock_rows@.map_values(|r: LockRow| r@),
            res@.len() == i,
            forall|k: int| 0 <= k < i ==> #[trigger] res@[k]@ == assembled(tx_rows@, rows, k),
            forall|s: Seq<char>|
                #[trigger] index@.contains_key(s) <==> grouped.contains_key(s) && forall|j: int|
                    0 <= j < i ==> #[trigger] tx_rows@[j].signature@ != s,
            forall|s: Seq<char>|
                #[trigger] grouped.contains_key(s) <==> exists|j: int|
                    0 <= j < rows.len() && #[trigger] rows[j].signature == s,
            forall|s: Seq<char>|
                #[trigger] index@.contains_key(s) ==> index@[s] == grouped[s] && index@[s]
                    < buckets@.len() && buckets@[index@[s] as int]@.map_values(|l: AccountLock| l@)
                    == locks_for(rows, s),
            forall|s1: Seq<char>, s2: Seq<char>|
                #[trigger] index@.contains_key(s1) && #[trigger] index@.contains_key(s2) && s1 != s2
                    ==> index@[s1] != index@[s2],
        decreases tx_rows@.len() - i,
    {
        let row = &tx_rows[i];
        let program_ids = program_ids_from_json(row.program_ids_json.as_str());
        let mut locks: Vec<AccountLock> = Vec::new();
        let ghost old_index = index@;
        let ghost old_buckets = buckets@;
        let ghost first = first_of_signature(tx_rows@, i as int);
        match index.get(row.signature.as_str()) {
            Some(at) => {
                let at = *at;
                std::mem::swap(&mut locks, &mut buckets[at]);
                index.remove(row.signature.as_str());
                proof {
                    assert(first);
                    assert forall|s: Seq<char>| #[trigger] index@.contains_key(s) implies index@[s]
                        == grouped[s] && index@[s] < buckets@.len() && buckets@[index@[s] as int]@.map_values(
                        |l: AccountLock| l@,
                    ) == locks_for(rows, s) by {
                        assert(old_index.contains_key(s));
                        assert(index@[s] != at);
                        assert(buckets@[index@[s] as int] == old_buckets[index@[s] as int]);
                    }
                }
            },
            None => {
                proof {
                    if first {
                        assert(!grouped.contains_key(row.signature@));
                        lemma_locks_for_absent(rows, row.signature@);
                    }
                    assert(locks@.map_values(|l: AccountLock| l@) =~= seq![]);
                }
            },
        }
        let txn = Transaction {
            signature: row.signature.clone(),
            tx_index: row.tx_index,
            program_ids,
            locks,
        };
        assert(txn@ =~= assembled(tx_rows@, rows, i as int));
        res.push(txn);
        proof {
            assert forall|s: Seq<char>| #[trigger] index@.contains_key(s) <==> grouped.contains_key(s)
                && forall|j: int| 0 <= j < i + 1 ==> #[trigger] tx_rows@[j].signature@ != s by {
                if s == row.signature@ {
                    assert(tx_rows@[i as int].signature@ == s);
                }
            }
        }
        i += 1;
    }
    res
}

/// Rows none of which has the signature give it no locks.
proof fn lemma_locks_for_absent(rows: Seq<LockRowModel>, sig: Seq<char>)
    requires
        forall|j: int| 0 <= j < rows.len() ==> #[trigger] rows[j].signature != sig,
    ensures
        locks_for(rows, sig) == Seq::<LockModel>::empty(),
    decreases rows.len(),
{
    if rows.len() > 0 {
        assert forall|j: int| 0 <= j < rows.drop_last().len() implies #[trigger] rows.drop_last()[j].signature
            != sig by {
            assert(rows.drop_last()[j] == rows[j]);
        }
        lemma_locks_for_absent(rows.drop_last(), sig);
        assert(rows.last() == rows[rows.len() - 1]);
    }
}

/// The JSON text that `serde_json` writes for a list of strings, `None`
/// where it reports an error.
pub uninterp spec fn json_text_of_strings(list: Seq<Seq<char>>) -> Option<Seq<char>>;

/// Calls `serde_json::to_string` on a list of strings. Its contract claims
/// that the result is the named encoding of the list; that encoding does
/// not fail, since serde_json fails only where a value's `Serialize` impl
/// fails or a map has non-string keys, and a list of strings has neither;
/// and that `serde_json::from_str` reads the text back as the same list.
#[verifier::external_body]
fn encode_string_list(list: &Vec<String>) -> (res: Option<String>)
    ensures
        match res {
            Some(s) => json_text_of_strings(list.deep_view()) == Some(s@) && json_string_list(s@)
                == Some(list.deep_view()),
            None => json_text_of_strings(list.deep_view()) is None,
        },
        res is Some,
{
    serde_json::to_string(list).ok()
}

/// The program ids of a transaction as they are stored: JSON text, or an
/// empty JSON list where encoding fails.
pub fn program_ids_json(ids: &Vec<String>) -> (res: String)
    ensures
        res@ == (match json_text_of_strings(ids.deep_view()) {
            Some(s) => s,
            None => "[]"@,
        }),
        decoded_program_ids(res@) == ids.deep_view(),
{
    match encode_string_list(ids) {
        Some(s) => s,
        None => String::from_str("[]"),
    }
}

} // verus!
