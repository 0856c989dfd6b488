//! Extracting blocks, transactions, account locks and token balance changes
//! from a fetched block document.

use crate::contention::LockModel;
use crate::json::JsonValue;
use crate::rpc::BlockFetchOutcome;
use crate::text::{compare_text, lemma_text_order, text_lt, TextOrder};
use vstd::prelude::*;

verus! {

// ---------------------------------------------------------------------------
// Lookups through optional values
// ---------------------------------------------------------------------------

/// The member `key` of a value, where there is a value.
pub open spec fn then_member(v: Option<JsonValue>, key: Seq<char>) -> Option<JsonValue> {
    match v {
        Some(x) => x.member(key),
        None => None,
    }
}

/// The element `i` of a value, where there is a value.
pub open spec fn then_element(v: Option<JsonValue>, i: int) -> Option<JsonValue> {
    match v {
        Some(x) => x.element(i),
        None => None,
    }
}

/// The text of a value, where there is a string value.
pub open spec fn then_text(v: Option<JsonValue>) -> Option<Seq<char>> {
    match v {
        Some(x) => x.text(),
        None => None,
    }
}

/// The `i64` of a value, where there is such a number.
pub open spec fn then_int(v: Option<JsonValue>) -> Option<i64> {
    match v {
        Some(x) => x.int_value(),
        None => None,
    }
}

/// The boolean of a value, where there is a boolean value.
pub open spec fn then_bool(v: Option<JsonValue>) -> Option<bool> {
    match v {
        Some(x) => x.bool_value(),
        None => None,
    }
}

/// The items of a value, where there is an array value.
pub open spec fn then_items(v: Option<JsonValue>) -> Option<Seq<JsonValue>> {
    match v {
        Some(x) => x.items(),
        None => None,
    }
}

// ---------------------------------------------------------------------------
// Token balances
// ---------------------------------------------------------------------------

/// One side (pre or post) of a token account's balance.
pub struct BalanceEntryModel {
    pub mint: Seq<char>,
    pub amount: Seq<char>,
    pub decimals: i64,
}

/// An entry of a balance list, read as (account index, entry): it needs an
/// integer `accountIndex`, a string `mint`, and a `uiTokenAmount` with a
/// string `amount` and integer `decimals`.
pub open spec fn balance_entry(e: JsonValue) -> Option<(i64, BalanceEntryModel)> {
    let index = then_int(e.member("accountIndex"@));
    let mint = then_text(e.member("mint"@));
    let token = e.member("uiTokenAmount"@);
    let amount = then_text(then_member(token, "amount"@));
    let decimals = then_int(then_member(token, "decimals"@));
    if index is Some && mint is Some && amount is Some && decimals is Some {
        Some(
            (
                index->0,
                BalanceEntryModel { mint: mint->0, amount: amount->0, decimals: decimals->0 },
            ),
        )
    } else {
        None
    }
}

/// Pairs collected into a map, a later pair replacing an earlier one of the
/// same key.
pub open spec fn insert_all(pairs: Seq<(i64, BalanceEntryModel)>) -> Map<i64, BalanceEntryModel>
    decreases pairs.len(),
{
    if pairs.len() == 0 {
        Map::empty()
    } else {
        insert_all(pairs.drop_last()).insert(pairs.last().0, pairs.last().1)
    }
}

/// The balances of a list, by account index; none where the list is absent
/// or not an array, and entries that do not read are skipped.
pub open spec fn collected(list: Option<JsonValue>) -> Map<i64, BalanceEntryModel> {
    match then_items(list) {
        Some(items) => insert_all(items.filter_map(|e: JsonValue| balance_entry(e))),
        None => Map::empty(),
    }
}

/// One side (pre or post) of a token account's balance.
pub struct BalanceEntry {
    pub mint: String,
    pub amount: String,
    pub decimals: i64,
}

impl View for BalanceEntry {
    type V = BalanceEntryModel;

    open spec fn view(&self) -> BalanceEntryModel {
        BalanceEntryModel { mint: self.mint@, amount: self.amount@, decimals: self.decimals }
    }
}

/// A list of (account index, entry) pairs with strictly increasing indices,
/// as a map.
pub open spec fn pairs_map(pairs: Seq<(i64, BalanceEntry)>) -> Map<i64, BalanceEntryModel> {
    Map::new(
        |k: i64| exists|i: int| 0 <= i < pairs.len() && #[trigger] pairs[i].0 == k,
        |k: i64| pairs[choose|i: int| 0 <= i < pairs.len() && #[trigger] pairs[i].0 == k].1@,
    )
}

/// Account indices strictly increase along the list.
pub open spec fn keys_increasing(pairs: Seq<(i64, BalanceEntry)>) -> bool {
    forall|i: int, j: int| 0 <= i < j < pairs.len() ==> #[trigger] pairs[i].0 < #[trigger] pairs[j].0
}

/// Reads one balance list entry.
fn read_balance_entry(e: &JsonValue) -> (res: Option<(i64, BalanceEntry)>)
    ensures
        match res {
            Some(p) => balance_entry(*e) == Some((p.0, p.1@)),
            None => balance_entry(*e) is None,
        },
{
    let index = match e.get("accountIndex") {
        Some(v) => v.as_i64(),
        None => None,
    };
    let mint = match e.get("mint") {
        Some(v) => v.as_str(),
        None => None,
    };
    let token = e.get("uiTokenAmount");
    let amount = match token {
        Some(t) => match t.get("amount") {
            Some(v) => v.as_str(),
            None => None,
        },
        None => None,
    };
    let decimals = match token {
        Some(t) => match t.get("decimals") {
            Some(v) => v.as_i64(),
            None => None,
        },
        None => None,
    };
    match (index, mint, amount, decimals) {
        (Some(index), Some(mint), Some(amount), Some(decimals)) => Some(
            (index, BalanceEntry { mint: mint.clone(), amount: amount.clone(), decimals }),
        ),
        _ => None,
    }
}

/// Puts a pair into a list with strictly increasing keys, replacing the
/// entry of an equal key.
fn put_entry(pairs: &mut Vec<(i64, BalanceEntry)>, key: i64, entry: BalanceEntry)
    requires
        keys_increasing(old(pairs)@),
    ensures
        keys_increasing(final(pairs)@),
        pairs_map(final(pairs)@) == pairs_map(old(pairs)@).insert(key, entry@),
{
    let ghost before = pairs@;
    let ghost ev = entry@;
    let mut pos: usize = 0;
    while pos < pairs.len() && pairs[pos].0 < key
        invariant
            pos <= pairs@.len(),
            pairs@ == before,
            forall|i: int| 0 <= i < pos ==> #[trigger] pairs@[i].0 < key,
        decreases pairs@.len() - pos,
    {
        pos += 1;
    }
    if pos < pairs.len() && pairs[pos].0 == key {
        pairs.set(pos, (key, entry));
        proof {
            assert forall|i: int, j: int| 0 <= i < j < pairs@.len() implies #[trigger] pairs@[i].0
                < #[trigger] pairs@[j].0 by {
                assert(before[i].0 < before[j].0);
            }
            assert(pairs_map(pairs@) =~= pairs_map(before).insert(key, ev)) by {
                assert forall|k: i64| #[trigger] pairs_map(pairs@).contains_key(k) implies pairs_map(
                    pairs@,
                )[k] == pairs_map(before).insert(key, ev)[k] by {
                    let i = choose|i: int| 0 <= i < pairs@.len() && #[trigger] pairs@[i].0 == k;
                    if k != key {
                        assert(before[i].0 == k);
                        let j = choose|j: int| 0 <= j < before.len() && #[trigger] before[j].0 == k;
                        if i != j {
                            if i < j {
                                assert(before[i].0 < before[j].0);
                            } else {
                                assert(before[j].0 < before[i].0);
                            }
                        }
                    } else {
                        if i != pos as int {
                            if i < pos {
                                assert(pairs@[i].0 < pairs@[pos as int].0);
                            } else {
                                assert(pairs@[pos as int].0 < pairs@[i].0);
                            }
                        }
                    }
                }
                assert forall|k: i64| #[trigger] pairs_map(before).insert(key, ev).contains_key(k)
                    implies pairs_map(pairs@).contains_key(k) by {
                    if k == key {
                        assert(pairs@[pos as int].0 == k);
                    } else {
                        let i = choose|i: int| 0 <= i < before.len() && #[trigger] before[i].0 == k;
                        assert(pairs@[i].0 == k);
                    }
                }
            }
        }
    } else {
        pairs.insert(pos, (key, entry));
        proof {
            let after = pairs@;
            assert forall|i: int| 0 <= i < after.len() implies #[trigger] after[i] == (if i < pos {
                before[i]
            } else if i == pos {
                (key, entry)
            } else {
                before[i - 1]
            }) by {}
            assert forall|i: int, j: int| 0 <= i < j < after.len() implies #[trigger] after[i].0
                < #[trigger] after[j].0 by {
                if i < pos && j > pos {
                    assert(before[i].0 < key);
                    assert(key < before[pos as int].0 || pos == before.len());
                    if j - 1 > pos {
                        assert(before[pos as int].0 < before[j - 1].0);
                    }
                } else if i == pos && j > pos {
                    if j - 1 > pos {
                        assert(before[pos as int].0 < before[j - 1].0);
                    }
                } else if i > pos {
                    assert(before[i - 1].0 < before[j - 1].0);
                } else if j < pos {
                    assert(before[i].0 < before[j].0);
                }
            }
            assert(pairs_map(after) =~= pairs_map(before).insert(key, ev)) by {
                assert forall|k: i64| #[trigger] pairs_map(after).contains_key(k) implies pairs_map(
                    after,
                )[k] == pairs_map(before).insert(key, ev)[k] by {
                    let i = choose|i: int| 0 <= i < after.len() && #[trigger] after[i].0 == k;
                    if k != key {
                        let bi = if i < pos { i } else { i - 1 };
                        assert(before[bi].0 == k);
                        let j = choose|j: int| 0 <= j < before.len() && #[trigger] before[j].0 == k;
                        if bi != j {
                            if bi < j {
                                assert(before[bi].0 < before[j].0);
                            } else {
                                assert(before[j].0 < before[bi].0);
                            }
                        }
                    } else {
                        if i != pos as int {
                            if i < pos {
                                assert(after[i].0 < after[pos as int].0);
                            } else {
                                assert(after[pos as int].0 < after[i].0);
                            }
                        }
                    }
                }
                assert forall|k: i64| #[trigger] pairs_map(before).insert(key, ev).contains_key(k)
                    implies pairs_map(after).contains_key(k) by {
                    if k == key {
                        assert(after[pos as int].0 == k);
                    } else {
                        let i = choose|i: int| 0 <= i < before.len() && #[trigger] before[i].0 == k;
                        if i < pos {
                            assert(after[i].0 == k);
                        } else {
                            assert(after[i + 1].0 == k);
                        }
                    }
                }
            }
        }
    }
}

/// Collects the balance list stored under `key` in the transaction meta.
fn collect_balances(meta: &JsonValue, key: &str) -> (res: Vec<(i64, BalanceEntry)>)
    ensures
        keys_increasing(res@),
        pairs_map(res@) == collected(meta.member(key@)),
{
    let mut out: Vec<(i64, BalanceEntry)> = Vec::new();
    assert(pairs_map(out@) =~= Map::<i64, BalanceEntryModel>::empty());
    let list = meta.get(key);
    let items = match list {
        Some(v) => v.as_array(),
        None => None,
    };
    match items {
        Some(items) => {
            let ghost f = |e: JsonValue| balance_entry(e);
            let mut i: usize = 0;
            while i < items.len()
                invariant
                    i <= items@.len(),
                    keys_increasing(out@),
                    f == (|e: JsonValue| balance_entry(e)),
                    pairs_map(out@) == insert_all(items@.take(i as int).filter_map(f)),
                decreases items@.len() - i,
            {
                proof {
                    items@.lemma_filter_map_take_succ(f, i as int);
                }
                let ghost prev = items@.take(i as int).filter_map(f);
                match read_balance_entry(&items[i]) {
                    Some(pair) => {
                        let (k, entry) = pair;
                        put_entry(&mut out, k, entry);
                        assert((prev + seq![(k, entry@)]).drop_last() =~= prev);
                    },
                    None => {
                        assert(prev + Seq::<(i64, BalanceEntryModel)>::empty() =~= prev);
                    },
                }
                i += 1;
            }
            assert(items@.take(items@.len() as int) =~= items@);
        },
        None => {},
    }
    out
}

/// The balance change of one token account in a transaction.
pub struct TokenBalanceRow {
    pub account_index: i64,
    pub mint: String,
    pub pre_amount: String,
    pub post_amount: String,
    pub decimals: i64,
}

/// A token balance change as a value.
pub struct TokenBalanceModel {
    pub account_index: i64,
    pub mint: Seq<char>,
    pub pre_amount: Seq<char>,
    pub post_amount: Seq<char>,
    pub decimals: i64,
}

impl View for TokenBalanceRow {
    type V = TokenBalanceModel;

    open spec fn view(&self) -> TokenBalanceModel {
        TokenBalanceModel {
            account_index: self.account_index,
            mint: self.mint@,
            pre_amount: self.pre_amount@,
            post_amount: self.post_amount@,
            decimals: self.decimals,
        }
    }
}

/// The change row of one account index: mint and decimals from the post
/// balance where there is one, else from the pre balance; an amount missing
/// on either side reads as "0".
pub open spec fn token_row(
    pre: Map<i64, BalanceEntryModel>,
    post: Map<i64, BalanceEntryModel>,
    idx: i64,
) -> TokenBalanceModel {
    let reference = if post.contains_key(idx) {
        post[idx]
    } else {
        pre[idx]
    };
    TokenBalanceModel {
        account_index: idx,
        mint: reference.mint,
        pre_amount: if pre.contains_key(idx) {
            pre[idx].amount
        } else {
            "0"@
        },
        post_amount: if post.contains_key(idx) {
            post[idx].amount
        } else {
            "0"@
        },
        decimals: reference.decimals,
    }
}

/// Some row is of account index `k`.
pub open spec fn has_row(rows: Seq<TokenBalanceRow>, k: i64) -> bool {
    exists|i: int| 0 <= i < rows.len() && #[trigger] rows[i].account_index == k
}

/// One of the first `n` pairs has key `k`.
pub open spec fn seen_key(pairs: Seq<(i64, BalanceEntry)>, n: int, k: i64) -> bool {
    exists|i: int| 0 <= i < n && #[trigger] pairs[i].0 == k
}

/// The token balance rows of a transaction meta: one per account index that
/// has a pre or a post balance, in increasing index order.
pub open spec fn token_rows_ok(meta: JsonValue, rows: Seq<TokenBalanceRow>) -> bool {
    let pre = collected(meta.member("preTokenBalances"@));
    let post = collected(meta.member("postTokenBalances"@));
    &&& forall|i: int, j: int|
        0 <= i < j < rows.len() ==> #[trigger] rows[i].account_index < #[trigger] rows[j].account_index
    &&& forall|k: i64| #[trigger] has_row(rows, k) <==> (pre.contains_key(k) || post.contains_key(k))
    &&& forall|i: int| 0 <= i < rows.len() ==> #[trigger] rows[i]@ == token_row(pre, post, rows[i].account_index)
}

proof fn lemma_pairs_map_at(pairs: Seq<(i64, BalanceEntry)>, i: int)
    requires
        keys_increasing(pairs),
        0 <= i < pairs.len(),
    ensures
        pairs_map(pairs).contains_key(pairs[i].0),
        pairs_map(pairs)[pairs[i].0] == pairs[i].1@,
{
    let j = choose|j: int| 0 <= j < pairs.len() && #[trigger] pairs[j].0 == pairs[i].0;
    if j != i {
        if j < i {
            assert(pairs[j].0 < pairs[i].0);
        } else {
            assert(pairs[i].0 < pairs[j].0);
        }
    }
}

fn token_row_from(
    idx: i64,
    pre: Option<&BalanceEntry>,
    post: Option<&BalanceEntry>,
) -> (res: TokenBalanceRow)
    requires
        pre is Some || post is Some,
    ensures
        res.account_index == idx,
        res.mint@ == (match post {
            Some(e) => e.mint@,
            None => pre->0.mint@,
        }),
        res.decimals == (match post {
            Some(e) => e.decimals,
            None => pre->0.decimals,
        }),
        res.pre_amount@ == (match pre {
            Some(e) => e.amount@,
            None => "0"@,
        }),
        res.post_amount@ == (match post {
            Some(e) => e.amount@,
            None => "0"@,
        }),
{
    let reference = match post {
        Some(e) => e,
        None => match pre {
            Some(e) => e,
            None => {
                assert(false);
                post.unwrap()
            },
        },
    };
    TokenBalanceRow {
        account_index: idx,
        mint: reference.mint.clone(),
        pre_amount: match pre {
            Some(e) => e.amount.clone(),
            None => String::from_str("0"),
        },
        post_amount: match post {
            Some(e) => e.amount.clone(),
            None => String::from_str("0"),
        },
        decimals: reference.decimals,
    }
}

/// Pairs pre and post token balances by account index.
fn parse_token_balances(meta: &JsonValue) -> (res: Vec<TokenBalanceRow>)
    ensures
        token_rows_ok(*meta, res@),
{
    let pre = collect_balances(meta, "preTokenBalances");
    let post = collect_balances(meta, "postTokenBalances");
    let ghost pm = pairs_map(pre@);
    let ghost qm = pairs_map(post@);
    let mut rows: Vec<TokenBalanceRow> = Vec::new();
    let mut i: usize = 0;
    let mut j: usize = 0;
    while i < pre.len() || j < post.len()
        invariant
            i <= pre@.len(),
            j <= post@.len(),
            keys_increasing(pre@),
            keys_increasing(post@),
            pm == pairs_map(pre@),
            qm == pairs_map(post@),
            forall|a: int, b: int|
                0 <= a < b < rows@.len() ==> #[trigger] rows@[a].account_index
                    < #[trigger] rows@[b].account_index,
            forall|k: i64|
                #[trigger] has_row(rows@, k) <==> (seen_key(pre@, i as int, k) || seen_key(
                    post@,
                    j as int,
                    k,
                )),
            forall|a: int, b: int|
                0 <= a < rows@.len() && i <= b < pre@.len() ==> #[trigger] rows@[a].account_index
                    < #[trigger] pre@[b].0,
            forall|a: int, b: int|
                0 <= a < rows@.len() && j <= b < post@.len() ==> #[trigger] rows@[a].account_index
                    < #[trigger] post@[b].0,
            forall|a: int|
                0 <= a < rows@.len() ==> #[trigger] rows@[a]@ == token_row(pm, qm, rows@[a].account_index),
        decreases pre@.len() + post@.len() - i - j,
    {
        let take_pre = j >= post.len() || (i < pre.len() && pre[i].0 < post[j].0);
        let take_post = i >= pre.len() || (j < post.len() && post[j].0 < pre[i].0);
        let ghost before = rows@;
        let row = if take_pre {
            proof {
                lemma_pairs_map_at(pre@, i as int);
                if qm.contains_key(pre@[i as int].0) {
                    let b = choose|b: int| 0 <= b < post@.len() && #[trigger] post@[b].0 == pre@[i as int].0;
                    if b >= j {
                        if b > j {
                            assert(post@[j as int].0 < post@[b].0);
                        }
                    } else {
                        assert(seen_key(post@, j as int, pre@[i as int].0));
                        assert(has_row(rows@, pre@[i as int].0));
                        let a = choose|a: int| 0 <= a < rows@.len() && #[trigger] rows@[a].account_index == pre@[i as int].0;
                        assert(rows@[a].account_index < pre@[i as int].0);
                    }
                }
                assert(!qm.contains_key(pre@[i as int].0));
            }
            token_row_from(pre[i].0, Some(&pre[i].1), None)
        } else if take_post {
            proof {
                lemma_pairs_map_at(post@, j as int);
                if pm.contains_key(post@[j as int].0) {
                    let a = choose|a: int| 0 <= a < pre@.len() && #[trigger] pre@[a].0 == post@[j as int].0;
                    if a >= i {
                        if a > i {
                            assert(pre@[i as int].0 < pre@[a].0);
                        }
                    } else {
                        assert(seen_key(pre@, i as int, post@[j as int].0));
                        assert(has_row(rows@, post@[j as int].0));
                        let r = choose|r: int| 0 <= r < rows@.len() && #[trigger] rows@[r].account_index == post@[j as int].0;
                        assert(rows@[r].account_index < post@[j as int].0);
                    }
                }
                assert(!pm.contains_key(post@[j as int].0));
            }
            token_row_from(post[j].0, None, Some(&post[j].1))
        } else {
            proof {
                lemma_pairs_map_at(pre@, i as int);
                lemma_pairs_map_at(post@, j as int);
            }
            token_row_from(pre[i].0, Some(&pre[i].1), Some(&post[j].1))
        };
        let ghost k = row.account_index;
        assert(row@ == token_row(pm, qm, k));
        rows.push(row);
        let ghost oi = i;
        let ghost oj = j;
        if take_pre {
            i += 1;
        } else if take_post {
            j += 1;
        } else {
            i += 1;
            j += 1;
        }
        proof {
            assert(rows@[before.len() as int] == row);
            assert forall|a: int, b: int|
                0 <= a < rows@.len() && i <= b < pre@.len() implies #[trigger] rows@[a].account_index
                < #[trigger] pre@[b].0 by {
                if a == before.len() {
                    if b > oi {
                        assert(pre@[oi as int].0 < pre@[b].0);
                    }
                } else {
                    assert(rows@[a] == before[a]);
                }
            }
            assert forall|a: int, b: int|
                0 <= a < rows@.len() && j <= b < post@.len() implies #[trigger] rows@[a].account_index
                < #[trigger] post@[b].0 by {
                if a == before.len() {
                    if b > oj {
                        assert(post@[oj as int].0 < post@[b].0);
                    }
                } else {
                    assert(rows@[a] == before[a]);
                }
            }
            assert forall|a: int, b: int|
                0 <= a < b < rows@.len() implies #[trigger] rows@[a].account_index
                < #[trigger] rows@[b].account_index by {
                if b == before.len() {
                    assert(rows@[a] == before[a]);
                    if take_pre || !take_post {
                        assert(before[a].account_index < pre@[oi as int].0);
                    } else {
                        assert(before[a].account_index < post@[oj as int].0);
                    }
                }
            }
            assert forall|k2: i64|
                #[trigger] has_row(rows@, k2) <==> (seen_key(pre@, i as int, k2) || seen_key(
                    post@,
                    j as int,
                    k2,
                )) by {
                if has_row(rows@, k2) {
                    let a = choose|a: int| 0 <= a < rows@.len() && #[trigger] rows@[a].account_index == k2;
                    if a < before.len() {
                        assert(rows@[a] == before[a]);
                        assert(has_row(before, k2));
                        if seen_key(pre@, oi as int, k2) {
                            let x = choose|x: int| 0 <= x < oi && #[trigger] pre@[x].0 == k2;
                            assert(seen_key(pre@, i as int, k2));
                        } else {
                            let x = choose|x: int| 0 <= x < oj && #[trigger] post@[x].0 == k2;
                            assert(seen_key(post@, j as int, k2));
                        }
                    } else if take_pre || !take_post {
                        assert(pre@[oi as int].0 == k2);
                        assert(seen_key(pre@, i as int, k2));
                    } else {
                        assert(post@[oj as int].0 == k2);
                        assert(seen_key(post@, j as int, k2));
                    }
                }
                if seen_key(pre@, i as int, k2) {
                    let a = choose|a: int| 0 <= a < i && #[trigger] pre@[a].0 == k2;
                    if a < oi {
                        assert(seen_key(pre@, oi as int, k2));
                        assert(has_row(before, k2));
                        let r = choose|r: int| 0 <= r < before.len() && #[trigger] before[r].account_index == k2;
                        assert(rows@[r] == before[r]);
                    } else {
                        assert(rows@[before.len() as int].account_index == k2);
                    }
                }
                if seen_key(post@, j as int, k2) {
                    let b = choose|b: int| 0 <= b < j && #[trigger] post@[b].0 == k2;
                    if b < oj {
                        assert(seen_key(post@, oj as int, k2));
                        assert(has_row(before, k2));
                        let r = choose|r: int| 0 <= r < before.len() && #[trigger] before[r].account_index == k2;
                        assert(rows@[r] == before[r]);
                    } else {
                        assert(rows@[before.len() as int].account_index == k2);
                    }
                }
            }
        }
    }
    proof {
        assert forall|k: i64| #[trigger] has_row(rows@, k) <==> (pm.contains_key(k) || qm.contains_key(k)) by {
            if pm.contains_key(k) {
                let a = choose|a: int| 0 <= a < pre@.len() && #[trigger] pre@[a].0 == k;
                assert(seen_key(pre@, i as int, k));
            }
            if qm.contains_key(k) {
                let b = choose|b: int| 0 <= b < post@.len() && #[trigger] post@[b].0 == k;
                assert(seen_key(post@, j as int, k));
            }
            if seen_key(pre@, i as int, k) {
                let a = choose|a: int| 0 <= a < i && #[trigger] pre@[a].0 == k;
                assert(pm.contains_key(k));
            }
            if seen_key(post@, j as int, k) {
                let b = choose|b: int| 0 <= b < j && #[trigger] post@[b].0 == k;
                assert(qm.contains_key(k));
            }
        }
    }
    rows
}

// ---------------------------------------------------------------------------
// Program ids
// ---------------------------------------------------------------------------

/// Texts strictly increasing in `String` order: sorted, no repeats.
pub open spec fn strictly_sorted(s: Seq<Seq<char>>) -> bool {
    forall|i: int, j: int| 0 <= i < j < s.len() ==> text_lt(#[trigger] s[i], #[trigger] s[j])
}

/// The program id of each instruction that names one as a string, in
/// instruction order.
pub open spec fn instruction_programs(ixs: Seq<JsonValue>) -> Seq<Seq<char>> {
    ixs.filter_map(|ix: JsonValue| then_text(ix.member("programId"@)))
}

/// Adds a text to a strictly sorted list unless it is there already.
fn insert_sorted(ids: &mut Vec<String>, id: &String)
    requires
        strictly_sorted(old(ids).deep_view()),
    ensures
        strictly_sorted(final(ids).deep_view()),
        forall|x: Seq<char>|
            #[trigger] final(ids).deep_view().contains(x) <==> old(ids).deep_view().contains(x) || x
                == id@,
{
    let ghost before = ids.deep_view();
    let mut pos: usize = 0;
    let mut done = false;
    while pos < ids.len() && !done
        invariant
            pos <= ids@.len(),
            ids.deep_view() == before,
            strictly_sorted(before),
            forall|k: int| 0 <= k < pos ==> text_lt(#[trigger] before[k], id@),
            done ==> pos < ids@.len() && !text_lt(before[pos as int], id@),
        decreases ids@.len() - pos, (if done { 0int } else { 1int }),
    {
        match compare_text(ids[pos].as_str(), id.as_str()) {
            TextOrder::Less => {
                pos += 1;
            },
            TextOrder::Equal => {
                proof {
                    lemma_text_order(id@, id@, id@);
                }
                done = true;
            },
            TextOrder::Greater => {
                proof {
                    lemma_text_order(id@, before[pos as int], id@);
                }
                done = true;
            },
        }
    }
    if pos < ids.len() {
        assert(!text_lt(before[pos as int], id@));
        if same_string(&ids[pos], id) {
            assert(before.contains(id@)) by {
                assert(before[pos as int] == id@);
            }
            return;
        }
        proof {
            lemma_text_order(before[pos as int], id@, id@);
        }
    }
    ids.insert(pos, id.clone());
    proof {
        let after = ids.deep_view();
        assert forall|k: int| 0 <= k < after.len() implies #[trigger] after[k] == (if k < pos {
            before[k]
        } else if k == pos {
            id@
        } else {
            before[k - 1]
        }) by {}
        assert forall|a: int, b: int| 0 <= a < b < after.len() implies text_lt(
            #[trigger] after[a],
            #[trigger] after[b],
        ) by {
            if b == pos {
                assert(text_lt(before[a], id@));
            } else if a == pos {
                assert(text_lt(id@, before[pos as int]));
                if b - 1 > pos {
                    assert(text_lt(before[pos as int], before[b - 1]));
                    lemma_text_order(id@, before[pos as int], before[b - 1]);
                }
            } else if a < pos && b > pos {
                assert(text_lt(before[a], id@));
                assert(text_lt(id@, before[pos as int]));
                lemma_text_order(before[a], id@, before[pos as int]);
                if b - 1 > pos {
                    assert(text_lt(before[pos as int], before[b - 1]));
                    lemma_text_order(before[a], before[pos as int], before[b - 1]);
                }
            } else if a > pos {
                assert(text_lt(before[a - 1], before[b - 1]));
            } else {
                assert(text_lt(before[a], before[b]));
            }
        }
        assert forall|x: Seq<char>| #[trigger] after.contains(x) <==> before.contains(x) || x
            == id@ by {
            if after.contains(x) {
                let k = choose|k: int| 0 <= k < after.len() && after[k] == x;
                if k < pos {
                    assert(before[k] == x);
                } else if k > pos {
                    assert(before[k - 1] == x);
                }
            }
            if before.contains(x) {
                let k = choose|k: int| 0 <= k < before.len() && before[k] == x;
                if k < pos {
                    assert(after[k] == x);
                } else {
                    assert(after[k + 1] == x);
                }
            }
            if x == id@ {
                assert(after[pos as int] == x);
            }
        }
    }
}

fn same_string(a: &String, b: &String) -> (res: bool)
    ensures
        res == (a@ == b@),
{
    *a == *b
}

/// The distinct program ids of the instructions, in `String` order.
fn program_ids_of(ixs: &Vec<JsonValue>) -> (res: Vec<String>)
    ensures
        strictly_sorted(res.deep_view()),
        forall|x: Seq<char>|
            #[trigger] res.deep_view().contains(x) <==> instruction_programs(ixs@).contains(x),
{
    let ghost f = |ix: JsonValue| then_text(ix.member("programId"@));
    let mut ids: Vec<String> = Vec::new();
    assert(ids.deep_view() =~= Seq::<Seq<char>>::empty());
    let mut i: usize = 0;
    while i < ixs.len()
        invariant
            i <= ixs@.len(),
            f == (|ix: JsonValue| then_text(ix.member("programId"@))),
            strictly_sorted(ids.deep_view()),
            forall|x: Seq<char>|
                #[trigger] ids.deep_view().contains(x) <==> ixs@.take(i as int).filter_map(f).contains(
                    x,
                ),
        decreases ixs@.len() - i,
    {
        proof {
            ixs@.lemma_filter_map_take_succ(f, i as int);
        }
        let ghost prev = ixs@.take(i as int).filter_map(f);
        let found = match ixs[i].get("programId") {
            Some(v) => v.as_str(),
            None => None,
        };
        match found {
            Some(id) => {
                insert_sorted(&mut ids, id);
                proof {
                    assert forall|x: Seq<char>| #[trigger] (prev + seq![id@]).contains(x) <==> prev.contains(x) || x == id@ by {
                        if (prev + seq![id@]).contains(x) {
                            let k = choose|k: int| 0 <= k < prev.len() + 1 && (prev + seq![id@])[k] == x;
                            if k < prev.len() {
                                assert(prev[k] == x);
                            }
                        }
                        if prev.contains(x) {
                            let k = choose|k: int| 0 <= k < prev.len() && prev[k] == x;
                            assert((prev + seq![id@])[k] == x);
                        }
                        if x == id@ {
                            assert((prev + seq![id@])[prev.len() as int] == x);
                        }
                    }
                }
            },
            None => {
                assert(prev + Seq::<Seq<char>>::empty() =~= prev);
            },
        }
        i += 1;
    }
    assert(ixs@.take(ixs@.len() as int) =~= ixs@);
    ids
}

// ---------------------------------------------------------------------------
// Account locks
// ---------------------------------------------------------------------------

/// An account a transaction locks, and whether it writes it.
pub struct AccountLock {
    pub account_pubkey: String,
    pub is_writable: bool,
}

impl View for AccountLock {
    type V = LockModel;

    open spec fn view(&self) -> LockModel {
        LockModel { account: self.account_pubkey@, writable: self.is_writable }
    }
}

/// The lock an account key entry describes: it needs a string `pubkey` and a
/// boolean `writable`.
pub open spec fn key_lock(key: JsonValue) -> Option<LockModel> {
    let pubkey = then_text(key.member("pubkey"@));
    let writable = then_bool(key.member("writable"@));
    if pubkey is Some && writable is Some {
        Some(LockModel { account: pubkey->0, writable: writable->0 })
    } else {
        None
    }
}

/// The locks of the account key entries that describe one, in order.
pub open spec fn key_locks(keys: Seq<JsonValue>) -> Seq<LockModel> {
    keys.filter_map(|k: JsonValue| key_lock(k))
}

fn account_locks_of(keys: &Vec<JsonValue>) -> (res: Vec<AccountLock>)
    ensures
        res@.map_values(|l: AccountLock| l@) == key_locks(keys@),
{
    let ghost f = |k: JsonValue| key_lock(k);
    let mut locks: Vec<AccountLock> = Vec::new();
    let mut i: usize = 0;
    while i < keys.len()
        invariant
            i <= keys@.len(),
            f == (|k: JsonValue| key_lock(k)),
            locks@.map_values(|l: AccountLock| l@) == keys@.take(i as int).filter_map(f),
        decreases keys@.len() - i,
    {
        proof {
            keys@.lemma_filter_map_take_succ(f, i as int);
        }
        let key = &keys[i];
        let pubkey = match key.get("pubkey") {
            Some(v) => v.as_str(),
            None => None,
        };
        let writable = match key.get("writable") {
            Some(v) => v.as_bool(),
            None => None,
        };
        match (pubkey, writable) {
            (Some(pubkey), Some(writable)) => {
                let lock = AccountLock { account_pubkey: pubkey.clone(), is_writable: writable };
                let ghost prev = locks@.map_values(|l: AccountLock| l@);
                locks.push(lock);
                assert(locks@.map_values(|l: AccountLock| l@) =~= prev + seq![lock@]);
            },
            _ => {
                assert(keys@.take(i as int).filter_map(f) + Seq::<LockModel>::empty()
                    =~= keys@.take(i as int).filter_map(f));
            },
        }
        i += 1;
    }
    assert(keys@.take(keys@.len() as int) =~= keys@);
    locks
}

// ---------------------------------------------------------------------------
// Transactions and blocks
// ---------------------------------------------------------------------------

/// A transaction as the store keeps it.
pub struct ParsedTransaction {
    pub signature: String,
    pub tx_index: i64,
    pub success: bool,
    pub fee: i64,
    pub program_ids: Vec<String>,
    pub account_locks: Vec<AccountLock>,
    pub token_balances: Vec<TokenBalanceRow>,
}

/// A block as the store keeps it; a skipped slot has no hash, time or
/// transactions.
pub struct ParsedBlock {
    pub slot: u64,
    pub blockhash: Option<String>,
    pub block_time: Option<i64>,
    pub skipped: bool,
    pub transactions: Vec<ParsedTransaction>,
}

/// The fields a transaction entry must have: the first signature, the
/// `err` and `fee` of its meta, and its message's instructions and account
/// keys.
pub struct TxFields {
    pub signature: Seq<char>,
    pub success: bool,
    pub fee: i64,
    pub instructions: Seq<JsonValue>,
    pub account_keys: Seq<JsonValue>,
    pub meta: JsonValue,
}

/// The fields of a transaction entry, or `None` where one is missing or of
/// the wrong kind. A transaction succeeded when its meta's `err` is null.
pub open spec fn transaction_fields(tx: JsonValue) -> Option<TxFields> {
    let meta = tx.member("meta"@);
    let body = tx.member("transaction"@);
    let message = then_member(body, "message"@);
    let signature = then_text(then_element(then_member(body, "signatures"@), 0));
    let err = then_member(meta, "err"@);
    let fee = then_int(then_member(meta, "fee"@));
    let instructions = then_items(then_member(message, "instructions"@));
    let keys = then_items(then_member(message, "accountKeys"@));
    if meta is Some && message is Some && signature is Some && err is Some && fee is Some
        && instructions is Some && keys is Some {
        Some(
            TxFields {
                signature: signature->0,
                success: err->0 is Null,
                fee: fee->0,
                instructions: instructions->0,
                account_keys: keys->0,
                meta: meta->0,
            },
        )
    } else {
        None
    }
}

/// `p` is what the transaction entry `tx` at position `tx_index` gives.
pub open spec fn parsed_from(tx_index: i64, tx: JsonValue, p: ParsedTransaction) -> bool {
    match transaction_fields(tx) {
        Some(f) => {
            &&& p.signature@ == f.signature
            &&& p.tx_index == tx_index
            &&& p.success == f.success
            &&& p.fee == f.fee
            &&& strictly_sorted(p.program_ids.deep_view())
            &&& forall|x: Seq<char>|
                #[trigger] p.program_ids.deep_view().contains(x) <==> instruction_programs(
                    f.instructions,
                ).contains(x)
            &&& p.account_locks@.map_values(|l: AccountLock| l@) == key_locks(f.account_keys)
            &&& token_rows_ok(f.meta, p.token_balances@)
        },
        None => false,
    }
}

/// Reads one transaction entry of a block at position `tx_index`; `None`
/// where a field it needs is missing or of the wrong kind.
pub fn parse_transaction(tx_index: i64, tx: &JsonValue) -> (res: Option<ParsedTransaction>)
    ensures
        match res {
            Some(p) => parsed_from(tx_index, *tx, p) && first_signature(*tx) == Some(p.signature@),
            None => transaction_fields(*tx) is None,
        },
{
    let meta = tx.get("meta")?;
    let body = tx.get("transaction");
    let message = match body {
        Some(b) => b.get("message"),
        None => None,
    }?;
    let signature = match body {
        Some(b) => match b.get("signatures") {
            Some(sigs) => match sigs.at(0) {
                Some(first) => first.as_str(),
                None => None,
            },
            None => None,
        },
        None => None,
    }?;
    let success = meta.get("err")?.is_null();
    let fee = meta.get("fee")?.as_i64()?;
    let instructions = message.get("instructions")?.as_array()?;
    let keys = message.get("accountKeys")?.as_array()?;
    let program_ids = program_ids_of(instructions);
    let account_locks = account_locks_of(keys);
    let token_balances = parse_token_balances(meta);
    Some(
        ParsedTransaction {
            signature: signature.clone(),
            tx_index,
            success,
            fee,
            program_ids,
            account_locks,
            token_balances,
        },
    )
}

/// The positions `0..n` of the entries that read as transactions.
pub open spec fn transaction_positions(txs: Seq<JsonValue>, n: int) -> Seq<int>
    decreases n,
{
    if n <= 0 {
        seq![]
    } else if transaction_fields(txs[n - 1]) is Some {
        transaction_positions(txs, n - 1).push(n - 1)
    } else {
        transaction_positions(txs, n - 1)
    }
}

/// The transactions of a block, from its entries: the entries that read as
/// transactions, in order, each with its position in the block.
pub open spec fn transactions_from(txs: Seq<JsonValue>, parsed: Seq<ParsedTransaction>) -> bool {
    let positions = transaction_positions(txs, txs.len() as int);
    &&& parsed.len() == positions.len()
    &&& forall|k: int|
        0 <= k < parsed.len() ==> parsed_from(
            positions[k] as i64,
            txs[positions[k]],
            #[trigger] parsed[k],
        )
}

/// A block document has a string `blockhash` and an array of transactions.
pub open spec fn block_readable(block: JsonValue) -> bool {
    &&& then_text(block.member("blockhash"@)) is Some
    &&& then_items(block.member("transactions"@)) is Some
}

/// `b` is what the block document gives for `slot`: not skipped, its hash,
/// its time where it has an integer one, and its transactions.
pub open spec fn block_from(slot: u64, block: JsonValue, b: ParsedBlock) -> bool {
    &&& b.slot == slot
    &&& b.skipped == false
    &&& b.blockhash matches Some(h) && Some(h@) == then_text(block.member("blockhash"@))
    &&& b.block_time == then_int(block.member("blockTime"@))
    &&& transactions_from(then_items(block.member("transactions"@))->0, b.transactions@)
}

/// Reads a fetched block document; `None` where it has no string hash or
/// no transaction array. Entries that do not read as transactions are
/// skipped, and the others keep their positions.
pub fn parse_block(slot: u64, block: &JsonValue) -> (res: Option<ParsedBlock>)
    ensures
        match res {
            Some(b) => block_readable(*block) && block_from(slot, *block, b),
            None => !block_readable(*block),
        },
{
    let blockhash = block.get("blockhash")?.as_str()?.clone();
    let block_time = match block.get("blockTime") {
        Some(v) => v.as_i64(),
        None => None,
    };
    let items = block.get("transactions")?.as_array()?;
    let mut transactions: Vec<ParsedTransaction> = Vec::new();
    let mut i: usize = 0;
    while i < items.len()
        invariant
            i <= items@.len(),
            transactions@.len() == transaction_positions(items@, i as int).len(),
            forall|k: int| 0 <= k < transactions@.len() ==> 0 <= #[trigger] transaction_positions(items@, i as int)[k] < i,
            forall|k: int|
                0 <= k < transactions@.len() ==> parsed_from(
                    transaction_positions(items@, i as int)[k] as i64,
                    items@[transaction_positions(items@, i as int)[k]],
                    #[trigger] transactions@[k],
                ),
        decreases items@.len() - i,
    {
        let ghost prev = transaction_positions(items@, i as int);
        match parse_transaction(i as i64, &items[i]) {
            Some(p) => {
                transactions.push(p);
                assert(transaction_positions(items@, i + 1) == prev.push(i as int));
            },
            None => {
                assert(transaction_positions(items@, i + 1) == prev);
            },
        }
        i += 1;
    }
    Some(ParsedBlock { slot, blockhash: Some(blockhash), block_time, skipped: false, transactions })
}

/// What the parse stage makes of a fetch outcome: a skipped slot becomes a
/// skipped block with no hash, time or transactions; a failed fetch, or a
/// block document that does not read, gives nothing to store.
pub fn block_for_outcome(slot: u64, outcome: &BlockFetchOutcome) -> (res: Option<ParsedBlock>)
    ensures
        match *outcome {
            BlockFetchOutcome::Skipped => res matches Some(b) && b.slot == slot && b.blockhash is None
                && b.block_time is None && b.skipped && b.transactions@.len() == 0,
            BlockFetchOutcome::Failed(_) => res is None,
            BlockFetchOutcome::Fetched(v) => match res {
                Some(b) => block_readable(v) && block_from(slot, v, b),
                None => !block_readable(v),
            },
        },
{
    match outcome {
        BlockFetchOutcome::Skipped => Some(
            ParsedBlock {
                slot,
                blockhash: None,
                block_time: None,
                skipped: true,
                transactions: Vec::new(),
            },
        ),
        BlockFetchOutcome::Failed(_) => None,
        BlockFetchOutcome::Fetched(block) => parse_block(slot, block),
    }
}

/// The signatures of a block fetched with `transactionDetails: signatures`,
/// in block order: the string entries of its `signatures` array, other
/// entries skipped; `None` where the block has no such array.
pub open spec fn signatures_of(block: JsonValue) -> Option<Seq<Seq<char>>> {
    match then_items(block.member("signatures"@)) {
        Some(items) => Some(items.filter_map(|v: JsonValue| v.text())),
        None => None,
    }
}

/// Reads a block's signatures, in block order.
pub fn block_signatures(block: &JsonValue) -> (res: Option<Vec<String>>)
    ensures
        match res {
            Some(v) => signatures_of(*block) == Some(v.deep_view()),
            None => signatures_of(*block) is None,
        },
{
    let items = block.get("signatures")?.as_array()?;
    let ghost f = |v: JsonValue| v.text();
    let mut out: Vec<String> = Vec::new();
    let mut i: usize = 0;
    while i < items.len()
        invariant
            i <= items@.len(),
            f == (|v: JsonValue| v.text()),
            out.deep_view() == items@.take(i as int).filter_map(f),
        decreases items@.len() - i,
    {
        proof {
            items@.lemma_filter_map_take_succ(f, i as int);
        }
        let ghost before = out.deep_view();
        match items[i].as_str() {
            Some(s) => {
                out.push(s.clone());
                assert(out.deep_view() =~= before + seq![s@]);
            },
            None => {
                assert(before + Seq::<Seq<char>>::empty() =~= before);
            },
        }
        i += 1;
    }
    assert(items@.take(items@.len() as int) =~= items@);
    Some(out)
}

/// The first entry of the `signatures` array of an entry's `transaction`,
/// as text.
pub open spec fn first_signature(tx: JsonValue) -> Option<Seq<char>> {
    match tx.member("transaction"@) {
        Some(body) => match body.member("signatures"@) {
            Some(JsonValue::Array(list)) => if list@.len() > 0 {
                list@[0].text()
            } else {
                None
            },
            _ => None,
        },
        None => None,
    }
}

/// A parsed transaction is named by the first signature of its entry, and
/// carries the position it was given, its meta's fee, and success exactly
/// when its meta's `err` is null.
pub proof fn law_parsed_transaction_fields(tx_index: i64, tx: JsonValue, p: ParsedTransaction)
    requires
        parsed_from(tx_index, tx, p),
    ensures
        first_signature(tx) == Some(p.signature@),
        p.tx_index == tx_index,
        then_int(then_member(tx.member("meta"@), "fee"@)) == Some(p.fee),
        (then_member(tx.member("meta"@), "err"@) matches Some(err) && p.success == (err is Null)),
{
}

} // verus!
