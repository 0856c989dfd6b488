//! Trade inference from a transaction's token balance changes, and the
//! bucketing of trades into candles.

use vstd::hash_map::StringHashMap;
use vstd::prelude::*;

verus! {

// ---------------------------------------------------------------------------
// Decimal amounts
// ---------------------------------------------------------------------------

/// The value of a run of decimal digits.
pub open spec fn digits_value(d: Seq<char>) -> int
    decreases d.len(),
{
    if d.len() == 0 {
        0
    } else {
        digits_value(d.drop_last()) * 10 + (d.last() as int - '0' as int)
    }
}

/// Every character is an ASCII decimal digit.
pub open spec fn all_digits(d: Seq<char>) -> bool {
    forall|i: int| 0 <= i < d.len() ==> '0' <= #[trigger] d[i] <= '9'
}

/// The text read as a signed decimal `i128`, as Rust's `str::parse::<i128>`
/// reads it: an optional `+` or `-`, then one or more ASCII digits, and a
/// value in range; `None` for anything else.
pub open spec fn decimal_i128(s: Seq<char>) -> Option<i128> {
    let neg = s.len() > 0 && s[0] == '-';
    let digits = if s.len() > 0 && (s[0] == '-' || s[0] == '+') {
        s.drop_first()
    } else {
        s
    };
    if digits.len() == 0 || !all_digits(digits) {
        None
    } else {
        let v = if neg {
            -digits_value(digits)
        } else {
            digits_value(digits)
        };
        if i128::MIN <= v <= i128::MAX {
            Some(v as i128)
        } else {
            None
        }
    }
}

/// A stored amount: its decimal value, or zero where it does not read as one.
pub open spec fn amount_or_zero(s: Seq<char>) -> int {
    match decimal_i128(s) {
        Some(v) => v as int,
        None => 0,
    }
}

proof fn lemma_digits_value_nonneg(d: Seq<char>)
    requires
        all_digits(d),
    ensures
        digits_value(d) >= 0,
    decreases d.len(),
{
    if d.len() > 0 {
        assert(all_digits(d.drop_last())) by {
            assert forall|i: int| 0 <= i < d.drop_last().len() implies '0' <= #[trigger] d.drop_last()[i]
                <= '9' by {
                assert(d.drop_last()[i] == d[i]);
            }
        }
        lemma_digits_value_nonneg(d.drop_last());
        assert(d[d.len() - 1] == d.last());
    }
}

/// Reads a decimal `i128` as `str::parse::<i128>` does.
pub fn parse_i128(s: &str) -> (res: Option<i128>)
    ensures
        res == decimal_i128(s@),
{
    proof {
        broadcast use vstd::string::group_string_axioms;
    }
    let ascii = s.is_ascii();
    if !ascii {
        proof {
            let i = choose|i: int| 0 <= i < s@.len() && !('\0' <= #[trigger] s@[i] <= '\u{7f}');
            let digits = if s@.len() > 0 && (s@[0] == '-' || s@[0] == '+') {
                s@.drop_first()
            } else {
                s@
            };
            if s@.len() > 0 && (s@[0] == '-' || s@[0] == '+') {
                assert(i > 0);
                assert(digits[i - 1] == s@[i]);
            } else {
                assert(digits[i] == s@[i]);
            }
        }
        return None;
    }
    let bytes = s.as_bytes();
    proof {
        vstd::string::is_ascii_spec_bytes(s);
    }
    let n = bytes.len();
    assert(n == s@.len());
    if n == 0 {
        return None;
    }
    let neg = bytes[0] == 45u8;  // '-'
    let start: usize = if bytes[0] == 45u8 || bytes[0] == 43u8 {  // '-' or '+'
        1
    } else {
        0
    };
    assert(s@[0] as u8 == bytes@[0]);
    assert(bytes@[0] == 45u8 <==> s@[0] == '-') by {
        assert('\0' <= s@[0] <= '\u{7f}');
    }
    assert(bytes@[0] == 43u8 <==> s@[0] == '+') by {
        assert('\0' <= s@[0] <= '\u{7f}');
    }
    let ghost digits = s@.subrange(start as int, n as int);
    assert(start == 1 ==> digits =~= s@.drop_first());
    assert(start == 0 ==> digits =~= s@);
    if start == n {
        return None;
    }
    // magnitude accumulated as u128; the bound is 2^127 for a negative value
    // and 2^127 - 1 otherwise
    let limit: u128 = if neg {
        170141183460469231731687303715884105728u128
    } else {
        170141183460469231731687303715884105727u128
    };
    let mut value: u128 = 0;
    let mut i: usize = start;
    while i < n
        invariant
            start <= i <= n,
            n == s@.len(),
            n == bytes@.len(),
            forall|k: int| 0 <= k < n ==> #[trigger] bytes@[k] == s@[k] as u8,
            forall|k: int| 0 <= k < n ==> '\0' <= #[trigger] s@[k] <= '\u{7f}',
            digits == s@.subrange(start as int, n as int),
            start == 1 ==> digits == s@.drop_first(),
            start == 0 ==> digits == s@,
            start <= 1,
            n > 0,
            neg == (s@[0] == '-'),
            (start == 1) == (s@[0] == '-' || s@[0] == '+'),
            limit == (if neg {
                170141183460469231731687303715884105728u128
            } else {
                170141183460469231731687303715884105727u128
            }),
            all_digits(digits.take(i - start)),
            value as int == digits_value(digits.take(i - start)),
            value <= limit,
        decreases n - i,
    {
        let b = bytes[i];
        let ghost prefix = digits.take(i - start);
        let ghost next = digits.take(i - start + 1);
        assert(next.drop_last() =~= prefix);
        assert(next.last() == s@[i as int]);
        assert(b == s@[i as int] as u8);
        if b < 48u8 || b > 57u8 {
            proof {
                assert(digits[i - start] == s@[i as int]);
                assert(!('0' <= digits[i - start] <= '9'));
                assert(!all_digits(digits));
                if start == 1 {
                    assert(digits == s@.drop_first());
                } else {
                    assert(digits == s@);
                }
            }
            return None;
        }
        assert('0' <= s@[i as int] <= '9');
        assert(s@[i as int] as int - '0' as int == b - 48);
        let d = (b - 48u8) as u128;
        assert(d <= 9);
        assert(limit >= 9);
        if value > (limit - d) / 10 {
            proof {
                assert(all_digits(next)) by {
                    assert forall|k: int| 0 <= k < next.len() implies '0' <= #[trigger] next[k] <= '9' by {
                        if k < next.len() - 1 {
                            assert(next[k] == prefix[k]);
                        }
                    }
                }
                assert(digits_value(next) > limit) by (nonlinear_arith)
                    requires
                        digits_value(next) == value * 10 + d,
                        value > (limit - d) / 10,
                        d <= 9,
                ;
                if all_digits(digits) {
                    lemma_digits_grow(digits, i - start + 1);
                    if neg {
                        assert(-digits_value(digits) < i128::MIN);
                    } else {
                        assert(digits_value(digits) > i128::MAX);
                    }
                }
            }
            return None;
        }
        assert(value * 10 + d <= limit) by (nonlinear_arith)
            requires
                value <= (limit - d) / 10,
                d <= 9,
                limit >= 9,
        ;
        value = value * 10 + d;
        assert(all_digits(next)) by {
            assert forall|k: int| 0 <= k < next.len() implies '0' <= #[trigger] next[k] <= '9' by {
                if k < next.len() - 1 {
                    assert(next[k] == prefix[k]);
                }
            }
        }
        i += 1;
    }
    assert(digits.take(n - start) =~= digits);
    if neg {
        if value == limit {
            Some(i128::MIN)
        } else {
            Some(-(value as i128))
        }
    } else {
        Some(value as i128)
    }
}

/// Once a prefix of digits has passed a bound, every longer prefix has too.
proof fn lemma_digits_grow(digits: Seq<char>, k: int)
    requires
        0 <= k <= digits.len(),
        all_digits(digits),
    ensures
        digits_value(digits) >= digits_value(digits.take(k)),
    decreases digits.len() - k,
{
    if k < digits.len() {
        lemma_digits_grow(digits, k + 1);
        let next = digits.take(k + 1);
        assert(next.drop_last() =~= digits.take(k));
        assert(next.last() == digits[k]);
        assert(all_digits(digits.take(k))) by {
            assert forall|j: int| 0 <= j < digits.take(k).len() implies '0' <= #[trigger] digits.take(
                k,
            )[j] <= '9' by {
                assert(digits.take(k)[j] == digits[j]);
            }
        }
        lemma_digits_value_nonneg(digits.take(k));
    } else {
        assert(digits.take(k) =~= digits);
    }
}

/// The change from a stored pre-amount to a stored post-amount; an amount
/// that does not read as a decimal counts as zero.
pub fn raw_delta(pre: &str, post: &str) -> (res: i128)
    requires
        i128::MIN <= amount_or_zero(post@) - amount_or_zero(pre@) <= i128::MAX,
    ensures
        res == amount_or_zero(post@) - amount_or_zero(pre@),
{
    let pre = match parse_i128(pre) {
        Some(v) => v,
        None => 0,
    };
    let post = match parse_i128(post) {
        Some(v) => v,
        None => 0,
    };
    post - pre
}

/// `raw_delta`, or `None` where the change does not fit in an `i128`.
fn amount_change(pre: &str, post: &str) -> (res: Option<i128>)
    ensures
        match res {
            Some(d) => d == amount_or_zero(post@) - amount_or_zero(pre@),
            None => !(i128::MIN <= amount_or_zero(post@) - amount_or_zero(pre@) <= i128::MAX),
        },
{
    let pre = match parse_i128(pre) {
        Some(v) => v,
        None => 0,
    };
    let post = match parse_i128(post) {
        Some(v) => v,
        None => 0,
    };
    post.checked_sub(pre)
}

/// Trade inference met an amount or a sum that does not fit its type.
pub enum TradeError {
    Overflow,
}

// ---------------------------------------------------------------------------
// Trade inference
// ---------------------------------------------------------------------------

/// The mint of wrapped SOL token accounts.
pub const WSOL_MINT: &'static str = "So11111111111111111111111111111111111111112";

/// Below this, a WSOL-side amount is treated as dust (0.0001 SOL).
pub const DUST_THRESHOLD_LAMPORTS: i128 = 100_000;

/// One stored token balance row, joined with its transaction and block.
pub struct BalanceRow {
    pub signature: String,
    pub mint: String,
    pub pre_amount: String,
    pub post_amount: String,
    pub decimals: i64,
    pub slot: i64,
    pub tx_index: i64,
    pub block_time: i64,
}

/// A balance row as a value.
pub struct BalanceModel {
    pub signature: Seq<char>,
    pub mint: Seq<char>,
    pub pre: Seq<char>,
    pub post: Seq<char>,
    pub decimals: i64,
    pub slot: i64,
    pub tx_index: i64,
    pub block_time: i64,
}

impl View for BalanceRow {
    type V = BalanceModel;

    open spec fn view(&self) -> BalanceModel {
        BalanceModel {
            signature: self.signature@,
            mint: self.mint@,
            pre: self.pre_amount@,
            post: self.post_amount@,
            decimals: self.decimals,
            slot: self.slot,
            tx_index: self.tx_index,
            block_time: self.block_time,
        }
    }
}

/// The rows of a vector as values.
pub open spec fn balance_views(rows: Seq<BalanceRow>) -> Seq<BalanceModel> {
    rows.map_values(|r: BalanceRow| r@)
}

/// The change in one row's token amount.
pub open spec fn row_delta(r: BalanceModel) -> int {
    amount_or_zero(r.post) - amount_or_zero(r.pre)
}

/// The net change of a mint over the rows, summed in row order.
pub open spec fn net_delta(rows: Seq<BalanceModel>, mint: Seq<char>) -> int
    decreases rows.len(),
{
    if rows.len() == 0 {
        0
    } else {
        net_delta(rows.drop_last(), mint) + if rows.last().mint == mint {
            row_delta(rows.last())
        } else {
            0
        }
    }
}

/// Row `i` is the first row of `mint`.
pub open spec fn is_first_of_mint(rows: Seq<BalanceModel>, mint: Seq<char>, i: int) -> bool {
    &&& 0 <= i < rows.len()
    &&& rows[i].mint == mint
    &&& forall|j: int| 0 <= j < i ==> #[trigger] rows[j].mint != mint
}

/// Some row is of `mint`.
pub open spec fn has_mint(rows: Seq<BalanceModel>, mint: Seq<char>) -> bool {
    exists|i: int| 0 <= i < rows.len() && #[trigger] rows[i].mint == mint
}

/// The decimals recorded on the first row of `mint`.
pub open spec fn first_decimals(rows: Seq<BalanceModel>, mint: Seq<char>) -> i64 {
    rows[choose|i: int| is_first_of_mint(rows, mint, i)].decimals
}

/// A non-WSOL mint whose net change over the rows is nonzero.
pub open spec fn is_base_mint(rows: Seq<BalanceModel>, mint: Seq<char>) -> bool {
    &&& has_mint(rows, mint)
    &&& mint != WSOL_MINT@
    &&& net_delta(rows, mint) != 0
}

/// Exactly one mint is a base mint: `mint`.
pub open spec fn sole_base_mint(rows: Seq<BalanceModel>, mint: Seq<char>) -> bool {
    &&& is_base_mint(rows, mint)
    &&& forall|m: Seq<char>| #[trigger] is_base_mint(rows, m) ==> m == mint
}

/// Ten to the power `n`.
pub open spec fn pow10(n: nat) -> nat
    decreases n,
{
    if n == 0 {
        1
    } else {
        10 * pow10((n - 1) as nat)
    }
}

/// The absolute value.
pub open spec fn abs(x: int) -> int {
    if x < 0 {
        -x
    } else {
        x
    }
}

/// A trade read off one transaction's balance rows: the base mint, its net
/// change and decimals, the net WSOL change, and where the transaction
/// stands.
pub struct TradeMatchModel {
    pub mint: Seq<char>,
    pub base_delta: int,
    pub base_decimals: i64,
    pub wsol_delta: int,
    pub block_time: i64,
    pub slot: i64,
    pub tx_index: i64,
}

/// The rows get as far as the dust check: exactly one base mint and a
/// nonzero WSOL change.
pub open spec fn passes_pairing(rows: Seq<BalanceModel>) -> bool {
    &&& exists|m: Seq<char>| #[trigger] sole_base_mint(rows, m)
    &&& net_delta(rows, WSOL_MINT@) != 0
}

/// The rows get as far as the round-amount check: paired, not dust, and the
/// two changes in opposite directions.
pub open spec fn passes_direction(rows: Seq<BalanceModel>) -> bool {
    let m = choose|m: Seq<char>| sole_base_mint(rows, m);
    let wsol = net_delta(rows, WSOL_MINT@);
    &&& passes_pairing(rows)
    &&& abs(wsol) >= DUST_THRESHOLD_LAMPORTS
    &&& (net_delta(rows, m) > 0) != (wsol > 0)
}

/// One transaction's balance rows give at most one trade: the sole base mint
/// (a non-WSOL mint with nonzero net change) paired with a nonzero WSOL net
/// change that is not dust and goes the other way, unless the base amount is
/// a whole multiple of a million units (a mint or creation event).
pub open spec fn matched_trade(rows: Seq<BalanceModel>) -> Option<TradeMatchModel> {
    let m = choose|m: Seq<char>| sole_base_mint(rows, m);
    let base = net_delta(rows, m);
    let dec = first_decimals(rows, m);
    if !passes_direction(rows) {
        None
    } else if abs(base) % (pow10(dec as nat) * 1_000_000) as int == 0 {
        None
    } else {
        Some(
            TradeMatchModel {
                mint: m,
                base_delta: base,
                base_decimals: dec,
                wsol_delta: net_delta(rows, WSOL_MINT@),
                block_time: rows[0].block_time,
                slot: rows[0].slot,
                tx_index: rows[0].tx_index,
            },
        )
    }
}

/// A transaction's rows give a trade only when exactly one mint other than
/// WSOL changes on net, WSOL changes the other way by at least the dust
/// floor, and the token amount is not a whole multiple of a million units;
/// the trade carries the two net changes.
pub proof fn law_trade_is_one_opposite_wsol_pair(rows: Seq<BalanceModel>)
    ensures
        matched_trade(rows) matches Some(t) ==> {
            &&& t.mint != WSOL_MINT@
            &&& t.base_delta == net_delta(rows, t.mint)
            &&& t.base_delta != 0
            &&& forall|m: Seq<char>|
                m != t.mint && m != WSOL_MINT@ ==> #[trigger] net_delta(rows, m) == 0
            &&& t.wsol_delta == net_delta(rows, WSOL_MINT@)
            &&& abs(t.wsol_delta) >= DUST_THRESHOLD_LAMPORTS
            &&& (t.base_delta > 0) != (t.wsol_delta > 0)
            &&& abs(t.base_delta) % (pow10(t.base_decimals as nat) * 1_000_000) as int != 0
        },
{
    if let Some(t) = matched_trade(rows) {
        let m = choose|m: Seq<char>| sole_base_mint(rows, m);
        assert(t.mint == m);
        assert forall|x: Seq<char>| x != t.mint && x != WSOL_MINT@ implies #[trigger] net_delta(
            rows,
            x,
        ) == 0 by {
            if has_mint(rows, x) {
                if net_delta(rows, x) != 0 {
                    assert(is_base_mint(rows, x));
                }
            } else {
                lemma_net_absent(rows, x);
            }
        }
    }
}

/// Every running per-mint sum, in row order, fits in an `i128`.
pub open spec fn sums_fit(rows: Seq<BalanceModel>) -> bool {
    forall|n: int, mint: Seq<char>|
        0 <= n <= rows.len() ==> i128::MIN <= #[trigger] net_delta(rows.take(n), mint) <= i128::MAX
}

/// The inputs on which inference runs without overflow: running sums fit,
/// each row's own change fits, the WSOL change can be negated, and the base
/// decimals give a round unit that fits in a `u128`.
pub open spec fn trade_inputs_ok(rows: Seq<BalanceModel>) -> bool {
    &&& sums_fit(rows)
    &&& forall|i: int|
        0 <= i < rows.len() ==> i128::MIN <= #[trigger] row_delta(rows[i]) <= i128::MAX
    &&& passes_pairing(rows) ==> net_delta(rows, WSOL_MINT@) != i128::MIN
    &&& passes_direction(rows) ==> 0 <= first_decimals(
        rows,
        choose|m: Seq<char>| sole_base_mint(rows, m),
    ) <= 32
}

/// A trade inferred from one transaction's balance rows; the price and
/// volume follow from the two net changes and the base decimals.
pub struct TradeMatch {
    pub mint: String,
    pub block_time: i64,
    pub slot: i64,
    pub tx_index: i64,
    pub base_delta: i128,
    pub base_decimals: i64,
    pub wsol_delta: i128,
}

impl View for TradeMatch {
    type V = TradeMatchModel;

    open spec fn view(&self) -> TradeMatchModel {
        TradeMatchModel {
            mint: self.mint@,
            base_delta: self.base_delta as int,
            base_decimals: self.base_decimals,
            wsol_delta: self.wsol_delta as int,
            block_time: self.block_time,
            slot: self.slot,
            tx_index: self.tx_index,
        }
    }
}

/// The absolute value of an `i128` as a `u128`.
fn magnitude(x: i128) -> (res: u128)
    ensures
        res as int == abs(x as int),
{
    if x >= 0 {
        x as u128
    } else if x == i128::MIN {
        170141183460469231731687303715884105728u128
    } else {
        (-x) as u128
    }
}

proof fn lemma_pow10_pos(n: nat)
    ensures
        pow10(n) >= 1,
    decreases n,
{
    if n > 0 {
        lemma_pow10_pos((n - 1) as nat);
    }
}

proof fn lemma_pow10_bound(n: nat)
    requires
        n <= 32,
    ensures
        1 <= pow10(n) <= pow10(32),
    decreases 32 - n,
{
    lemma_pow10_pos(n);
    if n < 32 {
        lemma_pow10_bound(n + 1);
        assert(pow10(n + 1) == 10 * pow10(n));
    }
}

proof fn lemma_pow10_32()
    ensures
        pow10(32) == 100000000000000000000000000000000nat,
{
    reveal_with_fuel(pow10, 33);
}

/// Ten to the power `n`, for `n` up to 32.
fn pow10_u128(n: i64) -> (res: u128)
    requires
        0 <= n <= 32,
    ensures
        res == pow10(n as nat),
        1 <= res,
        res * 1_000_000 <= u128::MAX,
{
    proof {
        lemma_pow10_32();
        lemma_pow10_bound(n as nat);
    }
    let mut res: u128 = 1;
    let mut i: i64 = 0;
    while i < n
        invariant
            0 <= i <= n <= 32,
            res == pow10(i as nat),
            pow10(32) == 100000000000000000000000000000000nat,
        decreases n - i,
    {
        proof {
            lemma_pow10_bound(i as nat);
            lemma_pow10_bound((i + 1) as nat);
        }
        assert(pow10((i + 1) as nat) == 10 * pow10(i as nat));
        res = res * 10;
        i += 1;
    }
    res
}

proof fn lemma_net_absent(rows: Seq<BalanceModel>, mint: Seq<char>)
    requires
        !has_mint(rows, mint),
    ensures
        net_delta(rows, mint) == 0,
    decreases rows.len(),
{
    if rows.len() > 0 {
        let d = rows.drop_last();
        assert(!has_mint(d, mint)) by {
            if has_mint(d, mint) {
                let i = choose|i: int| 0 <= i < d.len() && #[trigger] d[i].mint == mint;
                assert(rows[i] == d[i]);
            }
        }
        lemma_net_absent(d, mint);
        assert(rows[rows.len() - 1] == rows.last());
    }
}

proof fn lemma_first_unique(rows: Seq<BalanceModel>, mint: Seq<char>, i: int, j: int)
    requires
        is_first_of_mint(rows, mint, i),
        is_first_of_mint(rows, mint, j),
    ensures
        i == j,
{
    if i < j {
        assert(rows[i].mint == mint);
    } else if j < i {
        assert(rows[j].mint == mint);
    }
}

/// One transaction's balance rows (positions `lo..hi` of `rows`) to at most
/// one inferred trade; see `matched_trade` for what is excluded.
pub fn trade_from_group(rows: &Vec<BalanceRow>, lo: usize, hi: usize) -> (res: Result<
    Option<TradeMatch>,
    TradeError,
>)
    requires
        lo <= hi <= rows@.len(),
    ensures
        match res {
            Ok(Some(t)) => trade_inputs_ok(balance_views(rows@).subrange(lo as int, hi as int))
                && matched_trade(balance_views(rows@).subrange(lo as int, hi as int)) == Some(t@),
            Ok(None) => trade_inputs_ok(balance_views(rows@).subrange(lo as int, hi as int))
                && matched_trade(balance_views(rows@).subrange(lo as int, hi as int)) is None,
            Err(_) => !trade_inputs_ok(balance_views(rows@).subrange(lo as int, hi as int)),
        },
{
    let ghost group = balance_views(rows@).subrange(lo as int, hi as int);
    let mut at: StringHashMap<usize> = StringHashMap::new();
    let mut mints: Vec<String> = Vec::new();
    let mut sums: Vec<i128> = Vec::new();
    let mut decs: Vec<i64> = Vec::new();
    let ghost mut firsts: Seq<int> = seq![];
    let mut r: usize = lo;
    while r < hi
        invariant
            lo <= r <= hi <= rows@.len(),
            group == balance_views(rows@).subrange(lo as int, hi as int),
            forall|n: int, m: Seq<char>|
                0 <= n <= r - lo ==> i128::MIN <= #[trigger] net_delta(group.take(n), m)
                    <= i128::MAX,
            forall|i: int|
                0 <= i < r - lo ==> i128::MIN <= #[trigger] row_delta(group[i]) <= i128::MAX,
            mints@.len() == sums@.len(),
            mints@.len() == decs@.len(),
            mints@.len() == firsts.len(),
            forall|k: int|
                0 <= k < mints@.len() ==> #[trigger] at@.contains_key(mints@[k]@) && at@[mints@[k]@]
                    == k,
            forall|m: Seq<char>|
                #[trigger] at@.contains_key(m) ==> at@[m] < mints@.len() && mints@[at@[m] as int]@
                    == m,
            forall|m: Seq<char>|
                #[trigger] at@.contains_key(m) <==> has_mint(group.take(r - lo), m),
            forall|k: int|
                0 <= k < mints@.len() ==> #[trigger] sums@[k] == net_delta(
                    group.take(r - lo),
                    mints@[k]@,
                ),
            forall|k: int|
                0 <= k < mints@.len() ==> is_first_of_mint(group, mints@[k]@, #[trigger] firsts[k])
                    && firsts[k] < r - lo && decs@[k] == group[firsts[k]].decimals,
        decreases hi - r,
    {
        let row = &rows[r];
        let ghost p = r - lo;
        let ghost prefix = group.take(p);
        let ghost next = group.take(p + 1);
        proof {
            assert(next.drop_last() =~= prefix);
            assert(group[p] == row@);
            assert(next.last() == row@);
            assert forall|m: Seq<char>| has_mint(next, m) <==> has_mint(prefix, m) || m == row@.mint by {
                if has_mint(next, m) {
                    let i = choose|i: int| 0 <= i < next.len() && #[trigger] next[i].mint == m;
                    if i < p {
                        assert(prefix[i] == next[i]);
                    }
                }
                if has_mint(prefix, m) {
                    let i = choose|i: int| 0 <= i < prefix.len() && #[trigger] prefix[i].mint == m;
                    assert(next[i] == prefix[i]);
                }
                if m == row@.mint {
                    assert(next[p] == row@);
                }
            }
        }
        let delta = match amount_change(row.pre_amount.as_str(), row.post_amount.as_str()) {
            Some(d) => d,
            None => {
                assert(!trade_inputs_ok(group)) by {
                    assert(!(i128::MIN <= row_delta(group[p]) <= i128::MAX));
                }
                return Err(TradeError::Overflow);
            },
        };
        let ghost old_at = at@;
        let ghost old_sums = sums@;
        match at.get(row.mint.as_str()) {
            Some(k) => {
                let k = *k;
                assert(net_delta(next, row@.mint) == net_delta(prefix, row@.mint) + delta);
                let total = match sums[k].checked_add(delta) {
                    Some(t) => t,
                    None => {
                        assert(!trade_inputs_ok(group)) by {
                            assert(!(i128::MIN <= net_delta(group.take(p + 1), row@.mint)
                                <= i128::MAX));
                        }
                        return Err(TradeError::Overflow);
                    },
                };
                sums.set(k, total);
                proof {
                    assert forall|j: int| 0 <= j < mints@.len() implies #[trigger] sums@[j] == net_delta(
                        next,
                        mints@[j]@,
                    ) by {
                        if j != k {
                            assert(at@.contains_key(mints@[j]@));
                            assert(mints@[j]@ != row@.mint);
                        }
                    }
                }
            },
            None => {
                let k = mints.len();
                proof {
                    lemma_net_absent(prefix, row@.mint);
                    assert forall|j: int| 0 <= j < p implies #[trigger] group[j].mint != row@.mint by {
                        if group[j].mint == row@.mint {
                            assert(prefix[j] == group[j]);
                        }
                    }
                }
                mints.push(row.mint.clone());
                sums.push(delta);
                decs.push(row.decimals);
                proof {
                    firsts = firsts.push(p);
                }
                at.insert(row.mint.clone(), k);
                proof {
                    assert forall|j: int| 0 <= j < mints@.len() implies #[trigger] at@.contains_key(
                        mints@[j]@,
                    ) && at@[mints@[j]@] == j by {
                        if j < k {
                            assert(old_at.contains_key(mints@[j]@));
                        }
                    }
                    assert forall|j: int| 0 <= j < mints@.len() implies #[trigger] sums@[j] == net_delta(
                        next,
                        mints@[j]@,
                    ) by {
                        if j < k {
                            assert(old_at.contains_key(mints@[j]@));
                            assert(mints@[j]@ != row@.mint);
                        }
                    }
                    assert forall|j: int| 0 <= j < mints@.len() implies is_first_of_mint(
                        group,
                        mints@[j]@,
                        #[trigger] firsts[j],
                    ) && firsts[j] < p + 1 && decs@[j] == group[firsts[j]].decimals by {}
                }
            },
        }
        proof {
            assert(at@.contains_key(row@.mint));
            assert forall|n: int, m: Seq<char>| 0 <= n <= p + 1 implies i128::MIN
                <= #[trigger] net_delta(group.take(n), m) <= i128::MAX by {
                if n == p + 1 {
                    if m == row@.mint {
                        assert(sums@[at@[m] as int] == net_delta(next, mints@[at@[m] as int]@));
                    } else {
                        assert(net_delta(next, m) == net_delta(prefix, m));
                    }
                }
            }
        }
        r += 1;
    }
    let n = mints.len();
    assert(group.take(hi - lo) =~= group);
    assert(sums_fit(group));
    let wsol = String::from_str(WSOL_MINT);
    let mut wsol_delta: i128 = 0;
    let mut base: Option<usize> = None;
    let mut multiple_base_mints = false;
    let mut k: usize = 0;
    while k < n
        invariant
            n == mints@.len(),
            n == sums@.len(),
            k <= n,
            wsol@ == WSOL_MINT@,
            forall|j: int|
                0 <= j < mints@.len() ==> #[trigger] at@.contains_key(mints@[j]@) && at@[mints@[j]@]
                    == j,
            forall|m: Seq<char>|
                #[trigger] at@.contains_key(m) ==> at@[m] < mints@.len() && mints@[at@[m] as int]@
                    == m,
            wsol_delta == (if at@.contains_key(WSOL_MINT@) && at@[WSOL_MINT@] < k {
                sums@[at@[WSOL_MINT@] as int]
            } else {
                0
            }),
            match base {
                None => forall|j: int|
                    0 <= j < k ==> !(#[trigger] sums@[j] != 0 && mints@[j]@ != WSOL_MINT@),
                Some(b) => b < k && sums@[b as int] != 0 && mints@[b as int]@ != WSOL_MINT@,
            },
            multiple_base_mints <==> (base is Some && exists|j: int|
                0 <= j < k && j != base->0 && #[trigger] sums@[j] != 0 && mints@[j]@ != WSOL_MINT@),
            base is Some && !multiple_base_mints ==> forall|j: int|
                0 <= j < k && j != base->0 ==> !(#[trigger] sums@[j] != 0 && mints@[j]@
                    != WSOL_MINT@),
        decreases n - k,
    {
        let delta = sums[k];
        if delta != 0 {
            if mints[k] == wsol {
                proof {
                    assert(at@.contains_key(mints@[k as int]@));
                }
                wsol_delta = wsol_delta + delta;
            } else if base.is_none() {
                base = Some(k);
            } else {
                multiple_base_mints = true;
            }
        } else {
            proof {
                if at@.contains_key(WSOL_MINT@) && at@[WSOL_MINT@] == k {
                    assert(sums@[k as int] == 0);
                }
            }
        }
        proof {
            if at@.contains_key(WSOL_MINT@) && at@[WSOL_MINT@] == k && delta != 0 {
                assert(mints@[k as int]@ == WSOL_MINT@);
            }
            if at@.contains_key(WSOL_MINT@) && at@[WSOL_MINT@] != k && mints@[k as int]@ == WSOL_MINT@ {
                assert(at@.contains_key(mints@[k as int]@));
            }
        }
        k += 1;
    }
    // what the scan found, in terms of the rows
    proof {
        assert forall|m: Seq<char>| #[trigger] is_base_mint(group, m) <==> (at@.contains_key(m)
            && sums@[at@[m] as int] != 0 && m != WSOL_MINT@) by {
            if at@.contains_key(m) {
                assert(sums@[at@[m] as int] == net_delta(group, mints@[at@[m] as int]@));
            }
        }
        if !at@.contains_key(WSOL_MINT@) {
            lemma_net_absent(group, WSOL_MINT@);
        } else {
            assert(sums@[at@[WSOL_MINT@] as int] == net_delta(group, mints@[at@[WSOL_MINT@] as int]@));
        }
        assert(wsol_delta == net_delta(group, WSOL_MINT@));
    }
    if multiple_base_mints || wsol_delta == 0 {
        proof {
            if multiple_base_mints {
                let b = base->0;
                let j = choose|j: int|
                    0 <= j < n && j != b && #[trigger] sums@[j] != 0 && mints@[j]@ != WSOL_MINT@;
                assert(at@.contains_key(mints@[j]@));
                assert(at@.contains_key(mints@[b as int]@));
                assert(is_base_mint(group, mints@[j]@));
                assert(is_base_mint(group, mints@[b as int]@));
                assert(mints@[j]@ != mints@[b as int]@);
                assert(!passes_pairing(group)) by {
                    if exists|m: Seq<char>| #[trigger] sole_base_mint(group, m) {
                        let m = choose|m: Seq<char>| #[trigger] sole_base_mint(group, m);
                        assert(mints@[j]@ == m);
                        assert(mints@[b as int]@ == m);
                    }
                }
            }
        }
        return Ok(None);
    }
    let b = match base {
        Some(b) => b,
        None => {
            proof {
                assert(!passes_pairing(group)) by {
                    if exists|m: Seq<char>| #[trigger] sole_base_mint(group, m) {
                        let m = choose|m: Seq<char>| #[trigger] sole_base_mint(group, m);
                        assert(is_base_mint(group, m));
                        assert(sums@[at@[m] as int] != 0);
                    }
                }
            }
            return Ok(None);
        },
    };
    let ghost m = mints@[b as int]@;
    proof {
        assert(at@.contains_key(m));
        assert(is_base_mint(group, m));
        assert forall|m2: Seq<char>| #[trigger] is_base_mint(group, m2) implies m2 == m by {
            assert(at@.contains_key(m2));
            let j = at@[m2] as int;
            assert(sums@[j] != 0 && mints@[j]@ != WSOL_MINT@);
        }
        assert(sole_base_mint(group, m));
        let c = choose|c: Seq<char>| sole_base_mint(group, c);
        assert(c == m);
        assert(passes_pairing(group));
        assert(sums@[b as int] == net_delta(group, m));
    }
    let base_delta = sums[b];
    if wsol_delta == i128::MIN {
        return Err(TradeError::Overflow);
    }
    if wsol_delta > -DUST_THRESHOLD_LAMPORTS && wsol_delta < DUST_THRESHOLD_LAMPORTS {
        return Ok(None);
    }
    if (base_delta > 0) == (wsol_delta > 0) {
        return Ok(None);
    }
    assert(passes_direction(group));
    let base_decimals = decs[b];
    proof {
        let i = choose|i: int| is_first_of_mint(group, m, i);
        lemma_first_unique(group, m, i, firsts[b as int]);
        assert(base_decimals == first_decimals(group, m));
    }
    if base_decimals < 0 || base_decimals > 32 {
        return Err(TradeError::Overflow);
    }
    let round_unit = pow10_u128(base_decimals) * 1_000_000;
    if magnitude(base_delta) % round_unit == 0 {
        return Ok(None);  // looks like a mint/creation event, not a trade
    }
    let first = &rows[lo];
    assert(group[0] == first@);
    let trade = TradeMatch {
        mint: mints[b].clone(),
        block_time: first.block_time,
        slot: first.slot,
        tx_index: first.tx_index,
        base_delta,
        base_decimals,
        wsol_delta,
    };
    Ok(Some(trade))
}

/// The end of the run of rows, from `j` on, that share row `start`'s
/// signature.
pub open spec fn run_end(rows: Seq<BalanceModel>, start: int, j: int) -> int
    decreases rows.len() - j,
{
    if j < 0 || j >= rows.len() || rows[j].signature != rows[start].signature {
        j
    } else {
        run_end(rows, start, j + 1)
    }
}

/// A run of one signature ends at or after where the search starts, and
/// inside the rows.
pub proof fn lemma_run_end(rows: Seq<BalanceModel>, start: int, j: int)
    ensures
        run_end(rows, start, j) >= j,
        j >= 0 ==> run_end(rows, start, j) <= rows.len() || run_end(rows, start, j) == j,
        0 <= j <= rows.len() ==> run_end(rows, start, j) <= rows.len(),
    decreases rows.len() - j,
{
    if !(j < 0 || j >= rows.len() || rows[j].signature != rows[start].signature) {
        lemma_run_end(rows, start, j + 1);
    }
}

/// The trades of the transactions from row `i` on: rows are taken in runs
/// of one signature, and each run gives at most one trade.
pub open spec fn trades_from(rows: Seq<BalanceModel>, i: int) -> Seq<TradeMatchModel>
    decreases rows.len() - i,
{
    if i < 0 || i >= rows.len() {
        seq![]
    } else {
        let j = run_end(rows, i, i + 1);
        proof {
            lemma_run_end(rows, i, i + 1);
        }
        let rest = trades_from(rows, j);
        match matched_trade(rows.subrange(i, j)) {
            Some(t) => seq![t] + rest,
            None => rest,
        }
    }
}

/// Every run of one signature, from row `i` on, is an input inference runs
/// on without overflow.
pub open spec fn runs_ok_from(rows: Seq<BalanceModel>, i: int) -> bool
    decreases rows.len() - i,
{
    if i < 0 || i >= rows.len() {
        true
    } else {
        let j = run_end(rows, i, i + 1);
        proof {
            lemma_run_end(rows, i, i + 1);
        }
        trade_inputs_ok(rows.subrange(i, j)) && runs_ok_from(rows, j)
    }
}

/// Balance rows, ordered so that each transaction's rows are adjacent, to
/// the trades they show, in row order.
pub fn trades_from_rows(rows: &Vec<BalanceRow>) -> (res: Result<Vec<TradeMatch>, TradeError>)
    ensures
        match res {
            Ok(v) => runs_ok_from(balance_views(rows@), 0) && v@.map_values(|t: TradeMatch| t@)
                == trades_from(balance_views(rows@), 0),
            Err(_) => !runs_ok_from(balance_views(rows@), 0),
        },
{
    let ghost all = balance_views(rows@);
    let mut trades: Vec<TradeMatch> = Vec::new();
    let mut i: usize = 0;
    while i < rows.len()
        invariant
            i <= rows@.len(),
            all == balance_views(rows@),
            runs_ok_from(all, 0) == runs_ok_from(all, i as int),
            trades@.map_values(|t: TradeMatch| t@) + trades_from(all, i as int) == trades_from(
                all,
                0,
            ),
        decreases rows@.len() - i,
    {
        let mut j = i;
        while j < rows.len() && rows[j].signature == rows[i].signature
            invariant
                i <= j <= rows@.len(),
                i < rows@.len(),
                all == balance_views(rows@),
                run_end(all, i as int, i + 1) == run_end(all, i as int, if j == i {
                    i + 1
                } else {
                    j as int
                }),
                j > i || j == i,
            decreases rows@.len() - j,
        {
            assert(all[j as int] == rows@[j as int]@);
            assert(all[i as int] == rows@[i as int]@);
            j += 1;
        }
        proof {
            if j == i {
                assert(all[i as int].signature == all[i as int].signature);
                assert(false);
            }
            if j < rows@.len() {
                assert(all[j as int] == rows@[j as int]@);
                assert(all[i as int] == rows@[i as int]@);
            }
            lemma_run_end(all, i as int, i + 1);
            assert(run_end(all, i as int, j as int) == j);
        }
        let ghost before = trades@.map_values(|t: TradeMatch| t@);
        match trade_from_group(rows, i, j) {
            Ok(Some(trade)) => {
                let ghost tv = trade@;
                trades.push(trade);
                assert(trades@.map_values(|t: TradeMatch| t@) =~= before.push(tv));
                assert(before.push(tv) + trades_from(all, j as int) =~= before + (seq![tv]
                    + trades_from(all, j as int)));
            },
            Ok(None) => {},
            Err(e) => {
                return Err(e);
            },
        }
        i = j;
    }
    assert(trades_from(all, rows@.len() as int) =~= Seq::<TradeMatchModel>::empty());
    assert(runs_ok_from(all, rows@.len() as int));
    assert(trades@.map_values(|t: TradeMatch| t@) + Seq::<TradeMatchModel>::empty() =~= trades@.map_values(
        |t: TradeMatch| t@,
    ));
    Ok(trades)
}

// ---------------------------------------------------------------------------
// Candle buckets
// ---------------------------------------------------------------------------

/// What a trade is grouped and ordered by: its mint, block time, slot and
/// position in the block. Prices and volumes stay with the caller, which
/// finds each trade again by its position in the list.
pub struct TradeKey {
    pub mint: String,
    pub block_time: i64,
    pub slot: i64,
    pub tx_index: i64,
}

/// A trade key as a value.
pub struct TradeKeyModel {
    pub mint: Seq<char>,
    pub block_time: i64,
    pub slot: i64,
    pub tx_index: i64,
}

impl View for TradeKey {
    type V = TradeKeyModel;

    open spec fn view(&self) -> TradeKeyModel {
        TradeKeyModel {
            mint: self.mint@,
            block_time: self.block_time,
            slot: self.slot,
            tx_index: self.tx_index,
        }
    }
}

/// The trades of one candle: a mint, the start of a time bucket, and the
/// positions of its trades in chain order.
pub struct CandleGroup {
    pub mint: String,
    pub bucket_start: i64,
    pub trades: Vec<usize>,
}

/// The start of the bucket of `bucket_seconds` that holds `block_time`: the
/// time less its Euclidean remainder.
pub open spec fn bucket_of(block_time: i64, bucket_seconds: i64) -> int {
    block_time - block_time % bucket_seconds
}

/// The bucket start of every trade is computed without overflow.
pub open spec fn buckets_ok(keys: Seq<TradeKeyModel>, bucket_seconds: i64) -> bool {
    &&& keys.len() > 0 ==> bucket_seconds != 0
    &&& forall|i: int|
        0 <= i < keys.len() ==> !(#[trigger] keys[i].block_time == i64::MIN && bucket_seconds == -1)
            && i64::MIN <= bucket_of(keys[i].block_time, bucket_seconds)
    }

/// Trade `a` comes before trade `b` in chain order: by slot, then position
/// in the block, then position in the list.
pub open spec fn chain_before(keys: Seq<TradeKeyModel>, a: int, b: int) -> bool {
    ||| keys[a].slot < keys[b].slot
    ||| keys[a].slot == keys[b].slot && keys[a].tx_index < keys[b].tx_index
    ||| keys[a].slot == keys[b].slot && keys[a].tx_index == keys[b].tx_index && a < b
}

/// A group of trades is well formed: nonempty, every member of the group's
/// mint and bucket, in strict chain order.
pub open spec fn group_ok(
    keys: Seq<TradeKeyModel>,
    bucket_seconds: i64,
    mint: Seq<char>,
    start: int,
    members: Seq<usize>,
) -> bool {
    &&& members.len() > 0
    &&& forall|p: int|
        0 <= p < members.len() ==> #[trigger] members[p] < keys.len() && keys[members[p] as int].mint
            == mint && bucket_of(keys[members[p] as int].block_time, bucket_seconds) == start
    &&& forall|p: int, q: int|
        0 <= p < q < members.len() ==> chain_before(
            keys,
            #[trigger] members[p] as int,
            #[trigger] members[q] as int,
        )
}

impl CandleGroup {
    /// The member positions as a sequence.
    pub open spec fn members(&self) -> Seq<usize> {
        self.trades@
    }
}

/// A bucket start as `i64` arithmetic computes it.
pub fn bucket_start(block_time: i64, bucket_seconds: i64) -> (res: i64)
    requires
        bucket_seconds != 0,
        !(block_time == i64::MIN && bucket_seconds == -1),
        i64::MIN <= bucket_of(block_time, bucket_seconds),
    ensures
        res == bucket_of(block_time, bucket_seconds),
{
    let rem = match block_time.checked_rem_euclid(bucket_seconds) {
        Some(r) => r,
        None => 0,
    };
    assert(rem == block_time % bucket_seconds);
    block_time - rem
}

/// What the candle groups satisfy once the first `n` trades are placed.
pub open spec fn groups_inv(
    keys: Seq<TradeKeyModel>,
    bucket_seconds: i64,
    groups: Seq<CandleGroup>,
    n: int,
) -> bool {
    &&& forall|g: int|
        0 <= g < groups.len() ==> group_ok(
            keys,
            bucket_seconds,
            #[trigger] groups[g].mint@,
            groups[g].bucket_start as int,
            groups[g].trades@,
        ) && forall|p: int| 0 <= p < groups[g].trades@.len() ==> #[trigger] groups[g].trades@[p] < n
    &&& forall|g: int, h: int|
        0 <= g < h < groups.len() ==> !(#[trigger] groups[g].mint@ == #[trigger] groups[h].mint@
            && groups[g].bucket_start == groups[h].bucket_start)
    &&& forall|i: int| 0 <= i < n ==> #[trigger] in_some_group(groups, i)
}

/// Trade `i` is a member of some group.
pub open spec fn in_some_group(groups: Seq<CandleGroup>, i: int) -> bool {
    exists|g: int, p: int|
        0 <= g < groups.len() && 0 <= p < groups[g].trades@.len() && #[trigger] groups[g].trades@[p]
            == i
}

/// The group of `mint` whose bucket starts at `start`, found through the
/// per-mint lists of groups.
fn find_group(
    groups: &Vec<CandleGroup>,
    per_mint: &Vec<Vec<usize>>,
    mint_at: &StringHashMap<usize>,
    mint: &String,
    start: i64,
) -> (res: Option<usize>)
    requires
        mint_index_ok(mint_at@, per_mint@, groups@),
    ensures
        match res {
            Some(g) => g < groups@.len() && groups@[g as int].bucket_start == start
                && groups@[g as int].mint@ == mint@,
            None => forall|g: int|
                0 <= g < groups@.len() ==> !(#[trigger] groups@[g].mint@ == mint@
                    && groups@[g].bucket_start == start),
        },
{
    let glen = groups.len();
    assert(groups@.len() <= usize::MAX);
    match mint_at.get(mint.as_str()) {
        Some(slot) => {
            let slot = *slot;
            let list = &per_mint[slot];
            assert(mint_at@.contains_key(mint@));
            let mut x: usize = 0;
            while x < list.len()
                invariant
                    x <= list@.len(),
                    slot < per_mint@.len(),
                    glen == groups@.len(),
                    list == per_mint@[slot as int],
                    slot == mint_at@[mint@],
                    mint_at@.contains_key(mint@),
                    forall|y: int|
                        0 <= y < list@.len() ==> (#[trigger] list@[y]) < groups@.len()
                            && groups@[list@[y] as int].mint@ == mint@,
                    forall|y: int|
                        0 <= y < x ==> groups@[(#[trigger] list@[y]) as int].bucket_start != start,
                decreases list@.len() - x,
            {
                let g = list[x];
                if groups[g].bucket_start == start {
                    return Some(g);
                }
                x += 1;
            }
            assert forall|g: int| 0 <= g < groups@.len() implies !(#[trigger] groups@[g].mint@
                == mint@ && groups@[g].bucket_start == start) by {
                if groups@[g].mint@ == mint@ {
                    let gu = g as usize;
                    assert(groups@[gu as int].mint@ == mint@);
                    assert(mint_at@.contains_key(mint@));
                    assert(per_mint@[slot as int]@.contains(gu));
                    let y = choose|y: int| 0 <= y < list@.len() && list@[y] == gu;
                    assert(groups@[(list@[y]) as int].bucket_start != start);
                }
            }
            None
        },
        None => {
            assert forall|g: int| 0 <= g < groups@.len() implies !(#[trigger] groups@[g].mint@
                == mint@ && groups@[g].bucket_start == start) by {
                if groups@[g].mint@ == mint@ {
                    let gu = g as usize;
                    assert(groups@[gu as int].mint@ == mint@);
                    assert(mint_at@.contains_key(mint@));
                }
            }
            None
        },
    }
}

/// Trade `a` comes later than trade `b` by (slot, position in block).
pub open spec fn later_in_chain(a: TradeKeyModel, b: TradeKeyModel) -> bool {
    a.slot > b.slot || (a.slot == b.slot && a.tx_index > b.tx_index)
}

proof fn lemma_insert_in_order(
    keys: Seq<TradeKeyModel>,
    bucket_seconds: i64,
    mint: Seq<char>,
    start: int,
    members: Seq<usize>,
    pos: int,
    i: usize,
)
    requires
        group_ok(keys, bucket_seconds, mint, start, members),
        forall|p: int| 0 <= p < members.len() ==> #[trigger] members[p] < i,
        i < keys.len(),
        keys[i as int].mint == mint,
        bucket_of(keys[i as int].block_time, bucket_seconds) == start,
        0 <= pos <= members.len(),
        pos == 0 || !later_in_chain(keys[members[pos - 1] as int], keys[i as int]),
        forall|q: int|
            pos <= q < members.len() ==> later_in_chain(keys[#[trigger] members[q] as int], keys[i as int]),
    ensures
        group_ok(keys, bucket_seconds, mint, start, members.insert(pos, i)),
{
    let out = members.insert(pos, i);
    assert forall|q: int| 0 <= q < pos implies !later_in_chain(keys[#[trigger] members[q] as int], keys[i as int]) by {
        if q < pos - 1 {
            assert(chain_before(keys, members[q] as int, members[pos - 1] as int));
        }
    }
    assert forall|p: int| 0 <= p < out.len() implies #[trigger] out[p] < keys.len() && keys[out[p] as int].mint
        == mint && bucket_of(keys[out[p] as int].block_time, bucket_seconds) == start by {
        if p < pos {
            assert(out[p] == members[p]);
        } else if p > pos {
            assert(out[p] == members[p - 1]);
        }
    }
    assert forall|p: int, q: int| 0 <= p < q < out.len() implies chain_before(
        keys,
        #[trigger] out[p] as int,
        #[trigger] out[q] as int,
    ) by {
        if q < pos {
            assert(out[p] == members[p] && out[q] == members[q]);
        } else if q == pos {
            assert(out[p] == members[p]);
            assert(!later_in_chain(keys[members[p] as int], keys[i as int]));
        } else if p > pos {
            assert(out[p] == members[p - 1] && out[q] == members[q - 1]);
        } else if p == pos {
            assert(out[q] == members[q - 1]);
            assert(later_in_chain(keys[members[q - 1] as int], keys[i as int]));
        } else {
            assert(out[p] == members[p] && out[q] == members[q - 1]);
        }
    }
}

/// The per-mint lists of groups are an index of the groups: every group is
/// listed under its mint, and every listed group is of that mint.
spec fn mint_index_ok(
    mint_at: Map<Seq<char>, usize>,
    per_mint: Seq<Vec<usize>>,
    groups: Seq<CandleGroup>,
) -> bool {
    &&& forall|m: Seq<char>| #[trigger] mint_at.contains_key(m) ==> mint_at[m] < per_mint.len()
    &&& forall|g: usize|
        g < groups.len() ==> #[trigger] mint_at.contains_key(groups[g as int].mint@)
            && per_mint[mint_at[groups[g as int].mint@] as int]@.contains(g)
    &&& forall|m: Seq<char>, x: int|
        #[trigger] mint_at.contains_key(m) && 0 <= x < per_mint[mint_at[m] as int]@.len() ==> (
        #[trigger] per_mint[mint_at[m] as int]@[x]) < groups.len()
            && groups[per_mint[mint_at[m] as int]@[x] as int].mint@ == m
    &&& forall|m1: Seq<char>, m2: Seq<char>|
        #[trigger] mint_at.contains_key(m1) && #[trigger] mint_at.contains_key(m2) && m1 != m2
            ==> mint_at[m1] != mint_at[m2]
}

/// Adds trade `i` to group `g`, which has its mint and bucket, keeping the
/// group in chain order.
fn join_group(
    groups: &mut Vec<CandleGroup>,
    keys: &Vec<TradeKey>,
    bucket_seconds: i64,
    g: usize,
    i: usize,
)
    requires
        i < keys@.len(),
        groups_inv(keys@.map_values(|k: TradeKey| k@), bucket_seconds, old(groups)@, i as int),
        g < old(groups)@.len(),
        old(groups)@[g as int].mint@ == keys@[i as int].mint@,
        old(groups)@[g as int].bucket_start == bucket_of(keys@[i as int].block_time, bucket_seconds),
    ensures
        groups_inv(keys@.map_values(|k: TradeKey| k@), bucket_seconds, final(groups)@, i + 1),
        final(groups)@.len() == old(groups)@.len(),
        forall|h: int|
            0 <= h < final(groups)@.len() ==> #[trigger] final(groups)@[h].mint@ == old(
                groups,
            )@[h].mint@ && final(groups)@[h].bucket_start == old(groups)@[h].bucket_start,
{
    let ghost kv = keys@.map_values(|k: TradeKey| k@);
    let ghost old_groups = groups@;
    let key = &keys[i];
    assert(kv[i as int] == key@);
    let members = &groups[g].trades;
    assert(group_ok(
        kv,
        bucket_seconds,
        groups@[g as int].mint@,
        groups@[g as int].bucket_start as int,
        groups@[g as int].trades@,
    ));
    // after every trade that does not come later by (slot, tx_index)
    let mut pos: usize = members.len();
    let mut moving = true;
    while pos > 0 && moving
        invariant
            pos <= members@.len(),
            forall|q: int| 0 <= q < members@.len() ==> (#[trigger] members@[q]) < keys@.len(),
            forall|q: int|
                pos <= q < members@.len() ==> later_in_chain(kv[#[trigger] members@[q] as int], key@),
            !moving ==> pos > 0 && !later_in_chain(kv[members@[pos - 1] as int], key@),
            kv == keys@.map_values(|k: TradeKey| k@),
        decreases pos, (if moving { 1int } else { 0int }),
    {
        let prev = members[pos - 1];
        let pk = &keys[prev];
        assert(kv[prev as int] == pk@);
        if pk.slot > key.slot || (pk.slot == key.slot && pk.tx_index > key.tx_index) {
            pos -= 1;
        } else {
            moving = false;
        }
    }
    let ghost old_members = groups@[g as int].trades@;
    proof {
        assert forall|p: int| 0 <= p < old_members.len() implies #[trigger] old_members[p] < i by {}
        lemma_insert_in_order(
            kv,
            bucket_seconds,
            groups@[g as int].mint@,
            groups@[g as int].bucket_start as int,
            old_members,
            pos as int,
            i,
        );
    }
    groups[g].trades.insert(pos, i);
    proof {
        let ms = groups@[g as int].trades@;
        assert(ms == old_members.insert(pos as int, i));
        assert forall|h: int| 0 <= h < groups@.len() && h != g implies #[trigger] groups@[h]
            == old_groups[h] by {}
        assert forall|h: int|
            0 <= h < groups@.len() implies group_ok(
            kv,
            bucket_seconds,
            #[trigger] groups@[h].mint@,
            groups@[h].bucket_start as int,
            groups@[h].trades@,
        ) && forall|p: int|
            0 <= p < groups@[h].trades@.len() ==> #[trigger] groups@[h].trades@[p] < i + 1 by {
            assert(group_ok(
                kv,
                bucket_seconds,
                old_groups[h].mint@,
                old_groups[h].bucket_start as int,
                old_groups[h].trades@,
            ));
            if h == g {
                assert forall|p: int| 0 <= p < ms.len() implies #[trigger] ms[p] < i + 1 by {
                    if p < pos {
                        assert(ms[p] == old_members[p]);
                        assert(old_groups[h].trades@[p] < i);
                    } else if p > pos {
                        assert(ms[p] == old_members[p - 1]);
                        assert(old_groups[h].trades@[p - 1] < i);
                    }
                }
            } else {
                assert(groups@[h] == old_groups[h]);
                assert forall|p: int| 0 <= p < groups@[h].trades@.len() implies #[trigger] groups@[h].trades@[p]
                    < i + 1 by {
                    assert(old_groups[h].trades@[p] < i);
                }
            }
        }
        assert forall|j: int| 0 <= j < i + 1 implies #[trigger] in_some_group(groups@, j) by {
            if j == i {
                assert(groups@[g as int].trades@[pos as int] == j);
            } else {
                assert(in_some_group(old_groups, j));
                let (h, p) = choose|h: int, p: int|
                    0 <= h < old_groups.len() && 0 <= p < old_groups[h].trades@.len()
                        && #[trigger] old_groups[h].trades@[p] == j;
                if h == g {
                    if p < pos {
                        assert(ms[p] == old_members[p]);
                    } else {
                        assert(ms[p + 1] == old_members[p]);
                    }
                } else {
                    assert(groups@[h] == old_groups[h]);
                }
            }
        }
        assert forall|h1: int, h2: int|
            0 <= h1 < h2 < groups@.len() implies !(#[trigger] groups@[h1].mint@
            == #[trigger] groups@[h2].mint@ && groups@[h1].bucket_start
            == groups@[h2].bucket_start) by {
            assert(groups@[h1].mint@ == old_groups[h1].mint@);
            assert(groups@[h2].mint@ == old_groups[h2].mint@);
            assert(groups@[h1].bucket_start == old_groups[h1].bucket_start);
            assert(groups@[h2].bucket_start == old_groups[h2].bucket_start);
        }
    }
}

/// Opens a new group for trade `i`, whose mint and bucket no group has yet,
/// and lists it under its mint.
fn open_group(
    groups: &mut Vec<CandleGroup>,
    mint_at: &mut StringHashMap<usize>,
    per_mint: &mut Vec<Vec<usize>>,
    keys: &Vec<TradeKey>,
    bucket_seconds: i64,
    i: usize,
    start: i64,
)
    requires
        i < keys@.len(),
        groups_inv(keys@.map_values(|k: TradeKey| k@), bucket_seconds, old(groups)@, i as int),
        mint_index_ok(old(mint_at)@, old(per_mint)@, old(groups)@),
        start == bucket_of(keys@[i as int].block_time, bucket_seconds),
        forall|g: int|
            0 <= g < old(groups)@.len() ==> !(#[trigger] old(groups)@[g].mint@ == keys@[i as int].mint@
                && old(groups)@[g].bucket_start == start),
    ensures
        groups_inv(keys@.map_values(|k: TradeKey| k@), bucket_seconds, final(groups)@, i + 1),
        mint_index_ok(final(mint_at)@, final(per_mint)@, final(groups)@),
{
    let ghost kv = keys@.map_values(|k: TradeKey| k@);
    let ghost old_groups = groups@;
    let ghost old_per_mint = per_mint@;
    let ghost old_mint_at = mint_at@;
    let key = &keys[i];
    assert(kv[i as int] == key@);
    let g = groups.len();
    let mut members: Vec<usize> = Vec::new();
    members.push(i);
    let group = CandleGroup { mint: key.mint.clone(), bucket_start: start, trades: members };
    groups.push(group);
    proof {
        assert(groups@[g as int].trades@ == seq![i]);
        assert forall|h: int| 0 <= h < old_groups.len() implies #[trigger] groups@[h]
            == old_groups[h] by {}
        assert forall|h: int|
            0 <= h < groups@.len() implies group_ok(
            kv,
            bucket_seconds,
            #[trigger] groups@[h].mint@,
            groups@[h].bucket_start as int,
            groups@[h].trades@,
        ) && forall|p: int|
            0 <= p < groups@[h].trades@.len() ==> #[trigger] groups@[h].trades@[p] < i + 1 by {
            if h < g {
                assert(groups@[h] == old_groups[h]);
                assert(group_ok(
                    kv,
                    bucket_seconds,
                    old_groups[h].mint@,
                    old_groups[h].bucket_start as int,
                    old_groups[h].trades@,
                ));
                assert forall|p: int| 0 <= p < groups@[h].trades@.len() implies #[trigger] groups@[h].trades@[p]
                    < i + 1 by {
                    assert(old_groups[h].trades@[p] < i);
                }
            } else {
                assert(groups@[h].mint@ == key@.mint);
                assert(groups@[h].trades@[0] == i);
            }
        }
        assert forall|j: int| 0 <= j < i + 1 implies #[trigger] in_some_group(groups@, j) by {
            if j == i {
                assert(groups@[g as int].trades@[0] == j);
            } else {
                assert(in_some_group(old_groups, j));
                let (h, p) = choose|h: int, p: int|
                    0 <= h < old_groups.len() && 0 <= p < old_groups[h].trades@.len()
                        && #[trigger] old_groups[h].trades@[p] == j;
                assert(groups@[h] == old_groups[h]);
            }
        }
        assert forall|h1: int, h2: int|
            0 <= h1 < h2 < groups@.len() implies !(#[trigger] groups@[h1].mint@
            == #[trigger] groups@[h2].mint@ && groups@[h1].bucket_start
            == groups@[h2].bucket_start) by {
            if h2 == g {
                assert(groups@[h1] == old_groups[h1]);
            } else {
                assert(groups@[h1] == old_groups[h1]);
                assert(groups@[h2] == old_groups[h2]);
            }
        }
    }
    match mint_at.get(key.mint.as_str()) {
        Some(slot) => {
            let slot = *slot;
            per_mint[slot].push(g);
            proof {
                assert forall|h: usize|
                    h < groups@.len() implies #[trigger] mint_at@.contains_key(groups@[h as int].mint@)
                    && per_mint@[mint_at@[groups@[h as int].mint@] as int]@.contains(h) by {
                    let m = groups@[h as int].mint@;
                    if h == g {
                        assert(per_mint@[slot as int]@[per_mint@[slot as int]@.len() - 1] == h);
                    } else {
                        assert(groups@[h as int] == old_groups[h as int]);
                        assert(old_mint_at.contains_key(old_groups[h as int].mint@));
                        let idx = mint_at@[m] as int;
                        assert(old_per_mint[idx]@.contains(h));
                        let x = choose|x: int|
                            0 <= x < old_per_mint[idx]@.len() && old_per_mint[idx]@[x] == h;
                        if idx == slot as int {
                            assert(per_mint@[idx]@ == old_per_mint[idx]@.push(g));
                        } else {
                            assert(per_mint@[idx] == old_per_mint[idx]);
                        }
                        assert(per_mint@[idx]@[x] == h);
                    }
                }
                assert forall|m: Seq<char>, x: int|
                    #[trigger] mint_at@.contains_key(m) && 0 <= x < per_mint@[mint_at@[m] as int]@.len()
                        implies (#[trigger] per_mint@[mint_at@[m] as int]@[x]) < groups@.len()
                    && groups@[per_mint@[mint_at@[m] as int]@[x] as int].mint@ == m by {
                    if mint_at@[m] == slot && x == per_mint@[slot as int]@.len() - 1 {
                        assert(m == key@.mint);
                    } else {
                        assert(per_mint@[mint_at@[m] as int]@[x] == old_per_mint[mint_at@[m] as int]@[x]);
                        let h = per_mint@[mint_at@[m] as int]@[x] as int;
                        assert(groups@[h] == old_groups[h]);
                    }
                }
            }
        },
        None => {
            let slot = per_mint.len();
            let mut list: Vec<usize> = Vec::new();
            list.push(g);
            per_mint.push(list);
            mint_at.insert(key.mint.clone(), slot);
            proof {
                assert forall|h: usize|
                    h < groups@.len() implies #[trigger] mint_at@.contains_key(groups@[h as int].mint@)
                    && per_mint@[mint_at@[groups@[h as int].mint@] as int]@.contains(h) by {
                    let m = groups@[h as int].mint@;
                    if h == g {
                        assert(per_mint@[slot as int]@[0] == h);
                    } else {
                        assert(groups@[h as int] == old_groups[h as int]);
                        assert(old_mint_at.contains_key(old_groups[h as int].mint@));
                        assert(per_mint@[mint_at@[m] as int] == old_per_mint[mint_at@[m] as int]);
                    }
                }
                assert forall|m: Seq<char>, x: int|
                    #[trigger] mint_at@.contains_key(m) && 0 <= x < per_mint@[mint_at@[m] as int]@.len()
                        implies (#[trigger] per_mint@[mint_at@[m] as int]@[x]) < groups@.len()
                    && groups@[per_mint@[mint_at@[m] as int]@[x] as int].mint@ == m by {
                    if m != key@.mint {
                        assert(old_mint_at.contains_key(m));
                        let h = per_mint@[mint_at@[m] as int]@[x] as int;
                        assert(per_mint@[mint_at@[m] as int] == old_per_mint[mint_at@[m] as int]);
                        assert(groups@[h] == old_groups[h]);
                    }
                }
                assert forall|m1: Seq<char>, m2: Seq<char>|
                    #[trigger] mint_at@.contains_key(m1) && #[trigger] mint_at@.contains_key(m2) && m1
                        != m2 implies mint_at@[m1] != mint_at@[m2] by {
                    if m1 != key@.mint {
                        assert(old_mint_at.contains_key(m1));
                    }
                    if m2 != key@.mint {
                        assert(old_mint_at.contains_key(m2));
                    }
                }
            }
        },
    }
}

/// Groups trades into candles: one group per mint and bucket start that
/// some trade has, holding exactly the positions of that mint's trades in
/// that bucket, in chain order.
pub fn group_candles(keys: &Vec<TradeKey>, bucket_seconds: i64) -> (res: Vec<CandleGroup>)
    requires
        buckets_ok(keys@.map_values(|k: TradeKey| k@), bucket_seconds),
    ensures
        groups_inv(keys@.map_values(|k: TradeKey| k@), bucket_seconds, res@, keys@.len() as int),
{
    let ghost kv = keys@.map_values(|k: TradeKey| k@);
    let mut mint_at: StringHashMap<usize> = StringHashMap::new();
    let mut per_mint: Vec<Vec<usize>> = Vec::new();
    let mut groups: Vec<CandleGroup> = Vec::new();
    let mut i: usize = 0;
    while i < keys.len()
        invariant
            i <= keys@.len(),
            kv == keys@.map_values(|k: TradeKey| k@),
            buckets_ok(kv, bucket_seconds),
            groups_inv(kv, bucket_seconds, groups@, i as int),
            mint_index_ok(mint_at@, per_mint@, groups@),
        decreases keys@.len() - i,
    {
        let key = &keys[i];
        assert(kv[i as int] == key@);
        assert(kv[i as int].block_time == key.block_time);
        let start = bucket_start(key.block_time, bucket_seconds);
        let found = find_group(&groups, &per_mint, &mint_at, &key.mint, start);
        match found {
            Some(g) => {
                let ghost before = groups@;
                join_group(&mut groups, keys, bucket_seconds, g, i);
                proof {
                    assert forall|h: usize|
                        h < groups@.len() implies #[trigger] mint_at@.contains_key(groups@[h as int].mint@)
                        && per_mint@[mint_at@[groups@[h as int].mint@] as int]@.contains(h) by {
                        assert(groups@[h as int].mint@ == before[h as int].mint@);
                        assert(mint_at@.contains_key(before[h as int].mint@));
                    }
                    assert forall|m: Seq<char>, x: int|
                        #[trigger] mint_at@.contains_key(m) && 0 <= x < per_mint@[mint_at@[m] as int]@.len()
                            implies (#[trigger] per_mint@[mint_at@[m] as int]@[x]) < groups@.len()
                        && groups@[per_mint@[mint_at@[m] as int]@[x] as int].mint@ == m by {
                        let h = per_mint@[mint_at@[m] as int]@[x] as int;
                        assert(groups@[h].mint@ == before[h].mint@);
                    }
                }
            },
            None => {
                open_group(&mut groups, &mut mint_at, &mut per_mint, keys, bucket_seconds, i, start);
            },
        }
        i += 1;
    }
    groups
}

/// Candle groups partition the trades: a trade is a member of a group
/// exactly when the group is of its mint and its bucket.
pub proof fn law_candle_groups_partition_trades(
    keys: Seq<TradeKeyModel>,
    bucket_seconds: i64,
    groups: Seq<CandleGroup>,
)
    requires
        keys.len() <= usize::MAX,
        groups_inv(keys, bucket_seconds, groups, keys.len() as int),
    ensures
        forall|i: int, g: int|
            0 <= i < keys.len() && 0 <= g < groups.len() ==> (#[trigger] groups[g].trades@.contains(
                i as usize,
            ) <==> (groups[g].mint@ == #[trigger] keys[i].mint && groups[g].bucket_start
                == bucket_of(keys[i].block_time, bucket_seconds))),
{
    assert forall|i: int, g: int|
        0 <= i < keys.len() && 0 <= g < groups.len() implies (#[trigger] groups[g].trades@.contains(
        i as usize,
    ) <==> (groups[g].mint@ == #[trigger] keys[i].mint && groups[g].bucket_start == bucket_of(
        keys[i].block_time,
        bucket_seconds,
    ))) by {
        assert(group_ok(
            keys,
            bucket_seconds,
            groups[g].mint@,
            groups[g].bucket_start as int,
            groups[g].trades@,
        ));
        if groups[g].trades@.contains(i as usize) {
            let p = choose|p: int| 0 <= p < groups[g].trades@.len() && groups[g].trades@[p] == i as usize;
            assert(groups[g].trades@[p] < keys.len());
        }
        if groups[g].mint@ == keys[i].mint && groups[g].bucket_start == bucket_of(
            keys[i].block_time,
            bucket_seconds,
        ) {
            assert(in_some_group(groups, i));
            let (h, p) = choose|h: int, p: int|
                0 <= h < groups.len() && 0 <= p < groups[h].trades@.len() && #[trigger] groups[h].trades@[p]
                    == i;
            assert(group_ok(
                keys,
                bucket_seconds,
                groups[h].mint@,
                groups[h].bucket_start as int,
                groups[h].trades@,
            ));
            assert(groups[h].trades@[p] as int == i);
            if h != g {
                if h < g {
                    assert(!(groups[h].mint@ == groups[g].mint@ && groups[h].bucket_start
                        == groups[g].bucket_start));
                } else {
                    assert(!(groups[g].mint@ == groups[h].mint@ && groups[g].bucket_start
                        == groups[h].bucket_start));
                }
            }
            assert(groups[g].trades@[p] == i as usize);
        }
    }
}

// ---------------------------------------------------------------------------
// Laws of trade inference
// ---------------------------------------------------------------------------

/// A row with its pre and post amounts swapped.
pub open spec fn mirror_row(r: BalanceModel) -> BalanceModel {
    BalanceModel {
        signature: r.signature,
        mint: r.mint,
        pre: r.post,
        post: r.pre,
        decimals: r.decimals,
        slot: r.slot,
        tx_index: r.tx_index,
        block_time: r.block_time,
    }
}

/// Every row with its pre and post amounts swapped: the same balance
/// changes run the other way.
pub open spec fn mirrored(rows: Seq<BalanceModel>) -> Seq<BalanceModel> {
    rows.map_values(|r: BalanceModel| mirror_row(r))
}

proof fn lemma_mirror_net(rows: Seq<BalanceModel>, mint: Seq<char>)
    ensures
        net_delta(mirrored(rows), mint) == -net_delta(rows, mint),
    decreases rows.len(),
{
    if rows.len() > 0 {
        lemma_mirror_net(rows.drop_last(), mint);
        assert(mirrored(rows).drop_last() =~= mirrored(rows.drop_last()));
    }
}

proof fn lemma_first_exists(rows: Seq<BalanceModel>, mint: Seq<char>)
    requires
        has_mint(rows, mint),
    ensures
        exists|i: int| is_first_of_mint(rows, mint, i),
    decreases rows.len(),
{
    let d = rows.drop_last();
    if has_mint(d, mint) {
        lemma_first_exists(d, mint);
        let i = choose|i: int| is_first_of_mint(d, mint, i);
        assert forall|j: int| 0 <= j < i implies #[trigger] rows[j].mint != mint by {
            assert(rows[j] == d[j]);
        }
        assert(is_first_of_mint(rows, mint, i));
    } else {
        let i = choose|i: int| 0 <= i < rows.len() && #[trigger] rows[i].mint == mint;
        if i < rows.len() - 1 {
            assert(d[i].mint == mint);
        }
        assert forall|j: int| 0 <= j < rows.len() - 1 implies #[trigger] rows[j].mint != mint by {
            assert(rows[j] == d[j]);
        }
        assert(is_first_of_mint(rows, mint, rows.len() - 1));
    }
}

/// A mirrored trade is the same trade the other way: swapping the pre and
/// post amounts of every row gives a trade exactly when the rows give one,
/// of the same mint, decimals, time and place, with both net changes
/// negated (so the same price and volume).
pub proof fn law_mirrored_rows_give_mirrored_trade(rows: Seq<BalanceModel>)
    ensures
        matched_trade(mirrored(rows)) == match matched_trade(rows) {
            Some(t) => Some(
                TradeMatchModel {
                    mint: t.mint,
                    base_delta: -t.base_delta,
                    base_decimals: t.base_decimals,
                    wsol_delta: -t.wsol_delta,
                    block_time: t.block_time,
                    slot: t.slot,
                    tx_index: t.tx_index,
                },
            ),
            None => None,
        },
{
    let r2 = mirrored(rows);
    assert forall|m: Seq<char>| has_mint(r2, m) <==> has_mint(rows, m) by {
        if has_mint(r2, m) {
            let i = choose|i: int| 0 <= i < r2.len() && #[trigger] r2[i].mint == m;
            assert(rows[i].mint == m);
        }
        if has_mint(rows, m) {
            let i = choose|i: int| 0 <= i < rows.len() && #[trigger] rows[i].mint == m;
            assert(r2[i].mint == m);
        }
    }
    assert forall|m: Seq<char>| #[trigger] is_base_mint(r2, m) <==> is_base_mint(rows, m) by {
        lemma_mirror_net(rows, m);
    }
    assert forall|m: Seq<char>| #[trigger] sole_base_mint(r2, m) <==> sole_base_mint(rows, m) by {
        if sole_base_mint(rows, m) {
            assert forall|x: Seq<char>| #[trigger] is_base_mint(r2, x) implies x == m by {
                assert(is_base_mint(rows, x));
            }
        }
        if sole_base_mint(r2, m) {
            assert forall|x: Seq<char>| #[trigger] is_base_mint(rows, x) implies x == m by {
                assert(is_base_mint(r2, x));
            }
        }
    }
    lemma_mirror_net(rows, WSOL_MINT@);
    if passes_pairing(rows) {
        let m1 = choose|m: Seq<char>| sole_base_mint(rows, m);
        let m2 = choose|m: Seq<char>| sole_base_mint(r2, m);
        assert(sole_base_mint(r2, m1));
        assert(passes_pairing(r2));
        assert(sole_base_mint(rows, m2));
        assert(is_base_mint(rows, m2));
        assert(m1 == m2);
        lemma_mirror_net(rows, m1);
        lemma_first_exists(rows, m1);
        let i1 = choose|i: int| is_first_of_mint(rows, m1, i);
        let i2 = choose|i: int| is_first_of_mint(r2, m1, i);
        assert forall|j: int| 0 <= j < i1 implies #[trigger] r2[j].mint != m1 by {
            assert(rows[j].mint != m1);
        }
        assert(is_first_of_mint(r2, m1, i1));
        assert forall|j: int| 0 <= j < i2 implies #[trigger] rows[j].mint != m1 by {
            assert(r2[j].mint != m1);
        }
        assert(is_first_of_mint(rows, m1, i2));
        lemma_first_unique(rows, m1, i1, i2);
        assert(first_decimals(r2, m1) == first_decimals(rows, m1));
        assert(r2[0] == mirror_row(rows[0]));
    } else {
        if passes_pairing(r2) {
            let m2 = choose|m: Seq<char>| sole_base_mint(r2, m);
            assert(sole_base_mint(rows, m2));
        }
    }
}

proof fn lemma_run_end_shift(a: Seq<BalanceModel>, b: Seq<BalanceModel>, s: int, j: int)
    requires
        0 <= s < b.len(),
        0 <= j,
    ensures
        run_end(a + b, a.len() + s, a.len() + j) == a.len() + run_end(b, s, j),
    decreases b.len() - j,
{
    if j < b.len() {
        assert((a + b)[a.len() + j] == b[j]);
        assert((a + b)[a.len() + s] == b[s]);
        if b[j].signature == b[s].signature {
            lemma_run_end_shift(a, b, s, j + 1);
        }
    }
}

proof fn lemma_trades_shift(a: Seq<BalanceModel>, b: Seq<BalanceModel>, j: int)
    requires
        0 <= j,
    ensures
        trades_from(a + b, a.len() + j) == trades_from(b, j),
    decreases b.len() - j,
{
    if j < b.len() {
        let e = run_end(b, j, j + 1);
        lemma_run_end(b, j, j + 1);
        lemma_run_end_shift(a, b, j, j + 1);
        assert((a + b).subrange(a.len() + j, a.len() + e) =~= b.subrange(j, e));
        lemma_trades_shift(a, b, e);
    }
}

proof fn lemma_run_end_within(a: Seq<BalanceModel>, b: Seq<BalanceModel>, i: int, j: int)
    requires
        0 <= i < j <= a.len(),
        forall|t: int| i <= t < j ==> #[trigger] a[t].signature == a[i].signature,
        b.len() == 0 || a.last().signature != b[0].signature,
    ensures
        run_end(a + b, i, j) == run_end(a, i, j),
    decreases a.len() - j,
{
    assert((a + b)[i] == a[i]);
    if j == a.len() {
        if b.len() > 0 {
            assert((a + b)[j] == b[0]);
            assert(a[a.len() - 1].signature == a[i].signature);
        }
    } else {
        assert((a + b)[j] == a[j]);
        if a[j].signature == a[i].signature {
            lemma_run_end_within(a, b, i, j + 1);
        }
    }
}

proof fn lemma_trades_concat(a: Seq<BalanceModel>, b: Seq<BalanceModel>, i: int)
    requires
        0 <= i <= a.len(),
        a.len() == 0 || b.len() == 0 || a.last().signature != b[0].signature,
    ensures
        trades_from(a + b, i) == trades_from(a, i) + trades_from(b, 0),
    decreases a.len() - i,
{
    if i == a.len() {
        lemma_trades_shift(a, b, 0);
        assert(Seq::<TradeMatchModel>::empty() + trades_from(b, 0) =~= trades_from(b, 0));
    } else {
        let e = run_end(a, i, i + 1);
        lemma_run_end(a, i, i + 1);
        lemma_run_end_within(a, b, i, i + 1);
        assert((a + b).subrange(i, e) =~= a.subrange(i, e));
        lemma_trades_concat(a, b, e);
        let rest_a = trades_from(a, e);
        let rest_b = trades_from(b, 0);
        match matched_trade(a.subrange(i, e)) {
            Some(t) => {
                assert(seq![t] + (rest_a + rest_b) =~= (seq![t] + rest_a) + rest_b);
            },
            None => {},
        }
    }
}

/// Trades are read run by run: splitting the rows between two signatures
/// splits the trades the same way.
pub proof fn law_trades_concatenate_over_runs(a: Seq<BalanceModel>, b: Seq<BalanceModel>)
    requires
        a.len() == 0 || b.len() == 0 || a.last().signature != b[0].signature,
    ensures
        trades_from(a + b, 0) == trades_from(a, 0) + trades_from(b, 0),
{
    lemma_trades_concat(a, b, 0);
}

proof fn lemma_single_run_end(g: Seq<BalanceModel>, j: int)
    requires
        1 <= j <= g.len(),
        forall|i: int| 0 <= i < g.len() ==> #[trigger] g[i].signature == g[0].signature,
    ensures
        run_end(g, 0, j) == g.len(),
    decreases g.len() - j,
{
    if j < g.len() {
        lemma_single_run_end(g, j + 1);
    }
}

/// The rows of one transaction give exactly the trade they match, if any.
pub proof fn law_one_run_gives_its_trade(g: Seq<BalanceModel>)
    requires
        g.len() > 0,
        forall|i: int| 0 <= i < g.len() ==> #[trigger] g[i].signature == g[0].signature,
    ensures
        trades_from(g, 0) == match matched_trade(g) {
            Some(t) => seq![t],
            None => Seq::<TradeMatchModel>::empty(),
        },
{
    lemma_single_run_end(g, 1);
    assert(g.subrange(0, g.len() as int) =~= g);
    assert(trades_from(g, g.len() as int) =~= Seq::<TradeMatchModel>::empty());
    assert(trades_from(g, 0) == match matched_trade(g.subrange(0, g.len() as int)) {
        Some(t) => seq![t] + trades_from(g, g.len() as int),
        None => trades_from(g, g.len() as int),
    });
    match matched_trade(g) {
        Some(t) => {
            assert(seq![t] + trades_from(g, g.len() as int) =~= seq![t]);
        },
        None => {},
    }
}

// ---------------------------------------------------------------------------
// Candle groups do not depend on the order of the trades
// ---------------------------------------------------------------------------

/// `keys2` lists the trades of `keys` in another order: trade `i` of `keys`
/// is trade `perm[i]` of `keys2`, and trade `x` of `keys2` is trade
/// `inv[x]` of `keys`.
pub open spec fn reorders(
    keys: Seq<TradeKeyModel>,
    keys2: Seq<TradeKeyModel>,
    perm: Seq<int>,
    inv: Seq<int>,
) -> bool {
    &&& keys2.len() == keys.len()
    &&& perm.len() == keys.len()
    &&& inv.len() == keys.len()
    &&& forall|i: int|
        0 <= i < keys.len() ==> 0 <= #[trigger] perm[i] < keys.len() && keys2[perm[i]] == keys[i]
            && inv[perm[i]] == i
    &&& forall|x: int|
        0 <= x < keys.len() ==> 0 <= #[trigger] inv[x] < keys.len() && keys[inv[x]] == keys2[x]
            && perm[inv[x]] == x
}

/// No two trades of one mint share a slot and a position in the block.
pub open spec fn distinct_places(keys: Seq<TradeKeyModel>) -> bool {
    forall|i: int, j: int|
        0 <= i < keys.len() && 0 <= j < keys.len() && i != j && #[trigger] keys[i].mint
            == #[trigger] keys[j].mint ==> keys[i].slot != keys[j].slot || keys[i].tx_index
            != keys[j].tx_index
}

/// Key `a` comes before key `b` by slot, then position in the block.
pub open spec fn place_before(a: TradeKeyModel, b: TradeKeyModel) -> bool {
    a.slot < b.slot || (a.slot == b.slot && a.tx_index < b.tx_index)
}

/// The members of a group, as positions in `keys2`.
pub open spec fn moved(members: Seq<usize>, perm: Seq<int>) -> Seq<usize> {
    members.map_values(|y: usize| perm[y as int] as usize)
}

proof fn lemma_distinct_places_moved(
    keys: Seq<TradeKeyModel>,
    keys2: Seq<TradeKeyModel>,
    perm: Seq<int>,
    inv: Seq<int>,
)
    requires
        reorders(keys, keys2, perm, inv),
        distinct_places(keys),
    ensures
        distinct_places(keys2),
{
    assert forall|x: int, y: int|
        0 <= x < keys2.len() && 0 <= y < keys2.len() && x != y && #[trigger] keys2[x].mint
            == #[trigger] keys2[y].mint implies keys2[x].slot != keys2[y].slot || keys2[x].tx_index
        != keys2[y].tx_index by {
        assert(keys[inv[x]] == keys2[x] && keys[inv[y]] == keys2[y]);
        assert(inv[x] != inv[y]);
    }
}

/// Two lists of positions, each strictly ordered by place, with the same
/// members, are the same list.
proof fn lemma_sorted_same(keys: Seq<TradeKeyModel>, s: Seq<usize>, t: Seq<usize>)
    requires
        forall|z: usize| s.contains(z) <==> t.contains(z),
        forall|p: int| 0 <= p < s.len() ==> #[trigger] s[p] < keys.len(),
        forall|p: int| 0 <= p < t.len() ==> #[trigger] t[p] < keys.len(),
        forall|p: int, q: int|
            0 <= p < q < s.len() ==> place_before(keys[#[trigger] s[p] as int], keys[#[trigger] s[q] as int]),
        forall|p: int, q: int|
            0 <= p < q < t.len() ==> place_before(keys[#[trigger] t[p] as int], keys[#[trigger] t[q] as int]),
    ensures
        s == t,
    decreases s.len(),
{
    if s.len() == 0 {
        if t.len() > 0 {
            assert(t.contains(t[0]));
        }
        assert(s =~= t);
    } else {
        assert(s.contains(s[0]));
        let q = choose|q: int| 0 <= q < t.len() && t[q] == s[0];
        assert(t.contains(t[0]));
        let p = choose|p: int| 0 <= p < s.len() && s[p] == t[0];
        if p > 0 {
            assert(place_before(keys[s[0] as int], keys[s[p] as int]));
            assert(q > 0);
            assert(place_before(keys[t[0] as int], keys[t[q] as int]));
            assert(false);
        }
        let s1 = s.drop_first();
        let t1 = t.drop_first();
        assert forall|z: usize| s1.contains(z) <==> t1.contains(z) by {
            if s1.contains(z) {
                let i = choose|i: int| 0 <= i < s1.len() && s1[i] == z;
                assert(s[i + 1] == z);
                assert(place_before(keys[s[0] as int], keys[s[i + 1] as int]));
                assert(t.contains(z));
                let j = choose|j: int| 0 <= j < t.len() && t[j] == z;
                assert(j != 0);
                assert(t1[j - 1] == z);
            }
            if t1.contains(z) {
                let i = choose|i: int| 0 <= i < t1.len() && t1[i] == z;
                assert(t[i + 1] == z);
                assert(place_before(keys[t[0] as int], keys[t[i + 1] as int]));
                assert(s.contains(z));
                let j = choose|j: int| 0 <= j < s.len() && s[j] == z;
                assert(j != 0);
                assert(s1[j - 1] == z);
            }
        }
        assert forall|a: int, b: int| 0 <= a < b < s1.len() implies place_before(
            keys[#[trigger] s1[a] as int],
            keys[#[trigger] s1[b] as int],
        ) by {
            assert(s1[a] == s[a + 1] && s1[b] == s[b + 1]);
        }
        assert forall|a: int, b: int| 0 <= a < b < t1.len() implies place_before(
            keys[#[trigger] t1[a] as int],
            keys[#[trigger] t1[b] as int],
        ) by {
            assert(t1[a] == t[a + 1] && t1[b] == t[b + 1]);
        }
        lemma_sorted_same(keys, s1, t1);
        assert(s =~= seq![s[0]] + s1);
        assert(t =~= seq![t[0]] + t1);
    }
}

/// Within a well-formed group of trades with distinct places, chain order
/// is order by place.
proof fn lemma_group_by_place(
    keys: Seq<TradeKeyModel>,
    bucket_seconds: i64,
    mint: Seq<char>,
    start: int,
    members: Seq<usize>,
)
    requires
        group_ok(keys, bucket_seconds, mint, start, members),
        distinct_places(keys),
    ensures
        forall|p: int, q: int|
            0 <= p < q < members.len() ==> place_before(
                keys[#[trigger] members[p] as int],
                keys[#[trigger] members[q] as int],
            ),
{
    assert forall|p: int, q: int| 0 <= p < q < members.len() implies place_before(
        keys[#[trigger] members[p] as int],
        keys[#[trigger] members[q] as int],
    ) by {
        assert(chain_before(keys, members[p] as int, members[q] as int));
        assert(members[p] < keys.len() && members[q] < keys.len());
        let x = members[p] as int;
        let y = members[q] as int;
        assert(keys[x].mint == mint && keys[y].mint == mint);
        if x != y {
            assert(keys[x].slot != keys[y].slot || keys[x].tx_index != keys[y].tx_index);
        }
    }
}

proof fn lemma_group_has_image(
    keys: Seq<TradeKeyModel>,
    keys2: Seq<TradeKeyModel>,
    perm: Seq<int>,
    inv: Seq<int>,
    bucket_seconds: i64,
    groups: Seq<CandleGroup>,
    groups2: Seq<CandleGroup>,
    g: int,
)
    requires
        keys.len() <= usize::MAX,
        reorders(keys, keys2, perm, inv),
        distinct_places(keys),
        groups_inv(keys, bucket_seconds, groups, keys.len() as int),
        groups_inv(keys2, bucket_seconds, groups2, keys2.len() as int),
        0 <= g < groups.len(),
    ensures
        has_image(groups, groups2, g, perm),
{
    let n = keys.len() as int;
    let mint = groups[g].mint@;
    let start = groups[g].bucket_start;
    let mem = groups[g].trades@;
    assert(group_ok(keys, bucket_seconds, mint, start as int, mem));
    lemma_distinct_places_moved(keys, keys2, perm, inv);
    let i0 = mem[0] as int;
    let x0 = perm[i0];
    assert(in_some_group(groups2, x0));
    let (h, p0) = choose|h: int, p: int|
        0 <= h < groups2.len() && 0 <= p < groups2[h].trades@.len() && #[trigger] groups2[h].trades@[p]
            == x0;
    let mem2 = groups2[h].trades@;
    assert(group_ok(keys2, bucket_seconds, groups2[h].mint@, groups2[h].bucket_start as int, mem2));
    assert(mem2[p0] == x0);
    assert(keys2[x0] == keys[i0]);
    law_candle_groups_partition_trades(keys, bucket_seconds, groups);
    law_candle_groups_partition_trades(keys2, bucket_seconds, groups2);
    let t = moved(mem, perm);
    assert forall|z: usize| t.contains(z) <==> mem2.contains(z) by {
        if t.contains(z) {
            let a = choose|a: int| 0 <= a < t.len() && t[a] == z;
            let y = mem[a] as int;
            assert(mem.contains(mem[a]));
            assert(groups[g].trades@.contains(y as usize));
            assert(keys2[perm[y]] == keys[y]);
            assert(groups2[h].trades@.contains(perm[y] as usize));
        }
        if mem2.contains(z) {
            let a = choose|a: int| 0 <= a < mem2.len() && mem2[a] == z;
            let x = z as int;
            assert(x < n);
            let y = inv[x];
            assert(keys[y] == keys2[x]);
            assert(groups[g].trades@.contains(y as usize));
            let b = choose|b: int| 0 <= b < mem.len() && mem[b] == y as usize;
            assert(t[b] == z);
        }
    }
    lemma_group_by_place(keys, bucket_seconds, mint, start as int, mem);
    lemma_group_by_place(keys2, bucket_seconds, groups2[h].mint@, groups2[h].bucket_start as int, mem2);
    assert forall|p: int, q: int| 0 <= p < q < t.len() implies place_before(
        keys2[#[trigger] t[p] as int],
        keys2[#[trigger] t[q] as int],
    ) by {
        assert(place_before(keys[mem[p] as int], keys[mem[q] as int]));
        assert(mem[p] < n && mem[q] < n);
        assert(keys2[perm[mem[p] as int]] == keys[mem[p] as int]);
        assert(keys2[perm[mem[q] as int]] == keys[mem[q] as int]);
    }
    assert forall|p: int| 0 <= p < t.len() implies #[trigger] t[p] < keys2.len() by {
        assert(mem[p] < n);
    }
    lemma_sorted_same(keys2, t, mem2);
    assert(groups2[h].mint@ == mint);
}

/// Some group of `groups2` has the mint and bucket of group `g` of
/// `groups`, and its members are those of `g` moved by `perm`, in the same
/// order.
pub open spec fn has_image(groups: Seq<CandleGroup>, groups2: Seq<CandleGroup>, g: int, perm: Seq<int>) -> bool {
    exists|h: int|
        0 <= h < groups2.len() && groups2[h].mint@ == groups[g].mint@ && groups2[h].bucket_start
            == groups[g].bucket_start && #[trigger] groups2[h].trades@ == moved(groups[g].trades@, perm)
}

/// Candle groups do not depend on the order in which the trades are
/// listed: where no two trades of a mint share a slot and position, the
/// groups of a reordered list are those of the original list, group for
/// group, each with its members moved to their new positions in the same
/// order.
pub proof fn law_candle_groups_ignore_trade_order(
    keys: Seq<TradeKeyModel>,
    keys2: Seq<TradeKeyModel>,
    perm: Seq<int>,
    inv: Seq<int>,
    bucket_seconds: i64,
    groups: Seq<CandleGroup>,
    groups2: Seq<CandleGroup>,
)
    requires
        keys.len() <= usize::MAX,
        reorders(keys, keys2, perm, inv),
        distinct_places(keys),
        groups_inv(keys, bucket_seconds, groups, keys.len() as int),
        groups_inv(keys2, bucket_seconds, groups2, keys2.len() as int),
    ensures
        forall|g: int| 0 <= g < groups.len() ==> #[trigger] has_image(groups, groups2, g, perm),
        forall|h: int| 0 <= h < groups2.len() ==> #[trigger] has_image(groups2, groups, h, inv),
{
    lemma_distinct_places_moved(keys, keys2, perm, inv);
    assert forall|g: int| 0 <= g < groups.len() implies #[trigger] has_image(groups, groups2, g, perm) by {
        lemma_group_has_image(keys, keys2, perm, inv, bucket_seconds, groups, groups2, g);
    }
    assert forall|h: int| 0 <= h < groups2.len() implies #[trigger] has_image(groups2, groups, h, inv) by {
        lemma_group_has_image(keys2, keys, inv, perm, bucket_seconds, groups2, groups, h);
    }
}

/// A trade's decimals are those recorded on the first row of its own mint,
/// whatever rows of other mints come before it.
pub proof fn law_trade_decimals_are_its_mints(rows: Seq<BalanceModel>, i: int)
    requires
        matched_trade(rows) is Some,
        0 <= i < rows.len(),
        rows[i].mint == matched_trade(rows)->0.mint,
        forall|j: int| 0 <= j < i ==> #[trigger] rows[j].mint != matched_trade(rows)->0.mint,
    ensures
        matched_trade(rows)->0.base_decimals == rows[i].decimals,
{
    let m = choose|m: Seq<char>| sole_base_mint(rows, m);
    assert(matched_trade(rows)->0.mint == m);
    assert(is_first_of_mint(rows, m, i));
    lemma_first_exists(rows, m);
    let f = choose|f: int| is_first_of_mint(rows, m, f);
    lemma_first_unique(rows, m, i, f);
}

} // verus!
