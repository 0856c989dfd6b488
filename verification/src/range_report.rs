//! Contention over a range of blocks: each block's schedule depth and step
//! widths, and per-account and per-program conflict counts, ranked by total.

use crate::contention::{
    schedule_block, schedule_model, tx_views, ConflictModel, StepModel, Transaction, TxModel,
};
use crate::schedule_laws::{law_widths_add_up, placed_count};
use vstd::hash_map::StringHashMap;
use vstd::prelude::*;

verus! {

// ---------------------------------------------------------------------------
// Model
// ---------------------------------------------------------------------------

/// Write and read conflict counts per key.
pub type Tallies = Map<Seq<char>, (nat, nat)>;

/// The counts of `key` in `counts`, zero where it has none.
pub open spec fn count_of(counts: Tallies, key: Seq<char>) -> (nat, nat) {
    if counts.contains_key(key) {
        counts[key]
    } else {
        (0, 0)
    }
}

/// `counts` after one more write (or read) conflict on `key`.
pub open spec fn bump(counts: Tallies, key: Seq<char>, writable: bool) -> Tallies {
    let cur = count_of(counts, key);
    counts.insert(
        key,
        if writable {
            ((cur.0 + 1) as nat, cur.1)
        } else {
            (cur.0, (cur.1 + 1) as nat)
        },
    )
}

/// `counts` after one more conflict on each of `keys`, repeats included.
pub open spec fn bump_all(counts: Tallies, keys: Seq<Seq<char>>, writable: bool) -> Tallies
    decreases keys.len(),
{
    if keys.len() == 0 {
        counts
    } else {
        bump(bump_all(counts, keys.drop_last(), writable), keys.last(), writable)
    }
}

/// Conflict counts per account: one per event, by the event's lock kind.
pub open spec fn account_tally(events: Seq<ConflictModel>) -> Tallies
    decreases events.len(),
{
    if events.len() == 0 {
        Map::empty()
    } else {
        bump(account_tally(events.drop_last()), events.last().account, events.last().writable)
    }
}

/// Conflict counts per program: one per event for each program id it
/// carries.
pub open spec fn program_tally(events: Seq<ConflictModel>) -> Tallies
    decreases events.len(),
{
    if events.len() == 0 {
        Map::empty()
    } else {
        bump_all(program_tally(events.drop_last()), events.last().program_ids, events.last().writable)
    }
}

/// Every key's total of write and read conflicts fits in a `u64`.
pub open spec fn totals_fit(counts: Tallies) -> bool {
    forall|k: Seq<char>| #[trigger] counts.contains_key(k) ==> counts[k].0 + counts[k].1 <= u64::MAX
}

/// The report line of one block: its slot, how many steps its schedule has
/// and how many transactions each step holds.
pub struct BlockModel {
    pub slot: i64,
    pub depth: nat,
    pub widths: Seq<nat>,
}

/// The report line of a block scheduled into `steps`.
pub open spec fn block_model(slot: i64, steps: Seq<StepModel>) -> BlockModel {
    BlockModel {
        slot,
        depth: steps.len(),
        widths: steps.map_values(|s: StepModel| s.signatures.len()),
    }
}

/// A ranked list of counts: distinct keys, exactly those of the tally, each
/// with its tally, and totals never increasing down the list.
pub open spec fn ranks(entries: Seq<(Seq<char>, u64, u64)>, counts: Tallies) -> bool {
    &&& forall|i: int, j: int| 0 <= i < j < entries.len() ==> #[trigger] entries[i].0 != #[trigger] entries[j].0
    &&& forall|k: Seq<char>|
        #[trigger] counts.contains_key(k) <==> exists|i: int|
            0 <= i < entries.len() && #[trigger] entries[i].0 == k
    &&& forall|i: int|
        0 <= i < entries.len() ==> counts.contains_key(#[trigger] entries[i].0) && counts[entries[i].0]
            == (entries[i].1 as nat, entries[i].2 as nat)
    &&& forall|i: int, j: int|
        0 <= i < j < entries.len() ==> #[trigger] entries[i].1 + entries[i].2 >= #[trigger] entries[j].1
            + entries[j].2
}

// ---------------------------------------------------------------------------
// Report types
// ---------------------------------------------------------------------------

/// One block's line of a range report: its slot, how many steps its
/// schedule has and how many transactions each step holds.
pub struct BlockReport {
    pub slot: i64,
    pub schedule_depth: usize,
    pub step_widths: Vec<usize>,
}

impl View for BlockReport {
    type V = BlockModel;

    open spec fn view(&self) -> BlockModel {
        BlockModel {
            slot: self.slot,
            depth: self.schedule_depth as nat,
            widths: self.step_widths@.map_values(|w: usize| w as nat),
        }
    }
}

/// The write and read conflicts counted against one account.
pub struct AccountConflictCount {
    pub account_pubkey: String,
    pub write_conflicts: u64,
    pub read_conflicts: u64,
}

/// The write and read conflicts counted against one program.
pub struct ProgramConflictCount {
    pub program_id: String,
    pub write_conflicts: u64,
    pub read_conflicts: u64,
}

/// Contention over a range of blocks: a line per block, and accounts and
/// programs ranked by total conflicts, highest first.
pub struct RangeReport {
    pub blocks: Vec<BlockReport>,
    pub accounts: Vec<AccountConflictCount>,  // sorted by total conflicts, descending
    pub programs: Vec<ProgramConflictCount>,  // sorted by total conflicts, descending
}

impl RangeReport {
    /// The block lines as values.
    pub open spec fn block_views(&self) -> Seq<BlockModel> {
        self.blocks@.map_values(|b: BlockReport| b@)
    }

    /// The account lines as (account, writes, reads).
    pub open spec fn account_views(&self) -> Seq<(Seq<char>, u64, u64)> {
        self.accounts@.map_values(
            |a: AccountConflictCount| (a.account_pubkey@, a.write_conflicts, a.read_conflicts),
        )
    }

    /// The program lines as (program, writes, reads).
    pub open spec fn program_views(&self) -> Seq<(Seq<char>, u64, u64)> {
        self.programs@.map_values(
            |p: ProgramConflictCount| (p.program_id@, p.write_conflicts, p.read_conflicts),
        )
    }
}

// ---------------------------------------------------------------------------
// Counting
// ---------------------------------------------------------------------------

/// Counts per key, in order of first appearance.
struct Tally {
    at: StringHashMap<usize>,
    keys: Vec<String>,
    writes: Vec<u64>,
    reads: Vec<u64>,
}

impl Tally {
    spec fn wf(&self) -> bool {
        &&& self.keys@.len() == self.writes@.len()
        &&& self.keys@.len() == self.reads@.len()
        &&& forall|i: int|
            0 <= i < self.keys@.len() ==> #[trigger] self.at@.contains_key(self.keys@[i]@)
                && self.at@[self.keys@[i]@] == i
        &&& forall|k: Seq<char>|
            #[trigger] self.at@.contains_key(k) ==> self.at@[k] < self.keys@.len()
                && self.keys@[self.at@[k] as int]@ == k
    }

    spec fn model(&self) -> Tallies {
        Map::new(
            |k: Seq<char>| self.at@.contains_key(k),
            |k: Seq<char>|
                (self.writes@[self.at@[k] as int] as nat, self.reads@[self.at@[k] as int] as nat),
        )
    }

    /// The counts as (key, writes, reads), in order of first appearance.
    spec fn entries(&self) -> Seq<(Seq<char>, u64, u64)> {
        Seq::new(
            self.keys@.len(),
            |i: int| (self.keys@[i]@, self.writes@[i], self.reads@[i]),
        )
    }

    fn new() -> (res: Self)
        ensures
            res.wf(),
            res.model() == Tallies::empty(),
    {
        let res = Tally {
            at: StringHashMap::new(),
            keys: Vec::new(),
            writes: Vec::new(),
            reads: Vec::new(),
        };
        assert(res.model() =~= Tallies::empty());
        res
    }

    fn bump(&mut self, key: &String, writable: bool)
        requires
            old(self).wf(),
            totals_fit(bump(old(self).model(), key@, writable)),
        ensures
            final(self).wf(),
            final(self).model() == bump(old(self).model(), key@, writable),
    {
        let ghost before = self.model();
        let ghost goal = bump(before, key@, writable);
        assert(goal.contains_key(key@));
        match self.at.get(key.as_str()) {
            Some(i) => {
                let i = *i;
                if writable {
                    let w = self.writes[i];
                    self.writes.set(i, w + 1);
                } else {
                    let r = self.reads[i];
                    self.reads.set(i, r + 1);
                }
            },
            None => {
                let i = self.keys.len();
                self.keys.push(key.clone());
                if writable {
                    self.writes.push(1);
                    self.reads.push(0);
                } else {
                    self.writes.push(0);
                    self.reads.push(1);
                }
                self.at.insert(key.clone(), i);
                assert forall|j: int| 0 <= j < self.keys@.len() implies #[trigger] self.at@.contains_key(
                    self.keys@[j]@,
                ) && self.at@[self.keys@[j]@] == j by {
                    if j < i {
                        assert(self.keys@[j]@ != key@);
                    }
                }
            },
        }
        assert(self.model() =~= goal);
    }

    /// One more conflict on each of `keys`, in order.
    fn bump_each(&mut self, keys: &Vec<String>, writable: bool)
        requires
            old(self).wf(),
            totals_fit(bump_all(old(self).model(), keys.deep_view(), writable)),
        ensures
            final(self).wf(),
            final(self).model() == bump_all(old(self).model(), keys.deep_view(), writable),
    {
        let ghost all = keys.deep_view();
        let mut i: usize = 0;
        while i < keys.len()
            invariant
                i <= keys@.len(),
                all == keys.deep_view(),
                self.wf(),
                self.model() == bump_all(old(self).model(), all.take(i as int), writable),
                totals_fit(bump_all(old(self).model(), all, writable)),
            decreases keys@.len() - i,
        {
            proof {
                assert(all.take(i + 1).drop_last() =~= all.take(i as int));
                lemma_bump_all_prefix(old(self).model(), all, writable, i + 1);
                lemma_fits_le(
                    bump_all(old(self).model(), all.take(i + 1), writable),
                    bump_all(old(self).model(), all, writable),
                );
            }
            self.bump(&keys[i], writable);
            i += 1;
        }
        assert(all.take(keys@.len() as int) =~= all);
    }
}

/// Every key of `a` is in `b`, with counts at least as large.
pub open spec fn tally_le(a: Tallies, b: Tallies) -> bool {
    forall|k: Seq<char>|
        #[trigger] a.contains_key(k) ==> b.contains_key(k) && a[k].0 <= b[k].0 && a[k].1 <= b[k].1
}

proof fn lemma_le_refl(a: Tallies)
    ensures
        tally_le(a, a),
{
}

proof fn lemma_le_trans(a: Tallies, b: Tallies, c: Tallies)
    requires
        tally_le(a, b),
        tally_le(b, c),
    ensures
        tally_le(a, c),
{
    assert forall|k: Seq<char>| #[trigger] a.contains_key(k) implies c.contains_key(k) && a[k].0
        <= c[k].0 && a[k].1 <= c[k].1 by {
        assert(b.contains_key(k));
    }
}

proof fn lemma_fits_le(a: Tallies, b: Tallies)
    requires
        tally_le(a, b),
        totals_fit(b),
    ensures
        totals_fit(a),
{
    assert forall|k: Seq<char>| #[trigger] a.contains_key(k) implies a[k].0 + a[k].1
        <= u64::MAX by {
        assert(b.contains_key(k));
    }
}

proof fn lemma_bump_le(a: Tallies, key: Seq<char>, writable: bool)
    ensures
        tally_le(a, bump(a, key, writable)),
{
}

proof fn lemma_bump_all_le(a: Tallies, keys: Seq<Seq<char>>, writable: bool)
    ensures
        tally_le(a, bump_all(a, keys, writable)),
    decreases keys.len(),
{
    if keys.len() == 0 {
        lemma_le_refl(a);
    } else {
        let mid = bump_all(a, keys.drop_last(), writable);
        lemma_bump_all_le(a, keys.drop_last(), writable);
        lemma_bump_le(mid, keys.last(), writable);
        lemma_le_trans(a, mid, bump_all(a, keys, writable));
    }
}

proof fn lemma_bump_all_prefix(a: Tallies, keys: Seq<Seq<char>>, writable: bool, n: int)
    requires
        0 <= n <= keys.len(),
    ensures
        tally_le(bump_all(a, keys.take(n), writable), bump_all(a, keys, writable)),
    decreases keys.len() - n,
{
    if n == keys.len() {
        assert(keys.take(n) =~= keys);
        lemma_le_refl(bump_all(a, keys, writable));
    } else {
        lemma_bump_all_prefix(a, keys, writable, n + 1);
        assert(keys.take(n + 1).drop_last() =~= keys.take(n));
        let small = bump_all(a, keys.take(n), writable);
        lemma_bump_le(small, keys[n], writable);
        lemma_le_trans(small, bump_all(a, keys.take(n + 1), writable), bump_all(a, keys, writable));
    }
}

proof fn lemma_account_prefix(events: Seq<ConflictModel>, n: int)
    requires
        0 <= n <= events.len(),
    ensures
        tally_le(account_tally(events.take(n)), account_tally(events)),
    decreases events.len() - n,
{
    if n == events.len() {
        assert(events.take(n) =~= events);
        lemma_le_refl(account_tally(events));
    } else {
        lemma_account_prefix(events, n + 1);
        assert(events.take(n + 1).drop_last() =~= events.take(n));
        let small = account_tally(events.take(n));
        lemma_bump_le(small, events[n].account, events[n].writable);
        lemma_le_trans(small, account_tally(events.take(n + 1)), account_tally(events));
    }
}

proof fn lemma_program_prefix(events: Seq<ConflictModel>, n: int)
    requires
        0 <= n <= events.len(),
    ensures
        tally_le(program_tally(events.take(n)), program_tally(events)),
    decreases events.len() - n,
{
    if n == events.len() {
        assert(events.take(n) =~= events);
        lemma_le_refl(program_tally(events));
    } else {
        lemma_program_prefix(events, n + 1);
        assert(events.take(n + 1).drop_last() =~= events.take(n));
        let small = program_tally(events.take(n));
        lemma_bump_all_le(small, events[n].program_ids, events[n].writable);
        lemma_le_trans(small, program_tally(events.take(n + 1)), program_tally(events));
    }
}

/// How many program counts `events` make: one per event and program id.
pub open spec fn program_bumps(events: Seq<ConflictModel>) -> nat
    decreases events.len(),
{
    if events.len() == 0 {
        0
    } else {
        program_bumps(events.drop_last()) + events.last().program_ids.len()
    }
}

/// No key of `counts` has a total above `n`.
pub open spec fn bounded(counts: Tallies, n: nat) -> bool {
    forall|k: Seq<char>| #[trigger] counts.contains_key(k) ==> counts[k].0 + counts[k].1 <= n
}

proof fn lemma_bounded_fits(counts: Tallies, n: nat)
    requires
        bounded(counts, n),
        n <= u64::MAX,
    ensures
        totals_fit(counts),
{
}

proof fn lemma_bump_bounded(counts: Tallies, n: nat, key: Seq<char>, writable: bool)
    requires
        bounded(counts, n),
    ensures
        bounded(bump(counts, key, writable), n + 1),
{
}

proof fn lemma_bump_all_bounded(counts: Tallies, n: nat, keys: Seq<Seq<char>>, writable: bool)
    requires
        bounded(counts, n),
    ensures
        bounded(bump_all(counts, keys, writable), n + keys.len()),
    decreases keys.len(),
{
    if keys.len() > 0 {
        lemma_bump_all_bounded(counts, n, keys.drop_last(), writable);
        lemma_bump_bounded(
            bump_all(counts, keys.drop_last(), writable),
            n + keys.drop_last().len(),
            keys.last(),
            writable,
        );
    }
}

proof fn lemma_account_bound(events: Seq<ConflictModel>)
    ensures
        bounded(account_tally(events), events.len()),
    decreases events.len(),
{
    if events.len() > 0 {
        lemma_account_bound(events.drop_last());
        lemma_bump_bounded(
            account_tally(events.drop_last()),
            events.drop_last().len(),
            events.last().account,
            events.last().writable,
        );
    }
}

proof fn lemma_program_bound(events: Seq<ConflictModel>)
    ensures
        bounded(program_tally(events), program_bumps(events)),
    decreases events.len(),
{
    if events.len() > 0 {
        lemma_program_bound(events.drop_last());
        lemma_bump_all_bounded(
            program_tally(events.drop_last()),
            program_bumps(events.drop_last()),
            events.last().program_ids,
            events.last().writable,
        );
    }
}

proof fn lemma_program_bumps_add(a: Seq<ConflictModel>, b: Seq<ConflictModel>)
    ensures
        program_bumps(a + b) == program_bumps(a) + program_bumps(b),
    decreases b.len(),
{
    if b.len() == 0 {
        assert(a + b =~= a);
    } else {
        lemma_program_bumps_add(a, b.drop_last());
        assert((a + b).drop_last() =~= a + b.drop_last());
    }
}

proof fn lemma_program_bumps_prefix(events: Seq<ConflictModel>, n: int)
    requires
        0 <= n <= events.len(),
    ensures
        program_bumps(events.take(n)) <= program_bumps(events),
    decreases events.len() - n,
{
    if n < events.len() {
        lemma_program_bumps_prefix(events, n + 1);
        assert(events.take(n + 1).drop_last() =~= events.take(n));
    } else {
        assert(events.take(n) =~= events);
    }
}

// ---------------------------------------------------------------------------
// Ranking
// ---------------------------------------------------------------------------

/// `a` ranks above `b`: a larger total, or an equal total and an earlier
/// first appearance.
pub open spec fn ranked_before(a: (u64, usize), b: (u64, usize)) -> bool {
    a.0 > b.0 || (a.0 == b.0 && a.1 < b.1)
}

/// Every element ranks above every later one.
pub open spec fn strictly_ranked(s: Seq<(u64, usize)>) -> bool {
    forall|i: int, j: int| 0 <= i < j < s.len() ==> ranked_before(#[trigger] s[i], #[trigger] s[j])
}

proof fn lemma_push_contains<A>(s: Seq<A>, x: A)
    ensures
        forall|y: A| #[trigger] s.push(x).contains(y) <==> s.contains(y) || y == x,
{
    assert forall|y: A| #[trigger] s.push(x).contains(y) <==> s.contains(y) || y == x by {
        if s.contains(y) {
            let k = choose|k: int| 0 <= k < s.len() && s[k] == y;
            assert(s.push(x)[k] == y);
        }
        if y == x {
            assert(s.push(x)[s.len() as int] == y);
        }
        if s.push(x).contains(y) {
            let k = choose|k: int| 0 <= k < s.push(x).len() && s.push(x)[k] == y;
            if k < s.len() {
                assert(s[k] == y);
            }
        }
    }
}

fn rank_merge(left: Vec<(u64, usize)>, right: Vec<(u64, usize)>) -> (res: Vec<(u64, usize)>)
    requires
        strictly_ranked(left@),
        strictly_ranked(right@),
        forall|x: (u64, usize)| !(left@.contains(x) && right@.contains(x)),
    ensures
        strictly_ranked(res@),
        res@.len() == left@.len() + right@.len(),
        forall|x: (u64, usize)| res@.contains(x) <==> left@.contains(x) || right@.contains(x),
{
    let mut res: Vec<(u64, usize)> = Vec::new();
    let mut i: usize = 0;
    let mut j: usize = 0;
    while i < left.len() || j < right.len()
        invariant
            i <= left@.len(),
            j <= right@.len(),
            strictly_ranked(left@),
            strictly_ranked(right@),
            forall|x: (u64, usize)| !(left@.contains(x) && right@.contains(x)),
            res@.len() == i + j,
            strictly_ranked(res@),
            forall|x: (u64, usize)|
                res@.contains(x) <==> left@.take(i as int).contains(x) || right@.take(
                    j as int,
                ).contains(x),
            forall|a: int, b: int|
                0 <= a < res@.len() && i <= b < left@.len() ==> ranked_before(
                    #[trigger] res@[a],
                    #[trigger] left@[b],
                ),
            forall|a: int, b: int|
                0 <= a < res@.len() && j <= b < right@.len() ==> ranked_before(
                    #[trigger] res@[a],
                    #[trigger] right@[b],
                ),
        decreases left@.len() + right@.len() - i - j,
    {
        let take_left = if j >= right.len() {
            true
        } else if i >= left.len() {
            false
        } else {
            let a = left[i];
            let b = right[j];
            a.0 > b.0 || (a.0 == b.0 && a.1 < b.1)
        };
        let ghost prev = res@;
        if take_left {
            let x = left[i];
            proof {
                if j < right@.len() && i < left@.len() {
                    assert forall|b: int| j <= b < right@.len() implies ranked_before(
                        x,
                        #[trigger] right@[b],
                    ) by {
                        if b > j {
                            assert(ranked_before(right@[j as int], right@[b]));
                        }
                    }
                }
            }
            res.push(x);
            assert(left@.take(i + 1) =~= left@.take(i as int).push(x));
            proof {
                lemma_push_contains(prev, x);
                lemma_push_contains(left@.take(i as int), x);
            }
            i += 1;
        } else {
            let x = right[j];
            proof {
                if i < left@.len() {
                    assert(left@[i as int] != x) by {
                        assert(left@.contains(left@[i as int]));
                        assert(right@.contains(x));
                    }
                    assert forall|b: int| i <= b < left@.len() implies ranked_before(
                        x,
                        #[trigger] left@[b],
                    ) by {
                        if b > i {
                            assert(ranked_before(left@[i as int], left@[b]));
                        }
                    }
                }
                assert forall|b: int| j + 1 <= b < right@.len() implies ranked_before(
                    x,
                    #[trigger] right@[b],
                ) by {}
            }
            res.push(x);
            assert(right@.take(j + 1) =~= right@.take(j as int).push(x));
            proof {
                lemma_push_contains(prev, x);
                lemma_push_contains(right@.take(j as int), x);
            }
            j += 1;
        }
        assert forall|a: int, b: int| 0 <= a < b < res@.len() implies ranked_before(
            #[trigger] res@[a],
            #[trigger] res@[b],
        ) by {
            if b == res@.len() - 1 {
                assert(res@[a] == prev[a]);
            }
        }
    }
    assert(left@.take(left@.len() as int) =~= left@);
    assert(right@.take(right@.len() as int) =~= right@);
    res
}

/// The pairs at positions `lo..hi` of `v`, ranked.
fn rank_sort(v: &Vec<(u64, usize)>, lo: usize, hi: usize) -> (res: Vec<(u64, usize)>)
    requires
        lo <= hi <= v@.len(),
        forall|i: int| lo <= i < hi ==> #[trigger] v@[i].1 == i,
    ensures
        strictly_ranked(res@),
        res@.len() == hi - lo,
        forall|x: (u64, usize)| res@.contains(x) <==> lo <= x.1 < hi && v@[x.1 as int] == x,
    decreases hi - lo,
{
    if hi - lo <= 1 {
        let mut res: Vec<(u64, usize)> = Vec::new();
        if hi - lo == 1 {
            res.push(v[lo]);
            assert forall|x: (u64, usize)| res@.contains(x) <==> lo <= x.1 < hi && v@[x.1 as int]
                == x by {
                if res@.contains(x) {
                    assert(res@[0] == x);
                }
                if lo <= x.1 < hi && v@[x.1 as int] == x {
                    assert(res@[0] == x);
                }
            }
        }
        res
    } else {
        let mid = lo + (hi - lo) / 2;
        let left = rank_sort(v, lo, mid);
        let right = rank_sort(v, mid, hi);
        let res = rank_merge(left, right);
        res
    }
}

impl Tally {
    /// The counts ranked by total, as (key, writes, reads).
    fn ranked(&self) -> (res: Vec<(String, u64, u64)>)
        requires
            self.wf(),
            totals_fit(self.model()),
        ensures
            ranks(res@.map_values(|e: (String, u64, u64)| (e.0@, e.1, e.2)), self.model()),
    {
        let n = self.keys.len();
        let mut pairs: Vec<(u64, usize)> = Vec::new();
        let mut i: usize = 0;
        while i < n
            invariant
                self.wf(),
                totals_fit(self.model()),
                n == self.keys@.len(),
                i <= n,
                pairs@.len() == i,
                forall|k: int|
                    0 <= k < i ==> #[trigger] pairs@[k] == (
                        (self.writes@[k] + self.reads@[k]) as u64,
                        k as usize,
                    ),
            decreases n - i,
        {
            assert(self.model().contains_key(self.keys@[i as int]@));
            let total = self.writes[i] + self.reads[i];
            pairs.push((total, i));
            i += 1;
        }
        let order = rank_sort(&pairs, 0, n);
        let mut res: Vec<(String, u64, u64)> = Vec::new();
        let mut k: usize = 0;
        while k < n
            invariant
                self.wf(),
                n == self.keys@.len(),
                k <= n,
                order@.len() == n,
                strictly_ranked(order@),
                forall|x: (u64, usize)| order@.contains(x) <==> 0 <= x.1 < n && pairs@[x.1 as int] == x,
                forall|m: int|
                    0 <= m < n ==> #[trigger] pairs@[m] == (
                        (self.writes@[m] + self.reads@[m]) as u64,
                        m as usize,
                    ),
                res@.len() == k,
                forall|m: int|
                    0 <= m < k ==> #[trigger] res@[m].0@ == self.keys@[order@[m].1 as int]@
                        && res@[m].1 == self.writes@[order@[m].1 as int] && res@[m].2
                        == self.reads@[order@[m].1 as int],
            decreases n - k,
        {
            assert(order@.contains(order@[k as int]));
            let at = order[k].1;
            res.push((self.keys[at].clone(), self.writes[at], self.reads[at]));
            k += 1;
        }
        let ghost view = res@.map_values(|e: (String, u64, u64)| (e.0@, e.1, e.2));
        let ghost counts = self.model();
        assert forall|m: int| 0 <= m < n implies order@[m].1 < n && #[trigger] order@[m]
            == pairs@[order@[m].1 as int] by {
            assert(order@.contains(order@[m]));
        }
        assert forall|a: int, b: int| 0 <= a < b < view.len() implies #[trigger] view[a].0
            != #[trigger] view[b].0 by {
            assert(ranked_before(order@[a], order@[b]));
            let x = order@[a].1 as int;
            let y = order@[b].1 as int;
            assert(order@[a] == pairs@[x] && order@[b] == pairs@[y]);
            assert(x != y);
            assert(self.at@.contains_key(self.keys@[x]@));
            assert(self.at@.contains_key(self.keys@[y]@));
        }
        assert forall|key: Seq<char>| #[trigger] counts.contains_key(key) <==> exists|m: int|
            0 <= m < view.len() && #[trigger] view[m].0 == key by {
            if counts.contains_key(key) {
                let at = self.at@[key];
                assert(order@.contains(pairs@[at as int]));
                let m = choose|m: int| 0 <= m < order@.len() && order@[m] == pairs@[at as int];
                assert(view[m].0 == key);
            }
        }
        assert forall|m: int| 0 <= m < view.len() implies counts.contains_key(#[trigger] view[m].0)
            && counts[view[m].0] == (view[m].1 as nat, view[m].2 as nat) by {
            let at = order@[m].1 as int;
            assert(self.at@.contains_key(self.keys@[at]@));
        }
        assert forall|a: int, b: int| 0 <= a < b < view.len() implies #[trigger] view[a].1
            + view[a].2 >= #[trigger] view[b].1 + view[b].2 by {
            assert(ranked_before(order@[a], order@[b]));
            let x = order@[a].1 as int;
            let y = order@[b].1 as int;
            assert(self.model().contains_key(self.keys@[x]@));
            assert(self.model().contains_key(self.keys@[y]@));
        }
        res
    }
}

/// Conflict counts gathered block by block over a range of slots.
pub struct RangeAccumulator {
    blocks: Vec<BlockReport>,
    accounts: Tally,
    programs: Tally,
    account_bumps: u64,
    program_bumps: u64,
    events: Ghost<Seq<ConflictModel>>,
}

impl RangeAccumulator {
    /// The counts agree with every conflict event met so far.
    pub closed spec fn wf(&self) -> bool {
        &&& self.accounts.wf()
        &&& self.programs.wf()
        &&& self.accounts.model() == account_tally(self.events@)
        &&& self.programs.model() == program_tally(self.events@)
        &&& self.account_bumps == self.events@.len()
        &&& self.program_bumps == program_bumps(self.events@)
    }

    /// Every conflict event of the blocks added so far, in order.
    pub closed spec fn events(&self) -> Seq<ConflictModel> {
        self.events@
    }

    /// The report lines of the blocks added so far.
    pub closed spec fn block_views(&self) -> Seq<BlockModel> {
        self.blocks@.map_values(|b: BlockReport| b@)
    }

    pub fn new() -> (res: Self)
        ensures
            res.wf(),
            res.events() == Seq::<ConflictModel>::empty(),
            res.block_views() == Seq::<BlockModel>::empty(),
    {
        let res = RangeAccumulator {
            blocks: Vec::new(),
            accounts: Tally::new(),
            programs: Tally::new(),
            account_bumps: 0,
            program_bumps: 0,
            events: Ghost(Seq::empty()),
        };
        assert(res.block_views() =~= Seq::<BlockModel>::empty());
        assert(account_tally(Seq::<ConflictModel>::empty()) =~= Tallies::empty());
        assert(program_tally(Seq::<ConflictModel>::empty()) =~= Tallies::empty());
        res
    }

    /// Schedules one block, records its report line, and counts each of its
    /// conflict events against its account and against each program of the
    /// rejected transaction. Callers pass transactions in tx_index order.
    /// Returns false, and records nothing, when the number of counts made
    /// so far (one per event for accounts, one per event and program id for
    /// programs) would pass `u64::MAX`.
    pub fn add_block(&mut self, slot: i64, transactions: &[Transaction]) -> (added: bool)
        requires
            old(self).wf(),
        ensures
            final(self).wf(),
            added == (old(self).events().len() + schedule_model(tx_views(transactions@)).conflicts.len()
                <= u64::MAX && program_bumps(
                old(self).events() + schedule_model(tx_views(transactions@)).conflicts,
            ) <= u64::MAX),
            added ==> final(self).events() == old(self).events() + schedule_model(
                tx_views(transactions@),
            ).conflicts,
            added ==> final(self).block_views() == old(self).block_views().push(
                block_model(slot, schedule_model(tx_views(transactions@)).steps),
            ),
            added ==> final(self).block_views().last().widths.len() == schedule_model(
                tx_views(transactions@),
            ).steps.len(),
            added ==> forall|k: int|
                0 <= k < schedule_model(tx_views(transactions@)).steps.len() ==> #[trigger] final(self).block_views().last().widths[k] == schedule_model(
                    tx_views(transactions@),
                ).steps[k].signatures.len(),
            !added ==> final(self).events() == old(self).events(),
            !added ==> final(self).block_views() == old(self).block_views(),
    {
        let ghost model = schedule_model(tx_views(transactions@));
        let schedule = schedule_block(transactions);
        let ghost start = self.events@;
        let ghost all = start + model.conflicts;
        proof {
            lemma_program_bumps_add(start, model.conflicts);
        }
        // Room for the new counts.
        let n_events = schedule.conflicts.len() as u64;
        let new_accounts = match self.account_bumps.checked_add(n_events) {
            Some(v) => v,
            None => return false,
        };
        let mut extra: u64 = 0;
        let mut c: usize = 0;
        while c < schedule.conflicts.len()
            invariant
                c <= schedule.conflicts@.len(),
                schedule.conflict_views() == model.conflicts,
                extra == program_bumps(model.conflicts.take(c as int)),
                model == schedule_model(tx_views(transactions@)),
                self.wf(),
                self.events@ == start,
                start == old(self).events(),
                self.block_views() == old(self).block_views(),
                all == start + model.conflicts,
                program_bumps(all) == program_bumps(start) + program_bumps(model.conflicts),
            decreases schedule.conflicts@.len() - c,
        {
            proof {
                assert(model.conflicts.take(c + 1).drop_last() =~= model.conflicts.take(c as int));
                assert(schedule.conflict_views()[c as int] == schedule.conflicts@[c as int]@);
            }
            let more = schedule.conflicts[c].program_ids.len() as u64;
            assert(model.conflicts.take(c + 1).last() == schedule.conflicts@[c as int]@);
            assert(schedule.conflicts@[c as int].program_ids.deep_view().len()
                == schedule.conflicts@[c as int].program_ids@.len());
            extra = match extra.checked_add(more) {
                Some(v) => v,
                None => {
                    proof {
                        lemma_program_bumps_prefix(model.conflicts, c + 1);
                    }
                    return false;
                },
            };
            c += 1;
        }
        assert(model.conflicts.take(model.conflicts.len() as int) =~= model.conflicts);
        let new_programs = match self.program_bumps.checked_add(extra) {
            Some(v) => v,
            None => return false,
        };
        proof {
            lemma_account_bound(all);
            lemma_program_bound(all);
            lemma_bounded_fits(account_tally(all), all.len());
            lemma_bounded_fits(program_tally(all), program_bumps(all));
        }
        let mut widths: Vec<usize> = Vec::new();
        let mut k: usize = 0;
        assert(schedule.step_views().len() == schedule.steps@.len());
        while k < schedule.steps.len()
            invariant
                k <= schedule.steps@.len(),
                model.steps.len() == schedule.steps@.len(),
                schedule.step_views() == model.steps.map_values(|s: StepModel| s.signatures),
                widths@.len() == k,
                forall|m: int|
                    0 <= m < k ==> #[trigger] widths@[m] as nat == model.steps[m].signatures.len(),
            decreases schedule.steps@.len() - k,
        {
            assert(schedule.step_views()[k as int] == schedule.steps@[k as int].deep_view());
            assert(model.steps.map_values(|s: StepModel| s.signatures)[k as int]
                == model.steps[k as int].signatures);
            assert(schedule.steps@[k as int].deep_view().len() == schedule.steps@[k as int]@.len());
            widths.push(schedule.steps[k].len());
            k += 1;
        }
        let report = BlockReport { slot, schedule_depth: schedule.steps.len(), step_widths: widths };
        assert(report@.widths =~= block_model(slot, model.steps).widths);
        assert(report@ == block_model(slot, model.steps));
        let ghost old_blocks = self.block_views();
        self.blocks.push(report);
        assert(self.block_views() =~= old_blocks.push(block_model(slot, model.steps)));
        let mut j: usize = 0;
        while j < schedule.conflicts.len()
            invariant
                j <= schedule.conflicts@.len(),
                schedule.conflict_views() == model.conflicts,
                all == start + model.conflicts,
                self.events@ == start + model.conflicts.take(j as int),
                self.accounts.wf(),
                self.programs.wf(),
                self.accounts.model() == account_tally(self.events@),
                self.programs.model() == program_tally(self.events@),
                totals_fit(account_tally(all)),
                totals_fit(program_tally(all)),
                self.block_views() == old_blocks.push(block_model(slot, model.steps)),
            decreases schedule.conflicts@.len() - j,
        {
            let event = &schedule.conflicts[j];
            let ghost next = start + model.conflicts.take(j + 1);
            proof {
                assert(schedule.conflict_views()[j as int] == event@);
                assert(next.drop_last() =~= start + model.conflicts.take(j as int));
                assert(next.last() == event@);
                assert(next =~= all.take(start.len() + j + 1));
                lemma_account_prefix(all, start.len() + j + 1);
                lemma_program_prefix(all, start.len() + j + 1);
                lemma_fits_le(account_tally(next), account_tally(all));
                lemma_fits_le(program_tally(next), program_tally(all));
            }
            self.accounts.bump(&event.account_pubkey, event.is_writable);
            self.programs.bump_each(&event.program_ids, event.is_writable);
            self.events = Ghost(next);
            j += 1;
        }
        assert(model.conflicts.take(model.conflicts.len() as int) =~= model.conflicts);
        self.account_bumps = new_accounts;
        self.program_bumps = new_programs;
        proof {
            law_block_line_lists_step_sizes(slot, tx_views(transactions@));
        }
        true
    }

    /// The report of every block added, with account and program counts
    /// ranked by total conflicts, highest first.
    pub fn finish(self) -> (res: RangeReport)
        requires
            self.wf(),
        ensures
            res.block_views() == self.block_views(),
            ranks(res.account_views(), account_tally(self.events())),
            ranks(res.program_views(), program_tally(self.events())),
    {
        proof {
            lemma_account_bound(self.events@);
            lemma_program_bound(self.events@);
            lemma_bounded_fits(account_tally(self.events@), self.events@.len());
            lemma_bounded_fits(program_tally(self.events@), program_bumps(self.events@));
        }
        let account_lines = self.accounts.ranked();
        let program_lines = self.programs.ranked();
        let ghost av = account_lines@.map_values(|e: (String, u64, u64)| (e.0@, e.1, e.2));
        let ghost pv = program_lines@.map_values(|e: (String, u64, u64)| (e.0@, e.1, e.2));
        let mut accounts: Vec<AccountConflictCount> = Vec::new();
        let mut i: usize = 0;
        while i < account_lines.len()
            invariant
                i <= account_lines@.len(),
                av == account_lines@.map_values(|e: (String, u64, u64)| (e.0@, e.1, e.2)),
                accounts@.len() == i,
                forall|m: int|
                    0 <= m < i ==> (#[trigger] accounts@[m]).account_pubkey@ == av[m].0
                        && accounts@[m].write_conflicts == av[m].1 && accounts@[m].read_conflicts
                        == av[m].2,
            decreases account_lines@.len() - i,
        {
            let line = &account_lines[i];
            accounts.push(
                AccountConflictCount {
                    account_pubkey: line.0.clone(),
                    write_conflicts: line.1,
                    read_conflicts: line.2,
                },
            );
            i += 1;
        }
        let mut programs: Vec<ProgramConflictCount> = Vec::new();
        let mut i: usize = 0;
        while i < program_lines.len()
            invariant
                i <= program_lines@.len(),
                pv == program_lines@.map_values(|e: (String, u64, u64)| (e.0@, e.1, e.2)),
                programs@.len() == i,
                forall|m: int|
                    0 <= m < i ==> (#[trigger] programs@[m]).program_id@ == pv[m].0
                        && programs@[m].write_conflicts == pv[m].1 && programs@[m].read_conflicts
                        == pv[m].2,
            decreases program_lines@.len() - i,
        {
            let line = &program_lines[i];
            programs.push(
                ProgramConflictCount {
                    program_id: line.0.clone(),
                    write_conflicts: line.1,
                    read_conflicts: line.2,
                },
            );
            i += 1;
        }
        let res = RangeReport { blocks: self.blocks, accounts, programs };
        assert(res.account_views() =~= av);
        assert(res.program_views() =~= pv);
        res
    }
}

// ---------------------------------------------------------------------------
// Depth and width summaries
// ---------------------------------------------------------------------------

/// The sum of a sequence.
pub open spec fn seq_sum(s: Seq<nat>) -> nat
    decreases s.len(),
{
    if s.len() == 0 {
        0
    } else {
        seq_sum(s.drop_last()) + s.last()
    }
}

/// The largest element of a sequence; zero for an empty one.
pub open spec fn seq_max(s: Seq<nat>) -> nat
    decreases s.len(),
{
    if s.len() == 0 {
        0
    } else if seq_max(s.drop_last()) < s.last() {
        s.last()
    } else {
        seq_max(s.drop_last())
    }
}

/// The smallest element of a sequence; zero for an empty one.
pub open spec fn seq_min(s: Seq<nat>) -> nat
    decreases s.len(),
{
    if s.len() == 0 {
        0
    } else if s.len() == 1 {
        s[0]
    } else if s.last() < seq_min(s.drop_last()) {
        s.last()
    } else {
        seq_min(s.drop_last())
    }
}

/// The schedule depth of each block.
pub open spec fn depths(blocks: Seq<BlockModel>) -> Seq<nat> {
    blocks.map_values(|b: BlockModel| b.depth)
}

/// The widths of every step of every block, block after block.
pub open spec fn all_widths(blocks: Seq<BlockModel>) -> Seq<nat>
    decreases blocks.len(),
{
    if blocks.len() == 0 {
        seq![]
    } else {
        all_widths(blocks.drop_last()) + blocks.last().widths
    }
}

/// Integer summaries of a report's block lines: the number of blocks and
/// the least, greatest and total schedule depth; the number of steps and
/// the greatest and total step width.
pub struct DepthStats {
    pub block_count: usize,
    pub min_depth: usize,
    pub max_depth: usize,
    pub depth_sum: usize,
    pub width_count: usize,
    pub max_width: usize,
    pub width_sum: usize,
}

proof fn lemma_sum_append(a: Seq<nat>, b: Seq<nat>)
    ensures
        seq_sum(a + b) == seq_sum(a) + seq_sum(b),
    decreases b.len(),
{
    if b.len() == 0 {
        assert(a + b =~= a);
    } else {
        lemma_sum_append(a, b.drop_last());
        assert((a + b).drop_last() =~= a + b.drop_last());
    }
}

proof fn lemma_widths_append(a: Seq<BlockModel>, b: Seq<BlockModel>)
    ensures
        all_widths(a + b) == all_widths(a) + all_widths(b),
    decreases b.len(),
{
    if b.len() == 0 {
        assert(a + b =~= a);
        assert(all_widths(a) + seq![] =~= all_widths(a));
    } else {
        lemma_widths_append(a, b.drop_last());
        assert((a + b).drop_last() =~= a + b.drop_last());
        assert(all_widths(a) + all_widths(b.drop_last()) + b.last().widths =~= all_widths(a) + (
        all_widths(b.drop_last()) + b.last().widths));
    }
}

/// The summaries of the block lines, or `None` where the total depth, the
/// total width or the number of steps passes `usize::MAX`.
pub fn depth_stats(blocks: &Vec<BlockReport>) -> (res: Option<DepthStats>)
    ensures
        ({
            let bv = blocks@.map_values(|b: BlockReport| b@);
            match res {
                Some(st) => {
                    &&& st.block_count == bv.len()
                    &&& st.min_depth == seq_min(depths(bv))
                    &&& st.max_depth == seq_max(depths(bv))
                    &&& st.depth_sum == seq_sum(depths(bv))
                    &&& st.width_count == all_widths(bv).len()
                    &&& st.max_width == seq_max(all_widths(bv))
                    &&& st.width_sum == seq_sum(all_widths(bv))
                },
                None => seq_sum(depths(bv)) > usize::MAX || seq_sum(all_widths(bv)) > usize::MAX
                    || all_widths(bv).len() > usize::MAX,
            }
        }),
{
    let ghost bv = blocks@.map_values(|b: BlockReport| b@);
    let ghost ds = depths(bv);
    let mut min_d: usize = 0;
    let mut max_d: usize = 0;
    let mut sum_d: usize = 0;
    let mut count_w: usize = 0;
    let mut max_w: usize = 0;
    let mut sum_w: usize = 0;
    let mut i: usize = 0;
    while i < blocks.len()
        invariant
            i <= blocks@.len(),
            bv == blocks@.map_values(|b: BlockReport| b@),
            ds == depths(bv),
            min_d == seq_min(ds.take(i as int)),
            max_d == seq_max(ds.take(i as int)),
            sum_d == seq_sum(ds.take(i as int)),
            count_w == all_widths(bv.take(i as int)).len(),
            max_w == seq_max(all_widths(bv.take(i as int))),
            sum_w == seq_sum(all_widths(bv.take(i as int))),
        decreases blocks@.len() - i,
    {
        let d = blocks[i].schedule_depth;
        let ghost before = ds.take(i as int);
        proof {
            assert(ds.take(i + 1).drop_last() =~= before);
            assert(ds.take(i + 1).last() == d as nat);
            assert(bv.take(i + 1).drop_last() =~= bv.take(i as int));
            assert(bv.take(i + 1).last() == blocks@[i as int]@);
            lemma_sum_append(ds.take(i + 1), ds.skip(i + 1));
            assert(ds.take(i + 1) + ds.skip(i + 1) =~= ds);
        }
        sum_d = match sum_d.checked_add(d) {
            Some(v) => v,
            None => return None,
        };
        if i == 0 || d < min_d {
            min_d = d;
        }
        if max_d < d {
            max_d = d;
        }
        let ws = &blocks[i].step_widths;
        let ghost wv = blocks@[i as int]@.widths;
        let ghost done = all_widths(bv.take(i as int));
        proof {
            lemma_widths_append(bv.take(i + 1), bv.skip(i + 1));
            assert(bv.take(i + 1) + bv.skip(i + 1) =~= bv);
            lemma_sum_append(all_widths(bv.take(i + 1)), all_widths(bv.skip(i + 1)));
        }
        let mut j: usize = 0;
        while j < ws.len()
            invariant
                j <= ws@.len(),
                bv == blocks@.map_values(|b: BlockReport| b@),
                wv == ws@.map_values(|w: usize| w as nat),
                all_widths(bv.take(i + 1)) == done + wv,
                all_widths(bv) == all_widths(bv.take(i + 1)) + all_widths(bv.skip(i + 1)),
                seq_sum(all_widths(bv)) == seq_sum(all_widths(bv.take(i + 1))) + seq_sum(
                    all_widths(bv.skip(i + 1)),
                ),
                count_w == (done + wv.take(j as int)).len(),
                max_w == seq_max(done + wv.take(j as int)),
                sum_w == seq_sum(done + wv.take(j as int)),
            decreases ws@.len() - j,
        {
            let w = ws[j];
            proof {
                assert((done + wv.take(j + 1)).drop_last() =~= done + wv.take(j as int));
                assert((done + wv.take(j + 1)).last() == w as nat);
                lemma_sum_append(done + wv.take(j + 1), wv.skip(j + 1));
                assert(done + wv.take(j + 1) + wv.skip(j + 1) =~= done + wv);
            }
            count_w = match count_w.checked_add(1) {
                Some(v) => v,
                None => return None,
            };
            sum_w = match sum_w.checked_add(w) {
                Some(v) => v,
                None => return None,
            };
            if max_w < w {
                max_w = w;
            }
            j += 1;
        }
        proof {
            assert(wv.take(ws@.len() as int) =~= wv);
        }
        i += 1;
    }
    proof {
        assert(ds.take(blocks@.len() as int) =~= ds);
        assert(bv.take(blocks@.len() as int) =~= bv);
    }
    Some(
        DepthStats {
            block_count: blocks.len(),
            min_depth: min_d,
            max_depth: max_d,
            depth_sum: sum_d,
            width_count: count_w,
            max_width: max_w,
            width_sum: sum_w,
        },
    )
}

// ---------------------------------------------------------------------------
// Laws
// ---------------------------------------------------------------------------

/// How many of `events` are on account `a` with the given lock kind.
pub open spec fn events_on(events: Seq<ConflictModel>, a: Seq<char>, writable: bool) -> nat {
    events.filter(|e: ConflictModel| e.account == a && e.writable == writable).len()
}

/// Conflicts are counted once per rejection: an account's write (read)
/// count is the number of conflict events on it through a write (read)
/// lock, and an account has a count exactly when some event names it.
pub proof fn law_account_counts_are_event_counts(events: Seq<ConflictModel>, a: Seq<char>)
    ensures
        count_of(account_tally(events), a) == (events_on(events, a, true), events_on(events, a, false)),
        account_tally(events).contains_key(a) <==> exists|i: int|
            0 <= i < events.len() && #[trigger] events[i].account == a,
    decreases events.len(),
{
    reveal_with_fuel(Seq::<_>::filter, 1);
    if events.len() > 0 {
        let d = events.drop_last();
        law_account_counts_are_event_counts(d, a);
        if exists|i: int| 0 <= i < d.len() && #[trigger] d[i].account == a {
            let i = choose|i: int| 0 <= i < d.len() && #[trigger] d[i].account == a;
            assert(events[i] == d[i]);
        }
        if exists|i: int| 0 <= i < events.len() && #[trigger] events[i].account == a {
            let i = choose|i: int| 0 <= i < events.len() && #[trigger] events[i].account == a;
            if i < events.len() - 1 {
                assert(d[i] == events[i]);
            }
        }
    }
}

/// How many times `p` occurs in `ids`.
pub open spec fn occurrences(ids: Seq<Seq<char>>, p: Seq<char>) -> nat
    decreases ids.len(),
{
    if ids.len() == 0 {
        0
    } else {
        occurrences(ids.drop_last(), p) + if ids.last() == p {
            1nat
        } else {
            0nat
        }
    }
}

/// How many counts `events` owe program `p` with the given lock kind: one
/// for each time `p` occurs in the program ids of such an event.
pub open spec fn program_hits(events: Seq<ConflictModel>, p: Seq<char>, writable: bool) -> nat
    decreases events.len(),
{
    if events.len() == 0 {
        0
    } else {
        program_hits(events.drop_last(), p, writable) + if events.last().writable == writable {
            occurrences(events.last().program_ids, p)
        } else {
            0nat
        }
    }
}

proof fn lemma_occurrences_contains(ids: Seq<Seq<char>>, p: Seq<char>)
    ensures
        occurrences(ids, p) > 0 <==> ids.contains(p),
    decreases ids.len(),
{
    if ids.len() > 0 {
        lemma_occurrences_contains(ids.drop_last(), p);
        if ids.drop_last().contains(p) {
            let i = choose|i: int| 0 <= i < ids.drop_last().len() && ids.drop_last()[i] == p;
            assert(ids[i] == p);
        }
        if ids.contains(p) {
            let i = choose|i: int| 0 <= i < ids.len() && ids[i] == p;
            if i < ids.len() - 1 {
                assert(ids.drop_last()[i] == p);
            }
        }
    }
}

proof fn lemma_bump_all_count(t: Tallies, keys: Seq<Seq<char>>, writable: bool, p: Seq<char>)
    ensures
        count_of(bump_all(t, keys, writable), p) == (if writable {
            ((count_of(t, p).0 + occurrences(keys, p)) as nat, count_of(t, p).1)
        } else {
            (count_of(t, p).0, (count_of(t, p).1 + occurrences(keys, p)) as nat)
        }),
        bump_all(t, keys, writable).contains_key(p) <==> t.contains_key(p) || occurrences(keys, p)
            > 0,
    decreases keys.len(),
{
    if keys.len() > 0 {
        lemma_bump_all_count(t, keys.drop_last(), writable, p);
    }
}

/// Conflicts are counted against every program of the rejected
/// transaction: a program's write (read) count is the number of times it
/// occurs among the program ids of conflict events through a write (read)
/// lock, and a program has a count exactly when some event names it.
pub proof fn law_program_counts_are_event_counts(events: Seq<ConflictModel>, p: Seq<char>)
    ensures
        count_of(program_tally(events), p) == (program_hits(events, p, true), program_hits(
            events,
            p,
            false,
        )),
        program_tally(events).contains_key(p) <==> exists|i: int|
            0 <= i < events.len() && #[trigger] events[i].program_ids.contains(p),
    decreases events.len(),
{
    if events.len() > 0 {
        let d = events.drop_last();
        law_program_counts_are_event_counts(d, p);
        lemma_bump_all_count(program_tally(d), events.last().program_ids, events.last().writable, p);
        lemma_occurrences_contains(events.last().program_ids, p);
        if exists|i: int| 0 <= i < d.len() && #[trigger] d[i].program_ids.contains(p) {
            let i = choose|i: int| 0 <= i < d.len() && #[trigger] d[i].program_ids.contains(p);
            assert(events[i] == d[i]);
        }
        if exists|i: int| 0 <= i < events.len() && #[trigger] events[i].program_ids.contains(p) {
            let i = choose|i: int| 0 <= i < events.len() && #[trigger] events[i].program_ids.contains(p);
            if i < events.len() - 1 {
                assert(d[i] == events[i]);
            }
        }
    }
}

proof fn lemma_widths_sum(steps: Seq<StepModel>)
    ensures
        seq_sum(steps.map_values(|s: StepModel| s.signatures.len())) == placed_count(steps),
    decreases steps.len(),
{
    if steps.len() > 0 {
        lemma_widths_sum(steps.drop_last());
        assert(steps.map_values(|s: StepModel| s.signatures.len()).drop_last() =~= steps.drop_last().map_values(
            |s: StepModel| s.signatures.len(),
        ));
    }
}

/// A block's report line has the block's slot, as many steps as its
/// schedule, and, in step order, the number of transactions each step holds:
/// no width is zero and the widths add up to the number of transactions.
pub proof fn law_block_line_lists_step_sizes(slot: i64, txs: Seq<TxModel>)
    ensures
        block_model(slot, schedule_model(txs).steps).slot == slot,
        block_model(slot, schedule_model(txs).steps).depth == schedule_model(txs).steps.len(),
        block_model(slot, schedule_model(txs).steps).widths.len() == schedule_model(txs).steps.len(),
        forall|k: int|
            0 <= k < schedule_model(txs).steps.len() ==> #[trigger] block_model(
                slot,
                schedule_model(txs).steps,
            ).widths[k] == schedule_model(txs).steps[k].signatures.len() && block_model(
                slot,
                schedule_model(txs).steps,
            ).widths[k] > 0,
        seq_sum(block_model(slot, schedule_model(txs).steps).widths) == txs.len(),
{
    law_widths_add_up(txs);
    lemma_widths_sum(schedule_model(txs).steps);
}

} // verus!
