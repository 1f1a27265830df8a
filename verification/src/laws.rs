use vstd::prelude::*;
use crate::store::BalanceDatabase;
use crate::store::BalanceEntry;
use crate::store::HistoryEntry;
use crate::store::BlockHashEntry;
use crate::store::cur_lookup;
use crate::store::hist_best;
use crate::store::bh_max;
use crate::store::keep_le_hist;
use crate::store::keep_le_bh;
use crate::store::reorg_cur_seq;
use crate::store::reorg_cur_at;
use crate::store::restored_entry;
use crate::store::reorg_post;
use crate::store::lemma_reorg_cur_seq;
use crate::store::lemma_keep_le_bh_props;
use crate::store::lemma_bh_max;
use crate::tracker::transfer_delta;
use crate::tracker::transfer_applied;

verus! {

/// The sum of the signed effects of a run of decoded transfers — each given
/// as (ticker, from, to, amount) — on the (w, t) balance.
pub open spec fn sum_deltas(
    evs: Seq<(Seq<char>, Seq<char>, Seq<char>, u128)>,
    w: Seq<char>,
    t: Seq<char>,
) -> int
    decreases evs.len(),
{
    if evs.len() == 0 {
        0
    } else {
        sum_deltas(evs.drop_last(), w, t) + transfer_delta(
            evs.last().0,
            evs.last().1,
            evs.last().2,
            evs.last().3,
            w,
            t,
        )
    }
}

/// A balance always equals its starting value plus the sum of the signed
/// deltas of the transfers applied since: any chain of stores in which each
/// step moves the (w, t) balance by one transfer's delta — as applying a
/// decoded transfer does — ends at the initial balance plus the sum.
pub proof fn lemma_balance_is_delta_sum(
    stores: Seq<BalanceDatabase>,
    evs: Seq<(Seq<char>, Seq<char>, Seq<char>, u128)>,
    w: Seq<char>,
    t: Seq<char>,
)
    requires
        stores.len() == evs.len() + 1,
        forall|i: int|
            0 <= i < evs.len() ==> stores[i + 1].bal0(w, t) == stores[i].bal0(w, t)
                + transfer_delta(
                (#[trigger] evs[i]).0,
                evs[i].1,
                evs[i].2,
                evs[i].3,
                w,
                t,
            ),
    ensures
        stores.last().bal0(w, t) == stores.first().bal0(w, t) + sum_deltas(evs, w, t),
    decreases evs.len(),
{
    if evs.len() > 0 {
        let stores2 = stores.drop_last();
        let evs2 = evs.drop_last();
        assert(forall|i: int| 0 <= i < stores2.len() ==> stores2[i] == stores[i]);
        assert(forall|i: int| 0 <= i < evs2.len() ==> evs2[i] == evs[i]);
        lemma_balance_is_delta_sum(stores2, evs2, w, t);
        assert(stores2.last() == stores[evs.len() - 1]);
        assert(evs.last() == evs[evs.len() - 1]);
        assert(stores.last() == stores[evs.len() as int]);
    }
}

/// A balance after a run of applied transfers, chained step by whole step:
/// stores linked by transfer_applied — which is what processing each
/// transfer log ensures — end with every balance equal to its starting
/// value plus the sum of the run's deltas. Each step of the run is
/// (height, ticker, from, to, amount).
pub proof fn lemma_applied_run_balances(
    stores: Seq<BalanceDatabase>,
    evs: Seq<(u64, Seq<char>, Seq<char>, Seq<char>, u128)>,
    w: Seq<char>,
    t: Seq<char>,
)
    requires
        stores.len() == evs.len() + 1,
        forall|i: int|
            0 <= i < evs.len() ==> transfer_applied(
                stores[i],
                stores[i + 1],
                (#[trigger] evs[i]).0,
                evs[i].1,
                evs[i].2,
                evs[i].3,
                evs[i].4,
            ),
    ensures
        stores.last().bal0(w, t) == stores.first().bal0(w, t) + sum_deltas(
            evs.map_values(
                |e: (u64, Seq<char>, Seq<char>, Seq<char>, u128)| (e.1, e.2, e.3, e.4),
            ),
            w,
            t,
        ),
{
    let mapped = evs.map_values(
        |e: (u64, Seq<char>, Seq<char>, Seq<char>, u128)| (e.1, e.2, e.3, e.4),
    );
    assert(mapped.len() == evs.len());
    assert forall|i: int| 0 <= i < mapped.len() implies stores[i + 1].bal0(w, t) == stores[i].bal0(
        w, t) + transfer_delta(
        (#[trigger] mapped[i]).0, mapped[i].1, mapped[i].2, mapped[i].3, w, t) by {
        assert(transfer_applied(
            stores[i], stores[i + 1], evs[i].0, evs[i].1, evs[i].2, evs[i].3, evs[i].4));
        assert(mapped[i] == (evs[i].1, evs[i].2, evs[i].3, evs[i].4));
    }
    lemma_balance_is_delta_sum(stores, mapped, w, t);
}

/// A pair that no transfer of an applied run touches keeps its row through
/// the run: in particular, a pair never recorded stays absent.
pub proof fn lemma_untouched_run_keeps_row(
    stores: Seq<BalanceDatabase>,
    evs: Seq<(u64, Seq<char>, Seq<char>, Seq<char>, u128)>,
    w: Seq<char>,
    t: Seq<char>,
)
    requires
        stores.len() == evs.len() + 1,
        forall|i: int|
            0 <= i < evs.len() ==> transfer_applied(
                stores[i],
                stores[i + 1],
                (#[trigger] evs[i]).0,
                evs[i].1,
                evs[i].2,
                evs[i].3,
                evs[i].4,
            ),
        forall|i: int|
            0 <= i < evs.len() ==> !((w == (#[trigger] evs[i]).2 || w == evs[i].3) && t == evs[
                i].1),
    ensures
        cur_lookup(stores.last().current@, w, t) == cur_lookup(stores.first().current@, w, t),
    decreases evs.len(),
{
    if evs.len() > 0 {
        let stores2 = stores.drop_last();
        let evs2 = evs.drop_last();
        assert(forall|i: int| 0 <= i < stores2.len() ==> stores2[i] == stores[i]);
        assert(forall|i: int| 0 <= i < evs2.len() ==> evs2[i] == evs[i]);
        lemma_untouched_run_keeps_row(stores2, evs2, w, t);
        let k = evs.len() - 1;
        assert(transfer_applied(
            stores[k], stores[k + 1], evs[k].0, evs[k].1, evs[k].2, evs[k].3, evs[k].4));
        assert(stores2.last() == stores[k]);
        assert(stores.last() == stores[k + 1]);
        assert(cur_lookup(stores[k + 1].current@, w, t) == cur_lookup(stores[k].current@, w, t));
    }
}

/// A store with an empty current table holds a zero balance for every pair,
/// so from a fresh store a balance is exactly the sum of applied deltas.
pub proof fn lemma_fresh_store_balances(s: BalanceDatabase, w: Seq<char>, t: Seq<char>)
    requires
        s.current@.len() == 0,
    ensures
        s.bal0(w, t) == 0,
{
}

/// Rolling back to height h never leaves the frontier above h: afterwards
/// the last block is at most h (as long as h is not below the pre-genesis
/// frontier first_block - 1, below which nothing exists to delete).
pub proof fn lemma_reorg_bounds_frontier(pre: BalanceDatabase, post: BalanceDatabase, h: u64)
    requires
        pre.wf(),
        reorg_post(pre, post, h),
        pre.first_block as int - 1 <= h as int,
    ensures
        post.last_block_int() <= h as int,
{
    lemma_keep_le_bh_props(pre.block_hashes@, h);
    if post.block_hashes@.len() > 0 {
        lemma_bh_max(post.block_hashes@);
        let i = choose|i: int|
            0 <= i < post.block_hashes@.len() && (#[trigger] post.block_hashes@[
                i]).block_height as int == bh_max(post.block_hashes@);
        assert(post.block_hashes@[i].block_height <= h);
    }
}

/// The store state that applying the creation schema leaves behind.
pub open spec fn init_state(s: BalanceDatabase) -> BalanceDatabase {
    BalanceDatabase { initialized: true, ..s }
}

/// Applying the creation schema twice has the same effect as applying it
/// once.
pub proof fn lemma_init_idempotent(s: BalanceDatabase)
    ensures
        init_state(init_state(s)) == init_state(s),
{
}

/// Every row of every height-bearing table sits at or below height h: the
/// state a store is in right after block h was sealed.
pub open spec fn sealed_at(s: BalanceDatabase, h: u64) -> bool {
    &&& forall|i: int|
        0 <= i < s.historical@.len() ==> (#[trigger] s.historical@[i]).block_height <= h
    &&& forall|i: int|
        0 <= i < s.block_hashes@.len() ==> (#[trigger] s.block_hashes@[i]).block_height <= h
    &&& forall|i: int| 0 <= i < s.current@.len() ==> (#[trigger] s.current@[i]).block_height <= h
}

pub proof fn lemma_keep_le_hist_id(s: Seq<HistoryEntry>, h: u64)
    requires
        forall|i: int| 0 <= i < s.len() ==> (#[trigger] s[i]).block_height <= h,
    ensures
        keep_le_hist(s, h) == s,
    decreases s.len(),
{
    if s.len() > 0 {
        assert(forall|i: int| 0 <= i < s.len() - 1 ==> s.drop_last()[i] == s[i]);
        lemma_keep_le_hist_id(s.drop_last(), h);
        assert(s.last() == s[s.len() - 1]);
        assert(keep_le_hist(s, h) =~= s);
    }
}

pub proof fn lemma_keep_le_bh_id(s: Seq<BlockHashEntry>, h: u64)
    requires
        forall|i: int| 0 <= i < s.len() ==> (#[trigger] s[i]).block_height <= h,
    ensures
        keep_le_bh(s, h) == s,
    decreases s.len(),
{
    if s.len() > 0 {
        assert(forall|i: int| 0 <= i < s.len() - 1 ==> s.drop_last()[i] == s[i]);
        lemma_keep_le_bh_id(s.drop_last(), h);
        assert(s.last() == s[s.len() - 1]);
        assert(keep_le_bh(s, h) =~= s);
    }
}

pub proof fn lemma_reorg_cur_seq_id(cur: Seq<BalanceEntry>, kept: Seq<HistoryEntry>, h: u64)
    requires
        forall|i: int| 0 <= i < cur.len() ==> (#[trigger] cur[i]).block_height <= h,
    ensures
        reorg_cur_seq(cur, kept, h) == cur,
    decreases cur.len(),
{
    if cur.len() > 0 {
        assert(forall|i: int| 0 <= i < cur.len() - 1 ==> cur.drop_last()[i] == cur[i]);
        lemma_reorg_cur_seq_id(cur.drop_last(), kept, h);
        assert(cur.last() == cur[cur.len() - 1]);
        assert(reorg_cur_seq(cur, kept, h) =~= cur);
    }
}

/// Clearing residue from a sealed state is a no-op: rolling a store back to
/// its own frontier, when nothing sits above the frontier, changes nothing.
pub proof fn lemma_clear_residue_sealed_noop(pre: BalanceDatabase, post: BalanceDatabase, h: u64)
    requires
        reorg_post(pre, post, h),
        sealed_at(pre, h),
    ensures
        post.first_block == pre.first_block,
        post.initialized == pre.initialized,
        post.tickers == pre.tickers,
        post.block_hashes@ == pre.block_hashes@,
        post.historical@ == pre.historical@,
        post.current@ == pre.current@,
{
    lemma_keep_le_hist_id(pre.historical@, h);
    lemma_keep_le_bh_id(pre.block_hashes@, h);
    lemma_reorg_cur_seq_id(pre.current@, keep_le_hist(pre.historical@, h), h);
}

/// A lookup result reduced to what identifies a balance: amount and height.
pub open spec fn cur_view_at(s: BalanceDatabase, w: Seq<char>, t: Seq<char>) -> Option<(u128, u64)> {
    match cur_lookup(s.current@, w, t) {
        Some(e) => Some((e.amount, e.block_height)),
        None => None,
    }
}

/// A found row is an element of the table.
pub proof fn lemma_cur_in(s: Seq<BalanceEntry>, w: Seq<char>, t: Seq<char>)
    requires
        cur_lookup(s, w, t) is Some,
    ensures
        exists|i: int| 0 <= i < s.len() && s[i] == cur_lookup(s, w, t)->Some_0,
    decreases s.len(),
{
    if s.len() > 0 {
        if s.last().wallet@ == w && s.last().ticker@ == t {
            assert(s[s.len() - 1] == cur_lookup(s, w, t)->Some_0);
        } else {
            lemma_cur_in(s.drop_last(), w, t);
            let i = choose|i: int|
                0 <= i < s.drop_last().len() && s.drop_last()[i] == cur_lookup(
                    s.drop_last(), w, t)->Some_0;
            assert(s[i] == cur_lookup(s, w, t)->Some_0);
        }
    }
}

/// Every current row is backed by history: its pair's best surviving
/// historical row carries the same amount and height, and pairs without a
/// current row have no history. Indexing preserves this; reorg relies on it.
pub open spec fn history_backed(s: BalanceDatabase) -> bool {
    forall|w: Seq<char>, t: Seq<char>|
        match #[trigger] cur_lookup(s.current@, w, t) {
            Some(e) => hist_best(s.historical@, w, t) matches Some(b) && b.amount == e.amount
                && b.block_height == e.block_height,
            None => hist_best(s.historical@, w, t) is None,
        }
}

pub proof fn lemma_keep_le_hist_ext(s: Seq<HistoryEntry>, p: Seq<HistoryEntry>, h: u64)
    requires
        s.len() >= p.len(),
        s.subrange(0, p.len() as int) == p,
        forall|i: int| p.len() <= i < s.len() ==> (#[trigger] s[i]).block_height > h,
    ensures
        keep_le_hist(s, h) == keep_le_hist(p, h),
    decreases s.len(),
{
    if s.len() == p.len() {
        assert(s =~= p);
    } else {
        assert(s[s.len() - 1].block_height > h);
        assert(s.last() == s[s.len() - 1]);
        assert(s.drop_last().subrange(0, p.len() as int) =~= p);
        assert(forall|i: int| 0 <= i < s.len() - 1 ==> s.drop_last()[i] == s[i]);
        lemma_keep_le_hist_ext(s.drop_last(), p, h);
    }
}

pub proof fn lemma_keep_le_bh_ext(s: Seq<BlockHashEntry>, p: Seq<BlockHashEntry>, h: u64)
    requires
        s.len() >= p.len(),
        s.subrange(0, p.len() as int) == p,
        forall|i: int| p.len() <= i < s.len() ==> (#[trigger] s[i]).block_height > h,
    ensures
        keep_le_bh(s, h) == keep_le_bh(p, h),
    decreases s.len(),
{
    if s.len() == p.len() {
        assert(s =~= p);
    } else {
        assert(s[s.len() - 1].block_height > h);
        assert(s.last() == s[s.len() - 1]);
        assert(s.drop_last().subrange(0, p.len() as int) =~= p);
        assert(forall|i: int| 0 <= i < s.len() - 1 ==> s.drop_last()[i] == s[i]);
        lemma_keep_le_bh_ext(s.drop_last(), p, h);
    }
}

/// mid extends pre strictly above h: everything that indexing blocks above h
/// adds to a store sealed at h — appended history and hashes all above h,
/// every current row either untouched or rewritten at a height above h, and
/// no current row deleted.
pub open spec fn extends_above(pre: BalanceDatabase, mid: BalanceDatabase, h: u64) -> bool {
    &&& mid.historical@.len() >= pre.historical@.len()
    &&& mid.historical@.subrange(0, pre.historical@.len() as int) == pre.historical@
    &&& forall|i: int|
        pre.historical@.len() <= i < mid.historical@.len() ==> (#[trigger] mid.historical@[
            i]).block_height > h
    &&& mid.block_hashes@.len() >= pre.block_hashes@.len()
    &&& mid.block_hashes@.subrange(0, pre.block_hashes@.len() as int) == pre.block_hashes@
    &&& forall|i: int|
        pre.block_hashes@.len() <= i < mid.block_hashes@.len() ==> (#[trigger] mid.block_hashes@[
            i]).block_height > h
    &&& forall|w: Seq<char>, t: Seq<char>|
        #[trigger] cur_lookup(mid.current@, w, t) == cur_lookup(pre.current@, w, t) || (cur_lookup(
            mid.current@, w, t) matches Some(e) && e.block_height > h)
    &&& forall|w: Seq<char>, t: Seq<char>|
        cur_lookup(pre.current@, w, t) is Some ==> #[trigger] cur_lookup(mid.current@, w, t) is Some
}

/// A store extends itself above any height.
pub proof fn lemma_extends_above_refl(s: BalanceDatabase, h: u64)
    ensures
        extends_above(s, s, h),
{
    assert(s.historical@.subrange(0, s.historical@.len() as int) =~= s.historical@);
    assert(s.block_hashes@.subrange(0, s.block_hashes@.len() as int) =~= s.block_hashes@);
}

/// Applying one transfer at a height above h keeps the store an extension
/// above h: each indexing mutation only adds above the sealed frontier.
pub proof fn lemma_extends_above_transfer(
    pre: BalanceDatabase,
    mid: BalanceDatabase,
    post: BalanceDatabase,
    h: u64,
    height: u64,
    tk: Seq<char>,
    from: Seq<char>,
    to: Seq<char>,
    amount: u128,
)
    requires
        extends_above(pre, mid, h),
        transfer_applied(mid, post, height, tk, from, to, amount),
        height > h,
    ensures
        extends_above(pre, post, h),
{
    let pn = pre.historical@.len() as int;
    let mn = mid.historical@.len() as int;
    assert(post.historical@.subrange(0, pn) =~= post.historical@.subrange(0, mn).subrange(0, pn));
    assert(post.historical@.subrange(0, pn) == pre.historical@);
    assert forall|i: int| pn <= i < post.historical@.len() implies (#[trigger] post.historical@[
        i]).block_height > h by {
        if i < mn {
            assert(post.historical@[i] == post.historical@.subrange(0, mn)[i]);
            assert(post.historical@[i] == mid.historical@[i]);
        } else {
            if from == crate::tracker::zero_addr() || to == crate::tracker::zero_addr() {
                assert(post.historical@[i] == post.historical@.last());
            } else {
                assert(i == mn || i == mn + 1);
                if i == mn + 1 {
                    assert(post.historical@[i] == post.historical@.last());
                }
            }
        }
    }
    assert forall|w: Seq<char>, t: Seq<char>| #[trigger] cur_lookup(post.current@, w, t)
        == cur_lookup(pre.current@, w, t) || (cur_lookup(post.current@, w, t) matches Some(e)
        && e.block_height > h) by {
        let touched = if from == crate::tracker::zero_addr() {
            w == to && t == tk
        } else if to == crate::tracker::zero_addr() {
            w == from && t == tk
        } else {
            (w == from || w == to) && t == tk
        };
        if touched {
            assert(crate::tracker::row_at(post, w, t, height));
        } else {
            assert(cur_lookup(post.current@, w, t) == cur_lookup(mid.current@, w, t));
        }
    }
    assert forall|w: Seq<char>, t: Seq<char>|
        cur_lookup(pre.current@, w, t) is Some implies #[trigger] cur_lookup(
        post.current@, w, t) is Some by {
        let touched = if from == crate::tracker::zero_addr() {
            w == to && t == tk
        } else if to == crate::tracker::zero_addr() {
            w == from && t == tk
        } else {
            (w == from || w == to) && t == tk
        };
        if touched {
            assert(crate::tracker::row_at(post, w, t, height));
        } else {
            assert(cur_lookup(post.current@, w, t) == cur_lookup(mid.current@, w, t));
        }
    }
}

/// Sealing a block above h keeps the store an extension above h.
pub proof fn lemma_extends_above_seal(
    pre: BalanceDatabase,
    mid: BalanceDatabase,
    post: BalanceDatabase,
    h: u64,
    e: BlockHashEntry,
)
    requires
        extends_above(pre, mid, h),
        post.block_hashes@ == mid.block_hashes@.push(e),
        e.block_height > h,
        post.historical@ == mid.historical@,
        post.current@ == mid.current@,
    ensures
        extends_above(pre, post, h),
{
    let pn = pre.block_hashes@.len() as int;
    assert(post.block_hashes@.subrange(0, pn) =~= mid.block_hashes@.subrange(0, pn));
    assert forall|i: int| pn <= i < post.block_hashes@.len() implies (
    #[trigger] post.block_hashes@[i]).block_height > h by {
        if i < mid.block_hashes@.len() {
            assert(post.block_hashes@[i] == mid.block_hashes@[i]);
        } else {
            assert(post.block_hashes@[i] == e);
        }
    }
}

/// Indexing then rolling back is a roundtrip: take a store sealed at h whose
/// current rows are history-backed (pre), index any number of blocks above h
/// onto it (mid) — the extension the step lemmas above maintain — and roll
/// back to h. The hashes, the history, and every balance are restored
/// exactly; only ticker rows, which are append-only, survive.
pub proof fn lemma_reorg_roundtrip(pre: BalanceDatabase, mid: BalanceDatabase, post: BalanceDatabase, h: u64)
    requires
        mid.wf(),
        sealed_at(pre, h),
        history_backed(pre),
        extends_above(pre, mid, h),
        reorg_post(mid, post, h),
    ensures
        post.block_hashes@ == pre.block_hashes@,
        post.historical@ == pre.historical@,
        post.tickers == mid.tickers,
        forall|w: Seq<char>, t: Seq<char>|
            #[trigger] cur_view_at(post, w, t) == cur_view_at(pre, w, t),
{
    lemma_keep_le_hist_ext(mid.historical@, pre.historical@, h);
    lemma_keep_le_hist_id(pre.historical@, h);
    lemma_keep_le_bh_ext(mid.block_hashes@, pre.block_hashes@, h);
    lemma_keep_le_bh_id(pre.block_hashes@, h);
    lemma_reorg_cur_seq(mid.current@, pre.historical@, h);
    assert forall|w: Seq<char>, t: Seq<char>| #[trigger] cur_view_at(post, w, t) == cur_view_at(
        pre, w, t) by {
        assert(cur_lookup(post.current@, w, t) == reorg_cur_at(
            mid.current@, pre.historical@, h, w, t));
        match cur_lookup(mid.current@, w, t) {
            None => {
                assert(cur_lookup(pre.current@, w, t) is None);
            },
            Some(e) => {
                if cur_lookup(mid.current@, w, t) == cur_lookup(pre.current@, w, t) && !(
                e.block_height > h) {
                    assert(cur_lookup(post.current@, w, t) == Some(e));
                } else {
                    assert(e.block_height > h);
                    match cur_lookup(pre.current@, w, t) {
                        Some(e0) => {
                            assert(hist_best(pre.historical@, w, t) matches Some(b) && b.amount
                                == e0.amount && b.block_height == e0.block_height);
                            let b = hist_best(pre.historical@, w, t)->Some_0;
                            assert(cur_lookup(post.current@, w, t) == Some(restored_entry(e, b)));
                        },
                        None => {
                            assert(hist_best(pre.historical@, w, t) is None);
                            assert(cur_lookup(post.current@, w, t) is None);
                        },
                    }
                }
            },
        }
    }
}

/// The frontier only advances while blocks are sealed: sealing a block
/// above the last one moves the last block up to exactly its height, so
/// outside a reorg the last block never decreases.
pub proof fn lemma_seal_advances(pre: BalanceDatabase, post: BalanceDatabase, e: BlockHashEntry)
    requires
        post.block_hashes@ == pre.block_hashes@.push(e),
        post.first_block == pre.first_block,
        e.block_height as int > pre.last_block_int(),
    ensures
        post.last_block_int() == e.block_height as int,
        post.last_block_int() > pre.last_block_int(),
{
    assert(post.block_hashes@.drop_last() =~= pre.block_hashes@);
    assert(post.block_hashes@.last() == e);
    assert(bh_max(post.block_hashes@) == if e.block_height as int > bh_max(pre.block_hashes@) {
        e.block_height as int
    } else {
        bh_max(pre.block_hashes@)
    });
    if pre.block_hashes@.len() == 0 {
        assert(bh_max(pre.block_hashes@) == -1);
    } else {
        assert(pre.last_block_int() == bh_max(pre.block_hashes@));
    }
}

} // verus!
