use vstd::prelude::*;

verus! {

/// One row of the authoritative latest-balance table, keyed by (wallet, ticker).
pub struct BalanceEntry {
    pub wallet: String,
    pub ticker: String,
    pub amount: u128,
    pub block_height: u64,
}

/// One append-only snapshot row: the balance a mutation left behind.
pub struct HistoryEntry {
    pub block_height: u64,
    pub wallet: String,
    pub ticker: String,
    pub amount: u128,
}

/// The mapping from an event-emitting contract to its ticker identity.
pub struct TickerEntry {
    pub ticker: String,
    pub ticker_hash: String,
    pub contract_address: String,
}

/// The reorg anchor: the hash under which a block height was sealed.
pub struct BlockHashEntry {
    pub block_height: u64,
    pub block_hash: String,
}

#[derive(Clone, Copy, PartialEq, Eq, Structural, Debug)]
pub enum StoreError {
    TickerExists,
    BlockHashExists,
}

/// The balance ledger: current balances, per-mutation history, ticker
/// identities and sealed block hashes, all rooted at a first block height.
pub struct BalanceDatabase {
    pub first_block: u64,
    pub initialized: bool,
    pub current: Vec<BalanceEntry>,
    pub historical: Vec<HistoryEntry>,
    pub tickers: Vec<TickerEntry>,
    pub block_hashes: Vec<BlockHashEntry>,
}

// ---------------------------------------------------------------------------
// Lookup spec functions: the table semantics of the backing vectors.
// ---------------------------------------------------------------------------

/// The current-balance row for a (wallet, ticker) pair, if any.
pub open spec fn cur_lookup(s: Seq<BalanceEntry>, w: Seq<char>, t: Seq<char>) -> Option<BalanceEntry>
    decreases s.len(),
{
    if s.len() == 0 {
        None
    } else if s.last().wallet@ == w && s.last().ticker@ == t {
        Some(s.last())
    } else {
        cur_lookup(s.drop_last(), w, t)
    }
}

/// The sealed hash row for a block height, if any.
pub open spec fn bh_lookup(s: Seq<BlockHashEntry>, h: u64) -> Option<BlockHashEntry>
    decreases s.len(),
{
    if s.len() == 0 {
        None
    } else if s.last().block_height == h {
        Some(s.last())
    } else {
        bh_lookup(s.drop_last(), h)
    }
}

/// The ticker row registered under a contract address, if any.
pub open spec fn ticker_lookup(s: Seq<TickerEntry>, a: Seq<char>) -> Option<TickerEntry>
    decreases s.len(),
{
    if s.len() == 0 {
        None
    } else if s.last().contract_address@ == a {
        Some(s.last())
    } else {
        ticker_lookup(s.drop_last(), a)
    }
}

pub open spec fn ticker_hash_taken(s: Seq<TickerEntry>, h: Seq<char>) -> bool {
    exists|i: int| 0 <= i < s.len() && (#[trigger] s[i]).ticker_hash@ == h
}

pub open spec fn ticker_addr_taken(s: Seq<TickerEntry>, a: Seq<char>) -> bool {
    exists|i: int| 0 <= i < s.len() && (#[trigger] s[i]).contract_address@ == a
}

/// The surviving historical row with the greatest height for a pair; among
/// rows of equal height the one appended last wins.
pub open spec fn hist_best(s: Seq<HistoryEntry>, w: Seq<char>, t: Seq<char>) -> Option<HistoryEntry>
    decreases s.len(),
{
    if s.len() == 0 {
        None
    } else {
        let rest = hist_best(s.drop_last(), w, t);
        if s.last().wallet@ == w && s.last().ticker@ == t {
            match rest {
                None => Some(s.last()),
                Some(b) => if s.last().block_height >= b.block_height {
                    Some(s.last())
                } else {
                    Some(b)
                },
            }
        } else {
            rest
        }
    }
}

/// The greatest sealed height, or -1 when no block is sealed.
pub open spec fn bh_max(s: Seq<BlockHashEntry>) -> int
    decreases s.len(),
{
    if s.len() == 0 {
        -1
    } else {
        let m = bh_max(s.drop_last());
        if s.last().block_height as int > m {
            s.last().block_height as int
        } else {
            m
        }
    }
}

// ---------------------------------------------------------------------------
// Reorg semantics
// ---------------------------------------------------------------------------

/// The historical rows that survive a rollback to height h, in order.
pub open spec fn keep_le_hist(s: Seq<HistoryEntry>, h: u64) -> Seq<HistoryEntry>
    decreases s.len(),
{
    if s.len() == 0 {
        Seq::<HistoryEntry>::empty()
    } else if s.last().block_height <= h {
        keep_le_hist(s.drop_last(), h).push(s.last())
    } else {
        keep_le_hist(s.drop_last(), h)
    }
}

/// The block-hash rows that survive a rollback to height h, in order.
pub open spec fn keep_le_bh(s: Seq<BlockHashEntry>, h: u64) -> Seq<BlockHashEntry>
    decreases s.len(),
{
    if s.len() == 0 {
        Seq::<BlockHashEntry>::empty()
    } else if s.last().block_height <= h {
        keep_le_bh(s.drop_last(), h).push(s.last())
    } else {
        keep_le_bh(s.drop_last(), h)
    }
}

/// A current row reinstated from the best surviving historical row.
pub open spec fn restored_entry(e: BalanceEntry, b: HistoryEntry) -> BalanceEntry {
    BalanceEntry { wallet: e.wallet, ticker: e.ticker, amount: b.amount, block_height: b.block_height }
}

/// The current-balance table after a rollback to height h: rows at or below
/// h survive; rows above h are reinstated from the surviving history, or
/// dropped when no history survives.
pub open spec fn reorg_cur_seq(cur: Seq<BalanceEntry>, kept: Seq<HistoryEntry>, h: u64) -> Seq<
    BalanceEntry,
>
    decreases cur.len(),
{
    if cur.len() == 0 {
        Seq::<BalanceEntry>::empty()
    } else {
        let rest = reorg_cur_seq(cur.drop_last(), kept, h);
        let e = cur.last();
        if e.block_height <= h {
            rest.push(e)
        } else {
            match hist_best(kept, e.wallet@, e.ticker@) {
                Some(b) => rest.push(restored_entry(e, b)),
                None => rest,
            }
        }
    }
}

/// What a current-row lookup yields after a rollback to height h.
pub open spec fn reorg_cur_at(
    cur: Seq<BalanceEntry>,
    kept: Seq<HistoryEntry>,
    h: u64,
    w: Seq<char>,
    t: Seq<char>,
) -> Option<BalanceEntry> {
    match cur_lookup(cur, w, t) {
        None => None,
        Some(e) => if e.block_height <= h {
            Some(e)
        } else {
            match hist_best(kept, w, t) {
                None => None,
                Some(b) => Some(restored_entry(e, b)),
            }
        },
    }
}

/// How a store after a rollback to height h relates to the store before it.
pub open spec fn reorg_post(pre: BalanceDatabase, post: BalanceDatabase, h: u64) -> bool {
    &&& post.first_block == pre.first_block
    &&& post.initialized == pre.initialized
    &&& post.tickers == pre.tickers
    &&& post.block_hashes@ == keep_le_bh(pre.block_hashes@, h)
    &&& post.historical@ == keep_le_hist(pre.historical@, h)
    &&& post.current@ == reorg_cur_seq(pre.current@, keep_le_hist(pre.historical@, h), h)
}

/// The number of rows a sample request yields: at most `count`, never more
/// than the table holds.
pub open spec fn sample_size(count: i32, len: int) -> int {
    if count <= 0 {
        0
    } else if count as int <= len {
        count as int
    } else {
        len
    }
}

// ---------------------------------------------------------------------------
// Well-formedness
// ---------------------------------------------------------------------------

pub open spec fn cur_keys_unique(s: Seq<BalanceEntry>) -> bool {
    forall|i: int, j: int|
        0 <= i < j < s.len() ==> !((#[trigger] s[i]).wallet@ == (#[trigger] s[j]).wallet@
            && s[i].ticker@ == s[j].ticker@)
}

pub open spec fn bh_unique(s: Seq<BlockHashEntry>) -> bool {
    forall|i: int, j: int|
        0 <= i < j < s.len() ==> (#[trigger] s[i]).block_height != (#[trigger] s[j]).block_height
}

pub open spec fn tickers_unique(s: Seq<TickerEntry>) -> bool {
    forall|i: int, j: int|
        0 <= i < j < s.len() ==> (#[trigger] s[i]).ticker_hash@ != (#[trigger] s[j]).ticker_hash@
            && s[i].contract_address@ != s[j].contract_address@
}

impl BalanceDatabase {
    /// Every key column that the tables treat as unique is unique.
    pub open spec fn wf(self) -> bool {
        &&& cur_keys_unique(self.current@)
        &&& bh_unique(self.block_hashes@)
        &&& tickers_unique(self.tickers@)
    }

    /// The latest amount for a pair, or None when never recorded.
    pub open spec fn bal_opt(self, w: Seq<char>, t: Seq<char>) -> Option<u128> {
        match cur_lookup(self.current@, w, t) {
            Some(e) => Some(e.amount),
            None => None,
        }
    }

    /// The latest amount for a pair, defaulting an absent pair to zero.
    pub open spec fn bal0(self, w: Seq<char>, t: Seq<char>) -> int {
        match cur_lookup(self.current@, w, t) {
            Some(e) => e.amount as int,
            None => 0,
        }
    }

    /// The greatest sealed height, or first_block - 1 when none is sealed.
    pub open spec fn last_block_int(self) -> int {
        if self.block_hashes@.len() == 0 {
            self.first_block as int - 1
        } else {
            bh_max(self.block_hashes@)
        }
    }

    /// last_block_int wrapped into u64, as the machine-level getter returns it.
    pub open spec fn last_block_u64(self) -> u64 {
        if self.block_hashes@.len() == 0 && self.first_block == 0 {
            u64::MAX
        } else {
            self.last_block_int() as u64
        }
    }

    /// A stored hash validates when the height is pre-genesis or the sealed
    /// hash equals the offered one.
    pub open spec fn valid_hash(self, h: u64, hash: Seq<char>) -> bool {
        ||| h < self.first_block
        ||| match bh_lookup(self.block_hashes@, h) {
            Some(e) => e.block_hash@ == hash,
            None => false,
        }
    }
}

// ---------------------------------------------------------------------------
// Lookup lemmas
// ---------------------------------------------------------------------------

pub proof fn lemma_cur_push(s: Seq<BalanceEntry>, e: BalanceEntry)
    ensures
        forall|w: Seq<char>, t: Seq<char>|
            #[trigger] cur_lookup(s.push(e), w, t) == (if e.wallet@ == w && e.ticker@ == t {
                Some(e)
            } else {
                cur_lookup(s, w, t)
            }),
{
    assert(s.push(e).drop_last() =~= s);
    assert(s.push(e).last() == e);
}

pub proof fn lemma_cur_none(s: Seq<BalanceEntry>, w: Seq<char>, t: Seq<char>)
    ensures
        (cur_lookup(s, w, t) is None) <==> (forall|i: int|
            0 <= i < s.len() ==> !((#[trigger] s[i]).wallet@ == w && s[i].ticker@ == t)),
    decreases s.len(),
{
    if s.len() > 0 {
        lemma_cur_none(s.drop_last(), w, t);
        assert(forall|i: int| 0 <= i < s.len() - 1 ==> s.drop_last()[i] == s[i]);
        assert(s.last() == s[s.len() - 1]);
    }
}

pub proof fn lemma_cur_found(s: Seq<BalanceEntry>, i: int, w: Seq<char>, t: Seq<char>)
    requires
        0 <= i < s.len(),
        s[i].wallet@ == w,
        s[i].ticker@ == t,
        cur_keys_unique(s),
    ensures
        cur_lookup(s, w, t) == Some(s[i]),
    decreases s.len(),
{
    if i == s.len() - 1 {
        assert(s.last() == s[i]);
    } else {
        assert(!(s[s.len() - 1].wallet@ == w && s[s.len() - 1].ticker@ == t));
        assert(s.drop_last()[i] == s[i]);
        lemma_cur_found(s.drop_last(), i, w, t);
    }
}

pub proof fn lemma_cur_remove(s: Seq<BalanceEntry>, i: int)
    requires
        0 <= i < s.len(),
        cur_keys_unique(s),
    ensures
        cur_keys_unique(s.remove(i)),
        cur_lookup(s.remove(i), s[i].wallet@, s[i].ticker@) is None,
        forall|w: Seq<char>, t: Seq<char>|
            !(s[i].wallet@ == w && s[i].ticker@ == t) ==> #[trigger] cur_lookup(s.remove(i), w, t)
                == cur_lookup(s, w, t),
    decreases s.len(),
{
    let r = s.remove(i);
    assert(forall|j: int| 0 <= j < i ==> r[j] == s[j]);
    assert(forall|j: int| i <= j < r.len() ==> r[j] == s[j + 1]);
    assert(cur_keys_unique(r));
    lemma_cur_none(r, s[i].wallet@, s[i].ticker@);
    if i == s.len() - 1 {
        assert(r =~= s.drop_last());
        assert(forall|w: Seq<char>, t: Seq<char>|
            !(s[i].wallet@ == w && s[i].ticker@ == t) ==> cur_lookup(s.drop_last(), w, t)
                == cur_lookup(s, w, t));
    } else {
        assert(r.last() == s.last());
        assert(r.drop_last() =~= s.drop_last().remove(i));
        assert(s.drop_last()[i] == s[i]);
        lemma_cur_remove(s.drop_last(), i);
        assert forall|w: Seq<char>, t: Seq<char>|
            !(s[i].wallet@ == w && s[i].ticker@ == t) implies #[trigger] cur_lookup(r, w, t)
                == cur_lookup(s, w, t) by {
            if s.last().wallet@ == w && s.last().ticker@ == t {
                assert(cur_lookup(r, w, t) == Some(r.last()));
                assert(cur_lookup(s, w, t) == Some(s.last()));
            } else {
                assert(cur_lookup(r, w, t) == cur_lookup(r.drop_last(), w, t));
                assert(cur_lookup(s, w, t) == cur_lookup(s.drop_last(), w, t));
                assert(cur_lookup(s.drop_last().remove(i), w, t) == cur_lookup(
                    s.drop_last(), w, t));
            }
        }
    }
}

pub proof fn lemma_bh_push(s: Seq<BlockHashEntry>, e: BlockHashEntry)
    ensures
        forall|h: u64|
            #[trigger] bh_lookup(s.push(e), h) == (if e.block_height == h {
                Some(e)
            } else {
                bh_lookup(s, h)
            }),
{
    assert(s.push(e).drop_last() =~= s);
    assert(s.push(e).last() == e);
}

pub proof fn lemma_bh_none(s: Seq<BlockHashEntry>, h: u64)
    ensures
        (bh_lookup(s, h) is None) <==> (forall|i: int|
            0 <= i < s.len() ==> (#[trigger] s[i]).block_height != h),
    decreases s.len(),
{
    if s.len() > 0 {
        lemma_bh_none(s.drop_last(), h);
        assert(forall|i: int| 0 <= i < s.len() - 1 ==> s.drop_last()[i] == s[i]);
        assert(s.last() == s[s.len() - 1]);
    }
}

pub proof fn lemma_bh_found(s: Seq<BlockHashEntry>, i: int)
    requires
        0 <= i < s.len(),
        bh_unique(s),
    ensures
        bh_lookup(s, s[i].block_height) == Some(s[i]),
    decreases s.len(),
{
    if i == s.len() - 1 {
        assert(s.last() == s[i]);
    } else {
        assert(s[s.len() - 1].block_height != s[i].block_height);
        assert(s.drop_last()[i] == s[i]);
        lemma_bh_found(s.drop_last(), i);
    }
}

pub proof fn lemma_ticker_none(s: Seq<TickerEntry>, a: Seq<char>)
    ensures
        (ticker_lookup(s, a) is None) <==> (forall|i: int|
            0 <= i < s.len() ==> (#[trigger] s[i]).contract_address@ != a),
    decreases s.len(),
{
    if s.len() > 0 {
        lemma_ticker_none(s.drop_last(), a);
        assert(forall|i: int| 0 <= i < s.len() - 1 ==> s.drop_last()[i] == s[i]);
        assert(s.last() == s[s.len() - 1]);
    }
}

pub proof fn lemma_ticker_found(s: Seq<TickerEntry>, i: int)
    requires
        0 <= i < s.len(),
        tickers_unique(s),
    ensures
        ticker_lookup(s, s[i].contract_address@) == Some(s[i]),
    decreases s.len(),
{
    if i == s.len() - 1 {
        assert(s.last() == s[i]);
    } else {
        assert(s[s.len() - 1].contract_address@ != s[i].contract_address@);
        assert(s.drop_last()[i] == s[i]);
        lemma_ticker_found(s.drop_last(), i);
    }
}

pub proof fn lemma_ticker_push(s: Seq<TickerEntry>, e: TickerEntry)
    ensures
        forall|a: Seq<char>|
            #[trigger] ticker_lookup(s.push(e), a) == (if e.contract_address@ == a {
                Some(e)
            } else {
                ticker_lookup(s, a)
            }),
{
    assert(s.push(e).drop_last() =~= s);
    assert(s.push(e).last() == e);
}

/// bh_max is the height of some entry (when nonempty) and bounds them all.
pub proof fn lemma_bh_max(s: Seq<BlockHashEntry>)
    ensures
        forall|i: int| 0 <= i < s.len() ==> (#[trigger] s[i]).block_height as int <= bh_max(s),
        s.len() > 0 ==> exists|i: int|
            0 <= i < s.len() && (#[trigger] s[i]).block_height as int == bh_max(s),
        s.len() == 0 ==> bh_max(s) == -1,
    decreases s.len(),
{
    if s.len() > 0 {
        lemma_bh_max(s.drop_last());
        assert(forall|i: int| 0 <= i < s.len() - 1 ==> s.drop_last()[i] == s[i]);
        assert(s.last() == s[s.len() - 1]);
        if s.len() > 1 && bh_max(s) != s.last().block_height as int {
            let j = choose|j: int|
                0 <= j < s.drop_last().len() && (#[trigger] s.drop_last()[j]).block_height as int
                    == bh_max(s.drop_last());
            assert(s[j].block_height as int == bh_max(s));
        }
    }
}

/// Surviving block-hash rows stay unique, sit at or below h, and come from
/// the original table.
pub proof fn lemma_keep_le_bh_props(s: Seq<BlockHashEntry>, h: u64)
    requires
        bh_unique(s),
    ensures
        bh_unique(keep_le_bh(s, h)),
        forall|j: int|
            0 <= j < keep_le_bh(s, h).len() ==> (#[trigger] keep_le_bh(s, h)[j]).block_height <= h,
        forall|j: int|
            0 <= j < keep_le_bh(s, h).len() ==> exists|k: int|
                0 <= k < s.len() && #[trigger] keep_le_bh(s, h)[j] == s[k],
    decreases s.len(),
{
    if s.len() > 0 {
        let pre = s.drop_last();
        assert(forall|i: int| 0 <= i < pre.len() ==> pre[i] == s[i]);
        lemma_keep_le_bh_props(pre, h);
        if s.last().block_height <= h {
            let kp = keep_le_bh(pre, h);
            assert forall|j: int| 0 <= j < kp.len() implies (#[trigger] kp[j]).block_height
                != s.last().block_height by {
                let k = choose|k: int| 0 <= k < pre.len() && kp[j] == pre[k];
                assert(s[k].block_height != s[s.len() - 1].block_height);
            }
            assert(bh_unique(kp.push(s.last())));
            assert forall|j: int| 0 <= j < kp.push(s.last()).len() implies exists|k: int|
                0 <= k < s.len() && #[trigger] kp.push(s.last())[j] == s[k] by {
                if j < kp.len() {
                    let k = choose|k: int| 0 <= k < pre.len() && kp[j] == pre[k];
                    assert(kp.push(s.last())[j] == s[k]);
                } else {
                    assert(kp.push(s.last())[j] == s[s.len() - 1]);
                }
            }
        }
    }
}

/// After the rebuild, current keys stay unique and every lookup agrees with
/// the pointwise rollback semantics.
pub proof fn lemma_reorg_cur_seq(cur: Seq<BalanceEntry>, kept: Seq<HistoryEntry>, h: u64)
    requires
        cur_keys_unique(cur),
    ensures
        cur_keys_unique(reorg_cur_seq(cur, kept, h)),
        forall|w: Seq<char>, t: Seq<char>|
            #[trigger] cur_lookup(reorg_cur_seq(cur, kept, h), w, t) == reorg_cur_at(
                cur, kept, h, w, t),
    decreases cur.len(),
{
    let r = reorg_cur_seq(cur, kept, h);
    if cur.len() == 0 {
        assert(r =~= Seq::<BalanceEntry>::empty());
    } else {
        let pre = cur.drop_last();
        assert(forall|i: int| 0 <= i < pre.len() ==> pre[i] == cur[i]);
        lemma_reorg_cur_seq(pre, kept, h);
        let rec = reorg_cur_seq(pre, kept, h);
        let e = cur.last();
        assert(e == cur[cur.len() - 1]);
        assert(forall|j: int|
            0 <= j < pre.len() ==> !((#[trigger] pre[j]).wallet@ == e.wallet@ && pre[j].ticker@
                == e.ticker@));
        lemma_cur_none(pre, e.wallet@, e.ticker@);
        assert(reorg_cur_at(pre, kept, h, e.wallet@, e.ticker@) is None);
        assert(cur_lookup(rec, e.wallet@, e.ticker@) is None);
        lemma_cur_none(rec, e.wallet@, e.ticker@);
        if e.block_height <= h {
            lemma_cur_push(rec, e);
            assert(cur_keys_unique(rec.push(e)));
        } else {
            match hist_best(kept, e.wallet@, e.ticker@) {
                Some(b) => {
                    lemma_cur_push(rec, restored_entry(e, b));
                    assert(cur_keys_unique(rec.push(restored_entry(e, b))));
                },
                None => {},
            }
        }
        assert forall|w: Seq<char>, t: Seq<char>| #[trigger] cur_lookup(r, w, t) == reorg_cur_at(
            cur, kept, h, w, t) by {
            if e.wallet@ == w && e.ticker@ == t {
                assert(cur_lookup(cur, w, t) == Some(e));
            } else {
                assert(cur_lookup(cur, w, t) == cur_lookup(pre, w, t));
            }
        }
    }
}

// ---------------------------------------------------------------------------
// Executable operations
// ---------------------------------------------------------------------------

/// The surviving historical row with the greatest height for a pair, as
/// (height, amount); later rows win ties.
fn find_best_history(hist: &Vec<HistoryEntry>, w: &String, t: &String) -> (r: Option<(u64, u128)>)
    ensures
        r == match hist_best(hist@, w@, t@) {
            Some(b) => Some((b.block_height, b.amount)),
            None => None::<(u64, u128)>,
        },
{
    let n = hist.len();
    let mut best: Option<(u64, u128)> = None;
    let mut i: usize = 0;
    while i < n
        invariant
            n == hist@.len(),
            i <= n,
            best == match hist_best(hist@.subrange(0, i as int), w@, t@) {
                Some(b) => Some((b.block_height, b.amount)),
                None => None::<(u64, u128)>,
            },
        decreases n - i,
    {
        proof {
            assert(hist@.subrange(0, i + 1).drop_last() =~= hist@.subrange(0, i as int));
            assert(hist@.subrange(0, i + 1).last() == hist@[i as int]);
        }
        let e = &hist[i];
        if e.wallet == *w && e.ticker == *t {
            match best {
                None => {
                    best = Some((e.block_height, e.amount));
                },
                Some((bh2, _)) => {
                    if e.block_height >= bh2 {
                        best = Some((e.block_height, e.amount));
                    }
                },
            }
        }
        i += 1;
    }
    proof {
        assert(hist@.subrange(0, n as int) =~= hist@);
    }
    best
}

impl BalanceDatabase {
    /// A fresh store rooted at the given first block, with no schema applied.
    pub fn new(first_block: u64) -> (r: Self)
        ensures
            r.first_block == first_block,
            !r.initialized,
            r.current@ =~= Seq::<BalanceEntry>::empty(),
            r.historical@ =~= Seq::<HistoryEntry>::empty(),
            r.tickers@ =~= Seq::<TickerEntry>::empty(),
            r.block_hashes@ =~= Seq::<BlockHashEntry>::empty(),
            r.wf(),
    {
        BalanceDatabase {
            first_block,
            initialized: false,
            current: Vec::new(),
            historical: Vec::new(),
            tickers: Vec::new(),
            block_hashes: Vec::new(),
        }
    }

    /// Applies the creation schema when absent; a second call changes nothing.
    pub fn init(&mut self)
        ensures
            *final(self) == (BalanceDatabase { initialized: true, ..*old(self) }),
    {
        self.initialized = true;
    }

    /// Drops all indexed data and leaves a freshly initialized schema.
    pub fn reset(&mut self)
        ensures
            final(self).first_block == old(self).first_block,
            final(self).initialized,
            final(self).current@ =~= Seq::<BalanceEntry>::empty(),
            final(self).historical@ =~= Seq::<HistoryEntry>::empty(),
            final(self).tickers@ =~= Seq::<TickerEntry>::empty(),
            final(self).block_hashes@ =~= Seq::<BlockHashEntry>::empty(),
            final(self).wf(),
    {
        self.initialized = true;
        self.current = Vec::new();
        self.historical = Vec::new();
        self.tickers = Vec::new();
        self.block_hashes = Vec::new();
    }

    /// The latest recorded amount for (wallet, ticker), or None when the pair
    /// was never recorded.
    pub fn get_balance(&self, wallet: String, ticker: String) -> (r: Option<u128>)
        requires
            self.wf(),
            self.initialized,
        ensures
            r == self.bal_opt(wallet@, ticker@),
    {
        let n = self.current.len();
        let mut i: usize = 0;
        while i < n
            invariant
                n == self.current@.len(),
                i <= n,
                self.wf(),
                forall|j: int|
                    0 <= j < i ==> !((#[trigger] self.current@[j]).wallet@ == wallet@
                        && self.current@[j].ticker@ == ticker@),
            decreases n - i,
        {
            if self.current[i].wallet == wallet && self.current[i].ticker == ticker {
                proof {
                    lemma_cur_found(self.current@, i as int, wallet@, ticker@);
                }
                return Some(self.current[i].amount);
            }
            i += 1;
        }
        proof {
            lemma_cur_none(self.current@, wallet@, ticker@);
        }
        None
    }

    /// Atomic upsert of the current balance together with an appended
    /// historical snapshot for the same mutation.
    pub fn update_balance(&mut self, block_height: u64, wallet: String, ticker: String, amount: u128)
        requires
            old(self).wf(),
            old(self).initialized,
        ensures
            final(self).wf(),
            final(self).initialized,
            final(self).first_block == old(self).first_block,
            final(self).tickers == old(self).tickers,
            final(self).block_hashes == old(self).block_hashes,
            final(self).historical@ == old(self).historical@.push(
                (HistoryEntry { block_height, wallet, ticker, amount }),
            ),
            cur_lookup(final(self).current@, wallet@, ticker@) == Some(
                (BalanceEntry { wallet, ticker, amount, block_height }),
            ),
            forall|w: Seq<char>, t: Seq<char>|
                !(wallet@ == w && ticker@ == t) ==> #[trigger] cur_lookup(final(self).current@, w, t)
                    == cur_lookup(old(self).current@, w, t),
    {
        let hist_wallet = wallet.clone();
        let hist_ticker = ticker.clone();
        let n = self.current.len();
        let mut i: usize = 0;
        let mut found = false;
        while i < n && !found
            invariant
                n == self.current@.len(),
                i <= n,
                *self == *old(self),
                found ==> i < n && self.current@[i as int].wallet@ == wallet@
                    && self.current@[i as int].ticker@ == ticker@,
                !found ==> forall|j: int|
                    0 <= j < i ==> !((#[trigger] self.current@[j]).wallet@ == wallet@
                        && self.current@[j].ticker@ == ticker@),
            decreases n - i + (if found { 0int } else { 1int }),
        {
            if self.current[i].wallet == wallet && self.current[i].ticker == ticker {
                found = true;
            } else {
                i += 1;
            }
        }
        let ghost cur0 = self.current@;
        if found {
            proof {
                lemma_cur_remove(cur0, i as int);
                lemma_cur_none(cur0.remove(i as int), wallet@, ticker@);
            }
            self.current.remove(i);
        } else {
            proof {
                lemma_cur_none(cur0, wallet@, ticker@);
            }
        }
        let ghost cur1 = self.current@;
        let entry = BalanceEntry { wallet, ticker, amount, block_height };
        proof {
            lemma_cur_push(cur1, entry);
            lemma_cur_none(cur1, entry.wallet@, entry.ticker@);
        }
        self.current.push(entry);
        self.historical.push(
            HistoryEntry {
                block_height,
                wallet: hist_wallet,
                ticker: hist_ticker,
                amount,
            },
        );
        proof {
            assert(cur_keys_unique(cur1.push(entry))) by {
                assert(forall|j: int|
                    0 <= j < cur1.len() ==> !((#[trigger] cur1[j]).wallet@ == entry.wallet@
                        && cur1[j].ticker@ == entry.ticker@)) by {
                    lemma_cur_none(cur1, entry.wallet@, entry.ticker@);
                }
            }
        }
    }

    /// Registers a ticker identity; fails when the hash or address collides.
    pub fn add_ticker(&mut self, ticker: String, ticker_hash: String, contract_address: String)
        -> (r: Result<(), StoreError>)
        requires
            old(self).wf(),
            old(self).initialized,
        ensures
            final(self).wf(),
            r is Ok <==> (!ticker_hash_taken(old(self).tickers@, ticker_hash@)
                && !ticker_addr_taken(old(self).tickers@, contract_address@)),
            r is Ok ==> *final(self) == (BalanceDatabase {
                tickers: final(self).tickers,
                ..*old(self)
            }) && final(self).tickers@ == old(self).tickers@.push(
                (TickerEntry { ticker, ticker_hash, contract_address }),
            ),
            r is Err ==> *final(self) == *old(self) && r == Err::<(), StoreError>(
                StoreError::TickerExists,
            ),
    {
        let n = self.tickers.len();
        let mut i: usize = 0;
        while i < n
            invariant
                n == self.tickers@.len(),
                i <= n,
                *self == *old(self),
                self.wf(),
                forall|j: int|
                    0 <= j < i ==> (#[trigger] self.tickers@[j]).ticker_hash@ != ticker_hash@
                        && self.tickers@[j].contract_address@ != contract_address@,
            decreases n - i,
        {
            if self.tickers[i].ticker_hash == ticker_hash
                || self.tickers[i].contract_address == contract_address {
                return Err(StoreError::TickerExists);
            }
            i += 1;
        }
        let entry = TickerEntry { ticker, ticker_hash, contract_address };
        proof {
            assert(tickers_unique(self.tickers@.push(entry)));
        }
        self.tickers.push(entry);
        Ok(())
    }

    /// The ticker name registered for a contract address, if any.
    pub fn get_ticker_by_address(&self, contract_address: String) -> (r: Option<String>)
        requires
            self.wf(),
            self.initialized,
        ensures
            r == match ticker_lookup(self.tickers@, contract_address@) {
                Some(e) => Some(e.ticker),
                None => None::<String>,
            },
    {
        let n = self.tickers.len();
        let mut i: usize = 0;
        while i < n
            invariant
                n == self.tickers@.len(),
                i <= n,
                self.wf(),
                forall|j: int|
                    0 <= j < i ==> (#[trigger] self.tickers@[j]).contract_address@
                        != contract_address@,
            decreases n - i,
        {
            if self.tickers[i].contract_address == contract_address {
                proof {
                    lemma_ticker_found(self.tickers@, i as int);
                }
                return Some(self.tickers[i].ticker.clone());
            }
            i += 1;
        }
        proof {
            lemma_ticker_none(self.tickers@, contract_address@);
        }
        None
    }

    /// The greatest sealed block height, or first_block - 1 (wrapping at
    /// zero) when nothing is sealed yet.
    pub fn get_last_block(&self) -> (r: u64)
        requires
            self.wf(),
            self.initialized,
        ensures
            r == self.last_block_u64(),
            self.block_hashes@.len() > 0 || self.first_block > 0 ==> r as int
                == self.last_block_int(),
    {
        let n = self.block_hashes.len();
        if n == 0 {
            if self.first_block == 0 {
                return u64::MAX;
            }
            return self.first_block - 1;
        }
        let mut m: u64 = self.block_hashes[0].block_height;
        let mut i: usize = 1;
        proof {
            let s1 = self.block_hashes@.subrange(0, 1);
            assert(s1.drop_last() =~= Seq::<BlockHashEntry>::empty());
            assert(s1.last() == self.block_hashes@[0]);
            assert(bh_max(s1.drop_last()) == -1);
            assert(bh_max(s1) == self.block_hashes@[0].block_height as int);
        }
        while i < n
            invariant
                n == self.block_hashes@.len(),
                1 <= i <= n,
                m as int == bh_max(self.block_hashes@.subrange(0, i as int)),
            decreases n - i,
        {
            proof {
                assert(self.block_hashes@.subrange(0, i + 1).drop_last() =~= self.block_hashes@
                    .subrange(0, i as int));
                assert(self.block_hashes@.subrange(0, i + 1).last() == self.block_hashes@[
                    i as int]);
            }
            if self.block_hashes[i].block_height > m {
                m = self.block_hashes[i].block_height;
            }
            i += 1;
        }
        proof {
            assert(self.block_hashes@.subrange(0, n as int) =~= self.block_hashes@);
            lemma_bh_max(self.block_hashes@);
        }
        m
    }

    /// One past the last sealed block; wraps to zero past the maximum height.
    pub fn get_next_block(&self) -> (r: u64)
        requires
            self.wf(),
            self.initialized,
        ensures
            self.last_block_u64() < u64::MAX ==> r == self.last_block_u64() + 1,
            self.last_block_u64() == u64::MAX ==> r == 0,
    {
        let l = self.get_last_block();
        if l == u64::MAX {
            0
        } else {
            l + 1
        }
    }

    /// The hash a height was sealed under, or None when it is not sealed.
    pub fn get_block_hash(&self, block_height: u64) -> (r: Option<String>)
        requires
            self.wf(),
            self.initialized,
        ensures
            r == match bh_lookup(self.block_hashes@, block_height) {
                Some(e) => Some(e.block_hash),
                None => None::<String>,
            },
    {
        let n = self.block_hashes.len();
        let mut i: usize = 0;
        while i < n
            invariant
                n == self.block_hashes@.len(),
                i <= n,
                self.wf(),
                forall|j: int|
                    0 <= j < i ==> (#[trigger] self.block_hashes@[j]).block_height != block_height,
            decreases n - i,
        {
            if self.block_hashes[i].block_height == block_height {
                proof {
                    lemma_bh_found(self.block_hashes@, i as int);
                }
                return Some(self.block_hashes[i].block_hash.clone());
            }
            i += 1;
        }
        proof {
            lemma_bh_none(self.block_hashes@, block_height);
        }
        None
    }

    /// Seals a height under a hash; fails when the height is already sealed.
    pub fn set_block_hash(&mut self, block_height: u64, block_hash: String) -> (r: Result<
        (),
        StoreError,
    >)
        requires
            old(self).wf(),
            old(self).initialized,
        ensures
            final(self).wf(),
            r is Ok <==> bh_lookup(old(self).block_hashes@, block_height) is None,
            r is Ok ==> *final(self) == (BalanceDatabase {
                block_hashes: final(self).block_hashes,
                ..*old(self)
            }) && final(self).block_hashes@ == old(self).block_hashes@.push(
                (BlockHashEntry { block_height, block_hash }),
            ),
            r is Err ==> *final(self) == *old(self) && r == Err::<(), StoreError>(
                StoreError::BlockHashExists,
            ),
    {
        let n = self.block_hashes.len();
        let mut i: usize = 0;
        while i < n
            invariant
                n == self.block_hashes@.len(),
                i <= n,
                *self == *old(self),
                self.wf(),
                forall|j: int|
                    0 <= j < i ==> (#[trigger] self.block_hashes@[j]).block_height != block_height,
            decreases n - i,
        {
            if self.block_hashes[i].block_height == block_height {
                proof {
                    lemma_bh_found(self.block_hashes@, i as int);
                }
                return Err(StoreError::BlockHashExists);
            }
            i += 1;
        }
        proof {
            lemma_bh_none(self.block_hashes@, block_height);
            assert(bh_unique(self.block_hashes@.push(
                BlockHashEntry { block_height, block_hash },
            )));
        }
        self.block_hashes.push(BlockHashEntry { block_height, block_hash });
        Ok(())
    }

    /// Whether a height is pre-genesis or sealed under exactly this hash.
    pub fn validate_block_hash(&self, block_height: u64, block_hash: String) -> (r: bool)
        requires
            self.wf(),
            self.initialized,
        ensures
            r == self.valid_hash(block_height, block_hash@),
    {
        if block_height < self.first_block {
            return true;
        }
        match self.get_block_hash(block_height) {
            Some(stored) => stored == block_hash,
            None => false,
        }
    }

    /// Rolls the whole store back to `from_block_height` in one step: rows
    /// above it are deleted, and each deleted current row is reinstated from
    /// the highest surviving historical row for its pair, if any.
    pub fn reorg(&mut self, from_block_height: u64)
        requires
            old(self).wf(),
            old(self).initialized,
        ensures
            final(self).wf(),
            reorg_post(*old(self), *final(self), from_block_height),
    {
        let h = from_block_height;
        let ghost bh0 = self.block_hashes@;
        let n = self.block_hashes.len();
        let mut new_bh: Vec<BlockHashEntry> = Vec::new();
        let mut i: usize = 0;
        while i < n
            invariant
                n == self.block_hashes@.len(),
                self.block_hashes@ == bh0,
                i <= n,
                new_bh@ == keep_le_bh(bh0.subrange(0, i as int), h),
            decreases n - i,
        {
            proof {
                assert(bh0.subrange(0, i + 1).drop_last() =~= bh0.subrange(0, i as int));
                assert(bh0.subrange(0, i + 1).last() == bh0[i as int]);
            }
            let e = &self.block_hashes[i];
            if e.block_height <= h {
                let ne = BlockHashEntry {
                    block_height: e.block_height,
                    block_hash: e.block_hash.clone(),
                };
                proof {
                    assert(ne == bh0[i as int]);
                }
                new_bh.push(ne);
            }
            i += 1;
        }
        proof {
            assert(bh0.subrange(0, n as int) =~= bh0);
        }
        self.block_hashes = new_bh;

        let ghost hist0 = self.historical@;
        let n2 = self.historical.len();
        let mut new_hist: Vec<HistoryEntry> = Vec::new();
        let mut i2: usize = 0;
        while i2 < n2
            invariant
                n2 == self.historical@.len(),
                self.historical@ == hist0,
                i2 <= n2,
                new_hist@ == keep_le_hist(hist0.subrange(0, i2 as int), h),
            decreases n2 - i2,
        {
            proof {
                assert(hist0.subrange(0, i2 + 1).drop_last() =~= hist0.subrange(0, i2 as int));
                assert(hist0.subrange(0, i2 + 1).last() == hist0[i2 as int]);
            }
            let e = &self.historical[i2];
            if e.block_height <= h {
                let ne = HistoryEntry {
                    block_height: e.block_height,
                    wallet: e.wallet.clone(),
                    ticker: e.ticker.clone(),
                    amount: e.amount,
                };
                proof {
                    assert(ne == hist0[i2 as int]);
                }
                new_hist.push(ne);
            }
            i2 += 1;
        }
        proof {
            assert(hist0.subrange(0, n2 as int) =~= hist0);
        }
        self.historical = new_hist;

        let ghost kept = self.historical@;
        let ghost cur0 = self.current@;
        let n3 = self.current.len();
        let mut new_cur: Vec<BalanceEntry> = Vec::new();
        let mut i3: usize = 0;
        while i3 < n3
            invariant
                n3 == self.current@.len(),
                self.current@ == cur0,
                self.historical@ == kept,
                i3 <= n3,
                new_cur@ == reorg_cur_seq(cur0.subrange(0, i3 as int), kept, h),
            decreases n3 - i3,
        {
            proof {
                assert(cur0.subrange(0, i3 + 1).drop_last() =~= cur0.subrange(0, i3 as int));
                assert(cur0.subrange(0, i3 + 1).last() == cur0[i3 as int]);
            }
            let e = &self.current[i3];
            if e.block_height <= h {
                let ne = BalanceEntry {
                    wallet: e.wallet.clone(),
                    ticker: e.ticker.clone(),
                    amount: e.amount,
                    block_height: e.block_height,
                };
                proof {
                    assert(ne == cur0[i3 as int]);
                }
                new_cur.push(ne);
            } else {
                match find_best_history(&self.historical, &e.wallet, &e.ticker) {
                    Some((bh2, amt)) => {
                        let ne = BalanceEntry {
                            wallet: e.wallet.clone(),
                            ticker: e.ticker.clone(),
                            amount: amt,
                            block_height: bh2,
                        };
                        proof {
                            assert(hist_best(kept, cur0[i3 as int].wallet@, cur0[
                                i3 as int].ticker@) is Some);
                            assert(ne == restored_entry(
                                cur0[i3 as int],
                                hist_best(kept, cur0[i3 as int].wallet@, cur0[
                                    i3 as int].ticker@)->Some_0,
                            ));
                        }
                        new_cur.push(ne);
                    },
                    None => {},
                }
            }
            i3 += 1;
        }
        proof {
            assert(cur0.subrange(0, n3 as int) =~= cur0);
        }
        self.current = new_cur;
        proof {
            lemma_reorg_cur_seq(cur0, kept, h);
            lemma_keep_le_bh_props(bh0, h);
        }
    }

    /// Rolls back any writes above the last sealed block, repairing residue
    /// left by a crash mid-block.
    pub fn clear_residue(&mut self)
        requires
            old(self).wf(),
            old(self).initialized,
        ensures
            final(self).wf(),
            reorg_post(*old(self), *final(self), old(self).last_block_u64()),
    {
        let l = self.get_last_block();
        self.reorg(l);
    }

    /// A sample of at most `count` rows of the current-balance table, taken
    /// in table order; the caller treats the choice as arbitrary.
    /// A sample of at most `count` rows of the current-balance table: the
    /// rows at positions `picks`, which the caller draws uniformly at random
    /// without replacement (randomness is an outside effect, so the draw is
    /// the caller's; this function returns exactly the drawn rows).
    pub fn random_wallet_ticker_pairs(&self, count: i32, picks: &Vec<usize>) -> (r: Vec<
        (String, String, u128),
    >)
        requires
            self.wf(),
            self.initialized,
            picks@.len() == sample_size(count, self.current@.len() as int),
            forall|j: int| 0 <= j < picks@.len() ==> (#[trigger] picks@[j]) < self.current@.len(),
            forall|j1: int, j2: int|
                0 <= j1 < j2 < picks@.len() ==> picks@[j1] != picks@[j2],
        ensures
            r@.len() == sample_size(count, self.current@.len() as int),
            forall|j: int|
                0 <= j < r@.len() ==> #[trigger] r@[j] == (
                    self.current@[picks@[j] as int].wallet,
                    self.current@[picks@[j] as int].ticker,
                    self.current@[picks@[j] as int].amount,
                ),
    {
        let mut out: Vec<(String, String, u128)> = Vec::new();
        let k = picks.len();
        let mut i: usize = 0;
        while i < k
            invariant
                self.wf(),
                k == picks@.len(),
                i <= k,
                out@.len() == i,
                forall|j: int|
                    0 <= j < picks@.len() ==> (#[trigger] picks@[j]) < self.current@.len(),
                forall|j: int|
                    0 <= j < i ==> #[trigger] out@[j] == (
                        self.current@[picks@[j] as int].wallet,
                        self.current@[picks@[j] as int].ticker,
                        self.current@[picks@[j] as int].amount,
                    ),
            decreases k - i,
        {
            let e = &self.current[picks[i]];
            out.push((e.wallet.clone(), e.ticker.clone(), e.amount));
            i += 1;
        }
        out
    }
}

} // verus!
