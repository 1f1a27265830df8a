use vstd::prelude::*;
use crate::store::BalanceDatabase;
use crate::store::BalanceEntry;
use crate::store::HistoryEntry;
use crate::store::StoreError;
use crate::store::cur_lookup;
use crate::store::ticker_lookup;
use crate::store::ticker_hash_taken;
use crate::store::ticker_addr_taken;
use crate::store::TickerEntry;
use crate::store::reorg_post;
use crate::events::Log;
use crate::events::LogEvent;
use crate::events::classify_log;
use crate::events::is_created_log;
use crate::events::is_transfer_log;
use crate::events::hex0x;
use crate::events::addr_of_topic;
use crate::events::spec_amount;
use crate::events::amount_from_data;
use crate::hexcodec::hex_decode;
use crate::hexcodec::bytes_of_hex;
use crate::hexcodec::all_hex_chars;

verus! {

/// The auditor's verdict on one sampling pass.
#[derive(Clone, Copy, PartialEq, Eq, Structural, Debug)]
pub enum TestStatus {
    Passed,
    NeedsRetry,
}

#[derive(Clone, Copy, PartialEq, Eq, Structural, Debug)]
pub enum TrackerError {
    /// A mint or transfer would push a balance past the 128-bit limit.
    Overflow,
    /// A burn or transfer would draw a balance below zero.
    InsufficientBalance,
    /// No common ancestor was found within the tolerated reorg depth.
    ReorgTooDeep,
    /// A creation event named a ticker hash or contract already registered.
    TickerExists,
    /// A sampled balance disagreed with the chain while the tip stood still.
    AuditMismatch,
}

/// What processing one log asks of the caller.
#[derive(PartialEq, Eq, Debug)]
pub enum LogOutcome {
    /// A balance mutation was applied.
    Applied,
    /// The log was not for this ledger, or was a zero-value transfer.
    Ignored,
    /// A ticker was created: the caller must fetch the token's display name
    /// from the named contract and hand it to register_ticker.
    NeedTickerName { ticker_hash: String, contract_address: String },
}

/// The zero address, source of mints and sink of burns.
pub open spec fn zero_addr() -> Seq<char> {
    "0x0000000000000000000000000000000000000000"@
}

/// The signed effect of one decoded transfer on the (w, t) balance.
pub open spec fn transfer_delta(
    tk: Seq<char>,
    from: Seq<char>,
    to: Seq<char>,
    amount: u128,
    w: Seq<char>,
    t: Seq<char>,
) -> int {
    if t != tk {
        0
    } else if from == zero_addr() {
        if w == to {
            amount as int
        } else {
            0
        }
    } else if to == zero_addr() {
        if w == from {
            -(amount as int)
        } else {
            0
        }
    } else {
        (if w == to {
            amount as int
        } else {
            0
        }) - (if w == from {
            amount as int
        } else {
            0
        })
    }
}

pub open spec fn hist_row_is(e: HistoryEntry, height: u64, w: Seq<char>, t: Seq<char>, a: u128) -> bool {
    e.block_height == height && e.wallet@ == w && e.ticker@ == t && e.amount == a
}

/// The (w, t) row exists and was last written at the given height.
pub open spec fn row_at(s: BalanceDatabase, w: Seq<char>, t: Seq<char>, height: u64) -> bool {
    match cur_lookup(s.current@, w, t) {
        Some(e) => e.block_height == height,
        None => false,
    }
}

/// How a store that applied one decoded transfer at `height` relates to the
/// store before it: every balance moves by its signed delta, and the history
/// grows by exactly the snapshot rows of the mutation, in mutation order.
pub open spec fn transfer_applied(
    pre: BalanceDatabase,
    post: BalanceDatabase,
    height: u64,
    tk: Seq<char>,
    from: Seq<char>,
    to: Seq<char>,
    amount: u128,
) -> bool {
    &&& post.first_block == pre.first_block
    &&& post.initialized == pre.initialized
    &&& post.tickers == pre.tickers
    &&& post.block_hashes == pre.block_hashes
    &&& forall|w: Seq<char>, t: Seq<char>|
        #[trigger] post.bal0(w, t) == pre.bal0(w, t) + transfer_delta(tk, from, to, amount, w, t)
    &&& post.historical@.subrange(0, pre.historical@.len() as int) == pre.historical@
    &&& if from == zero_addr() {
        &&& post.historical@.len() == pre.historical@.len() + 1
        &&& hist_row_is(post.historical@.last(), height, to, tk, (pre.bal0(to, tk) + amount) as u128)
        &&& row_at(post, to, tk, height)
        &&& forall|w: Seq<char>, t: Seq<char>|
            !(w == to && t == tk) ==> #[trigger] cur_lookup(post.current@, w, t) == cur_lookup(
                pre.current@, w, t)
    } else if to == zero_addr() {
        &&& post.historical@.len() == pre.historical@.len() + 1
        &&& hist_row_is(
            post.historical@.last(), height, from, tk, (pre.bal0(from, tk) - amount) as u128)
        &&& row_at(post, from, tk, height)
        &&& forall|w: Seq<char>, t: Seq<char>|
            !(w == from && t == tk) ==> #[trigger] cur_lookup(post.current@, w, t) == cur_lookup(
                pre.current@, w, t)
    } else {
        &&& post.historical@.len() == pre.historical@.len() + 2
        &&& hist_row_is(
            post.historical@[pre.historical@.len() as int],
            height,
            from,
            tk,
            (pre.bal0(from, tk) - amount) as u128,
        )
        &&& hist_row_is(
            post.historical@.last(),
            height,
            to,
            tk,
            ((if to == from {
                pre.bal0(from, tk) - amount
            } else {
                pre.bal0(to, tk)
            }) + amount) as u128,
        )
        &&& row_at(post, from, tk, height)
        &&& row_at(post, to, tk, height)
        &&& forall|w: Seq<char>, t: Seq<char>|
            !((w == from || w == to) && t == tk) ==> #[trigger] cur_lookup(post.current@, w, t)
                == cur_lookup(pre.current@, w, t)
    }
}

/// The single-writer tracker: owns the ledger and decides every mutation.
/// The caller performs the upstream fetches and hands their results in as
/// plain values.
pub struct BalanceTracker {
    pub database: BalanceDatabase,
}

impl BalanceTracker {
    pub fn new(database: BalanceDatabase) -> (r: Self)
        ensures
            r.database == database,
    {
        BalanceTracker { database }
    }

    /// Applies one log of a block by the decoding rules: a creation
    /// announcement is handed back for name resolution, a transfer from a
    /// registered token mutates balances, and everything else is ignored.
    /// Overflow and underflow are protocol violations and mutate nothing.
    pub fn process_log(&mut self, block_height: u64, log: &Log) -> (r: Result<
        LogOutcome,
        TrackerError,
    >)
        requires
            old(self).database.wf(),
            old(self).database.initialized,
        ensures
            final(self).database.wf(),
            final(self).database.initialized,
            final(self).database.tickers == old(self).database.tickers,
            final(self).database.block_hashes == old(self).database.block_hashes,
            final(self).database.first_block == old(self).database.first_block,
            is_created_log(*log) ==> *final(self) == *old(self) && (r matches Ok(
                LogOutcome::NeedTickerName { ticker_hash, contract_address },
            ) && ticker_hash@ == hex0x(log.topics@[1]@) && contract_address@ == addr_of_topic(
                log.topics@[2]@,
            )),
            !is_created_log(*log) && !is_transfer_log(*log) ==> *final(self) == *old(self) && (
            r matches Ok(LogOutcome::Ignored)),
            is_transfer_log(*log) ==> ({
                let pre = old(self).database;
                let post = final(self).database;
                let from = addr_of_topic(log.topics@[1]@);
                let to = addr_of_topic(log.topics@[2]@);
                let amount_i = spec_amount(log.data@);
                match ticker_lookup(pre.tickers@, hex0x(log.address@)) {
                    None => *final(self) == *old(self) && (r matches Ok(LogOutcome::Ignored)),
                    Some(te) => {
                        let tk = te.ticker@;
                        if amount_i == 0 {
                            *final(self) == *old(self) && (r matches Ok(LogOutcome::Ignored))
                        } else if from == zero_addr() {
                            if pre.bal0(to, tk) + amount_i > u128::MAX {
                                *final(self) == *old(self) && r == Err::<LogOutcome, TrackerError>(
                                    TrackerError::Overflow,
                                )
                            } else {
                                (r matches Ok(LogOutcome::Applied)) && transfer_applied(
                                    pre, post, block_height, tk, from, to, (amount_i as u128))
                            }
                        } else if to == zero_addr() {
                            if pre.bal0(from, tk) < amount_i {
                                *final(self) == *old(self) && r == Err::<LogOutcome, TrackerError>(
                                    TrackerError::InsufficientBalance,
                                )
                            } else {
                                (r matches Ok(LogOutcome::Applied)) && transfer_applied(
                                    pre, post, block_height, tk, from, to, (amount_i as u128))
                            }
                        } else {
                            if pre.bal0(from, tk) < amount_i {
                                *final(self) == *old(self) && r == Err::<LogOutcome, TrackerError>(
                                    TrackerError::InsufficientBalance,
                                )
                            } else if from != to && pre.bal0(to, tk) + amount_i > u128::MAX {
                                *final(self) == *old(self) && r == Err::<LogOutcome, TrackerError>(
                                    TrackerError::Overflow,
                                )
                            } else {
                                (r matches Ok(LogOutcome::Applied)) && transfer_applied(
                                    pre, post, block_height, tk, from, to, (amount_i as u128))
                            }
                        }
                    },
                }
            }),
    {
        let event = classify_log(log);
        match event {
            LogEvent::TickerCreated { ticker_hash, contract_address } => {
                Ok(LogOutcome::NeedTickerName { ticker_hash, contract_address })
            },
            LogEvent::Ignored => Ok(LogOutcome::Ignored),
            LogEvent::TokenTransfer { contract_address, from, to, amount } => {
                let tk = match self.database.get_ticker_by_address(contract_address) {
                    None => {
                        return Ok(LogOutcome::Ignored);
                    },
                    Some(t) => t,
                };
                if amount == 0 {
                    return Ok(LogOutcome::Ignored);
                }
                let zero = String::from_str("0x0000000000000000000000000000000000000000");
                let ghost pre = self.database;
                if from == zero {
                    let bal = match self.database.get_balance(to.clone(), tk.clone()) {
                        Some(b) => b,
                        None => 0,
                    };
                    if bal > u128::MAX - amount {
                        return Err(TrackerError::Overflow);
                    }
                    self.database.update_balance(block_height, to, tk, bal + amount);
                    proof {
                        lemma_mint_applied(pre, self.database, block_height, tk@, from@, to@, amount);
                    }
                    Ok(LogOutcome::Applied)
                } else if to == zero {
                    let bal = match self.database.get_balance(from.clone(), tk.clone()) {
                        Some(b) => b,
                        None => 0,
                    };
                    if bal < amount {
                        return Err(TrackerError::InsufficientBalance);
                    }
                    self.database.update_balance(block_height, from, tk, bal - amount);
                    proof {
                        lemma_burn_applied(pre, self.database, block_height, tk@, from@, to@, amount);
                    }
                    Ok(LogOutcome::Applied)
                } else {
                    let from_bal = match self.database.get_balance(from.clone(), tk.clone()) {
                        Some(b) => b,
                        None => 0,
                    };
                    if from_bal < amount {
                        return Err(TrackerError::InsufficientBalance);
                    }
                    if from != to {
                        let to_bal = match self.database.get_balance(to.clone(), tk.clone()) {
                            Some(b) => b,
                            None => 0,
                        };
                        if to_bal > u128::MAX - amount {
                            return Err(TrackerError::Overflow);
                        }
                    }
                    self.database.update_balance(
                        block_height,
                        from.clone(),
                        tk.clone(),
                        from_bal - amount,
                    );
                    let ghost mid = self.database;
                    let to_bal2 = match self.database.get_balance(to.clone(), tk.clone()) {
                        Some(b) => b,
                        None => 0,
                    };
                    proof {
                        if to@ == from@ {
                            assert(to_bal2 == from_bal - amount);
                        } else {
                            assert(mid.bal0(to@, tk@) == pre.bal0(to@, tk@));
                        }
                    }
                    self.database.update_balance(block_height, to, tk, to_bal2 + amount);
                    proof {
                        lemma_move_applied(
                            pre, mid, self.database, block_height, tk@, from@, to@, amount);
                    }
                    Ok(LogOutcome::Applied)
                }
            },
        }
    }
}

/// The first offset within the scan window whose upstream hash validates
/// against the store, or 10 when none does.
pub open spec fn scan_match(pre: BalanceDatabase, obs: Seq<String>, last: u64, i: int) -> int
    decreases 10 - i,
{
    if i < 0 || i >= 10 {
        10
    } else if pre.valid_hash((last - i) as u64, obs[i]@) {
        i
    } else {
        scan_match(pre, obs, last, i + 1)
    }
}

impl BalanceTracker {
    /// Records a freshly created ticker under its resolved display name.
    /// A duplicate announcement is reported as an error for the caller to
    /// treat as fatal.
    pub fn register_ticker(
        &mut self,
        ticker: String,
        ticker_hash: String,
        contract_address: String,
    ) -> (r: Result<(), TrackerError>)
        requires
            old(self).database.wf(),
            old(self).database.initialized,
        ensures
            final(self).database.wf(),
            final(self).database.initialized,
            r is Ok <==> (!ticker_hash_taken(old(self).database.tickers@, ticker_hash@)
                && !ticker_addr_taken(old(self).database.tickers@, contract_address@)),
            r is Ok ==> *final(self) == (BalanceTracker {
                database: BalanceDatabase {
                    tickers: final(self).database.tickers,
                    ..old(self).database
                },
            }) && final(self).database.tickers@ == old(self).database.tickers@.push(
                (TickerEntry { ticker, ticker_hash, contract_address }),
            ),
            r is Err ==> *final(self) == *old(self) && r == Err::<(), TrackerError>(
                TrackerError::TickerExists,
            ),
    {
        match self.database.add_ticker(ticker, ticker_hash, contract_address) {
            Ok(()) => Ok(()),
            Err(_) => Err(TrackerError::TickerExists),
        }
    }

    /// Scans up to ten blocks down from the frontier against the upstream
    /// hashes handed in (observed[i] belongs to height last - i). The first
    /// height that validates is the common ancestor: at depth zero nothing
    /// happens; deeper, the store is rolled back to it. No match within the
    /// window is a fatal error and mutates nothing.
    pub fn check_reorg(&mut self, observed: &Vec<String>) -> (r: Result<(), TrackerError>)
        requires
            old(self).database.wf(),
            old(self).database.initialized,
            observed@.len() >= 10,
            old(self).database.last_block_u64() >= 9,
        ensures
            final(self).database.wf(),
            final(self).database.initialized,
            ({
                let pre = old(self).database;
                let last = pre.last_block_u64();
                let d = scan_match(pre, observed@, last, 0);
                if d == 10 {
                    *final(self) == *old(self) && r == Err::<(), TrackerError>(
                        TrackerError::ReorgTooDeep,
                    )
                } else if d == 0 {
                    *final(self) == *old(self) && r is Ok
                } else {
                    r is Ok && reorg_post(pre, final(self).database, (last - d) as u64)
                }
            }),
    {
        let last_block = self.database.get_last_block();
        let mut i: usize = 0;
        while i < 10
            invariant
                i <= 10,
                observed@.len() >= 10,
                *self == *old(self),
                self.database.wf(),
                self.database.initialized,
                last_block == self.database.last_block_u64(),
                last_block >= 9,
                scan_match(self.database, observed@, last_block, 0) == scan_match(
                    self.database, observed@, last_block, i as int),
            decreases 10 - i,
        {
            let height = last_block - (i as u64);
            if self.database.validate_block_hash(height, observed[i].clone()) {
                proof {
                    assert(scan_match(self.database, observed@, last_block, i as int) == i);
                }
                if i == 0 {
                    return Ok(());
                }
                self.database.reorg(height);
                return Ok(());
            }
            proof {
                assert(scan_match(self.database, observed@, last_block, i as int) == scan_match(
                    self.database, observed@, last_block, i as int + 1));
            }
            i += 1;
        }
        Err(TrackerError::ReorgTooDeep)
    }
}

impl BalanceTracker {
    /// One auditor pass: compares the sampled ledger rows against the
    /// amounts the chain reported for them. Every sample agreeing passes; a
    /// disagreement is fatal unless the chain tip moved during the pass, in
    /// which case the sample may be stale and the pass is retried.
    pub fn test(
        &self,
        pairs: &Vec<(String, String, u128)>,
        onchain: &Vec<String>,
        tip_advanced: bool,
    ) -> (r: Result<TestStatus, TrackerError>)
        requires
            onchain@.len() == pairs@.len(),
            forall|i: int| 0 <= i < onchain@.len() ==> decodable_amount((#[trigger] onchain@[i])@),
        ensures
            ({
                let all_match = forall|i: int|
                    0 <= i < pairs@.len() ==> (#[trigger] pairs@[i]).2 as int == spec_amount(
                        bytes_of_hex(onchain@[i]@),
                    );
                if all_match {
                    r == Ok::<TestStatus, TrackerError>(TestStatus::Passed)
                } else if tip_advanced {
                    r == Ok::<TestStatus, TrackerError>(TestStatus::NeedsRetry)
                } else {
                    r == Err::<TestStatus, TrackerError>(TrackerError::AuditMismatch)
                }
            }),
    {
        let mismatch = audit_pairs(pairs, onchain);
        audit_status(mismatch.is_some(), tip_advanced)
    }
}

/// A hex payload that decodes to at least the 32 bytes an amount needs.
pub open spec fn decodable_amount(s: Seq<char>) -> bool {
    s.len() % 2 == 0 && all_hex_chars(s) && bytes_of_hex(s).len() >= 32
}

/// Compares sampled ledger rows against the amounts the chain reports for
/// them (onchain[i] is the hex-encoded return data for pairs[i]). Returns
/// the first disagreeing index, or None when every sample agrees.
pub fn audit_pairs(pairs: &Vec<(String, String, u128)>, onchain: &Vec<String>) -> (r: Option<usize>)
    requires
        onchain@.len() == pairs@.len(),
        forall|i: int| 0 <= i < onchain@.len() ==> decodable_amount((#[trigger] onchain@[i])@),
    ensures
        r is None <==> (forall|i: int|
            0 <= i < pairs@.len() ==> (#[trigger] pairs@[i]).2 as int == spec_amount(
                bytes_of_hex(onchain@[i]@),
            )),
        r matches Some(m) ==> 0 <= m < pairs@.len() && pairs@[m as int].2 as int != spec_amount(
            bytes_of_hex(onchain@[m as int]@),
        ),
{
    let n = pairs.len();
    let mut i: usize = 0;
    while i < n
        invariant
            n == pairs@.len(),
            n == onchain@.len(),
            i <= n,
            forall|i2: int| 0 <= i2 < n ==> decodable_amount((#[trigger] onchain@[i2])@),
            forall|j: int|
                0 <= j < i ==> (#[trigger] pairs@[j]).2 as int == spec_amount(
                    bytes_of_hex(onchain@[j]@),
                ),
        decreases n - i,
    {
        let bytes = match hex_decode(&onchain[i]) {
            Some(b) => b,
            None => {
                proof {
                    assert(decodable_amount(onchain@[i as int]@));
                }
                unreached()
            },
        };
        let chain_amount = amount_from_data(&bytes);
        if chain_amount != pairs[i].2 {
            return Some(i);
        }
        i += 1;
    }
    None
}

/// The auditor's verdict on a pass: a mismatch is fatal only when the chain
/// tip has not advanced since the pass began; otherwise the sample may be
/// stale and the pass is retried.
pub fn audit_status(mismatch: bool, tip_advanced: bool) -> (r: Result<TestStatus, TrackerError>)
    ensures
        !mismatch ==> r == Ok::<TestStatus, TrackerError>(TestStatus::Passed),
        mismatch && !tip_advanced ==> r == Err::<TestStatus, TrackerError>(
            TrackerError::AuditMismatch,
        ),
        mismatch && tip_advanced ==> r == Ok::<TestStatus, TrackerError>(TestStatus::NeedsRetry),
{
    if !mismatch {
        Ok(TestStatus::Passed)
    } else if !tip_advanced {
        Err(TrackerError::AuditMismatch)
    } else {
        Ok(TestStatus::NeedsRetry)
    }
}

/// After a mint's single upsert, every balance has moved by its delta.
proof fn lemma_mint_applied(
    pre: BalanceDatabase,
    post: BalanceDatabase,
    height: u64,
    tk: Seq<char>,
    from: Seq<char>,
    to: Seq<char>,
    amount: u128,
)
    requires
        from == zero_addr(),
        pre.bal0(to, tk) + amount <= u128::MAX,
        post.first_block == pre.first_block,
        post.initialized == pre.initialized,
        post.tickers == pre.tickers,
        post.block_hashes == pre.block_hashes,
        post.historical@ == pre.historical@.push(post.historical@.last()),
        hist_row_is(post.historical@.last(), height, to, tk, (pre.bal0(to, tk) + amount) as u128),
        cur_lookup(post.current@, to, tk) matches Some(e) && e.amount as int == pre.bal0(to, tk)
            + amount && e.block_height == height,
        forall|w: Seq<char>, t: Seq<char>|
            !(to == w && tk == t) ==> #[trigger] cur_lookup(post.current@, w, t) == cur_lookup(
                pre.current@, w, t),
    ensures
        transfer_applied(pre, post, height, tk, from, to, amount),
{
    assert(post.historical@.subrange(0, pre.historical@.len() as int) =~= pre.historical@);
    assert forall|w: Seq<char>, t: Seq<char>| #[trigger] post.bal0(w, t) == pre.bal0(w, t)
        + transfer_delta(tk, from, to, amount, w, t) by {
        if to == w && tk == t {
        } else {
            assert(cur_lookup(post.current@, w, t) == cur_lookup(pre.current@, w, t));
            assert(transfer_delta(tk, from, to, amount, w, t) == 0);
        }
    }
}

/// After a burn's single upsert, every balance has moved by its delta.
proof fn lemma_burn_applied(
    pre: BalanceDatabase,
    post: BalanceDatabase,
    height: u64,
    tk: Seq<char>,
    from: Seq<char>,
    to: Seq<char>,
    amount: u128,
)
    requires
        from != zero_addr(),
        to == zero_addr(),
        pre.bal0(from, tk) >= amount,
        post.first_block == pre.first_block,
        post.initialized == pre.initialized,
        post.tickers == pre.tickers,
        post.block_hashes == pre.block_hashes,
        post.historical@ == pre.historical@.push(post.historical@.last()),
        hist_row_is(post.historical@.last(), height, from, tk, (pre.bal0(from, tk) - amount) as u128),
        cur_lookup(post.current@, from, tk) matches Some(e) && e.amount as int == pre.bal0(from, tk)
            - amount && e.block_height == height,
        forall|w: Seq<char>, t: Seq<char>|
            !(from == w && tk == t) ==> #[trigger] cur_lookup(post.current@, w, t) == cur_lookup(
                pre.current@, w, t),
    ensures
        transfer_applied(pre, post, height, tk, from, to, amount),
{
    assert(post.historical@.subrange(0, pre.historical@.len() as int) =~= pre.historical@);
    assert forall|w: Seq<char>, t: Seq<char>| #[trigger] post.bal0(w, t) == pre.bal0(w, t)
        + transfer_delta(tk, from, to, amount, w, t) by {
        if from == w && tk == t {
        } else {
            assert(cur_lookup(post.current@, w, t) == cur_lookup(pre.current@, w, t));
            assert(transfer_delta(tk, from, to, amount, w, t) == 0);
        }
    }
}

/// After the two upserts of a wallet-to-wallet move, every balance has moved
/// by its delta; a self-transfer nets to zero.
proof fn lemma_move_applied(
    pre: BalanceDatabase,
    mid: BalanceDatabase,
    post: BalanceDatabase,
    height: u64,
    tk: Seq<char>,
    from: Seq<char>,
    to: Seq<char>,
    amount: u128,
)
    requires
        from != zero_addr(),
        to != zero_addr(),
        pre.bal0(from, tk) >= amount,
        to != from ==> pre.bal0(to, tk) + amount <= u128::MAX,
        mid.first_block == pre.first_block,
        mid.initialized == pre.initialized,
        mid.tickers == pre.tickers,
        mid.block_hashes == pre.block_hashes,
        mid.historical@ == pre.historical@.push(mid.historical@.last()),
        hist_row_is(mid.historical@.last(), height, from, tk, (pre.bal0(from, tk) - amount) as u128),
        cur_lookup(mid.current@, from, tk) matches Some(e) && e.amount as int == pre.bal0(from, tk)
            - amount && e.block_height == height,
        forall|w: Seq<char>, t: Seq<char>|
            !(from == w && tk == t) ==> #[trigger] cur_lookup(mid.current@, w, t) == cur_lookup(
                pre.current@, w, t),
        post.first_block == mid.first_block,
        post.initialized == mid.initialized,
        post.tickers == mid.tickers,
        post.block_hashes == mid.block_hashes,
        post.historical@ == mid.historical@.push(post.historical@.last()),
        hist_row_is(post.historical@.last(), height, to, tk, (mid.bal0(to, tk) + amount) as u128),
        mid.bal0(to, tk) + amount <= u128::MAX,
        cur_lookup(post.current@, to, tk) matches Some(e) && e.amount as int == mid.bal0(to, tk)
            + amount && e.block_height == height,
        forall|w: Seq<char>, t: Seq<char>|
            !(to == w && tk == t) ==> #[trigger] cur_lookup(post.current@, w, t) == cur_lookup(
                mid.current@, w, t),
    ensures
        transfer_applied(pre, post, height, tk, from, to, amount),
{
    assert(mid.historical@.subrange(0, pre.historical@.len() as int) =~= pre.historical@);
    assert(post.historical@.subrange(0, pre.historical@.len() as int) =~= pre.historical@);
    assert(post.historical@[pre.historical@.len() as int] == mid.historical@.last());
    assert(mid.bal0(to, tk) == if to == from {
        pre.bal0(from, tk) - amount
    } else {
        pre.bal0(to, tk)
    });
    assert(row_at(post, from, tk, height)) by {
        if !(to == from && tk == tk) {
            assert(cur_lookup(post.current@, from, tk) == cur_lookup(mid.current@, from, tk));
        }
    }
    assert forall|w: Seq<char>, t: Seq<char>| #[trigger] post.bal0(w, t) == pre.bal0(w, t)
        + transfer_delta(tk, from, to, amount, w, t) by {
        if to == w && tk == t {
            assert(post.bal0(w, t) == mid.bal0(to, tk) + amount);
        } else if from == w && tk == t {
            assert(cur_lookup(post.current@, w, t) == cur_lookup(mid.current@, w, t));
        } else {
            assert(cur_lookup(post.current@, w, t) == cur_lookup(mid.current@, w, t));
            assert(cur_lookup(mid.current@, w, t) == cur_lookup(pre.current@, w, t));
            assert(transfer_delta(tk, from, to, amount, w, t) == 0);
        }
    }
}

} // verus!
