use vstd::prelude::*;
use vstd::seq_lib::group_to_multiset_ensures;
use vstd::multiset::Multiset;
use crate::hexcodec::hex_lower_of;
use crate::hexcodec::hex_encode;

verus! {

/// A contract log as the upstream node reports it, reduced to plain values:
/// the emitting address (20 bytes), the topics (32 bytes each), the data
/// payload, and the position of the log within its block.
pub struct Log {
    pub address: Vec<u8>,
    pub topics: Vec<Vec<u8>>,
    pub data: Vec<u8>,
    pub transaction_index: u64,
    pub log_index: u64,
}

/// What a log means to the ledger once decoded.
pub enum LogEvent {
    /// The controller announced a new ticker: its 32-byte hash and the
    /// contract that will emit its transfers, both as 0x-prefixed hex.
    TickerCreated { ticker_hash: String, contract_address: String },
    /// A balance change emitted by a token contract.
    TokenTransfer { contract_address: String, from: String, to: String, amount: u128 },
    /// Anything else.
    Ignored,
}

/// The distinguished controller contract, as its 20 address bytes.
pub open spec fn controller_bytes() -> Seq<u8> {
    seq![
        0xc5u8, 0x4d, 0xd4, 0x58, 0x1a, 0xf2, 0xdb, 0xf1, 0x8e, 0x4d,
        0x90, 0x84, 0x02, 0x26, 0x75, 0x6e, 0x9d, 0x2b, 0x3c, 0xdb,
    ]
}

/// keccak-256 of the ticker-creation event signature.
pub open spec fn created_topic_bytes() -> Seq<u8> {
    seq![
        0xebu8, 0xa4, 0x72, 0x29, 0xa9, 0x11, 0x2d, 0x1d, 0xd9, 0xf9,
        0x98, 0x83, 0x73, 0xe7, 0x5a, 0x35, 0xb8, 0x9a, 0x51, 0x27,
        0x21, 0xc5, 0xfa, 0x08, 0x5b, 0x76, 0xb7, 0x61, 0x18, 0xc3,
        0x2f, 0xd5,
    ]
}

/// keccak-256 of the transfer event signature.
pub open spec fn transfer_topic_bytes() -> Seq<u8> {
    seq![
        0xddu8, 0xf2, 0x52, 0xad, 0x1b, 0xe2, 0xc8, 0x9b, 0x69, 0xc2,
        0xb0, 0x68, 0xfc, 0x37, 0x8d, 0xaa, 0x95, 0x2b, 0xa7, 0xf1,
        0x63, 0xc4, 0xa1, 0x16, 0x28, 0xf5, 0x5a, 0x4d, 0xf5, 0x23,
        0xb3, 0xef,
    ]
}

/// A byte string rendered as 0x-prefixed lowercase hex.
pub open spec fn hex0x(s: Seq<u8>) -> Seq<char> {
    "0x"@ + hex_lower_of(s)
}

/// The address packed into the low 20 bytes of a 32-byte topic, rendered as
/// 0x-prefixed lowercase hex.
pub open spec fn addr_of_topic(t: Seq<u8>) -> Seq<char> {
    hex0x(t.skip(12))
}

/// A well-shaped ticker-creation log: emitted by the controller under the
/// creation topic, with the ticker hash and contract address topics present.
pub open spec fn is_created_log(l: Log) -> bool {
    &&& l.address@ == controller_bytes()
    &&& l.topics@.len() >= 3
    &&& l.topics@[0]@ == created_topic_bytes()
    &&& l.topics@[1]@.len() == 32
    &&& l.topics@[2]@.len() == 32
}

/// A well-shaped transfer log: emitted by anything but the controller under
/// the transfer topic, with both address topics and a 32-byte value payload.
pub open spec fn is_transfer_log(l: Log) -> bool {
    &&& l.address@ != controller_bytes()
    &&& l.topics@.len() >= 3
    &&& l.topics@[0]@ == transfer_topic_bytes()
    &&& l.topics@[1]@.len() == 32
    &&& l.topics@[2]@.len() == 32
    &&& l.data@.len() >= 32
}

/// The value field of a transfer payload: bytes 16..32 read as a big-endian
/// unsigned integer (the high 16 bytes of the 32-byte word are ignored).
pub open spec fn be_int(s: Seq<u8>) -> int
    decreases s.len(),
{
    if s.len() == 0 {
        0
    } else {
        be_int(s.drop_last()) * 256 + s.last()
    }
}

pub open spec fn spec_amount(data: Seq<u8>) -> int {
    be_int(data.subrange(16, 32))
}

pub open spec fn pow256(n: nat) -> int
    decreases n,
{
    if n == 0 {
        1
    } else {
        256 * pow256((n - 1) as nat)
    }
}

pub proof fn lemma_be_int_bound(s: Seq<u8>)
    ensures
        0 <= be_int(s) < pow256(s.len()),
        pow256(s.len()) >= 1,
    decreases s.len(),
{
    if s.len() == 0 {
    } else {
        lemma_be_int_bound(s.drop_last());
        let rest = be_int(s.drop_last());
        let p = pow256(s.drop_last().len());
        let last = s.last() as int;
        assert(0 <= last < 256);
        assert(rest * 256 + last < 256 * p) by (nonlinear_arith)
            requires
                0 <= rest < p,
                0 <= last < 256,
        ;
        assert(256 * p >= 1) by (nonlinear_arith)
            requires
                p >= 1,
        ;
        assert(rest * 256 + last >= 0) by (nonlinear_arith)
            requires
                rest >= 0,
                last >= 0,
        ;
    }
}

fn controller_address() -> (r: Vec<u8>)
    ensures
        r@ == controller_bytes(),
{
    let v: Vec<u8> = vec![
        0xc5u8, 0x4d, 0xd4, 0x58, 0x1a, 0xf2, 0xdb, 0xf1, 0x8e, 0x4d,
        0x90, 0x84, 0x02, 0x26, 0x75, 0x6e, 0x9d, 0x2b, 0x3c, 0xdb,
    ];
    proof {
        assert(v@ =~= controller_bytes());
    }
    v
}

fn created_topic() -> (r: Vec<u8>)
    ensures
        r@ == created_topic_bytes(),
{
    let v: Vec<u8> = vec![
        0xebu8, 0xa4, 0x72, 0x29, 0xa9, 0x11, 0x2d, 0x1d, 0xd9, 0xf9,
        0x98, 0x83, 0x73, 0xe7, 0x5a, 0x35, 0xb8, 0x9a, 0x51, 0x27,
        0x21, 0xc5, 0xfa, 0x08, 0x5b, 0x76, 0xb7, 0x61, 0x18, 0xc3,
        0x2f, 0xd5,
    ];
    proof {
        assert(v@ =~= created_topic_bytes());
    }
    v
}

fn transfer_topic() -> (r: Vec<u8>)
    ensures
        r@ == transfer_topic_bytes(),
{
    let v: Vec<u8> = vec![
        0xddu8, 0xf2, 0x52, 0xad, 0x1b, 0xe2, 0xc8, 0x9b, 0x69, 0xc2,
        0xb0, 0x68, 0xfc, 0x37, 0x8d, 0xaa, 0x95, 0x2b, 0xa7, 0xf1,
        0x63, 0xc4, 0xa1, 0x16, 0x28, 0xf5, 0x5a, 0x4d, 0xf5, 0x23,
        0xb3, 0xef,
    ];
    proof {
        assert(v@ =~= transfer_topic_bytes());
    }
    v
}

fn bytes_eq(a: &Vec<u8>, b: &Vec<u8>) -> (r: bool)
    ensures
        r == (a@ == b@),
{
    if a.len() != b.len() {
        return false;
    }
    let n = a.len();
    let mut i: usize = 0;
    while i < n
        invariant
            n == a@.len(),
            n == b@.len(),
            i <= n,
            forall|j: int| 0 <= j < i ==> a@[j] == b@[j],
        decreases n - i,
    {
        if a[i] != b[i] {
            return false;
        }
        i += 1;
    }
    proof {
        assert(a@ =~= b@);
    }
    true
}

/// A byte string as a 0x-prefixed lowercase hex String.
pub fn hex_0x(b: &Vec<u8>) -> (r: String)
    ensures
        r@ == hex0x(b@),
{
    let prefix = String::from_str("0x");
    prefix.concat(hex_encode(b).as_str())
}

/// The 0x-prefixed lowercase hex address in the low 20 bytes of a topic.
pub fn topic_address(topic: &Vec<u8>) -> (r: String)
    requires
        topic@.len() == 32,
    ensures
        r@ == addr_of_topic(topic@),
{
    let mut tail: Vec<u8> = Vec::new();
    let mut i: usize = 12;
    while i < 32
        invariant
            topic@.len() == 32,
            12 <= i <= 32,
            tail@ == topic@.subrange(12, i as int),
        decreases 32 - i,
    {
        proof {
            assert(topic@.subrange(12, i + 1).drop_last() =~= topic@.subrange(12, i as int));
            assert(topic@.subrange(12, i + 1).last() == topic@[i as int]);
            assert(topic@.subrange(12, i + 1) =~= topic@.subrange(12, i as int).push(topic@[
                i as int]));
        }
        tail.push(topic[i]);
        i += 1;
    }
    proof {
        assert(tail@ =~= topic@.skip(12));
    }
    hex_0x(&tail)
}

/// The transfer value: payload bytes 16..32 as a big-endian unsigned
/// 128-bit integer.
pub fn amount_from_data(data: &Vec<u8>) -> (r: u128)
    requires
        data@.len() >= 32,
    ensures
        r as int == spec_amount(data@),
{
    let mut acc: u128 = 0;
    let mut i: usize = 16;
    proof {
        assert(data@.subrange(16, 16) =~= Seq::<u8>::empty());
    }
    while i < 32
        invariant
            data@.len() >= 32,
            16 <= i <= 32,
            acc as int == be_int(data@.subrange(16, i as int)),
            (acc as int) < pow256((i - 16) as nat),
        decreases 32 - i,
    {
        proof {
            let prefix = data@.subrange(16, i + 1);
            assert(prefix.drop_last() =~= data@.subrange(16, i as int));
            assert(prefix.last() == data@[i as int]);
            lemma_be_int_bound(data@.subrange(16, i as int));
            assert(pow256(((i + 1) - 16) as nat) == 256 * pow256((i - 16) as nat));
            assert(acc as int * 256 + data@[i as int] < 256 * pow256((i - 16) as nat))
                by (nonlinear_arith)
                requires
                    0 <= (acc as int) < pow256((i - 16) as nat),
                    0 <= data@[i as int] < 256,
            ;
            lemma_pow256_le(((i + 1) - 16) as nat, 16);
            assert(pow256(16) == 0x100000000000000000000000000000000) by {
                reveal_with_fuel(pow256, 17);
            }
        }
        acc = acc * 256 + (data[i] as u128);
        i += 1;
    }
    proof {
        assert(data@.subrange(16, 32) == data@.subrange(16, 32 as int));
    }
    acc
}

pub proof fn lemma_pow256_le(a: nat, b: nat)
    requires
        a <= b,
    ensures
        pow256(a) <= pow256(b),
        pow256(a) >= 1,
    decreases b,
{
    if a == b {
        if a == 0 {
        } else {
            lemma_pow256_le((a - 1) as nat, (a - 1) as nat);
            let p = pow256((a - 1) as nat);
            assert(256 * p >= p) by (nonlinear_arith)
                requires
                    p >= 1,
            ;
        }
    } else {
        lemma_pow256_le(a, (b - 1) as nat);
        let p = pow256((b - 1) as nat);
        assert(256 * p >= p) by (nonlinear_arith)
            requires
                p >= 1,
        ;
    }
}

/// Decodes one log by the ledger's rules: a creation announcement from the
/// controller, a transfer from a token contract, or nothing. A log whose
/// shape does not match either rule is ignored.
pub fn classify_log(log: &Log) -> (r: LogEvent)
    ensures
        is_created_log(*log) ==> (r matches LogEvent::TickerCreated {
            ticker_hash,
            contract_address,
        } && ticker_hash@ == hex0x(log.topics@[1]@) && contract_address@ == addr_of_topic(
            log.topics@[2]@,
        )),
        is_transfer_log(*log) ==> (r matches LogEvent::TokenTransfer {
            contract_address,
            from,
            to,
            amount,
        } && contract_address@ == hex0x(log.address@) && from@ == addr_of_topic(log.topics@[1]@)
            && to@ == addr_of_topic(log.topics@[2]@) && amount as int == spec_amount(log.data@)),
        !is_created_log(*log) && !is_transfer_log(*log) ==> r is Ignored,
{
    let ctrl = controller_address();
    let is_ctrl = bytes_eq(&log.address, &ctrl);
    if log.topics.len() < 3 {
        return LogEvent::Ignored;
    }
    if is_ctrl {
        let created = created_topic();
        if bytes_eq(&log.topics[0], &created) && log.topics[1].len() == 32 && log.topics[2].len()
            == 32 {
            let ticker_hash = hex_0x(&log.topics[1]);
            let contract_address = topic_address(&log.topics[2]);
            return LogEvent::TickerCreated { ticker_hash, contract_address };
        }
        return LogEvent::Ignored;
    }
    let transfer = transfer_topic();
    if bytes_eq(&log.topics[0], &transfer) && log.topics[1].len() == 32 && log.topics[2].len() == 32
        && log.data.len() >= 32 {
        let contract_address = hex_0x(&log.address);
        let from = topic_address(&log.topics[1]);
        let to = topic_address(&log.topics[2]);
        let amount = amount_from_data(&log.data);
        return LogEvent::TokenTransfer { contract_address, from, to, amount };
    }
    LogEvent::Ignored
}

/// The processing order within a block: by transaction index, then by log
/// index.
pub open spec fn log_le(a: Log, b: Log) -> bool {
    ||| a.transaction_index < b.transaction_index
    ||| (a.transaction_index == b.transaction_index && a.log_index <= b.log_index)
}

pub open spec fn logs_sorted(s: Seq<Log>) -> bool {
    forall|i: int, j: int| 0 <= i < j < s.len() ==> log_le(#[trigger] s[i], #[trigger] s[j])
}

/// Two logs share a sort key.
pub open spec fn log_key_eq(a: Log, b: Log) -> bool {
    a.transaction_index == b.transaction_index && a.log_index == b.log_index
}

/// r is orig reordered by the index sequence pi, and logs with equal keys
/// keep their input order: the stability of the sort.
pub open spec fn stable_perm(orig: Seq<Log>, r: Seq<Log>, pi: Seq<int>) -> bool {
    &&& pi.len() == r.len()
    &&& r.len() == orig.len()
    &&& forall|j: int| 0 <= j < pi.len() ==> 0 <= #[trigger] pi[j] < orig.len()
    &&& forall|j1: int, j2: int|
        0 <= j1 < j2 < pi.len() ==> #[trigger] pi[j1] != #[trigger] pi[j2]
    &&& forall|j: int| 0 <= j < r.len() ==> #[trigger] r[j] == orig[pi[j]]
    &&& forall|j1: int, j2: int|
        #![trigger pi[j1], pi[j2]]
        0 <= j1 < j2 < r.len() && log_key_eq(r[j1], r[j2]) ==> pi[j1] < pi[j2]
}

/// Reorders a block's logs into (transaction_index, log_index) order,
/// keeping exactly the same logs; logs with equal keys keep their input
/// order (the sort is stable).
pub fn sort_logs(logs: Vec<Log>) -> (r: Vec<Log>)
    ensures
        logs_sorted(r@),
        r@.to_multiset() == logs@.to_multiset(),
        exists|pi: Seq<int>| stable_perm(logs@, r@, pi),
{
    broadcast use group_to_multiset_ensures;

    let ghost orig = logs@;
    let mut src = logs;
    let mut out: Vec<Log> = Vec::new();
    let ghost mut rem: Seq<int> = Seq::new(orig.len(), |j: int| j);
    let ghost mut picked: Seq<int> = Seq::empty();
    while src.len() > 0
        invariant
            out@.to_multiset().add(src@.to_multiset()) =~= orig.to_multiset(),
            logs_sorted(out@),
            forall|k: int, j: int|
                0 <= k < out@.len() && 0 <= j < src@.len() ==> log_le(
                    #[trigger] out@[k],
                    #[trigger] src@[j],
                ),
            rem.len() == src@.len(),
            picked.len() == out@.len(),
            out@.len() + src@.len() == orig.len(),
            forall|j: int| 0 <= j < rem.len() ==> 0 <= #[trigger] rem[j] < orig.len(),
            forall|j: int| 0 <= j < rem.len() ==> src@[j] == orig[#[trigger] rem[j]],
            forall|j1: int, j2: int|
                0 <= j1 < j2 < rem.len() ==> #[trigger] rem[j1] < #[trigger] rem[j2],
            forall|j: int| 0 <= j < picked.len() ==> 0 <= #[trigger] picked[j] < orig.len(),
            forall|j: int| 0 <= j < picked.len() ==> out@[j] == orig[#[trigger] picked[j]],
            forall|j1: int, j2: int|
                0 <= j1 < j2 < picked.len() ==> #[trigger] picked[j1] != #[trigger] picked[j2],
            forall|j: int, k: int|
                #![trigger picked[j], rem[k]]
                0 <= j < picked.len() && 0 <= k < rem.len() ==> picked[j] != rem[k],
            forall|j1: int, j2: int|
                #![trigger picked[j1], picked[j2]]
                0 <= j1 < j2 < picked.len() && log_key_eq(out@[j1], out@[j2]) ==> picked[j1]
                    < picked[j2],
            forall|j: int, k: int|
                #![trigger picked[j], rem[k]]
                0 <= j < picked.len() && 0 <= k < rem.len() && log_key_eq(out@[j], src@[k])
                    ==> picked[j] < rem[k],
        decreases src@.len(),
    {
        let n = src.len();
        let mut m: usize = 0;
        let mut i: usize = 1;
        while i < n
            invariant
                n == src@.len(),
                m < i <= n,
                forall|j: int| 0 <= j < i ==> log_le(src@[m as int], #[trigger] src@[j]),
                forall|j: int|
                    0 <= j < i && log_key_eq(#[trigger] src@[j], src@[m as int]) ==> m <= j,
            decreases n - i,
        {
            let better = src[i].transaction_index < src[m].transaction_index || (
            src[i].transaction_index == src[m].transaction_index && src[i].log_index < src[
                m].log_index);
            if better {
                m = i;
            }
            i += 1;
        }
        let ghost src_pre = src@;
        let ghost rem_pre = rem;
        let x = src.remove(m);
        proof {
            broadcast use group_to_multiset_ensures;

            assert(src@.to_multiset() =~= src_pre.to_multiset().remove(src_pre[m as int]));
            assert(out@.push(x).to_multiset() =~= out@.to_multiset().insert(x));
            assert(out@.push(x).to_multiset().add(src@.to_multiset()) =~= orig.to_multiset());
            picked = picked.push(rem_pre[m as int]);
            rem = rem_pre.remove(m as int);
            assert(forall|k: int| 0 <= k < m ==> rem[k] == rem_pre[k]);
            assert(forall|k: int| m <= k < rem.len() ==> rem[k] == rem_pre[k + 1]);
        }
        out.push(x);
    }
    proof {
        assert(src@.to_multiset() =~= Multiset::<Log>::empty());
        assert(out@.to_multiset() =~= orig.to_multiset());
        assert(stable_perm(orig, out@, picked));
    }
    out
}

} // verus!
