//! Transaction receipts and their logs bloom.

use crate::primitives::{Address, Bloom, FixedBytes, B256};
use vstd::prelude::*;

verus! {

/// A log that a contract emitted.
#[derive(Debug, PartialEq, Eq)]
pub struct Log {
    /// The contract that emitted the log.
    pub address: Address,
    /// The indexed topics.
    pub topics: Vec<B256>,
    /// The plain data.
    pub data: Vec<u8>,
}

/// What a [`Log`] holds.
#[verifier::ext_equal]
pub struct LogView {
    pub address: Seq<u8>,
    pub topics: Seq<Seq<u8>>,
    pub data: Seq<u8>,
}

impl View for Log {
    type V = LogView;

    open spec fn view(&self) -> LogView {
        LogView {
            address: self.address@,
            topics: self.topics@.map_values(|t: B256| t@),
            data: self.data@,
        }
    }
}

impl Clone for Log {
    fn clone(&self) -> (r: Self)
        ensures
            r@ == self@,
            r.address == self.address,
            r.topics@ == self.topics@,
            r.data@ == self.data@,
    {
        let r = Log {
            address: self.address,
            topics: self.topics.clone(),
            data: self.data.clone(),
        };
        proof {
            assert(r.data@ =~= self.data@);
            assert(r.topics@ =~= self.topics@);
        }
        r
    }
}

/// The kind of a transaction.
#[derive(Clone, Copy, Debug, PartialEq, Eq, Structural)]
pub enum TxType {
    Legacy,
    Eip2930,
    Eip1559,
    Eip4844,
    Eip7702,
}

/// The receipt of an executed transaction.
#[derive(Debug, PartialEq, Eq)]
pub struct EthereumReceipt {
    /// The kind of the transaction.
    pub tx_type: TxType,
    /// Whether the transaction was executed successfully.
    pub success: bool,
    /// The gas used up to and with this transaction.
    pub cumulative_gas_used: u64,
    /// The logs that the transaction emitted.
    pub logs: Vec<Log>,
}

/// What an [`EthereumReceipt`] holds.
#[verifier::ext_equal]
pub struct ReceiptView {
    pub tx_type: TxType,
    pub success: bool,
    pub cumulative_gas_used: int,
    pub logs: Seq<LogView>,
}

impl View for EthereumReceipt {
    type V = ReceiptView;

    open spec fn view(&self) -> ReceiptView {
        ReceiptView {
            tx_type: self.tx_type,
            success: self.success,
            cumulative_gas_used: self.cumulative_gas_used as int,
            logs: self.logs@.map_values(|l: Log| l@),
        }
    }
}

impl ReceiptView {
    /// The receipt with its cumulative gas moved by `by`.
    pub open spec fn shifted(self, by: int) -> ReceiptView {
        ReceiptView { cumulative_gas_used: self.cumulative_gas_used + by, ..self }
    }

    /// The parts of the logs that enter the bloom filter: the address and the topics of each.
    pub open spec fn bloom_inputs(self) -> Seq<(Seq<u8>, Seq<Seq<u8>>)> {
        self.logs.map_values(|l: LogView| (l.address, l.topics))
    }
}

impl Clone for EthereumReceipt {
    fn clone(&self) -> (r: Self)
        ensures
            r@ == self@,
            r.tx_type == self.tx_type,
            r.success == self.success,
            r.cumulative_gas_used == self.cumulative_gas_used,
            r.logs@.len() == self.logs@.len(),
            forall|j: int|
                0 <= j < self.logs@.len() ==> {
                    &&& (#[trigger] r.logs@[j]).address == self.logs@[j].address
                    &&& r.logs@[j].topics@ == self.logs@[j].topics@
                    &&& r.logs@[j].data@ == self.logs@[j].data@
                },
    {
        let mut logs: Vec<Log> = Vec::new();
        let mut i: usize = 0;
        while i < self.logs.len()
            invariant
                i <= self.logs.len(),
                logs.len() == i,
                forall|j: int| 0 <= j < i ==> #[trigger] logs@[j]@ == self.logs@[j]@,
                forall|j: int|
                    0 <= j < i ==> {
                        &&& (#[trigger] logs@[j]).address == self.logs@[j].address
                        &&& logs@[j].topics@ == self.logs@[j].topics@
                        &&& logs@[j].data@ == self.logs@[j].data@
                    },
            decreases self.logs.len() - i,
        {
            logs.push(self.logs[i].clone());
            i += 1;
        }
        let r = EthereumReceipt {
            tx_type: self.tx_type,
            success: self.success,
            cumulative_gas_used: self.cumulative_gas_used,
            logs,
        };
        proof {
            assert(r@.logs =~= self@.logs);
        }
        r
    }
}

/// The views of a sequence of receipts.
pub open spec fn receipt_views(s: Seq<EthereumReceipt>) -> Seq<ReceiptView> {
    s.map_values(|r: EthereumReceipt| r@)
}

/// The filter in which a bit is set exactly if it is set in `a` or in `b`.
pub open spec fn bloom_union(a: Seq<u8>, b: Seq<u8>) -> Seq<u8> {
    Seq::new(a.len(), |i: int| a[i] | b[i])
}

/// The union of the blooms of `receipts`.
pub open spec fn receipts_bloom(receipts: Seq<ReceiptView>) -> Seq<u8>
    decreases receipts.len(),
{
    if receipts.len() == 0 {
        zero_bloom()
    } else {
        bloom_union(
            receipts_bloom(receipts.drop_last()),
            logs_bloom_bits(receipts.last().bloom_inputs()),
        )
    }
}

/// The filter with no bit set.
pub open spec fn zero_bloom() -> Seq<u8> {
    crate::primitives::zero_bytes(256)
}

/// The bloom filter that `alloy_primitives::logs_bloom` computes of logs, given by the address and
/// the topics of each.
pub uninterp spec fn logs_bloom_bits(logs: Seq<(Seq<u8>, Seq<Seq<u8>>)>) -> Seq<u8>;

/// Calls `alloy_consensus::TxReceipt::bloom` on the receipt. The filter depends on the addresses
/// and the topics of the logs alone, and is named [`logs_bloom_bits`].
#[verifier::external_body]
fn receipt_bloom(receipt: &EthereumReceipt) -> (r: Bloom)
    ensures
        r@ == logs_bloom_bits(receipt@.bloom_inputs()),
{
    let logs = receipt.logs.iter().map(|log| alloy_primitives::Log::new_unchecked(
        log.address.bytes.into(),
        log.topics.iter().map(|t| t.bytes.into()).collect(),
        log.data.clone().into())).collect::<Vec<alloy_primitives::Log>>();
    let tx_type = match receipt.tx_type {
        TxType::Legacy => alloy_consensus::TxType::Legacy,
        TxType::Eip2930 => alloy_consensus::TxType::Eip2930,
        TxType::Eip1559 => alloy_consensus::TxType::Eip1559,
        TxType::Eip4844 => alloy_consensus::TxType::Eip4844,
        TxType::Eip7702 => alloy_consensus::TxType::Eip7702,
    };
    let (success, cumulative_gas_used) = (receipt.success, receipt.cumulative_gas_used);
    let outside = alloy_consensus::EthereumReceipt { tx_type, success, cumulative_gas_used, logs };
    FixedBytes { bytes: alloy_consensus::TxReceipt::bloom(&outside).0.0 }
}

/// Calls `alloy_primitives::Bloom::accrue_bloom`, which sets in `bloom` every bit that `other` has
/// set.
#[verifier::external_body]
pub(crate) fn accrue_bloom(bloom: &mut Bloom, other: &Bloom)
    ensures
        final(bloom)@ == bloom_union(old(bloom)@, other@),
{
    let mut accrued = alloy_primitives::Bloom::new(bloom.bytes);
    accrued.accrue_bloom(&alloy_primitives::Bloom::new(other.bytes));
    bloom.bytes = accrued.0.0;
}

/// The union of the blooms of all receipts.
pub fn combined_bloom(receipts: &[EthereumReceipt]) -> (r: Bloom)
    ensures
        r@ == receipts_bloom(receipt_views(receipts@)),
{
    let mut bloom: Bloom = FixedBytes::zero();
    let mut i: usize = 0;
    proof {
        assert(receipt_views(receipts@).take(0) =~= Seq::empty());
    }
    while i < receipts.len()
        invariant
            i <= receipts.len(),
            bloom@ == receipts_bloom(receipt_views(receipts@).take(i as int)),
        decreases receipts.len() - i,
    {
        let next: Bloom = receipt_bloom(&receipts[i]);
        accrue_bloom(&mut bloom, &next);
        proof {
            let views = receipt_views(receipts@);
            assert(views.take(i + 1).drop_last() =~= views.take(i as int));
            assert(views.take(i + 1).last() == receipts@[i as int]@);
        }
        i += 1;
    }
    proof {
        assert(receipt_views(receipts@).take(i as int) =~= receipt_views(receipts@));
    }
    bloom
}

/// A receipt is seen with all its fields, and each of its logs with address, topics and data.
pub proof fn lemma_receipt_view(receipt: EthereumReceipt)
    ensures
        receipt@.tx_type == receipt.tx_type,
        receipt@.success == receipt.success,
        receipt@.cumulative_gas_used == receipt.cumulative_gas_used,
        receipt@.logs.len() == receipt.logs@.len(),
        forall|i: int|
            0 <= i < receipt.logs@.len() ==> {
                &&& (#[trigger] receipt@.logs[i]).address == receipt.logs@[i].address@
                &&& receipt@.logs[i].data == receipt.logs@[i].data@
                &&& receipt@.logs[i].topics.len() == receipt.logs@[i].topics@.len()
                &&& forall|t: int|
                    0 <= t < receipt.logs@[i].topics@.len() ==> #[trigger] receipt@.logs[i].topics[t]
                        == receipt.logs@[i].topics@[t]@
            },
{
}

/// Every log of a receipt enters its bloom filter, with its address and all its topics.
pub proof fn lemma_bloom_inputs(receipt: ReceiptView)
    ensures
        receipt.bloom_inputs().len() == receipt.logs.len(),
        forall|i: int|
            0 <= i < receipt.logs.len() ==> #[trigger] receipt.bloom_inputs()[i] == (
                receipt.logs[i].address,
                receipt.logs[i].topics,
            ),
{
}

/// A bit of a union is set exactly if it is set in one of the filters. `mask` selects the bits that
/// are looked at.
pub proof fn lemma_union_bits(a: Seq<u8>, b: Seq<u8>, at: int, mask: u8)
    requires
        0 <= at < a.len(),
    ensures
        bloom_union(a, b).len() == a.len(),
        bloom_union(a, b)[at] & mask != 0 <==> a[at] & mask != 0 || b[at] & mask != 0,
{
    let (x, y) = (a[at], b[at]);
    assert((x | y) & mask != 0 <==> x & mask != 0 || y & mask != 0) by (bit_vector);
}

/// The filter with no bit set has no bit set.
pub proof fn lemma_zero_bits(at: int, mask: u8)
    requires
        0 <= at < 256,
    ensures
        zero_bloom().len() == 256,
        zero_bloom()[at] & mask == 0,
{
    assert(0u8 & mask == 0) by (bit_vector);
}

/// The bloom of receipts has a bit set exactly if the filter of the logs of one of them has it set,
/// whatever the number of receipts and of their logs. `mask` selects the bits that are looked at.
pub proof fn lemma_receipts_bloom_bits(receipts: Seq<ReceiptView>, at: int, mask: u8)
    requires
        0 <= at < 256,
    ensures
        receipts_bloom(receipts).len() == 256,
        receipts_bloom(receipts)[at] & mask != 0 <==> exists|i: int|
            0 <= i < receipts.len() && logs_bloom_bits(
                (#[trigger] receipts[i]).logs.map_values(|l: LogView| (l.address, l.topics)),
            )[at] & mask != 0,
    decreases receipts.len(),
{
    lemma_zero_bits(at, mask);
    if receipts.len() > 0 {
        let n = receipts.len() - 1;
        let rest = receipts.drop_last();
        let inputs = receipts[n].logs.map_values(|l: LogView| (l.address, l.topics));
        lemma_receipts_bloom_bits(rest, at, mask);
        assert(receipts[n].bloom_inputs() =~= inputs);
        lemma_union_bits(receipts_bloom(rest), logs_bloom_bits(inputs), at, mask);
        if receipts_bloom(rest)[at] & mask != 0 {
            let i = choose|i: int|
                0 <= i < rest.len() && logs_bloom_bits(
                    (#[trigger] rest[i]).logs.map_values(|l: LogView| (l.address, l.topics)),
                )[at] & mask != 0;
            assert(receipts[i] == rest[i]);
        }
        if exists|i: int|
            0 <= i < receipts.len() && logs_bloom_bits(
                (#[trigger] receipts[i]).logs.map_values(|l: LogView| (l.address, l.topics)),
            )[at] & mask != 0 {
            let i = choose|i: int|
                0 <= i < receipts.len() && logs_bloom_bits(
                    (#[trigger] receipts[i]).logs.map_values(|l: LogView| (l.address, l.topics)),
                )[at] & mask != 0;
            if i < n {
                assert(rest[i] == receipts[i]);
            }
        }
    }
}

/// The bloom of a single receipt is the filter of its logs, whatever their number.
pub proof fn lemma_single_receipt_bloom(receipt: ReceiptView)
    ensures
        ({
            let filter = logs_bloom_bits(
                receipt.logs.map_values(|l: LogView| (l.address, l.topics)),
            );
            &&& forall|at: int|
                0 <= at < 256 ==> #[trigger] receipts_bloom(seq![receipt])[at] == filter[at]
            &&& filter.len() == 256 ==> receipts_bloom(seq![receipt]) == filter
        }),
{
    let inputs = receipt.logs.map_values(|l: LogView| (l.address, l.topics));
    let bloom = receipts_bloom(seq![receipt]);
    assert(receipt.bloom_inputs() =~= inputs);
    assert(seq![receipt].drop_last() =~= Seq::empty());
    assert(receipts_bloom(seq![receipt].drop_last()) == zero_bloom());
    assert forall|at: int| 0 <= at < 256 implies #[trigger] bloom[at] == logs_bloom_bits(
        inputs,
    )[at] by {
        let x = logs_bloom_bits(inputs)[at];
        assert(0u8 | x == x) by (bit_vector);
    }
    if logs_bloom_bits(inputs).len() == 256 {
        assert(bloom =~= logs_bloom_bits(inputs));
    }
}

} // verus!
