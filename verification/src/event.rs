use crate::graph::AccountLockSet;
use crate::priority::instructions_wf;
use crate::priority::BudgetInstruction;
use vstd::prelude::*;

verus! {

// Reading trace files, decoding transaction wire bytes, and resolving
// address-lookup tables are external concerns. The types here carry what the
// analyses read from them as plain values: account keys, origin addresses,
// and signatures arrive as interned identifiers.

/// Which traffic channel a packet batch arrived on; only non-vote traffic
/// feeds the analyses.
#[derive(Clone, Copy, PartialEq, Eq, Structural, Debug)]
pub enum ChannelLabel {
    NonVote,
    Vote,
}

/// The decoded content of one packet's transaction.
pub struct TxPayload {
    /// The transaction's first signature, as an interned identifier.
    pub signature: u64,
    /// The instructions, as the fee model sees them.
    pub instructions: Vec<BudgetInstruction>,
    /// The account keys the transaction names directly, before lookup-table
    /// resolution.
    pub static_account_keys: Vec<u64>,
    /// The address-lookup-table accounts the transaction references.
    pub lookup_tables: Vec<u64>,
    /// The fully resolved account locks; absent when a lookup-table reference
    /// could not be satisfied by the store.
    pub locks: Option<AccountLockSet>,
}

/// One captured packet: its metadata flags, its origin address (as an
/// interned identifier), and its decoded transaction when the bytes parse.
/// A discarded packet exposes no data, so its payload is absent.
pub struct PacketRecord {
    pub discard: bool,
    pub forwarded: bool,
    pub staked: bool,
    pub addr: u64,
    pub payload: Option<TxPayload>,
}

/// One trace event: a group of packet batches on some channel, or a slot's
/// finalization marker.
pub enum TracedEvent {
    PacketBatch(ChannelLabel, Vec<Vec<PacketRecord>>),
    BlockAndBankHash(u64),
}

/// A trace event with its capture timestamp in nanoseconds.
pub struct TimedTracedEvent(pub u64, pub TracedEvent);

/// A decoded payload is well formed: its instruction list is decodable and
/// its resolved locks, when present, are duplicate-free and disjoint.
pub open spec fn payload_wf(t: TxPayload) -> bool {
    &&& instructions_wf(t.instructions@)
    &&& match t.locks {
        Option::Some(l) => l.wf(),
        Option::None => true,
    }
}

/// A packet is well formed when its payload, if any, is.
pub open spec fn packet_wf(p: PacketRecord) -> bool {
    match p.payload {
        Option::Some(t) => payload_wf(t),
        Option::None => true,
    }
}

/// Every packet of every batch is well formed.
pub open spec fn batches_wf(bs: Seq<Vec<PacketRecord>>) -> bool {
    forall|b: int, p: int|
        0 <= b < bs.len() && 0 <= p < bs[b]@.len() ==> packet_wf(#[trigger] bs[b]@[p])
}

/// Every packet of every batch group is well formed.
pub open spec fn groups_wf(gs: Seq<Vec<Vec<PacketRecord>>>) -> bool {
    forall|g: int| 0 <= g < gs.len() ==> batches_wf((#[trigger] gs[g])@)
}

/// An event is well formed when every packet it carries is.
pub open spec fn event_wf(ev: TimedTracedEvent) -> bool {
    match ev.1 {
        TracedEvent::PacketBatch(_, b) => batches_wf(b@),
        TracedEvent::BlockAndBankHash(_) => true,
    }
}

/// Every event of the trace is well formed.
pub open spec fn events_wf(evs: Seq<TimedTracedEvent>) -> bool {
    forall|e: int| 0 <= e < evs.len() ==> event_wf(#[trigger] evs[e])
}

} // verus!
