//! Results and orders as messages.

use crate::convert::codes;
use crate::convert::codes::{tx_result_from_i32, tx_result_to_i32};
use crate::error::{Error, ProtoFault, Result};
use crate::model::{ReorderView, SccReorderRecord, TxResultRecord};
use crate::proto::pb;
use vstd::prelude::*;

verus! {

/// The message that stands for a result.
pub open spec fn record_message(value: TxResultRecord) -> pb::TxResultRecord {
    pb::TxResultRecord {
        tx_id: value.tx_id,
        shard_id: value.shard_id,
        result: codes::tx_result_code(value.result),
    }
}

pub fn tx_result_record_to_proto(value: &TxResultRecord) -> (r: pb::TxResultRecord)
    ensures
        r == record_message(*value),
{
    pb::TxResultRecord {
        tx_id: value.tx_id,
        shard_id: value.shard_id,
        result: tx_result_to_i32(value.result),
    }
}

/// The result in a message is none that there is.
pub open spec fn record_fault(value: pb::TxResultRecord, error: Error) -> bool {
    &&& !(1 <= value.result <= 6)
    &&& error == Error::InvalidProto(ProtoFault::InvalidTxResult(value.result))
}

pub fn tx_result_record_from_proto(value: pb::TxResultRecord) -> (r: Result<TxResultRecord>)
    ensures
        match r {
            Ok(record) => value == record_message(record),
            Err(error) => record_fault(value, error),
        },
{
    match tx_result_from_i32(value.result) {
        Ok(result) => Ok(TxResultRecord { tx_id: value.tx_id, shard_id: value.shard_id, result }),
        Err(error) => Err(error),
    }
}

pub fn tx_result_records_to_proto(values: &Vec<TxResultRecord>) -> (r: Vec<pb::TxResultRecord>)
    ensures
        r@ == values@.map_values(|v: TxResultRecord| record_message(v)),
{
    let mut out: Vec<pb::TxResultRecord> = Vec::new();
    let mut i: usize = 0;
    while i < values.len()
        invariant
            i <= values.len(),
            out.len() == i,
            forall|j: int| 0 <= j < i ==> #[trigger] out@[j] == record_message(values@[j]),
        decreases values.len() - i,
    {
        out.push(tx_result_record_to_proto(&values[i]));
        i += 1;
    }
    assert(out@ =~= values@.map_values(|v: TxResultRecord| record_message(v)));
    out
}

/// The first record that does not stand for a result.
pub open spec fn records_fault(values: Seq<pb::TxResultRecord>, error: Error) -> bool {
    exists|n: int|
        0 <= n < values.len() && #[trigger] record_fault(values[n], error) && forall|j: int|
            0 <= j < n ==> 1 <= (#[trigger] values[j]).result <= 6
}

pub fn tx_result_records_from_proto(values: Vec<pb::TxResultRecord>) -> (r: Result<
    Vec<TxResultRecord>,
>)
    ensures
        match r {
            Ok(records) => values@ == records@.map_values(|v: TxResultRecord| record_message(v)),
            Err(error) => records_fault(values@, error),
        },
{
    let mut out: Vec<TxResultRecord> = Vec::new();
    let mut i: usize = 0;
    while i < values.len()
        invariant
            i <= values.len(),
            out.len() == i,
            forall|j: int| 0 <= j < i ==> values@[j] == record_message(#[trigger] out@[j]),
            forall|j: int| 0 <= j < i ==> 1 <= (#[trigger] values@[j]).result <= 6,
        decreases values.len() - i,
    {
        match tx_result_record_from_proto(values[i]) {
            Ok(record) => out.push(record),
            Err(error) => {
                assert(record_fault(values@[i as int], error));
                return Err(error);
            },
        }
        i += 1;
    }
    assert(values@ =~= out@.map_values(|v: TxResultRecord| record_message(v)));
    Ok(out)
}

/// What is sent of results is read back unchanged.
pub proof fn lemma_records_round_trip(values: Seq<TxResultRecord>, back: Seq<TxResultRecord>)
    requires
        values.map_values(|v: TxResultRecord| record_message(v)) == back.map_values(
            |v: TxResultRecord| record_message(v),
        ),
    ensures
        back == values,
{
    let f = |v: TxResultRecord| record_message(v);
    assert(values.map_values(f).len() == back.map_values(f).len());
    assert forall|i: int| 0 <= i < values.len() implies back[i] == values[i] by {
        assert(values.map_values(f)[i] == back.map_values(f)[i]);
        assert(record_message(values[i]) == record_message(back[i]));
    }
    assert(back =~= values);
}

/// Results that are sent are never refused.
pub proof fn lemma_records_accepted(values: Seq<TxResultRecord>, error: Error)
    ensures
        !records_fault(values.map_values(|v: TxResultRecord| record_message(v)), error),
{
}

/// Indices as numbers of a message; what does not fit is cut off.
pub open spec fn narrow(indices: Seq<usize>) -> Seq<u32> {
    indices.map_values(|i: usize| i as u32)
}

pub open spec fn widen(indices: Seq<u32>) -> Seq<usize> {
    indices.map_values(|i: u32| i as usize)
}

fn narrow_indices(indices: &Vec<usize>) -> (r: Vec<u32>)
    ensures
        r@ == narrow(indices@),
{
    let mut r: Vec<u32> = Vec::new();
    let mut i: usize = 0;
    while i < indices.len()
        invariant
            i <= indices.len(),
            r.len() == i,
            forall|j: int| 0 <= j < i ==> #[trigger] r@[j] == indices@[j] as u32,
        decreases indices.len() - i,
    {
        r.push(indices[i] as u32);
        i += 1;
    }
    assert(r@ =~= narrow(indices@));
    r
}

fn widen_indices(indices: &Vec<u32>) -> (r: Vec<usize>)
    ensures
        r@ == widen(indices@),
{
    let mut r: Vec<usize> = Vec::new();
    let mut i: usize = 0;
    while i < indices.len()
        invariant
            i <= indices.len(),
            r.len() == i,
            forall|j: int| 0 <= j < i ==> #[trigger] r@[j] == indices@[j] as usize,
        decreases indices.len() - i,
    {
        r.push(indices[i] as usize);
        i += 1;
    }
    assert(r@ =~= widen(indices@));
    r
}

/// `message` stands for an order.
pub open spec fn reorder_sent(value: ReorderView, message: pb::SccReorderRecord) -> bool {
    &&& message.batch_id == value.batch_id
    &&& message.speculative_success_indices@ == narrow(value.successes)
    &&& message.fallback_indices@ == narrow(value.fallbacks)
}

/// The order that a message stands for.
pub open spec fn reorder_in(message: pb::SccReorderRecord) -> ReorderView {
    ReorderView {
        batch_id: message.batch_id,
        successes: widen(message.speculative_success_indices@),
        fallbacks: widen(message.fallback_indices@),
    }
}

pub fn scc_reorder_record_to_proto(value: &SccReorderRecord) -> (r: pb::SccReorderRecord)
    ensures
        reorder_sent(value@, r),
{
    pb::SccReorderRecord {
        batch_id: value.batch_id,
        speculative_success_indices: narrow_indices(&value.speculative_success_indices),
        fallback_indices: narrow_indices(&value.fallback_indices),
    }
}

pub fn scc_reorder_record_from_proto(value: pb::SccReorderRecord) -> (r: SccReorderRecord)
    ensures
        r@ == reorder_in(value),
{
    SccReorderRecord {
        batch_id: value.batch_id,
        speculative_success_indices: widen_indices(&value.speculative_success_indices),
        fallback_indices: widen_indices(&value.fallback_indices),
    }
}

pub fn scc_reorder_records_to_proto(values: &Vec<SccReorderRecord>) -> (r: Vec<
    pb::SccReorderRecord,
>)
    ensures
        r@.len() == values@.len(),
        forall|i: int| 0 <= i < r@.len() ==> reorder_sent(values@[i]@, #[trigger] r@[i]),
{
    let mut out: Vec<pb::SccReorderRecord> = Vec::new();
    let mut i: usize = 0;
    while i < values.len()
        invariant
            i <= values.len(),
            out.len() == i,
            forall|j: int| 0 <= j < i ==> reorder_sent(values@[j]@, #[trigger] out@[j]),
        decreases values.len() - i,
    {
        out.push(scc_reorder_record_to_proto(&values[i]));
        i += 1;
    }
    out
}

pub fn scc_reorder_records_from_proto(values: Vec<pb::SccReorderRecord>) -> (r: Vec<
    SccReorderRecord,
>)
    ensures
        r@.len() == values@.len(),
        forall|i: int| 0 <= i < r@.len() ==> (#[trigger] r@[i])@ == reorder_in(values@[i]),
{
    let mut out: Vec<SccReorderRecord> = Vec::new();
    let mut i: usize = 0;
    while i < values.len()
        invariant
            i <= values.len(),
            out.len() == i,
            forall|j: int| 0 <= j < i ==> (#[trigger] out@[j])@ == reorder_in(values@[j]),
        decreases values.len() - i,
    {
        let value = &values[i];
        out.push(
            SccReorderRecord {
                batch_id: value.batch_id,
                speculative_success_indices: widen_indices(&value.speculative_success_indices),
                fallback_indices: widen_indices(&value.fallback_indices),
            },
        );
        i += 1;
    }
    out
}

/// What is sent of an order whose indices fit into a message is read back unchanged.
pub proof fn lemma_reorder_round_trip(value: ReorderView, message: pb::SccReorderRecord)
    requires
        reorder_sent(value, message),
        forall|i: int| 0 <= i < value.successes.len() ==> #[trigger] value.successes[i] <= u32::MAX,
        forall|i: int| 0 <= i < value.fallbacks.len() ==> #[trigger] value.fallbacks[i] <= u32::MAX,
    ensures
        reorder_in(message) == value,
{
    assert(widen(narrow(value.successes)) =~= value.successes);
    assert(widen(narrow(value.fallbacks)) =~= value.fallbacks);
}

} // verus!
