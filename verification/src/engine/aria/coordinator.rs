//! Running one transaction on the snapshot.

use crate::collections;
use crate::collections::{OrdMap, OrdSet};
use crate::engine::aria;
use crate::engine::aria::{aria_result_shard, AriaStageOutcome, StageView};
use crate::engine::batch::execute_checked;
use crate::error::{BatchFault, Error, Result};
use crate::executor;
use crate::executor::{derive_read_write_set, filter_local_writes};
use crate::model;
use crate::model::{
    clone_writes, BatchId, Key, OrderedTx, ReadValue, ShardId, TxId, TxOutputView, WriteOp,
    WriteOpView,
};
use crate::path::Path;
use crate::router;
use crate::router::ShardLayout;
use crate::state;
use vstd::prelude::*;

verus! {

/// The keys that a transaction reads, whatever the batch says of it.
pub fn aria_read_keys_for_tx(tx: &OrderedTx) -> (r: Result<OrdSet<Key>>)
    ensures
        match r {
            Ok(keys) => keys@ == executor::read_keys(tx@.op),
            Err(_) => false,
        },
{
    let (read_set, _) = derive_read_write_set(&tx.op)?;
    Ok(read_set)
}

/// The keys to read for a transaction, in order, each with the shard that holds it.
pub fn aria_read_plan(layout: &ShardLayout, tx: &OrderedTx) -> (r: Result<Vec<(Key, ShardId)>>)
    requires
        layout.wf(),
    ensures
        match r {
            Ok(asks) => {
                let keys = collections::sorted::<Key>(executor::read_keys(tx@.op));
                &&& asks@.len() == keys.len()
                &&& forall|i: int|
                    0 <= i < keys.len() ==> (#[trigger] asks@[i]).0@ == keys[i] && asks@[i].1
                        == router::shard_of(layout.shard_count, keys[i])
            },
            Err(_) => false,
        },
{
    let keys = aria_read_keys_for_tx(tx)?;
    let n = keys.len();
    let ghost order = keys.ordered();
    let mut asks: Vec<(Key, ShardId)> = Vec::new();
    let mut i: usize = 0;
    while i < n
        invariant
            i <= n,
            n == order.len(),
            order == keys.ordered(),
            layout.wf(),
            asks.len() == i,
            forall|j: int|
                0 <= j < i ==> (#[trigger] asks@[j]).0@ == order[j] && asks@[j].1
                    == router::shard_of(layout.shard_count, order[j]),
        decreases n - i,
    {
        let key = keys.at(i);
        let owner = layout.shard_for_key(key);
        asks.push((key.clone(), owner));
        i += 1;
    }
    Ok(asks)
}

/// Checks that the answer of another shard is about the key that was asked for.
pub fn check_aria_read(tx_id: TxId, key: &Key, returned: Key) -> (r: Result<()>)
    ensures
        match r {
            Ok(_) => returned@ == key@,
            Err(Error::InvalidBatch(BatchFault::AriaReadMismatch { tx_id: t, key: k, found })) => {
                &&& returned@ != key@
                &&& t == tx_id && k@ == key@ && found@ == returned@
            },
            Err(_) => false,
        },
{
    if returned.equals(key) {
        Ok(())
    } else {
        Err(
            Error::InvalidBatch(
                BatchFault::AriaReadMismatch { tx_id, key: key.clone(), found: returned },
            ),
        )
    }
}

/// Adds the value of one key to the reads of a transaction.
pub fn add_aria_read(
    full_reads: &mut OrdMap<Key, ReadValue>,
    tx_id: TxId,
    key: &Key,
    value: ReadValue,
) -> (r: Result<()>)
    ensures
        final(full_reads)@ == old(full_reads)@.insert(key@, value),
        match r {
            Ok(_) => !old(full_reads)@.contains_key(key@),
            Err(Error::InvalidBatch(BatchFault::AriaReadTwice { tx_id: t, key: k })) => {
                old(full_reads)@.contains_key(key@) && t == tx_id && k@ == key@
            },
            Err(_) => false,
        },
{
    match full_reads.insert(key.clone(), value) {
        None => Ok(()),
        Some(_) => Err(
            Error::InvalidBatch(BatchFault::AriaReadTwice { tx_id, key: key.clone() }),
        ),
    }
}

/// The shards that are told of a transaction: those of the keys it wrote, and the one
/// that answers for it.
pub open spec fn stage_targets(
    writes: Seq<WriteOpView>,
    tx_id: TxId,
    shard_count: u64,
) -> Set<ShardId> {
    router::shards_of(shard_count, state::write_targets(writes)).insert(
        aria::result_shard(tx_id, shard_count),
    )
}

/// What shard `target` is told of a transaction that came to `output`.
pub open spec fn stage_for(
    batch_id: BatchId,
    tx_index: usize,
    tx_id: TxId,
    from_shard: ShardId,
    shard_count: u64,
    output: TxOutputView,
    target: ShardId,
) -> StageView {
    StageView {
        batch_id,
        tx_index,
        tx_id,
        from_shard,
        result: output.result,
        writes: executor::local_writes(output.writes, target, shard_count),
        is_result_shard: target == aria::result_shard(tx_id, shard_count),
    }
}

/// The shards on which the first `n` of `writes` are.
spec fn owners(writes: Seq<WriteOpView>, shard_count: u64, n: int) -> Set<ShardId> {
    router::shards_of(shard_count, state::write_targets(writes.take(n)))
}

proof fn lemma_owners_step(writes: Seq<WriteOpView>, shard_count: u64, n: int)
    requires
        0 <= n < writes.len(),
    ensures
        owners(writes, shard_count, n + 1) == owners(writes, shard_count, n).insert(
            router::shard_of(shard_count, writes[n].target()),
        ),
{
    let a = writes.take(n);
    let b = writes.take(n + 1);
    assert(b =~= a.push(writes[n]));
    assert forall|k: Path| state::write_targets(b).contains(k) <==> state::write_targets(a).insert(
        writes[n].target(),
    ).contains(k) by {
        if state::write_targets(a).contains(k) {
            let i = choose|i: int| 0 <= i < a.len() && (#[trigger] a[i]).target() == k;
            assert(b[i].target() == k);
        }
        if state::write_targets(b).contains(k) {
            let i = choose|i: int| 0 <= i < b.len() && (#[trigger] b[i]).target() == k;
            if i < n {
                assert(a[i].target() == k);
            }
        }
        assert(b[n].target() == writes[n].target());
    }
    assert(state::write_targets(b) =~= state::write_targets(a).insert(writes[n].target()));
    router::lemma_shards_insert(shard_count, state::write_targets(a), writes[n].target());
}

/// The shards to tell, in order.
fn stage_target_set(layout: &ShardLayout, writes: &Vec<WriteOp>, tx_id: TxId) -> (r: OrdSet<
    ShardId,
>)
    requires
        layout.wf(),
    ensures
        r@ == stage_targets(model::write_views(writes@), tx_id, layout.shard_count),
{
    let ghost views = model::write_views(writes@);
    let mut targets: OrdSet<ShardId> = OrdSet::new();
    let mut i: usize = 0;
    assert(owners(views, layout.shard_count, 0) =~= Set::<ShardId>::empty());
    while i < writes.len()
        invariant
            i <= writes.len(),
            views == model::write_views(writes@),
            layout.wf(),
            targets@ == owners(views, layout.shard_count, i as int),
        decreases writes.len() - i,
    {
        assert(views[i as int] == writes@[i as int]@);
        let owner = layout.shard_for_key(writes[i].key());
        let _ = targets.insert(owner);
        proof {
            lemma_owners_step(views, layout.shard_count, i as int);
        }
        i += 1;
    }
    assert(views.take(i as int) =~= views);
    let _ = targets.insert(aria_result_shard(tx_id, layout.shard_count));
    targets
}

/// `stages` tells each of `targets`, in order, what it is to know.
pub open spec fn tells(
    stages: Seq<(ShardId, AriaStageOutcome)>,
    targets: Seq<ShardId>,
    batch_id: BatchId,
    tx_index: usize,
    tx_id: TxId,
    from_shard: ShardId,
    shard_count: u64,
    output: TxOutputView,
) -> bool {
    &&& stages.len() == targets.len()
    &&& forall|i: int|
        0 <= i < targets.len() ==> (#[trigger] stages[i]).0 == targets[i] && stages[i].1@
            == stage_for(batch_id, tx_index, tx_id, from_shard, shard_count, output, targets[i])
}

/// Runs `tx` on all its reads; tells which shard is to know what of it. Nothing where a
/// count would overflow.
pub fn aria_stage_outcomes(
    layout: &ShardLayout,
    shard_id: ShardId,
    batch_id: BatchId,
    tx_index: usize,
    tx: &OrderedTx,
    full_reads: &OrdMap<Key, ReadValue>,
) -> (r: Option<Vec<(ShardId, AriaStageOutcome)>>)
    requires
        layout.wf(),
    ensures
        ({
            let output = executor::execute(tx@.op, full_reads@);
            let targets = stage_targets(output.writes, tx@.tx_id, layout.shard_count);
            match r {
                Some(stages) => {
                    &&& !executor::overflows(tx@.op, full_reads@)
                    &&& tells(
                        stages@,
                        collections::sorted::<ShardId>(targets),
                        batch_id,
                        tx_index,
                        tx@.tx_id,
                        shard_id,
                        layout.shard_count,
                        output,
                    )
                },
                None => executor::overflows(tx@.op, full_reads@),
            }
        }),
{
    let output = match execute_checked(tx, full_reads) {
        Some(output) => output,
        None => return None,
    };
    let ghost view = output@;
    let result_shard = aria_result_shard(tx.tx_id, layout.shard_count);
    let targets = stage_target_set(layout, &output.writes, tx.tx_id);
    let n = targets.len();
    let ghost order = targets.ordered();
    let mut stages: Vec<(ShardId, AriaStageOutcome)> = Vec::new();
    let mut i: usize = 0;
    while i < n
        invariant
            i <= n,
            n == order.len(),
            order == targets.ordered(),
            layout.wf(),
            view == output@,
            result_shard == aria::result_shard(tx@.tx_id, layout.shard_count),
            tells(
                stages@,
                order.take(i as int),
                batch_id,
                tx_index,
                tx@.tx_id,
                shard_id,
                layout.shard_count,
                view,
            ),
        decreases n - i,
    {
        let target = *targets.at(i);
        let writes = filter_local_writes(clone_writes(&output.writes), target, layout);
        stages.push(
            (
                target,
                AriaStageOutcome {
                    batch_id,
                    tx_index,
                    tx_id: tx.tx_id,
                    from_shard: shard_id,
                    result: output.result,
                    writes,
                    is_result_shard: target == result_shard,
                },
            ),
        );
        i += 1;
    }
    assert(order.take(i as int) =~= order);
    Some(stages)
}

} // verus!
