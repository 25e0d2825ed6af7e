//! One transaction on the snapshot, step by step: it asks for one key after the other,
//! runs, and says who is to know of it.

use crate::collections;
use crate::collections::OrdMap;
use crate::engine::aria::coordinator;
use crate::engine::aria::coordinator::{
    add_aria_read, aria_read_plan, aria_stage_outcomes, check_aria_read,
};
use crate::engine::aria::AriaStageOutcome;
use crate::error::{BatchFault, Error, Result};
use crate::executor;
use crate::model::{BatchId, Key, OrderedTx, OrderedTxView, ReadValue, ShardId};
use crate::path::Path;
use crate::router;
use crate::router::ShardLayout;
use crate::state::Reads;
use vstd::prelude::*;

verus! {

/// A transaction while it runs on the snapshot.
pub struct AriaRun {
    layout: ShardLayout,
    shard_id: ShardId,
    batch_id: BatchId,
    tx_index: usize,
    tx: OrderedTx,
    asks: Vec<(Key, ShardId)>,
    reads: OrdMap<Key, ReadValue>,
    answered: usize,
}

#[verifier::ext_equal]
pub struct AriaTxView {
    pub shard_count: u64,
    pub shard_id: ShardId,
    pub batch_id: BatchId,
    pub tx_index: usize,
    pub tx: OrderedTxView,
    pub reads: Reads,
    /// How many keys are known.
    pub answered: nat,
}

impl AriaTxView {
    /// The keys to read, in order.
    pub open spec fn keys(self) -> Seq<Path> {
        collections::sorted::<Key>(executor::read_keys(self.tx.op))
    }
}

impl View for AriaRun {
    type V = AriaTxView;

    closed spec fn view(&self) -> AriaTxView {
        AriaTxView {
            shard_count: self.layout.shard_count,
            shard_id: self.shard_id,
            batch_id: self.batch_id,
            tx_index: self.tx_index,
            tx: self.tx@,
            reads: self.reads@,
            answered: self.answered as nat,
        }
    }
}

impl AriaRun {
    /// The keys that were answered for are those that are known.
    pub closed spec fn wf(&self) -> bool {
        let keys = self@.keys();
        &&& self.layout.wf()
        &&& self.asks.len() == keys.len()
        &&& self.answered <= keys.len()
        &&& collections::ascending::<Key>(keys)
        &&& keys.to_set() == executor::read_keys(self@.tx.op)
        &&& forall|i: int|
            0 <= i < keys.len() ==> (#[trigger] self.asks@[i]).0@ == keys[i] && self.asks@[i].1
                == router::shard_of(self.layout.shard_count, keys[i])
        &&& self.reads@.dom() == keys.take(self.answered as int).to_set()
    }

    /// Begins with no key known.
    pub fn begin(
        layout: ShardLayout,
        shard_id: ShardId,
        batch_id: BatchId,
        tx_index: usize,
        tx: OrderedTx,
    ) -> (r: Result<Self>)
        requires
            layout.wf(),
        ensures
            match r {
                Ok(run) => {
                    &&& run.wf()
                    &&& run@ == (AriaTxView {
                        shard_count: layout.shard_count,
                        shard_id,
                        batch_id,
                        tx_index,
                        tx: tx@,
                        reads: Map::empty(),
                        answered: 0,
                    })
                },
                Err(_) => false,
            },
    {
        let asks = aria_read_plan(&layout, &tx)?;
        let run = AriaRun {
            layout,
            shard_id,
            batch_id,
            tx_index,
            tx,
            asks,
            reads: OrdMap::new(),
            answered: 0,
        };
        proof {
            assert(executor::read_keys(run.tx@.op).finite());
            collections::lemma_sorted_of_finite::<Key>(executor::read_keys(run.tx@.op));
            assert(run@.keys().take(0).to_set() =~= Set::<Path>::empty());
            assert(run.reads@.dom() =~= Set::<Path>::empty());
        }
        Ok(run)
    }

    /// The key to ask for next, and the shard that holds it; nothing once all that the
    /// transaction reads are known.
    pub fn next(&self) -> (r: Option<(&Key, ShardId)>)
        requires
            self.wf(),
        ensures
            match r {
                Some((key, owner)) => {
                    &&& self@.answered < self@.keys().len()
                    &&& key@ == self@.keys()[self@.answered as int]
                    &&& owner == router::shard_of(self@.shard_count, key@)
                },
                None => {
                    &&& self@.answered == self@.keys().len()
                    &&& self@.reads.dom() == executor::read_keys(self@.tx.op)
                },
            },
    {
        if self.answered < self.asks.len() {
            Some((&self.asks[self.answered].0, self.asks[self.answered].1))
        } else {
            assert(self@.keys().take(self.answered as int) =~= self@.keys());
            None
        }
    }

    /// Takes the value of the key that was asked for; one of another key is refused.
    pub fn on_value(&mut self, returned: Key, value: ReadValue) -> (r: Result<()>)
        requires
            old(self).wf(),
            old(self)@.answered < old(self)@.keys().len(),
        ensures
            final(self).wf(),
            ({
                let asked = old(self)@.keys()[old(self)@.answered as int];
                match r {
                    Ok(_) => {
                        &&& returned@ == asked
                        &&& final(self)@ == (AriaTxView {
                            reads: old(self)@.reads.insert(asked, value),
                            answered: old(self)@.answered + 1,
                            ..old(self)@
                        })
                    },
                    Err(Error::InvalidBatch(BatchFault::AriaReadMismatch { tx_id, key, found })) => {
                        &&& returned@ != asked
                        &&& tx_id == old(self)@.tx.tx_id && key@ == asked && found@ == returned@
                        &&& final(self)@ == old(self)@
                    },
                    Err(_) => false,
                }
            }),
    {
        let ghost keys = self@.keys();
        let ghost known = keys.take(self.answered as int);
        let key = self.asks[self.answered].0.clone();
        match check_aria_read(self.tx.tx_id, &key, returned) {
            Ok(_) => {},
            Err(error) => return Err(error),
        }
        proof {
            collections::lemma_take_to_set(keys, self.answered as int);
            if known.to_set().contains(key@) {
                let i = choose|i: int| 0 <= i < known.len() && known[i] == key@;
                collections::lemma_ascending_no_duplicates::<Key>(keys);
                assert(keys[i] == keys[self.answered as int]);
            }
        }
        add_aria_read(&mut self.reads, self.tx.tx_id, &key, value)?;
        self.answered = self.answered + 1;
        assert(self.reads@.dom() =~= keys.take(self.answered as int).to_set());
        Ok(())
    }

    /// Runs the transaction on what is known, and says who is to know what of it. Nothing
    /// where a count would overflow.
    pub fn finish(&self) -> (r: Option<Vec<(ShardId, AriaStageOutcome)>>)
        requires
            self.wf(),
            self@.answered == self@.keys().len(),
        ensures
            ({
                let v = self@;
                let output = executor::execute(v.tx.op, v.reads);
                let targets = coordinator::stage_targets(output.writes, v.tx.tx_id, v.shard_count);
                match r {
                    Some(stages) => {
                        &&& !executor::overflows(v.tx.op, v.reads)
                        &&& coordinator::tells(
                            stages@,
                            collections::sorted::<ShardId>(targets),
                            v.batch_id,
                            v.tx_index,
                            v.tx.tx_id,
                            v.shard_id,
                            v.shard_count,
                            output,
                        )
                    },
                    None => executor::overflows(v.tx.op, v.reads),
                }
            }),
    {
        aria_stage_outcomes(
            &self.layout,
            self.shard_id,
            self.batch_id,
            self.tx_index,
            &self.tx,
            &self.reads,
        )
    }

}

} // verus!
