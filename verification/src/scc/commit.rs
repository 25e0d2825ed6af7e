//! The commit sequence of a batch: one slot per transaction, set once.

use crate::error::{BatchFault, Error, Result};
use crate::scc::delta::{DeltaOpView, TxDelta};
use std::sync::Arc;
use vstd::prelude::*;

verus! {

/// What a transaction contributes to the state of this shard.
#[derive(Debug, PartialEq, Eq)]
pub enum CommitSlotState {
    Pending,
    NoOp,
    Delta(Arc<TxDelta>),
    Failed,
}

pub enum SlotView {
    Pending,
    NoOp,
    Delta(Seq<DeltaOpView>),
    Failed,
}

impl View for CommitSlotState {
    type V = SlotView;

    open spec fn view(&self) -> SlotView {
        match self {
            CommitSlotState::Pending => SlotView::Pending,
            CommitSlotState::NoOp => SlotView::NoOp,
            CommitSlotState::Delta(delta) => SlotView::Delta(delta@),
            CommitSlotState::Failed => SlotView::Failed,
        }
    }
}

impl Clone for CommitSlotState {
    fn clone(&self) -> (r: Self)
        ensures
            r@ == self@,
    {
        match self {
            CommitSlotState::Pending => CommitSlotState::Pending,
            CommitSlotState::NoOp => CommitSlotState::NoOp,
            CommitSlotState::Delta(delta) => CommitSlotState::Delta(Arc::clone(delta)),
            CommitSlotState::Failed => CommitSlotState::Failed,
        }
    }
}

/// The slots of a batch.
pub struct CommitSequence {
    slots: Vec<CommitSlotState>,
}

pub open spec fn slot_views(slots: Seq<CommitSlotState>) -> Seq<SlotView> {
    slots.map_values(|s: CommitSlotState| s@)
}

impl View for CommitSequence {
    type V = Seq<SlotView>;

    closed spec fn view(&self) -> Seq<SlotView> {
        slot_views(self.slots@)
    }
}

/// Why a slot cannot be set.
pub open spec fn set_error(
    slots: Seq<SlotView>,
    index: usize,
    state: SlotView,
    error: Error,
) -> bool {
    match error {
        Error::InvalidBatch(BatchFault::SlotBackToPending { index: i }) => {
            state == SlotView::Pending && i == index
        },
        Error::InvalidBatch(BatchFault::SlotOutOfRange { index: i, len }) => {
            &&& state != SlotView::Pending
            &&& index >= slots.len()
            &&& i == index && len == slots.len()
        },
        Error::InvalidBatch(BatchFault::SlotAlreadySet { index: i }) => {
            &&& state != SlotView::Pending
            &&& index < slots.len()
            &&& slots[index as int] != SlotView::Pending
            &&& i == index
        },
        _ => false,
    }
}

impl CommitSequence {
    pub fn new(batch_len: usize) -> (r: Self)
        ensures
            r@ == Seq::new(batch_len as nat, |i: int| SlotView::Pending),
    {
        let mut slots: Vec<CommitSlotState> = Vec::new();
        let mut i: usize = 0;
        while i < batch_len
            invariant
                i <= batch_len,
                slots.len() == i,
                forall|j: int| 0 <= j < i ==> (#[trigger] slots@[j])@ == SlotView::Pending,
            decreases batch_len - i,
        {
            slots.push(CommitSlotState::Pending);
            i += 1;
        }
        let r = CommitSequence { slots };
        assert(r@ =~= Seq::new(batch_len as nat, |i: int| SlotView::Pending));
        r
    }

    pub fn len(&self) -> (n: usize)
        ensures
            n == self@.len(),
    {
        self.slots.len()
    }

    /// The terminal state of a slot; nothing while it has none, and there is
    /// something to wait for.
    pub fn wait_terminal(&self, index: usize) -> (r: Result<Option<CommitSlotState>>)
        ensures
            match r {
                Ok(Some(state)) => {
                    &&& index < self@.len()
                    &&& self@[index as int] == state@
                    &&& state@ != SlotView::Pending
                },
                Ok(None) => index < self@.len() && self@[index as int] == SlotView::Pending,
                Err(Error::InvalidBatch(BatchFault::SlotOutOfRange { index: i, len })) => {
                    index >= self@.len() && i == index && len == self@.len()
                },
                Err(_) => false,
            },
    {
        let slot = self.slot(index)?;
        match slot {
            CommitSlotState::Pending => Ok(None),
            _ => Ok(Some(slot.clone())),
        }
    }

    /// Sets a slot that is still pending to a terminal state.
    pub fn set_terminal_once(&mut self, index: usize, state: CommitSlotState) -> (r: Result<()>)
        ensures
            match r {
                Ok(_) => {
                    &&& state@ != SlotView::Pending
                    &&& index < old(self)@.len()
                    &&& old(self)@[index as int] == SlotView::Pending
                    &&& final(self)@ == old(self)@.update(index as int, state@)
                },
                Err(error) => {
                    &&& set_error(old(self)@, index, state@, error)
                    &&& final(self)@ == old(self)@
                },
            },
    {
        if matches!(state, CommitSlotState::Pending) {
            return Err(Error::InvalidBatch(BatchFault::SlotBackToPending { index }));
        }
        let slot = self.slot(index)?;
        if !matches!(slot, CommitSlotState::Pending) {
            return Err(Error::InvalidBatch(BatchFault::SlotAlreadySet { index }));
        }
        self.slots.set(index, state);
        assert(self@ =~= old(self)@.update(index as int, state@));
        Ok(())
    }

    /// A copy of all slots as they are now.
    pub fn terminal_snapshot(&self) -> (r: Vec<CommitSlotState>)
        ensures
            slot_views(r@) == self@,
    {
        let mut r: Vec<CommitSlotState> = Vec::new();
        let mut i: usize = 0;
        while i < self.slots.len()
            invariant
                i <= self.slots.len(),
                r.len() == i,
                forall|j: int| 0 <= j < i ==> (#[trigger] r@[j])@ == self.slots@[j]@,
            decreases self.slots.len() - i,
        {
            r.push(self.slots[i].clone());
            i += 1;
        }
        assert(slot_views(r@) =~= self@);
        r
    }

    fn slot(&self, index: usize) -> (r: Result<&CommitSlotState>)
        ensures
            match r {
                Ok(slot) => index < self@.len() && slot@ == self@[index as int] && slot
                    == self.slots@[index as int],
                Err(Error::InvalidBatch(BatchFault::SlotOutOfRange { index: i, len })) => {
                    index >= self@.len() && i == index && len == self@.len()
                },
                Err(_) => false,
            },
    {
        if index < self.slots.len() {
            Ok(&self.slots[index])
        } else {
            Err(
                Error::InvalidBatch(BatchFault::SlotOutOfRange { index, len: self.slots.len() }),
            )
        }
    }
}

} // verus!
