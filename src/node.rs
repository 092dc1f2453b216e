//! The node: chain, state, validator set and mempool, with atomic block
//! application.
use crate::chain::Chain;
use crate::consensus::{selected_proposer, ValidatorSet};
use crate::effects::{
    apply_block_effects, apply_effects, block_effects, check_effects, first_conflict,
    lemma_apply_shape, lemma_block_ids,
};
use crate::ledger::{
    block_content, transactions_view, Block, BlockView, StateObjectView, Transaction,
    TransactionView,
};
use crate::mempool::{batch_len, offer, Mempool};
use crate::state_db::StateDB;
use crate::validator::{
    validation_outcome, TransactionValidator, ValidationError, ValidationErrorView,
};
use vstd::prelude::*;

verus! {

/// The gossip topic that carries encoded transactions.
pub const TRANSACTIONS_TOPIC: &'static str = "transactions";

/// The gossip topic that carries encoded blocks.
pub const BLOCKS_TOPIC: &'static str = "blocks";

/// How many mempool transactions a proposer puts in one block.
pub const PROPOSER_BATCH_SIZE: usize = 10;

/// Seconds between proposer ticks.
pub const PROPOSER_PERIOD_SECS: u64 = 10;

/// Why a block was rejected.
#[derive(Debug, PartialEq, Eq)]
pub enum ProcessBlockError {
    /// The block does not extend the latest block of the chain.
    MismatchedPreviousHash,
    /// A transaction of the block is invalid, or the block's transactions
    /// conflict with each other or with the state.
    TransactionError(ValidationError),
}

/// The abstract value of a [`ProcessBlockError`].
pub enum ProcessBlockErrorView {
    MismatchedPreviousHash,
    TransactionError(ValidationErrorView),
}

impl View for ProcessBlockError {
    type V = ProcessBlockErrorView;

    open spec fn view(&self) -> ProcessBlockErrorView {
        match self {
            ProcessBlockError::MismatchedPreviousHash => ProcessBlockErrorView::MismatchedPreviousHash,
            ProcessBlockError::TransactionError(e) => ProcessBlockErrorView::TransactionError(e@),
        }
    }
}

/// The first transaction of `txs` that fails validation against `state`,
/// with its error.
pub open spec fn first_invalid(
    state: Map<Seq<u8>, StateObjectView>,
    txs: Seq<TransactionView>,
) -> Option<ValidationErrorView>
    decreases txs.len(),
{
    if txs.len() == 0 {
        None
    } else {
        match validation_outcome(state, txs[0]) {
            Err(e) => Some(e),
            Ok(()) => first_invalid(state, txs.drop_first()),
        }
    }
}

/// The outcome of processing `block` on a node whose latest block id is
/// `latest` and whose state is `state`: linkage first, then every
/// transaction against the pre-block state, then conflicts among the
/// block's effects.
pub open spec fn block_outcome(
    latest: Seq<u8>,
    state: Map<Seq<u8>, StateObjectView>,
    block: BlockView,
) -> Result<(), ProcessBlockErrorView> {
    if block.previous_hash != latest {
        Err(ProcessBlockErrorView::MismatchedPreviousHash)
    } else if let Some(e) = first_invalid(state, block.transactions) {
        Err(ProcessBlockErrorView::TransactionError(e))
    } else if let Some(e) = first_conflict(state, block_effects(block.transactions)) {
        Err(ProcessBlockErrorView::TransactionError(ValidationErrorView::StateError(e)))
    } else {
        Ok(())
    }
}

/// The state after a block that was accepted.
pub open spec fn state_after(
    state: Map<Seq<u8>, StateObjectView>,
    block: BlockView,
) -> Map<Seq<u8>, StateObjectView> {
    apply_effects(state, block_effects(block.transactions))
}

/// What a proposer tick did.
#[derive(Debug)]
pub enum TickOutcome {
    /// Another validator (or none) proposes this round; nothing changed.
    Idle,
    /// The drained transactions make a block too long to hash; they were
    /// dropped and nothing else changed.
    Oversized,
    /// A block was built from the drained transactions and processed.
    Processed(Result<(), ProcessBlockError>),
}

/// A node's ledger state; the network side drives it from outside.
pub struct Node {
    pub chain: Chain,
    pub state_db: StateDB,
    pub validator_set: ValidatorSet,
    pub mempool: Mempool,
}

impl Node {
    pub open spec fn wf(&self) -> bool {
        &&& self.chain.wf()
        &&& self.state_db.wf()
        &&& self.validator_set.wf()
    }

    /// A node with the genesis chain, an empty state, no validators and an
    /// empty mempool of the default capacity.
    pub fn new() -> (r: Self)
        ensures
            r.wf(),
            r.chain@ == seq![crate::chain::genesis_view()],
            r.state_db@ == Map::<Seq<u8>, StateObjectView>::empty(),
            r.validator_set@ == Map::<Seq<u8>, u64>::empty(),
            r.mempool@ == Seq::<TransactionView>::empty(),
            r.mempool.capacity() == crate::mempool::MAX_MEMPOOL_SIZE,
    {
        Node {
            chain: Chain::new(),
            state_db: StateDB::new(),
            validator_set: ValidatorSet::new(),
            mempool: Mempool::new(),
        }
    }

    /// Validates `block` against the current chain and state and, only if it
    /// is valid as a whole, applies its transactions in order and appends
    /// it. On any error nothing changes.
    pub fn process_block(&mut self, block: Block) -> (r: Result<(), ProcessBlockError>)
        requires
            old(self).wf(),
        ensures
            final(self).wf(),
            match r {
                Ok(()) => {
                    &&& block_outcome(old(self).chain.latest_id(), old(self).state_db@, block@) is Ok
                    &&& final(self).state_db@ == state_after(old(self).state_db@, block@)
                    &&& final(self).chain@ == old(self).chain@.push(block@)
                    &&& final(self).validator_set == old(self).validator_set
                    &&& final(self).mempool == old(self).mempool
                },
                Err(e) => {
                    &&& block_outcome(old(self).chain.latest_id(), old(self).state_db@, block@)
                        == Err::<(), ProcessBlockErrorView>(e@)
                    &&& *final(self) == *old(self)
                },
            },
    {
        let latest_hash = self.chain.get_latest_hash();
        if !crate::bytes::eq32(&block.previous_hash, &latest_hash) {
            return Err(ProcessBlockError::MismatchedPreviousHash);
        }
        let ghost txs = transactions_view(block.transactions@);
        let ghost pre = self.state_db@;
        {
            let validator = TransactionValidator::new(&self.state_db);
            let mut i: usize = 0;
            assert(txs.skip(0) =~= txs);
            while i < block.transactions.len()
                invariant
                    *self == *old(self),
                    self.wf(),
                    pre == old(self).state_db@,
                    block@.previous_hash == old(self).chain.latest_id(),
                    validator.wf(),
                    validator.state() == pre,
                    txs == transactions_view(block.transactions@),
                    i <= block.transactions@.len(),
                    first_invalid(pre, txs) == first_invalid(pre, txs.skip(i as int)),
                decreases block.transactions@.len() - i,
            {
                proof {
                    assert(txs.skip(i as int)[0] == txs[i as int]);
                    assert(txs.skip(i as int).drop_first() =~= txs.skip(i + 1));
                }
                match validator.validate_transaction(&block.transactions[i]) {
                    Ok(()) => {},
                    Err(e) => {
                        return Err(ProcessBlockError::TransactionError(e));
                    },
                }
                i = i + 1;
            }
            assert(txs.skip(i as int).len() == 0);
        }
        match check_effects(&self.state_db, &block.transactions) {
            Ok(()) => {},
            Err(e) => {
                return Err(ProcessBlockError::TransactionError(ValidationError::StateError(e)));
            },
        }
        apply_block_effects(&mut self.state_db, &block.transactions);
        self.chain.add_block(block);
        Ok(())
    }

    /// Handles a transaction received on the `transactions` topic: it is
    /// validated against the current state and, if valid, offered to the
    /// mempool. Returns whether the mempool took it.
    pub fn receive_transaction(&mut self, tx: Transaction) -> (r: Result<bool, ValidationError>)
        requires
            old(self).wf(),
        ensures
            final(self).wf(),
            final(self).chain == old(self).chain,
            final(self).state_db == old(self).state_db,
            final(self).validator_set == old(self).validator_set,
            final(self).mempool.capacity() == old(self).mempool.capacity(),
            match r {
                Ok(taken) => {
                    &&& validation_outcome(old(self).state_db@, tx@) is Ok
                    &&& (final(self).mempool@, taken) == offer(
                        old(self).mempool@,
                        old(self).mempool.capacity(),
                        tx@,
                    )
                },
                Err(e) => {
                    &&& validation_outcome(old(self).state_db@, tx@) == Err::<(), ValidationErrorView>(
                        e@,
                    )
                    &&& final(self).mempool == old(self).mempool
                },
            },
    {
        let verdict = {
            let validator = TransactionValidator::new(&self.state_db);
            validator.validate_transaction(&tx)
        };
        match verdict {
            Ok(()) => Ok(self.mempool.add_transaction(tx)),
            Err(e) => Err(e),
        }
    }

    /// Handles a proposer tick for the validator whose key is `local_key`:
    /// when it is the selected proposer for the round after the latest
    /// block, drains up to `max_txs` transactions from the mempool, builds a
    /// block on the latest block with them (empty VDF proof) and processes
    /// it.
    pub fn on_tick(&mut self, local_key: crate::crypto::PublicKey, max_txs: usize) -> (r: TickOutcome)
        requires
            old(self).wf(),
        ensures
            final(self).wf(),
            final(self).validator_set == old(self).validator_set,
            selected_proposer(old(self).validator_set@, old(self).chain.latest_id()) != Some(
                local_key@,
            ) ==> r is Idle && *final(self) == *old(self),
            selected_proposer(old(self).validator_set@, old(self).chain.latest_id()) == Some(
                local_key@,
            ) ==> {
                let k = batch_len(old(self).mempool@.len(), max_txs as nat) as int;
                let txs = old(self).mempool@.take(k);
                let content = block_content(
                    old(self).chain.latest_id(),
                    local_key@,
                    txs,
                    Seq::empty(),
                );
                let block = BlockView {
                    id: crate::crypto::sha256(content),
                    previous_hash: old(self).chain.latest_id(),
                    proposer: local_key@,
                    transactions: txs,
                    vdf_proof: Seq::empty(),
                };
                &&& final(self).mempool@ == old(self).mempool@.skip(k)
                &&& content.len() >= crate::crypto::HASH_INPUT_LIMIT ==> {
                    &&& r is Oversized
                    &&& final(self).chain == old(self).chain
                    &&& final(self).state_db == old(self).state_db
                }
                &&& content.len() < crate::crypto::HASH_INPUT_LIMIT ==> match r {
                    TickOutcome::Processed(Ok(())) => {
                        &&& block_outcome(old(self).chain.latest_id(), old(self).state_db@, block) is Ok
                        &&& final(self).state_db@ == state_after(old(self).state_db@, block)
                        &&& final(self).chain@ == old(self).chain@.push(block)
                    },
                    TickOutcome::Processed(Err(e)) => {
                        &&& block_outcome(old(self).chain.latest_id(), old(self).state_db@, block)
                            == Err::<(), ProcessBlockErrorView>(e@)
                        &&& final(self).chain == old(self).chain
                        &&& final(self).state_db == old(self).state_db
                    },
                    _ => false,
                }
            },
    {
        let latest_hash = self.chain.get_latest_hash();
        let chosen = self.validator_set.select_proposer(latest_hash);
        let mine = match chosen {
            Some(key) => crate::bytes::eq32(&key, &local_key),
            None => false,
        };
        if !mine {
            return TickOutcome::Idle;
        }
        let transactions = self.mempool.get_batch(max_txs);
        let block = match Block::try_new(latest_hash, local_key, transactions, Vec::new()) {
            Some(b) => b,
            None => {
                return TickOutcome::Oversized;
            },
        };
        assert(block@.transactions =~= transactions_view(block.transactions@));
        assert(block@.vdf_proof =~= Seq::<u8>::empty());
        TickOutcome::Processed(self.process_block(block))
    }
}

/// After a block is accepted, every input of its transactions is absent
/// from the state, every output is present, and every other id is as it
/// was.
pub proof fn lemma_conservation(
    latest: Seq<u8>,
    state: Map<Seq<u8>, StateObjectView>,
    block: BlockView,
)
    requires
        block_outcome(latest, state, block) is Ok,
    ensures
        forall|i: int, j: int|
            0 <= i < block.transactions.len() && 0 <= j < block.transactions[i].inputs.len()
                ==> !state_after(state, block).contains_key(
                #[trigger] block.transactions[i].inputs[j],
            ),
        forall|i: int, j: int|
            0 <= i < block.transactions.len() && 0 <= j < block.transactions[i].outputs.len()
                ==> state_after(state, block).contains_key(
                #[trigger] block.transactions[i].outputs[j].id,
            ),
        forall|k: Seq<u8>|
            (forall|i: int, j: int|
                0 <= i < block.transactions.len() && 0 <= j < block.transactions[i].inputs.len()
                    ==> #[trigger] block.transactions[i].inputs[j] != k) && (forall|i: int, j: int|
                0 <= i < block.transactions.len() && 0 <= j < block.transactions[i].outputs.len()
                    ==> #[trigger] block.transactions[i].outputs[j].id != k) ==> {
                &&& (#[trigger] state_after(state, block).contains_key(k) <==> state.contains_key(k))
                &&& (state.contains_key(k) ==> state_after(state, block)[k] == state[k])
            },
{
    let txs = block.transactions;
    let evs = block_effects(txs);
    lemma_apply_shape(state, evs);
    assert forall|i: int, j: int|
        0 <= i < txs.len() && 0 <= j < txs[i].inputs.len() implies !state_after(
        state,
        block,
    ).contains_key(#[trigger] txs[i].inputs[j]) by {
        let k = txs[i].inputs[j];
        lemma_block_ids(txs, k);
        assert(crate::effects::consumed(evs).contains(k));
    }
    assert forall|i: int, j: int|
        0 <= i < txs.len() && 0 <= j < txs[i].outputs.len() implies state_after(
        state,
        block,
    ).contains_key(#[trigger] txs[i].outputs[j].id) by {
        let k = txs[i].outputs[j].id;
        lemma_block_ids(txs, k);
        assert(crate::effects::produced(evs).contains(k));
    }
    assert forall|k: Seq<u8>|
        (forall|i: int, j: int|
            0 <= i < txs.len() && 0 <= j < txs[i].inputs.len() ==> #[trigger] txs[i].inputs[j]
                != k) && (forall|i: int, j: int|
            0 <= i < txs.len() && 0 <= j < txs[i].outputs.len() ==> #[trigger] txs[i].outputs[j].id
                != k) implies {
        &&& (#[trigger] state_after(state, block).contains_key(k) <==> state.contains_key(k))
        &&& (state.contains_key(k) ==> state_after(state, block)[k] == state[k])
    } by {
        lemma_block_ids(txs, k);
        assert(!crate::effects::consumed(evs).contains(k));
        assert(!crate::effects::produced(evs).contains(k));
    }
}

} // verus!
