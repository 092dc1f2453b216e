//! The mempool: a bounded first-in first-out buffer of pending transactions.
use crate::ledger::{transactions_view, Transaction, TransactionView};
use std::collections::VecDeque;
use vstd::prelude::*;

verus! {

/// The default number of transactions a mempool holds.
pub const MAX_MEMPOOL_SIZE: usize = 1000;

/// The queue after offering `tx` to `queue` under capacity `capacity`, and
/// whether it was taken: it is taken, at the tail, only when there is room.
pub open spec fn offer(
    queue: Seq<TransactionView>,
    capacity: nat,
    tx: TransactionView,
) -> (Seq<TransactionView>, bool) {
    if queue.len() >= capacity {
        (queue, false)
    } else {
        (queue.push(tx), true)
    }
}

/// The queue after offering each of `txs` in order, and whether all were
/// taken.
pub open spec fn offer_all(
    queue: Seq<TransactionView>,
    capacity: nat,
    txs: Seq<TransactionView>,
) -> (Seq<TransactionView>, bool)
    decreases txs.len(),
{
    if txs.len() == 0 {
        (queue, true)
    } else {
        let (q, all) = offer_all(queue, capacity, txs.drop_last());
        let (q2, taken) = offer(q, capacity, txs.last());
        (q2, all && taken)
    }
}

/// The number of transactions a batch of at most `max` takes from a queue
/// of `len`.
pub open spec fn batch_len(len: nat, max: nat) -> nat {
    if len < max {
        len
    } else {
        max
    }
}

/// Pending transactions, oldest first.
#[derive(Debug)]
pub struct Mempool {
    transactions: VecDeque<Transaction>,
    capacity: usize,
}

impl View for Mempool {
    type V = Seq<TransactionView>;

    closed spec fn view(&self) -> Seq<TransactionView> {
        self.transactions@.map_values(|t: Transaction| t@)
    }
}

impl Mempool {
    /// How many transactions the mempool holds at most.
    pub closed spec fn capacity(&self) -> nat {
        self.capacity as nat
    }

    /// An empty mempool of the default capacity.
    pub fn new() -> (r: Self)
        ensures
            r@ == Seq::<TransactionView>::empty(),
            r.capacity() == MAX_MEMPOOL_SIZE,
    {
        Self::with_capacity(MAX_MEMPOOL_SIZE)
    }

    /// An empty mempool holding at most `capacity` transactions.
    pub fn with_capacity(capacity: usize) -> (r: Self)
        ensures
            r@ == Seq::<TransactionView>::empty(),
            r.capacity() == capacity,
    {
        let r = Mempool { transactions: VecDeque::new(), capacity };
        assert(r@ =~= Seq::<TransactionView>::empty());
        r
    }

    /// The number of pending transactions.
    pub fn len(&self) -> (r: usize)
        ensures
            r == self@.len(),
    {
        self.transactions.len()
    }

    /// Enqueues `tx` at the tail when there is room; returns whether it was
    /// taken.
    pub fn add_transaction(&mut self, tx: Transaction) -> (r: bool)
        ensures
            final(self).capacity() == old(self).capacity(),
            (final(self)@, r) == offer(old(self)@, old(self).capacity(), tx@),
    {
        if self.transactions.len() >= self.capacity {
            return false;
        }
        let ghost v = tx@;
        self.transactions.push_back(tx);
        assert(self@ =~= old(self)@.push(v));
        true
    }

    /// Dequeues up to `max_txs` transactions from the head, in order.
    pub fn get_batch(&mut self, max_txs: usize) -> (r: Vec<Transaction>)
        ensures
            final(self).capacity() == old(self).capacity(),
            transactions_view(r@) == old(self)@.take(batch_len(old(self)@.len(), max_txs as nat) as int),
            final(self)@ == old(self)@.skip(batch_len(old(self)@.len(), max_txs as nat) as int),
    {
        let n = if self.transactions.len() < max_txs {
            self.transactions.len()
        } else {
            max_txs
        };
        let mut batch: Vec<Transaction> = Vec::new();
        let mut i: usize = 0;
        while i < n
            invariant
                n == batch_len(old(self)@.len(), max_txs as nat),
                i <= n,
                self.capacity == old(self).capacity,
                transactions_view(batch@) == old(self)@.take(i as int),
                self@ == old(self)@.skip(i as int),
            decreases n - i,
        {
            assert(self@.len() > 0);
            let ghost before = self@;
            let ghost raw = self.transactions@;
            let ghost old_batch = batch@;
            match self.transactions.pop_front() {
                Some(tx) => {
                    let ghost v = tx@;
                    batch.push(tx);
                    assert(v == before[0]);
                    assert(before[0] == old(self)@[i as int]);
                    assert(batch@ == old_batch.push(tx));
                    assert(self.transactions@ == raw.subrange(1, raw.len() as int));
                    assert(self@ =~= before.subrange(1, before.len() as int));
                    assert(transactions_view(batch@) =~= transactions_view(old_batch).push(v));
                    assert(old(self)@.take(i + 1) =~= old(self)@.take(i as int).push(v));
                    assert(self@ =~= old(self)@.skip(i + 1));
                },
                None => {},
            }
            i = i + 1;
        }
        batch
    }
}

/// Filling a mempool of capacity `capacity` with `txs.len() <= capacity`
/// transactions from empty takes every one of them, and a batch of that
/// size then returns them in submission order.
pub proof fn lemma_fifo(txs: Seq<TransactionView>, capacity: nat)
    requires
        txs.len() <= capacity,
    ensures
        offer_all(Seq::empty(), capacity, txs).1,
        offer_all(Seq::empty(), capacity, txs).0 == txs,
        offer_all(Seq::empty(), capacity, txs).0.take(
            batch_len(txs.len(), txs.len()) as int,
        ) == txs,
    decreases txs.len(),
{
    if txs.len() > 0 {
        lemma_fifo(txs.drop_last(), capacity);
        assert(txs.drop_last().push(txs.last()) =~= txs);
    }
    assert(txs.take(txs.len() as int) =~= txs);
}

} // verus!
