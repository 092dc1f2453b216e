//! What applying a block does to the state, as a sequence of effects.
//!
//! A block's effects are, transaction by transaction in block order, the
//! consumption of each input and then the creation of each output. A block
//! is applicable to a state when no effect conflicts: every consumed id is
//! in the pre-block state and consumed once, and every created id is absent
//! from the pre-block state and created once.
use crate::bytes::eq32;
use crate::ledger::{
    hashes_view, transactions_view, StateObjectView, Transaction, TransactionView,
};
use crate::state_db::{StateDB, StateError, StateErrorView};
use vstd::prelude::*;

verus! {

/// One effect of a transaction on the state.
pub enum Effect {
    Consume(Seq<u8>),
    Produce(StateObjectView),
}

/// The effects of one transaction: its inputs consumed, then its outputs
/// created.
pub open spec fn tx_effects(t: TransactionView) -> Seq<Effect> {
    t.inputs.map_values(|id: Seq<u8>| Effect::Consume(id)) + t.outputs.map_values(
        |o: StateObjectView| Effect::Produce(o),
    )
}

/// The effects of a list of transactions, in order.
pub open spec fn block_effects(txs: Seq<TransactionView>) -> Seq<Effect>
    decreases txs.len(),
{
    if txs.len() == 0 {
        Seq::empty()
    } else {
        block_effects(txs.drop_last()) + tx_effects(txs.last())
    }
}

/// The ids consumed by `evs`, in order.
pub open spec fn consumed(evs: Seq<Effect>) -> Seq<Seq<u8>>
    decreases evs.len(),
{
    if evs.len() == 0 {
        Seq::empty()
    } else {
        match evs.last() {
            Effect::Consume(id) => consumed(evs.drop_last()).push(id),
            Effect::Produce(_) => consumed(evs.drop_last()),
        }
    }
}

/// The ids created by `evs`, in order.
pub open spec fn produced(evs: Seq<Effect>) -> Seq<Seq<u8>>
    decreases evs.len(),
{
    if evs.len() == 0 {
        Seq::empty()
    } else {
        match evs.last() {
            Effect::Consume(_) => produced(evs.drop_last()),
            Effect::Produce(o) => produced(evs.drop_last()).push(o.id),
        }
    }
}

/// Whether the effect `e`, coming after `before`, conflicts with the
/// pre-block state `pre`.
pub open spec fn conflict_of(
    pre: Map<Seq<u8>, StateObjectView>,
    before: Seq<Effect>,
    e: Effect,
) -> Option<StateErrorView> {
    match e {
        Effect::Consume(id) => if !pre.contains_key(id) || consumed(before).contains(id) {
            Some(StateErrorView::NotFound(id))
        } else {
            None
        },
        Effect::Produce(o) => if pre.contains_key(o.id) || produced(before).contains(o.id) {
            Some(StateErrorView::AlreadyExists(o.id))
        } else {
            None
        },
    }
}

/// The first conflict among `evs`, if any.
pub open spec fn first_conflict(
    pre: Map<Seq<u8>, StateObjectView>,
    evs: Seq<Effect>,
) -> Option<StateErrorView>
    decreases evs.len(),
{
    if evs.len() == 0 {
        None
    } else {
        match first_conflict(pre, evs.drop_last()) {
            Some(e) => Some(e),
            None => conflict_of(pre, evs.drop_last(), evs.last()),
        }
    }
}

/// The state after applying `evs` to `pre`, one effect at a time.
pub open spec fn apply_effects(
    pre: Map<Seq<u8>, StateObjectView>,
    evs: Seq<Effect>,
) -> Map<Seq<u8>, StateObjectView>
    decreases evs.len(),
{
    if evs.len() == 0 {
        pre
    } else {
        match evs.last() {
            Effect::Consume(id) => apply_effects(pre, evs.drop_last()).remove(id),
            Effect::Produce(o) => apply_effects(pre, evs.drop_last()).insert(o.id, o),
        }
    }
}

pub proof fn lemma_push_contains<A>(s: Seq<A>, x: A, k: A)
    ensures
        s.push(x).contains(k) <==> (s.contains(k) || x == k),
{
    if s.contains(k) {
        let i = choose|i: int| 0 <= i < s.len() && s[i] == k;
        assert(s.push(x)[i] == k);
    }
    if x == k {
        assert(s.push(x)[s.len() as int] == k);
    }
    if s.push(x).contains(k) {
        let i = choose|i: int| 0 <= i < s.push(x).len() && s.push(x)[i] == k;
        if i < s.len() {
            assert(s[i] == k);
        }
    }
}

/// Without conflicts, the state after `evs` holds exactly the pre-state's
/// objects that were not consumed, plus the created ones; consumed ids come
/// from the pre-state and created ids do not.
pub proof fn lemma_apply_shape(pre: Map<Seq<u8>, StateObjectView>, evs: Seq<Effect>)
    requires
        first_conflict(pre, evs) is None,
    ensures
        forall|k: Seq<u8>|
            #[trigger] apply_effects(pre, evs).contains_key(k) <==> ((pre.contains_key(k)
                && !consumed(evs).contains(k)) || produced(evs).contains(k)),
        forall|k: Seq<u8>|
            pre.contains_key(k) && !consumed(evs).contains(k) && !produced(evs).contains(k)
                ==> #[trigger] apply_effects(pre, evs)[k] == pre[k],
        forall|k: Seq<u8>| #[trigger] consumed(evs).contains(k) ==> pre.contains_key(k),
        forall|k: Seq<u8>| #[trigger] produced(evs).contains(k) ==> !pre.contains_key(k),
    decreases evs.len(),
{
    if evs.len() > 0 {
        let q = evs.drop_last();
        lemma_apply_shape(pre, q);
        let prev = apply_effects(pre, q);
        match evs.last() {
            Effect::Consume(id) => {
                assert(pre.contains_key(id));
                assert(!produced(q).contains(id));
                assert forall|k: Seq<u8>|
                    #![trigger apply_effects(pre, evs).contains_key(k)]
                    #![trigger apply_effects(pre, evs)[k]]
                    #![trigger consumed(evs).contains(k)]
                    #![trigger produced(evs).contains(k)]
                    true implies {
                    &&& (apply_effects(pre, evs).contains_key(k) <==> ((pre.contains_key(k)
                        && !consumed(evs).contains(k)) || produced(evs).contains(k)))
                    &&& (pre.contains_key(k) && !consumed(evs).contains(k) && !produced(
                        evs,
                    ).contains(k) ==> apply_effects(pre, evs)[k] == pre[k])
                    &&& (consumed(evs).contains(k) ==> pre.contains_key(k))
                    &&& (produced(evs).contains(k) ==> !pre.contains_key(k))
                } by {
                    lemma_push_contains(consumed(q), id, k);
                    assert(prev.contains_key(k) <==> ((pre.contains_key(k) && !consumed(
                        q,
                    ).contains(k)) || produced(q).contains(k)));
                    if pre.contains_key(k) && !consumed(q).contains(k) && !produced(q).contains(
                        k,
                    ) {
                        assert(prev[k] == pre[k]);
                    }
                    if consumed(q).contains(k) {
                        assert(pre.contains_key(k));
                    }
                    if produced(q).contains(k) {
                        assert(!pre.contains_key(k));
                    }
                }
            },
            Effect::Produce(o) => {
                assert(!pre.contains_key(o.id));
                assert forall|k: Seq<u8>|
                    #![trigger apply_effects(pre, evs).contains_key(k)]
                    #![trigger apply_effects(pre, evs)[k]]
                    #![trigger consumed(evs).contains(k)]
                    #![trigger produced(evs).contains(k)]
                    true implies {
                    &&& (apply_effects(pre, evs).contains_key(k) <==> ((pre.contains_key(k)
                        && !consumed(evs).contains(k)) || produced(evs).contains(k)))
                    &&& (pre.contains_key(k) && !consumed(evs).contains(k) && !produced(
                        evs,
                    ).contains(k) ==> apply_effects(pre, evs)[k] == pre[k])
                    &&& (consumed(evs).contains(k) ==> pre.contains_key(k))
                    &&& (produced(evs).contains(k) ==> !pre.contains_key(k))
                } by {
                    lemma_push_contains(produced(q), o.id, k);
                    assert(prev.contains_key(k) <==> ((pre.contains_key(k) && !consumed(
                        q,
                    ).contains(k)) || produced(q).contains(k)));
                    if pre.contains_key(k) && !consumed(q).contains(k) && !produced(q).contains(
                        k,
                    ) {
                        assert(prev[k] == pre[k]);
                    }
                    if consumed(q).contains(k) {
                        assert(pre.contains_key(k));
                    }
                    if produced(q).contains(k) {
                        assert(!pre.contains_key(k));
                    }
                }
            },
        }
    }
}

pub proof fn lemma_block_effects_append(a: Seq<TransactionView>, b: Seq<TransactionView>)
    ensures
        block_effects(a + b) == block_effects(a) + block_effects(b),
    decreases b.len(),
{
    if b.len() == 0 {
        assert(a + b =~= a);
        assert(block_effects(a) + block_effects(b) =~= block_effects(a));
    } else {
        assert((a + b).drop_last() =~= a + b.drop_last());
        lemma_block_effects_append(a, b.drop_last());
        assert(block_effects(a + b) =~= block_effects(a) + block_effects(b));
    }
}

/// Once a conflict occurs, later effects do not change which one is first.
pub proof fn lemma_first_conflict_extend(
    pre: Map<Seq<u8>, StateObjectView>,
    a: Seq<Effect>,
    b: Seq<Effect>,
)
    ensures
        first_conflict(pre, a) is Some ==> first_conflict(pre, a + b) == first_conflict(pre, a),
    decreases b.len(),
{
    if b.len() == 0 {
        assert(a + b =~= a);
    } else {
        assert((a + b).drop_last() =~= a + b.drop_last());
        lemma_first_conflict_extend(pre, a, b.drop_last());
    }
}

/// The effects of `txs` split around transaction `i`.
pub proof fn lemma_block_effects_split(txs: Seq<TransactionView>, i: int)
    requires
        0 <= i < txs.len(),
    ensures
        block_effects(txs) == block_effects(txs.take(i)) + tx_effects(txs[i]) + block_effects(
            txs.skip(i + 1),
        ),
{
    assert(txs =~= txs.take(i + 1) + txs.skip(i + 1));
    lemma_block_effects_append(txs.take(i + 1), txs.skip(i + 1));
    assert(txs.take(i + 1).drop_last() =~= txs.take(i));
}

pub proof fn lemma_consumed_append(a: Seq<Effect>, b: Seq<Effect>)
    ensures
        consumed(a + b) == consumed(a) + consumed(b),
        produced(a + b) == produced(a) + produced(b),
    decreases b.len(),
{
    if b.len() == 0 {
        assert(a + b =~= a);
        assert(consumed(a) + consumed(b) =~= consumed(a));
        assert(produced(a) + produced(b) =~= produced(a));
    } else {
        assert((a + b).drop_last() =~= a + b.drop_last());
        lemma_consumed_append(a, b.drop_last());
        assert(consumed(a + b) =~= consumed(a) + consumed(b));
        assert(produced(a + b) =~= produced(a) + produced(b));
    }
}

pub proof fn lemma_consumes(ids: Seq<Seq<u8>>)
    ensures
        consumed(ids.map_values(|id: Seq<u8>| Effect::Consume(id))) == ids,
        produced(ids.map_values(|id: Seq<u8>| Effect::Consume(id))) == Seq::<Seq<u8>>::empty(),
    decreases ids.len(),
{
    let m = ids.map_values(|id: Seq<u8>| Effect::Consume(id));
    if ids.len() > 0 {
        assert(m.drop_last() =~= ids.drop_last().map_values(|id: Seq<u8>| Effect::Consume(id)));
        lemma_consumes(ids.drop_last());
        assert(consumed(m) =~= ids);
    } else {
        assert(consumed(m) =~= ids);
    }
}

pub proof fn lemma_produces(os: Seq<StateObjectView>)
    ensures
        consumed(os.map_values(|o: StateObjectView| Effect::Produce(o))) == Seq::<Seq<u8>>::empty(),
        produced(os.map_values(|o: StateObjectView| Effect::Produce(o))) == os.map_values(
            |o: StateObjectView| o.id,
        ),
    decreases os.len(),
{
    let m = os.map_values(|o: StateObjectView| Effect::Produce(o));
    if os.len() > 0 {
        assert(m.drop_last() =~= os.drop_last().map_values(|o: StateObjectView| Effect::Produce(o)));
        lemma_produces(os.drop_last());
        assert(produced(m) =~= os.map_values(|o: StateObjectView| o.id));
    } else {
        assert(produced(m) =~= os.map_values(|o: StateObjectView| o.id));
    }
}

/// The ids a transaction consumes are its inputs; those it creates are its
/// outputs' ids.
pub proof fn lemma_tx_effects(t: TransactionView)
    ensures
        consumed(tx_effects(t)) == t.inputs,
        produced(tx_effects(t)) == t.outputs.map_values(|o: StateObjectView| o.id),
{
    let ins = t.inputs.map_values(|id: Seq<u8>| Effect::Consume(id));
    let outs = t.outputs.map_values(|o: StateObjectView| Effect::Produce(o));
    lemma_consumed_append(ins, outs);
    lemma_consumes(t.inputs);
    lemma_produces(t.outputs);
    assert(t.inputs + Seq::<Seq<u8>>::empty() =~= t.inputs);
    assert(Seq::<Seq<u8>>::empty() + t.outputs.map_values(|o: StateObjectView| o.id)
        =~= t.outputs.map_values(|o: StateObjectView| o.id));
}

/// An id is consumed by a block exactly when it is an input of one of its
/// transactions, and created exactly when it is an output's id.
pub proof fn lemma_block_ids(txs: Seq<TransactionView>, k: Seq<u8>)
    ensures
        consumed(block_effects(txs)).contains(k) <==> exists|i: int, j: int|
            0 <= i < txs.len() && 0 <= j < txs[i].inputs.len() && #[trigger] txs[i].inputs[j] == k,
        produced(block_effects(txs)).contains(k) <==> exists|i: int, j: int|
            0 <= i < txs.len() && 0 <= j < txs[i].outputs.len() && #[trigger] txs[i].outputs[j].id
                == k,
    decreases txs.len(),
{
    if txs.len() > 0 {
        let q = txs.drop_last();
        let t = txs.last();
        lemma_block_ids(q, k);
        lemma_consumed_append(block_effects(q), tx_effects(t));
        lemma_tx_effects(t);
        let n = txs.len() - 1;
        let c = consumed(block_effects(q));
        let p = produced(block_effects(q));
        let oid = t.outputs.map_values(|o: StateObjectView| o.id);
        if (c + t.inputs).contains(k) {
            let x = choose|x: int| 0 <= x < (c + t.inputs).len() && (c + t.inputs)[x] == k;
            if x < c.len() {
                assert(c.contains(k));
                let (i, j) = choose|i: int, j: int|
                    0 <= i < q.len() && 0 <= j < q[i].inputs.len() && #[trigger] q[i].inputs[j] == k;
                assert(txs[i].inputs[j] == k);
            } else {
                assert(txs[n].inputs[x - c.len()] == k);
            }
        }
        if exists|i: int, j: int|
            0 <= i < txs.len() && 0 <= j < txs[i].inputs.len() && #[trigger] txs[i].inputs[j] == k {
            let (i, j) = choose|i: int, j: int|
                0 <= i < txs.len() && 0 <= j < txs[i].inputs.len() && #[trigger] txs[i].inputs[j] == k;
            if i < n {
                assert(q[i].inputs[j] == k);
                let x = choose|x: int| 0 <= x < c.len() && c[x] == k;
                assert((c + t.inputs)[x] == k);
            } else {
                assert((c + t.inputs)[c.len() + j] == k);
            }
        }
        if (p + oid).contains(k) {
            let x = choose|x: int| 0 <= x < (p + oid).len() && (p + oid)[x] == k;
            if x < p.len() {
                assert(p.contains(k));
                let (i, j) = choose|i: int, j: int|
                    0 <= i < q.len() && 0 <= j < q[i].outputs.len() && #[trigger] q[i].outputs[j].id
                        == k;
                assert(txs[i].outputs[j].id == k);
            } else {
                assert(txs[n].outputs[x - p.len()].id == k);
            }
        }
        if exists|i: int, j: int|
            0 <= i < txs.len() && 0 <= j < txs[i].outputs.len() && #[trigger] txs[i].outputs[j].id
                == k {
            let (i, j) = choose|i: int, j: int|
                0 <= i < txs.len() && 0 <= j < txs[i].outputs.len() && #[trigger] txs[i].outputs[j].id
                    == k;
            if i < n {
                assert(q[i].outputs[j].id == k);
                let x = choose|x: int| 0 <= x < p.len() && p[x] == k;
                assert((p + oid)[x] == k);
            } else {
                assert((p + oid)[p.len() + j] == k);
            }
        }
    }
}

fn contains_hash(v: &Vec<crate::crypto::Hash>, h: &crate::crypto::Hash) -> (r: bool)
    ensures
        r == hashes_view(v@).contains(h@),
{
    let mut i: usize = 0;
    while i < v.len()
        invariant
            i <= v@.len(),
            forall|j: int| 0 <= j < i ==> hashes_view(v@)[j] != h@,
        decreases v@.len() - i,
    {
        if eq32(&v[i], h) {
            assert(hashes_view(v@)[i as int] == h@);
            return true;
        }
        i = i + 1;
    }
    false
}

/// Finds the first conflict of the block's effects against `state`.
pub fn check_effects(state: &StateDB, txs: &Vec<Transaction>) -> (r: Result<(), StateError>)
    requires
        state.wf(),
    ensures
        match r {
            Ok(()) => first_conflict(state@, block_effects(transactions_view(txs@))) is None,
            Err(e) => first_conflict(state@, block_effects(transactions_view(txs@))) == Some(e@),
        },
{
    let ghost pre = state@;
    let ghost tv = transactions_view(txs@);
    let mut spent: Vec<crate::crypto::Hash> = Vec::new();
    let mut made: Vec<crate::crypto::Hash> = Vec::new();
    let ghost mut prefix: Seq<Effect> = Seq::empty();
    let mut i: usize = 0;
    while i < txs.len()
        invariant
            state.wf(),
            pre == state@,
            tv == transactions_view(txs@),
            i <= txs@.len(),
            prefix == block_effects(tv.take(i as int)),
            hashes_view(spent@) == consumed(prefix),
            hashes_view(made@) == produced(prefix),
            first_conflict(pre, prefix) is None,
        decreases txs@.len() - i,
    {
        let tx = &txs[i];
        let ghost t = tv[i as int];
        let ghost effs = tx_effects(t);
        let ghost n_in = t.inputs.len();
        let ghost start = prefix;
        let ghost rest_after = block_effects(tv.skip(i + 1));
        proof {
            lemma_block_effects_split(tv, i as int);
        }
        assert(t == tx@);
        let mut j: usize = 0;
        assert(effs.take(0) =~= Seq::<Effect>::empty());
        assert(prefix =~= start + effs.take(0));
        while j < tx.inputs.len()
            invariant
                state.wf(),
                pre == state@,
                tv == transactions_view(txs@),
                block_effects(tv) == start + effs + rest_after,
                t == tx@,
                effs == tx_effects(t),
                n_in == t.inputs.len(),
                j <= n_in,
                prefix == start + effs.take(j as int),
                hashes_view(spent@) == consumed(prefix),
                hashes_view(made@) == produced(prefix),
                first_conflict(pre, prefix) is None,
            decreases n_in - j,
        {
            let id = &tx.inputs[j];
            let ghost e = Effect::Consume(id@);
            assert(effs[j as int] == e);
            assert(start + effs.take(j + 1) =~= prefix.push(e));
            assert(prefix.push(e).drop_last() =~= prefix);
            if !state.contains(id) || contains_hash(&spent, id) {
                proof {
                    assert(first_conflict(pre, prefix.push(e)) == Some(StateErrorView::NotFound(id@)));
                    let rest = effs.skip(j + 1) + rest_after;
                    assert(effs =~= effs.take(j + 1) + effs.skip(j + 1));
                    assert(block_effects(tv) =~= prefix.push(e) + rest);
                    lemma_first_conflict_extend(pre, prefix.push(e), rest);
                }
                return Err(StateError::NotFound(*id));
            }
            spent.push(*id);
            proof {
                assert(hashes_view(spent@) =~= consumed(prefix.push(e)));
                prefix = prefix.push(e);
            }
            j = j + 1;
        }
        let mut j: usize = 0;
        assert(prefix == start + effs.take(n_in + j));
        while j < tx.outputs.len()
            invariant
                state.wf(),
                pre == state@,
                tv == transactions_view(txs@),
                block_effects(tv) == start + effs + rest_after,
                t == tx@,
                effs == tx_effects(t),
                n_in == t.inputs.len(),
                j <= t.outputs.len(),
                prefix == start + effs.take(n_in + j),
                hashes_view(spent@) == consumed(prefix),
                hashes_view(made@) == produced(prefix),
                first_conflict(pre, prefix) is None,
            decreases t.outputs.len() - j,
        {
            let out = &tx.outputs[j];
            let ghost e = Effect::Produce(out@);
            assert(effs[n_in + j] == e);
            assert(start + effs.take(n_in + j + 1) =~= prefix.push(e));
            assert(prefix.push(e).drop_last() =~= prefix);
            if state.contains(&out.id) || contains_hash(&made, &out.id) {
                proof {
                    assert(first_conflict(pre, prefix.push(e)) == Some(StateErrorView::AlreadyExists(out.id@)));
                    let rest = effs.skip(n_in + j + 1) + rest_after;
                    assert(effs =~= effs.take(n_in + j + 1) + effs.skip(n_in + j + 1));
                    assert(block_effects(tv) =~= prefix.push(e) + rest);
                    lemma_first_conflict_extend(pre, prefix.push(e), rest);
                }
                return Err(StateError::AlreadyExists(out.id));
            }
            made.push(out.id);
            proof {
                assert(hashes_view(made@) =~= produced(prefix.push(e)));
                prefix = prefix.push(e);
            }
            j = j + 1;
        }
        assert(effs.take(n_in + j) =~= effs);
        assert(tv.take(i + 1).drop_last() =~= tv.take(i as int));
        i = i + 1;
    }
    assert(tv.take(i as int) =~= tv);
    Ok(())
}

/// Applies the block's effects to `state`, which the check above found free
/// of conflicts.
pub fn apply_block_effects(state: &mut StateDB, txs: &Vec<Transaction>)
    requires
        old(state).wf(),
        first_conflict(old(state)@, block_effects(transactions_view(txs@))) is None,
    ensures
        final(state).wf(),
        final(state)@ == apply_effects(old(state)@, block_effects(transactions_view(txs@))),
{
    let ghost pre = state@;
    let ghost tv = transactions_view(txs@);
    let ghost mut prefix: Seq<Effect> = Seq::empty();
    let mut i: usize = 0;
    while i < txs.len()
        invariant
            state.wf(),
            tv == transactions_view(txs@),
            first_conflict(pre, block_effects(tv)) is None,
            i <= txs@.len(),
            prefix == block_effects(tv.take(i as int)),
            state@ == apply_effects(pre, prefix),
        decreases txs@.len() - i,
    {
        let tx = &txs[i];
        let ghost t = tv[i as int];
        let ghost effs = tx_effects(t);
        let ghost n_in = t.inputs.len();
        let ghost start = prefix;
        let ghost rest_after = block_effects(tv.skip(i + 1));
        proof {
            lemma_block_effects_split(tv, i as int);
        }
        assert(t == tx@);
        let mut j: usize = 0;
        assert(effs.take(0) =~= Seq::<Effect>::empty());
        assert(prefix =~= start + effs.take(0));
        while j < tx.inputs.len()
            invariant
                state.wf(),
                t == tx@,
                effs == tx_effects(t),
                n_in == t.inputs.len(),
                j <= n_in,
                block_effects(tv) == start + effs + rest_after,
                first_conflict(pre, block_effects(tv)) is None,
                prefix == start + effs.take(j as int),
                state@ == apply_effects(pre, prefix),
            decreases n_in - j,
        {
            let id = &tx.inputs[j];
            let ghost e = Effect::Consume(id@);
            proof {
                assert(effs[j as int] == e);
                assert(start + effs.take(j + 1) =~= prefix.push(e));
                assert(prefix.push(e).drop_last() =~= prefix);
                let rest = effs.skip(j + 1) + rest_after;
                assert(effs =~= effs.take(j + 1) + effs.skip(j + 1));
                assert(block_effects(tv) =~= prefix.push(e) + rest);
                lemma_first_conflict_extend(pre, prefix.push(e), rest);
                lemma_apply_shape(pre, prefix);
                assert(apply_effects(pre, prefix).contains_key(id@));
            }
            let removed = state.remove_so(id);
            assert(removed is Ok);
            proof {
                prefix = prefix.push(e);
            }
            j = j + 1;
        }
        let mut j: usize = 0;
        assert(prefix == start + effs.take(n_in + j));
        while j < tx.outputs.len()
            invariant
                state.wf(),
                t == tx@,
                effs == tx_effects(t),
                n_in == t.inputs.len(),
                j <= t.outputs.len(),
                block_effects(tv) == start + effs + rest_after,
                first_conflict(pre, block_effects(tv)) is None,
                prefix == start + effs.take(n_in + j),
                state@ == apply_effects(pre, prefix),
            decreases t.outputs.len() - j,
        {
            let out = &tx.outputs[j];
            let ghost e = Effect::Produce(out@);
            proof {
                assert(effs[n_in + j] == e);
                assert(start + effs.take(n_in + j + 1) =~= prefix.push(e));
                assert(prefix.push(e).drop_last() =~= prefix);
                let rest = effs.skip(n_in + j + 1) + rest_after;
                assert(effs =~= effs.take(n_in + j + 1) + effs.skip(n_in + j + 1));
                assert(block_effects(tv) =~= prefix.push(e) + rest);
                lemma_first_conflict_extend(pre, prefix.push(e), rest);
                lemma_apply_shape(pre, prefix);
                assert(!apply_effects(pre, prefix).contains_key(out.id@));
            }
            let added = state.add_so(out.duplicate());
            assert(added is Ok);
            proof {
                prefix = prefix.push(e);
            }
            j = j + 1;
        }
        assert(effs.take(n_in + j) =~= effs);
        assert(tv.take(i + 1).drop_last() =~= tv.take(i as int));
        i = i + 1;
    }
    assert(tv.take(i as int) =~= tv);
}

} // verus!
