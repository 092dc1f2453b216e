//! Ledger types: State Objects, causal links, transactions and blocks.
//!
//! Every one of them is content-addressed: its `id` is the SHA-256 digest of
//! the canonical encoding of its hashable part. The canonical encoding is
//! fixed-width: a 32- or 64-byte value is written as is, a byte string or a
//! list as an 8-byte little-endian count followed by its items, and a record
//! as its fields in order.
use crate::bytes::{push_all, push_u64_le, u64_le};
use crate::crypto::{hash_data, sha256, PublicKey, Signature, HASH_INPUT_LIMIT};
use vstd::prelude::*;

verus! {

/// The concatenation of `f` over the items of `s`, in order.
pub open spec fn concat_map<A>(s: Seq<A>, f: spec_fn(A) -> Seq<u8>) -> Seq<u8>
    decreases s.len(),
{
    if s.len() == 0 {
        Seq::empty()
    } else {
        concat_map(s.drop_last(), f) + f(s.last())
    }
}

pub proof fn lemma_concat_map_step<A>(s: Seq<A>, f: spec_fn(A) -> Seq<u8>, i: int)
    requires
        0 <= i < s.len(),
    ensures
        concat_map(s.take(i + 1), f) == concat_map(s.take(i), f) + f(s[i]),
{
    assert(s.take(i + 1).drop_last() =~= s.take(i));
}

pub proof fn lemma_concat_map_append<A>(a: Seq<A>, b: Seq<A>, f: spec_fn(A) -> Seq<u8>)
    ensures
        concat_map(a + b, f) == concat_map(a, f) + concat_map(b, f),
    decreases b.len(),
{
    if b.len() == 0 {
        assert(a + b =~= a);
        assert(concat_map(a, f) + concat_map(b, f) =~= concat_map(a, f));
    } else {
        assert((a + b).drop_last() =~= a + b.drop_last());
        lemma_concat_map_append(a, b.drop_last(), f);
        assert(concat_map(a + b, f) =~= concat_map(a, f) + concat_map(b, f));
    }
}

/// The concatenation over `s` is that over its first `i` items, then item
/// `i`, then the rest.
pub proof fn lemma_concat_map_split<A>(s: Seq<A>, f: spec_fn(A) -> Seq<u8>, i: int)
    requires
        0 <= i < s.len(),
    ensures
        concat_map(s, f) == concat_map(s.take(i), f) + f(s[i]) + concat_map(s.skip(i + 1), f),
{
    assert(s =~= s.take(i + 1) + s.skip(i + 1));
    lemma_concat_map_append(s.take(i + 1), s.skip(i + 1), f);
    lemma_concat_map_step(s, f, i);
}

/// A byte string: its length, then its bytes.
pub open spec fn enc_bytes(s: Seq<u8>) -> Seq<u8> {
    u64_le(s.len()) + s
}

/// The abstract value of a [`StateObject`].
pub struct StateObjectView {
    pub id: Seq<u8>,
    pub owner: Seq<u8>,
    pub data: Seq<u8>,
    pub validation_logic: Seq<u8>,
}

/// The abstract value of a [`CausalLink`].
pub struct CausalLinkView {
    pub source_so_id: Seq<u8>,
    pub target_so_id: Seq<u8>,
}

/// The abstract value of a [`Transaction`].
pub struct TransactionView {
    pub id: Seq<u8>,
    pub inputs: Seq<Seq<u8>>,
    pub outputs: Seq<StateObjectView>,
    pub causal_links: Seq<CausalLinkView>,
    pub signature: Seq<u8>,
}

/// The abstract value of a [`Block`].
pub struct BlockView {
    pub id: Seq<u8>,
    pub previous_hash: Seq<u8>,
    pub proposer: Seq<u8>,
    pub transactions: Seq<TransactionView>,
    pub vdf_proof: Seq<u8>,
}

/// The hashable part of a State Object: owner, data, validation logic.
pub open spec fn state_object_content(owner: Seq<u8>, data: Seq<u8>, logic: Seq<u8>) -> Seq<u8> {
    owner + enc_bytes(data) + enc_bytes(logic)
}

/// A whole State Object: its id, then its hashable part.
pub open spec fn enc_state_object(so: StateObjectView) -> Seq<u8> {
    so.id + state_object_content(so.owner, so.data, so.validation_logic)
}

pub open spec fn enc_link(l: CausalLinkView) -> Seq<u8> {
    l.source_so_id + l.target_so_id
}

pub open spec fn enc_hash_list(hs: Seq<Seq<u8>>) -> Seq<u8> {
    u64_le(hs.len()) + concat_map(hs, |h: Seq<u8>| h)
}

pub open spec fn enc_object_list(os: Seq<StateObjectView>) -> Seq<u8> {
    u64_le(os.len()) + concat_map(os, |o: StateObjectView| enc_state_object(o))
}

pub open spec fn enc_link_list(ls: Seq<CausalLinkView>) -> Seq<u8> {
    u64_le(ls.len()) + concat_map(ls, |l: CausalLinkView| enc_link(l))
}

/// The hashable part of a transaction: inputs, outputs, causal links.
/// The signature is not part of it.
pub open spec fn transaction_content(
    inputs: Seq<Seq<u8>>,
    outputs: Seq<StateObjectView>,
    links: Seq<CausalLinkView>,
) -> Seq<u8> {
    enc_hash_list(inputs) + enc_object_list(outputs) + enc_link_list(links)
}

/// A whole transaction: id, hashable part, signature.
pub open spec fn enc_transaction(tx: TransactionView) -> Seq<u8> {
    tx.id + transaction_content(tx.inputs, tx.outputs, tx.causal_links) + tx.signature
}

pub open spec fn enc_transaction_list(txs: Seq<TransactionView>) -> Seq<u8> {
    u64_le(txs.len()) + concat_map(txs, |t: TransactionView| enc_transaction(t))
}

/// The hashable part of a block: previous hash, proposer, transactions,
/// VDF proof.
pub open spec fn block_content(
    previous_hash: Seq<u8>,
    proposer: Seq<u8>,
    txs: Seq<TransactionView>,
    vdf_proof: Seq<u8>,
) -> Seq<u8> {
    previous_hash + proposer + enc_transaction_list(txs) + enc_bytes(vdf_proof)
}

/// A whole block: id, then its hashable part.
pub open spec fn enc_block(b: BlockView) -> Seq<u8> {
    b.id + block_content(b.previous_hash, b.proposer, b.transactions, b.vdf_proof)
}

/// The id a State Object must carry.
pub open spec fn state_object_id(owner: Seq<u8>, data: Seq<u8>, logic: Seq<u8>) -> Seq<u8> {
    sha256(state_object_content(owner, data, logic))
}

/// The id a transaction must carry.
pub open spec fn transaction_id(
    inputs: Seq<Seq<u8>>,
    outputs: Seq<StateObjectView>,
    links: Seq<CausalLinkView>,
) -> Seq<u8> {
    sha256(transaction_content(inputs, outputs, links))
}

/// The id a block must carry.
pub open spec fn block_id(
    previous_hash: Seq<u8>,
    proposer: Seq<u8>,
    txs: Seq<TransactionView>,
    vdf_proof: Seq<u8>,
) -> Seq<u8> {
    sha256(block_content(previous_hash, proposer, txs, vdf_proof))
}

/// A unit of state: owned by a public key, carrying data and (reserved)
/// validation logic, identified by the hash of those three.
#[derive(Clone, Debug)]
pub struct StateObject {
    pub id: crate::crypto::Hash,
    pub owner: PublicKey,
    pub data: Vec<u8>,
    pub validation_logic: Vec<u8>,
}

/// A reference from one State Object to another, kept for future use.
#[derive(Clone, Copy, Debug)]
pub struct CausalLink {
    pub source_so_id: crate::crypto::Hash,
    pub target_so_id: crate::crypto::Hash,
}

/// Consumes the State Objects named by `inputs` and creates `outputs`,
/// authorised by `signature` over `id`.
#[derive(Clone, Debug)]
pub struct Transaction {
    pub id: crate::crypto::Hash,
    pub inputs: Vec<crate::crypto::Hash>,
    pub outputs: Vec<StateObject>,
    pub causal_links: Vec<CausalLink>,
    pub signature: Signature,
}

/// An ordered batch of transactions linked to its predecessor by hash.
#[derive(Debug)]
pub struct Block {
    pub id: crate::crypto::Hash,
    pub previous_hash: crate::crypto::Hash,
    pub proposer: PublicKey,
    pub transactions: Vec<Transaction>,
    pub vdf_proof: Vec<u8>,
}

impl View for StateObject {
    type V = StateObjectView;

    open spec fn view(&self) -> StateObjectView {
        StateObjectView {
            id: self.id@,
            owner: self.owner@,
            data: self.data@,
            validation_logic: self.validation_logic@,
        }
    }
}

impl View for CausalLink {
    type V = CausalLinkView;

    open spec fn view(&self) -> CausalLinkView {
        CausalLinkView { source_so_id: self.source_so_id@, target_so_id: self.target_so_id@ }
    }
}

pub open spec fn hashes_view(hs: Seq<crate::crypto::Hash>) -> Seq<Seq<u8>> {
    hs.map_values(|h: crate::crypto::Hash| h@)
}

pub open spec fn objects_view(os: Seq<StateObject>) -> Seq<StateObjectView> {
    os.map_values(|o: StateObject| o@)
}

pub open spec fn links_view(ls: Seq<CausalLink>) -> Seq<CausalLinkView> {
    ls.map_values(|l: CausalLink| l@)
}

pub open spec fn transactions_view(ts: Seq<Transaction>) -> Seq<TransactionView> {
    ts.map_values(|t: Transaction| t@)
}

impl View for Transaction {
    type V = TransactionView;

    open spec fn view(&self) -> TransactionView {
        TransactionView {
            id: self.id@,
            inputs: hashes_view(self.inputs@),
            outputs: objects_view(self.outputs@),
            causal_links: links_view(self.causal_links@),
            signature: self.signature@,
        }
    }
}

impl View for Block {
    type V = BlockView;

    open spec fn view(&self) -> BlockView {
        BlockView {
            id: self.id@,
            previous_hash: self.previous_hash@,
            proposer: self.proposer@,
            transactions: transactions_view(self.transactions@),
            vdf_proof: self.vdf_proof@,
        }
    }
}

/// Appends `enc_bytes(s)`.
fn push_bytes(out: &mut Vec<u8>, s: &Vec<u8>)
    ensures
        final(out)@ == old(out)@ + enc_bytes(s@),
{
    push_u64_le(out, s.len() as u64);
    push_all(out, s.as_slice());
    assert(final(out)@ =~= old(out)@ + enc_bytes(s@)) by {
        assert(s.len() as u64 as nat == s@.len());
    }
}

fn push_state_object_content(out: &mut Vec<u8>, owner: &PublicKey, data: &Vec<u8>, logic: &Vec<u8>)
    ensures
        final(out)@ == old(out)@ + state_object_content(owner@, data@, logic@),
{
    let ghost start = out@;
    push_all(out, owner);
    push_bytes(out, data);
    push_bytes(out, logic);
    assert(out@ =~= start + state_object_content(owner@, data@, logic@));
}

fn push_state_object(out: &mut Vec<u8>, so: &StateObject)
    ensures
        final(out)@ == old(out)@ + enc_state_object(so@),
{
    let ghost start = out@;
    push_all(out, &so.id);
    push_state_object_content(out, &so.owner, &so.data, &so.validation_logic);
    assert(out@ =~= start + enc_state_object(so@));
}

fn push_hash_list(out: &mut Vec<u8>, hs: &Vec<crate::crypto::Hash>)
    ensures
        final(out)@ == old(out)@ + enc_hash_list(hashes_view(hs@)),
{
    let ghost start = out@;
    let ghost v = hashes_view(hs@);
    let ghost f = |h: Seq<u8>| h;
    push_u64_le(out, hs.len() as u64);
    let mut i: usize = 0;
    while i < hs.len()
        invariant
            i <= hs@.len(),
            v == hashes_view(hs@),
            f == (|h: Seq<u8>| h),
            out@ == start + u64_le(hs@.len()) + concat_map(v.take(i as int), f),
        decreases hs@.len() - i,
    {
        push_all(out, &hs[i]);
        proof {
            lemma_concat_map_step(v, f, i as int);
        }
        assert(out@ =~= start + u64_le(hs@.len()) + concat_map(v.take(i + 1), f));
        i = i + 1;
    }
    assert(v.take(i as int) =~= v);
    assert(out@ =~= start + enc_hash_list(v));
}

fn push_object_list(out: &mut Vec<u8>, os: &Vec<StateObject>)
    ensures
        final(out)@ == old(out)@ + enc_object_list(objects_view(os@)),
{
    let ghost start = out@;
    let ghost v = objects_view(os@);
    let ghost f = |o: StateObjectView| enc_state_object(o);
    push_u64_le(out, os.len() as u64);
    let mut i: usize = 0;
    while i < os.len()
        invariant
            i <= os@.len(),
            v == objects_view(os@),
            f == (|o: StateObjectView| enc_state_object(o)),
            out@ == start + u64_le(os@.len()) + concat_map(v.take(i as int), f),
        decreases os@.len() - i,
    {
        push_state_object(out, &os[i]);
        proof {
            lemma_concat_map_step(v, f, i as int);
        }
        assert(out@ =~= start + u64_le(os@.len()) + concat_map(v.take(i + 1), f));
        i = i + 1;
    }
    assert(v.take(i as int) =~= v);
    assert(out@ =~= start + enc_object_list(v));
}

fn push_link_list(out: &mut Vec<u8>, ls: &Vec<CausalLink>)
    ensures
        final(out)@ == old(out)@ + enc_link_list(links_view(ls@)),
{
    let ghost start = out@;
    let ghost v = links_view(ls@);
    let ghost f = |l: CausalLinkView| enc_link(l);
    push_u64_le(out, ls.len() as u64);
    let mut i: usize = 0;
    while i < ls.len()
        invariant
            i <= ls@.len(),
            v == links_view(ls@),
            f == (|l: CausalLinkView| enc_link(l)),
            out@ == start + u64_le(ls@.len()) + concat_map(v.take(i as int), f),
        decreases ls@.len() - i,
    {
        let link = &ls[i];
        push_all(out, &link.source_so_id);
        push_all(out, &link.target_so_id);
        proof {
            lemma_concat_map_step(v, f, i as int);
        }
        assert(out@ =~= start + u64_le(ls@.len()) + concat_map(v.take(i + 1), f));
        i = i + 1;
    }
    assert(v.take(i as int) =~= v);
    assert(out@ =~= start + enc_link_list(v));
}

/// Appends the hashable part of a transaction.
fn push_transaction_content(
    out: &mut Vec<u8>,
    inputs: &Vec<crate::crypto::Hash>,
    outputs: &Vec<StateObject>,
    links: &Vec<CausalLink>,
)
    ensures
        final(out)@ == old(out)@ + transaction_content(
            hashes_view(inputs@),
            objects_view(outputs@),
            links_view(links@),
        ),
{
    let ghost start = out@;
    push_hash_list(out, inputs);
    push_object_list(out, outputs);
    push_link_list(out, links);
    assert(out@ =~= start + transaction_content(
        hashes_view(inputs@),
        objects_view(outputs@),
        links_view(links@),
    ));
}

fn push_transaction(out: &mut Vec<u8>, tx: &Transaction)
    ensures
        final(out)@ == old(out)@ + enc_transaction(tx@),
{
    let ghost start = out@;
    push_all(out, &tx.id);
    push_transaction_content(out, &tx.inputs, &tx.outputs, &tx.causal_links);
    push_all(out, &tx.signature);
    assert(out@ =~= start + enc_transaction(tx@));
}

fn push_transaction_list(out: &mut Vec<u8>, ts: &Vec<Transaction>)
    ensures
        final(out)@ == old(out)@ + enc_transaction_list(transactions_view(ts@)),
{
    let ghost start = out@;
    let ghost v = transactions_view(ts@);
    let ghost f = |t: TransactionView| enc_transaction(t);
    push_u64_le(out, ts.len() as u64);
    let mut i: usize = 0;
    while i < ts.len()
        invariant
            i <= ts@.len(),
            v == transactions_view(ts@),
            f == (|t: TransactionView| enc_transaction(t)),
            out@ == start + u64_le(ts@.len()) + concat_map(v.take(i as int), f),
        decreases ts@.len() - i,
    {
        push_transaction(out, &ts[i]);
        proof {
            lemma_concat_map_step(v, f, i as int);
        }
        assert(out@ =~= start + u64_le(ts@.len()) + concat_map(v.take(i + 1), f));
        i = i + 1;
    }
    assert(v.take(i as int) =~= v);
    assert(out@ =~= start + enc_transaction_list(v));
}

/// The canonical encoding of a transaction's hashable part.
pub fn encode_transaction_content(
    inputs: &Vec<crate::crypto::Hash>,
    outputs: &Vec<StateObject>,
    links: &Vec<CausalLink>,
) -> (r: Vec<u8>)
    ensures
        r@ == transaction_content(hashes_view(inputs@), objects_view(outputs@), links_view(links@)),
{
    let mut out: Vec<u8> = Vec::new();
    push_transaction_content(&mut out, inputs, outputs, links);
    out
}

/// The canonical encoding of a whole transaction, as sent on the
/// `transactions` topic.
pub fn encode_transaction(tx: &Transaction) -> (r: Vec<u8>)
    ensures
        r@ == enc_transaction(tx@),
{
    let mut out: Vec<u8> = Vec::new();
    push_transaction(&mut out, tx);
    out
}

/// The canonical encoding of a block's hashable part.
pub fn encode_block_content(
    previous_hash: &crate::crypto::Hash,
    proposer: &PublicKey,
    transactions: &Vec<Transaction>,
    vdf_proof: &Vec<u8>,
) -> (r: Vec<u8>)
    ensures
        r@ == block_content(
            previous_hash@,
            proposer@,
            transactions_view(transactions@),
            vdf_proof@,
        ),
{
    let mut out: Vec<u8> = Vec::new();
    push_all(&mut out, previous_hash);
    push_all(&mut out, proposer);
    push_transaction_list(&mut out, transactions);
    push_bytes(&mut out, vdf_proof);
    assert(out@ =~= block_content(
        previous_hash@,
        proposer@,
        transactions_view(transactions@),
        vdf_proof@,
    ));
    out
}

/// The canonical encoding of a whole block, as sent on the `blocks` topic.
pub fn encode_block(block: &Block) -> (r: Vec<u8>)
    ensures
        r@ == enc_block(block@),
{
    let mut out: Vec<u8> = Vec::new();
    push_all(&mut out, &block.id);
    let content = encode_block_content(
        &block.previous_hash,
        &block.proposer,
        &block.transactions,
        &block.vdf_proof,
    );
    push_all(&mut out, content.as_slice());
    out
}

impl StateObject {
    /// Creates a State Object whose id is the hash of its owner, data and
    /// validation logic.
    pub fn new(owner: PublicKey, data: Vec<u8>, validation_logic: Vec<u8>) -> (r: Self)
        requires
            state_object_content(owner@, data@, validation_logic@).len() < HASH_INPUT_LIMIT,
        ensures
            r.owner == owner,
            r.data@ == data@,
            r.validation_logic@ == validation_logic@,
            r.id@ == state_object_id(owner@, data@, validation_logic@),
            r.is_content_addressed(),
    {
        let mut bytes: Vec<u8> = Vec::new();
        push_state_object_content(&mut bytes, &owner, &data, &validation_logic);
        let id = hash_data(bytes.as_slice());
        StateObject { id, owner, data, validation_logic }
    }

    /// True when the id is the hash of the object's content.
    pub open spec fn is_content_addressed(self) -> bool {
        self.id@ == state_object_id(self.owner@, self.data@, self.validation_logic@)
    }

    /// A field-by-field copy.
    pub fn duplicate(&self) -> (r: Self)
        ensures
            r@ == self@,
    {
        let mut data: Vec<u8> = Vec::new();
        push_all(&mut data, self.data.as_slice());
        let mut logic: Vec<u8> = Vec::new();
        push_all(&mut logic, self.validation_logic.as_slice());
        StateObject { id: self.id, owner: self.owner, data, validation_logic: logic }
    }
}

impl Transaction {
    /// Creates an unsigned transaction (all-zero signature) whose id is the
    /// hash of its inputs, outputs and causal links.
    pub fn new(
        inputs: Vec<crate::crypto::Hash>,
        outputs: Vec<StateObject>,
        causal_links: Vec<CausalLink>,
    ) -> (r: Self)
        requires
            transaction_content(
                hashes_view(inputs@),
                objects_view(outputs@),
                links_view(causal_links@),
            ).len() < HASH_INPUT_LIMIT,
        ensures
            r.inputs@ == inputs@,
            r.outputs@ == outputs@,
            r.causal_links@ == causal_links@,
            r@.id == transaction_id(
                hashes_view(inputs@),
                objects_view(outputs@),
                links_view(causal_links@),
            ),
            r@.signature == Seq::new(64, |i: int| 0u8),
            r.is_content_addressed(),
    {
        let bytes = encode_transaction_content(&inputs, &outputs, &causal_links);
        let id = hash_data(bytes.as_slice());
        let signature = [0u8; 64];
        assert(signature@ =~= Seq::new(64, |i: int| 0u8));
        Transaction { id, inputs, outputs, causal_links, signature }
    }

    /// True when the id is the hash of the transaction's content.
    pub open spec fn is_content_addressed(self) -> bool {
        self@.id == transaction_id(self@.inputs, self@.outputs, self@.causal_links)
    }

    /// Attaches a signature; nothing else changes.
    pub fn sign(&mut self, signature: Signature)
        ensures
            final(self).id == old(self).id,
            final(self).inputs == old(self).inputs,
            final(self).outputs == old(self).outputs,
            final(self).causal_links == old(self).causal_links,
            final(self).signature == signature,
    {
        self.signature = signature;
    }
}

impl Block {
    /// Creates a block whose id is the hash of its previous hash, proposer,
    /// transactions and VDF proof.
    pub fn new(
        previous_hash: crate::crypto::Hash,
        proposer: PublicKey,
        transactions: Vec<Transaction>,
        vdf_proof: Vec<u8>,
    ) -> (r: Self)
        requires
            block_content(
                previous_hash@,
                proposer@,
                transactions_view(transactions@),
                vdf_proof@,
            ).len() < HASH_INPUT_LIMIT,
        ensures
            r.previous_hash == previous_hash,
            r.proposer == proposer,
            r.transactions@ == transactions@,
            r.vdf_proof@ == vdf_proof@,
            r@.id == block_id(
                previous_hash@,
                proposer@,
                transactions_view(transactions@),
                vdf_proof@,
            ),
            r.is_content_addressed(),
    {
        let bytes = encode_block_content(&previous_hash, &proposer, &transactions, &vdf_proof);
        let id = hash_data(bytes.as_slice());
        Block { id, previous_hash, proposer, transactions, vdf_proof }
    }

    /// Like [`Block::new`], but `None` when the block's content is too long
    /// to hash.
    pub fn try_new(
        previous_hash: crate::crypto::Hash,
        proposer: PublicKey,
        transactions: Vec<Transaction>,
        vdf_proof: Vec<u8>,
    ) -> (r: Option<Self>)
        ensures
            ({
                let content = block_content(
                    previous_hash@,
                    proposer@,
                    transactions_view(transactions@),
                    vdf_proof@,
                );
                match r {
                    Some(b) => content.len() < HASH_INPUT_LIMIT && b.previous_hash == previous_hash
                        && b.proposer == proposer && b.transactions@ == transactions@
                        && b.vdf_proof@ == vdf_proof@ && b@.id == sha256(content),
                    None => content.len() >= HASH_INPUT_LIMIT,
                }
            }),
    {
        let bytes = encode_block_content(&previous_hash, &proposer, &transactions, &vdf_proof);
        if bytes.len() as u64 >= HASH_INPUT_LIMIT {
            return None;
        }
        let id = hash_data(bytes.as_slice());
        Some(Block { id, previous_hash, proposer, transactions, vdf_proof })
    }

    /// True when the id is the hash of the block's content.
    pub open spec fn is_content_addressed(self) -> bool {
        self@.id == block_id(
            self@.previous_hash,
            self@.proposer,
            self@.transactions,
            self@.vdf_proof,
        )
    }
}

} // verus!
