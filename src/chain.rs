//! The local chain: an append-only sequence of blocks starting at genesis.
use crate::bytes::lemma_le_bytes_len;
use crate::ledger::{block_id, concat_map, Block, BlockView, TransactionView};
use vstd::prelude::*;

verus! {

/// Thirty-two zero bytes.
pub open spec fn zero_hash() -> Seq<u8> {
    Seq::new(32, |i: int| 0u8)
}

/// The genesis block: zero previous hash, zero proposer, no transactions,
/// empty VDF proof, and the id those give.
pub open spec fn genesis_view() -> BlockView {
    BlockView {
        id: block_id(zero_hash(), zero_hash(), Seq::empty(), Seq::empty()),
        previous_hash: zero_hash(),
        proposer: zero_hash(),
        transactions: Seq::empty(),
        vdf_proof: Seq::empty(),
    }
}

/// True when each block after the first names its predecessor's id.
pub open spec fn linked(blocks: Seq<BlockView>) -> bool {
    forall|i: int| 0 < i < blocks.len() ==> #[trigger] blocks[i].previous_hash == blocks[i - 1].id
}

/// The node's chain of blocks.
pub struct Chain {
    blocks: Vec<Block>,
}

impl View for Chain {
    type V = Seq<BlockView>;

    closed spec fn view(&self) -> Seq<BlockView> {
        self.blocks@.map_values(|b: Block| b@)
    }
}

impl Chain {
    /// The chain starts at genesis and every block links to the one before.
    pub open spec fn wf(&self) -> bool {
        &&& self@.len() >= 1
        &&& self@[0] == genesis_view()
        &&& linked(self@)
    }

    /// The id of the last block.
    pub open spec fn latest_id(&self) -> Seq<u8> {
        self@.last().id
    }

    /// A chain holding only the genesis block.
    pub fn new() -> (r: Self)
        ensures
            r.wf(),
            r@ == seq![genesis_view()],
    {
        let ghost none = Seq::<TransactionView>::empty();
        proof {
            lemma_le_bytes_len(0, 8);
            assert(concat_map(none, |t: TransactionView| crate::ledger::enc_transaction(t))
                == Seq::<u8>::empty());
        }
        let genesis = Block::new([0u8; 32], [0u8; 32], Vec::new(), Vec::new());
        assert(genesis.previous_hash@ =~= zero_hash());
        assert(genesis.proposer@ =~= zero_hash());
        assert(genesis@.transactions =~= none);
        let mut blocks: Vec<Block> = Vec::new();
        blocks.push(genesis);
        let r = Chain { blocks };
        assert(r@ =~= seq![genesis_view()]);
        r
    }

    /// The id of the latest block.
    pub fn get_latest_hash(&self) -> (r: crate::crypto::Hash)
        requires
            self.wf(),
        ensures
            r@ == self.latest_id(),
    {
        let n = self.blocks.len();
        assert(self@[n - 1] == self.blocks@[n - 1]@);
        self.blocks[n - 1].id
    }

    /// Appends a block that links to the current latest block.
    pub fn add_block(&mut self, block: Block)
        requires
            old(self).wf(),
            block@.previous_hash == old(self).latest_id(),
        ensures
            final(self).wf(),
            final(self)@ == old(self)@.push(block@),
    {
        let ghost b = block@;
        self.blocks.push(block);
        assert(self@ =~= old(self)@.push(b));
    }

    /// The latest block; there always is one.
    pub fn get_latest_block(&self) -> (r: Option<&Block>)
        requires
            self.wf(),
        ensures
            r matches Some(b) && b@ == self@.last(),
    {
        let n = self.blocks.len();
        assert(self@[n - 1] == self.blocks@[n - 1]@);
        Some(&self.blocks[n - 1])
    }

    /// The number of blocks, genesis included.
    pub fn len(&self) -> (r: usize)
        ensures
            r == self@.len(),
    {
        self.blocks.len()
    }
}

/// In a well-formed chain every block after genesis names its
/// predecessor's id as its previous hash.
pub proof fn lemma_chain_linkage(chain: &Chain, i: int)
    requires
        chain.wf(),
        0 < i < chain@.len(),
    ensures
        chain@[i].previous_hash == chain@[i - 1].id,
{
}

} // verus!
