//! The chain: an append-only sequence of mined blocks, with full
//! validation and balance replay.

use vstd::prelude::*;
use crate::block::{
    Block, BlockView, block_hash_of, sealed, mining_exhausted,
};
use crate::transaction::{Transaction, TransactionView, tx_valid};

verus! {

/// An append-only ledger of blocks, all mined at one difficulty.
#[derive(Debug, Clone)]
pub struct Blockchain {
    pub chain: Vec<Block>,
    pub difficulty: usize,
}

/// Every transaction of the list verifies.
pub open spec fn all_txs_valid(txs: Seq<TransactionView>) -> bool {
    forall|j: int| 0 <= j < txs.len() ==> tx_valid(#[trigger] txs[j])
}

/// What a block owes its predecessor: a consistent stored hash, the
/// predecessor's hash as its link, and only valid transactions.
pub open spec fn block_ok(cur: BlockView, prev: BlockView) -> bool {
    &&& cur.hash == block_hash_of(cur)
    &&& cur.previous_hash == prev.hash
    &&& all_txs_valid(cur.transactions)
}

/// Chain validity: every block after genesis is consistent with its
/// predecessor.
pub open spec fn chain_valid(blocks: Seq<BlockView>) -> bool {
    forall|i: int| 1 <= i < blocks.len() ==> block_ok(#[trigger] blocks[i], blocks[i - 1])
}

/// All transactions of a chain, in chain order.
pub open spec fn chain_txs(blocks: Seq<BlockView>) -> Seq<TransactionView>
    decreases blocks.len(),
{
    if blocks.len() == 0 {
        Seq::empty()
    } else {
        chain_txs(blocks.drop_last()) + blocks.last().transactions
    }
}

/// The total amount received by `a` over a transaction list.
pub open spec fn received_in(txs: Seq<TransactionView>, a: Seq<u8>) -> int
    decreases txs.len(),
{
    if txs.len() == 0 {
        0
    } else {
        received_in(txs.drop_last(), a) + if txs.last().to == a {
            txs.last().amount as int
        } else {
            0
        }
    }
}

/// The total amount sent by `a` over a transaction list.
pub open spec fn sent_in(txs: Seq<TransactionView>, a: Seq<u8>) -> int
    decreases txs.len(),
{
    if txs.len() == 0 {
        0
    } else {
        sent_in(txs.drop_last(), a) + if txs.last().from == a {
            txs.last().amount as int
        } else {
            0
        }
    }
}

/// The balance of an address: received minus sent, floored at zero.
pub open spec fn balance_of(blocks: Seq<BlockView>, a: Seq<u8>) -> int {
    let net = received_in(chain_txs(blocks), a) - sent_in(chain_txs(blocks), a);
    if net > 0 {
        net
    } else {
        0
    }
}

/// Both running sums lie between zero and the number of
/// transactions times the largest amount.
pub proof fn lemma_sum_bounds(txs: Seq<TransactionView>, a: Seq<u8>)
    ensures
        0 <= received_in(txs, a) <= txs.len() * 0xffff_ffff_ffff_ffff,
        0 <= sent_in(txs, a) <= txs.len() * 0xffff_ffff_ffff_ffff,
    decreases txs.len(),
{
    if txs.len() != 0 {
        lemma_sum_bounds(txs.drop_last(), a);
    }
}

/// One more block contributes exactly its transactions.
pub proof fn lemma_chain_txs_step(blocks: Seq<BlockView>, i: int)
    requires
        0 <= i < blocks.len(),
    ensures
        chain_txs(blocks.take(i + 1)) == chain_txs(blocks.take(i)) + blocks[i].transactions,
{
    assert(blocks.take(i + 1).drop_last() =~= blocks.take(i));
    assert(blocks.take(i + 1).last() == blocks[i]);
}

/// A chain prefix carries no more transactions than the whole.
pub proof fn lemma_chain_txs_prefix_len(blocks: Seq<BlockView>, i: int)
    requires
        0 <= i <= blocks.len(),
    ensures
        chain_txs(blocks.take(i)).len() <= chain_txs(blocks).len(),
    decreases blocks.len() - i,
{
    if i == blocks.len() {
        assert(blocks.take(i) =~= blocks);
    } else {
        lemma_chain_txs_step(blocks, i);
        lemma_chain_txs_prefix_len(blocks, i + 1);
    }
}

/// What one transaction adds to the net position of each address in
/// a list, summed over the list.
pub open spec fn delta_sum(t: TransactionView, addrs: Seq<Seq<u8>>) -> int
    decreases addrs.len(),
{
    if addrs.len() == 0 {
        0
    } else {
        delta_sum(t, addrs.drop_last()) + (if t.to == addrs.last() {
            t.amount as int
        } else {
            0
        }) - (if t.from == addrs.last() {
            t.amount as int
        } else {
            0
        })
    }
}

/// The net position of every address in a list, summed over the
/// list: everything received minus everything sent, before the
/// floor at zero.
pub open spec fn net_sum(txs: Seq<TransactionView>, addrs: Seq<Seq<u8>>) -> int
    decreases addrs.len(),
{
    if addrs.len() == 0 {
        0
    } else {
        net_sum(txs, addrs.drop_last()) + received_in(txs, addrs.last()) - sent_in(
            txs,
            addrs.last(),
        )
    }
}

/// One transaction's summed contribution over distinct addresses:
/// its amount once if its receiver is listed, minus once if its
/// sender is listed.
pub proof fn lemma_delta_sum(t: TransactionView, addrs: Seq<Seq<u8>>)
    requires
        forall|i: int, j: int| 0 <= i < j < addrs.len() ==> addrs[i] != addrs[j],
    ensures
        delta_sum(t, addrs) == (if addrs.contains(t.to) {
            t.amount as int
        } else {
            0
        }) - (if addrs.contains(t.from) {
            t.amount as int
        } else {
            0
        }),
    decreases addrs.len(),
{
    if addrs.len() != 0 {
        lemma_delta_sum(t, addrs.drop_last());
        assert(addrs.contains(t.to) <==> (addrs.drop_last().contains(t.to) || addrs.last()
            == t.to)) by {
            if addrs.contains(t.to) {
                let w = choose|w: int| 0 <= w < addrs.len() && addrs[w] == t.to;
                if w < addrs.len() - 1 {
                    assert(addrs.drop_last()[w] == t.to);
                }
            }
            if addrs.drop_last().contains(t.to) {
                let w = choose|w: int| 0 <= w < addrs.drop_last().len() && addrs.drop_last()[w]
                    == t.to;
                assert(addrs[w] == t.to);
            }
        }
        assert(addrs.contains(t.from) <==> (addrs.drop_last().contains(t.from) || addrs.last()
            == t.from)) by {
            if addrs.contains(t.from) {
                let w = choose|w: int| 0 <= w < addrs.len() && addrs[w] == t.from;
                if w < addrs.len() - 1 {
                    assert(addrs.drop_last()[w] == t.from);
                }
            }
            if addrs.drop_last().contains(t.from) {
                let w = choose|w: int| 0 <= w < addrs.drop_last().len() && addrs.drop_last()[w]
                    == t.from;
                assert(addrs[w] == t.from);
            }
        }
        if addrs.last() == t.to {
            assert(!addrs.drop_last().contains(t.to)) by {
                if addrs.drop_last().contains(t.to) {
                    let w = choose|w: int|
                        0 <= w < addrs.drop_last().len() && addrs.drop_last()[w] == t.to;
                    assert(addrs[w] == addrs[addrs.len() - 1]);
                }
            }
        }
        if addrs.last() == t.from {
            assert(!addrs.drop_last().contains(t.from)) by {
                if addrs.drop_last().contains(t.from) {
                    let w = choose|w: int|
                        0 <= w < addrs.drop_last().len() && addrs.drop_last()[w] == t.from;
                    assert(addrs[w] == addrs[addrs.len() - 1]);
                }
            }
        }
    }
}

/// Appending one transaction moves the summed net position by that
/// transaction's contribution.
pub proof fn lemma_net_sum_step(txs: Seq<TransactionView>, addrs: Seq<Seq<u8>>)
    requires
        txs.len() > 0,
    ensures
        net_sum(txs, addrs) == net_sum(txs.drop_last(), addrs) + delta_sum(txs.last(), addrs),
    decreases addrs.len(),
{
    if addrs.len() != 0 {
        lemma_net_sum_step(txs, addrs.drop_last());
    }
}

/// Value is conserved: over distinct addresses that cover every
/// sender and receiver, everything received equals everything sent,
/// so the net positions sum to zero.
pub proof fn lemma_balance_conservation(txs: Seq<TransactionView>, addrs: Seq<Seq<u8>>)
    requires
        forall|i: int, j: int| 0 <= i < j < addrs.len() ==> addrs[i] != addrs[j],
        forall|k: int| 0 <= k < txs.len() ==> addrs.contains(#[trigger] txs[k].from)
            && addrs.contains(txs[k].to),
    ensures
        net_sum(txs, addrs) == 0,
    decreases txs.len(),
{
    if txs.len() == 0 {
        assert(txs =~= Seq::<TransactionView>::empty());
        lemma_net_sum_zero(addrs);
    } else {
        assert forall|k: int| 0 <= k < txs.drop_last().len() implies addrs.contains(
            #[trigger] txs.drop_last()[k].from) && addrs.contains(txs.drop_last()[k].to) by {
            assert(txs.drop_last()[k] == txs[k]);
            assert(addrs.contains(txs[k].from));
        }
        lemma_balance_conservation(txs.drop_last(), addrs);
        lemma_net_sum_step(txs, addrs);
        lemma_delta_sum(txs.last(), addrs);
        assert(txs.last() == txs[txs.len() - 1]);
        assert(addrs.contains(txs[txs.len() - 1].from));
        assert(addrs.contains(txs[txs.len() - 1].to));
    }
}

/// With no transactions every net position is zero.
proof fn lemma_net_sum_zero(addrs: Seq<Seq<u8>>)
    ensures
        net_sum(Seq::<TransactionView>::empty(), addrs) == 0,
    decreases addrs.len(),
{
    if addrs.len() != 0 {
        lemma_net_sum_zero(addrs.drop_last());
    }
}

impl Blockchain {
    /// The mathematical content of the chain.
    pub open spec fn blocks(&self) -> Seq<BlockView> {
        self.chain.deep_view()
    }

    /// A chain always holds at least its genesis block.
    pub open spec fn wf(&self) -> bool {
        self.chain@.len() >= 1
    }

    /// Builds a fresh chain: a single mined genesis block with no
    /// transactions and the sentinel predecessor link `"0"`.
    pub fn new(difficulty: usize) -> (r: Blockchain)
        ensures
            r.wf(),
            r.difficulty == difficulty,
            r.blocks().len() == 1,
            r.blocks()[0].index == 0,
            r.blocks()[0].transactions.len() == 0,
            r.blocks()[0].previous_hash == seq![0x30u8],
            r.blocks()[0].hash == block_hash_of(r.blocks()[0]),
            sealed(r.blocks()[0].hash, difficulty as int) || mining_exhausted(
                r.blocks()[0],
                difficulty as int,
            ),
            chain_valid(r.blocks()),
    {
        let mut sentinel: Vec<u8> = Vec::new();
        sentinel.push(0x30);
        let genesis = Block::new(0, Vec::new(), sentinel, difficulty);
        let mut chain: Vec<Block> = Vec::new();
        chain.push(genesis);
        let r = Blockchain { chain, difficulty };
        proof {
            assert(r.blocks()[0].previous_hash =~= seq![0x30u8]);
            assert(r.blocks()[0].transactions =~= Seq::<TransactionView>::empty());
        }
        r
    }

    /// Rebuilds a chain from restored blocks.
    pub fn from_blocks(chain: Vec<Block>, difficulty: usize) -> (r: Blockchain)
        requires
            chain@.len() >= 1,
        ensures
            r.wf(),
            r.difficulty == difficulty,
            r.blocks() == chain.deep_view(),
    {
        Blockchain { chain, difficulty }
    }

    /// Mines a block over the given transactions at the tip and
    /// appends it. Appending never examines the transactions'
    /// signatures; a valid chain stays valid exactly when the new
    /// transactions are all valid.
    pub fn add_block(&mut self, transactions: Vec<Transaction>)
        requires
            old(self).wf(),
            old(self).chain@.len() < u64::MAX,
        ensures
            final(self).wf(),
            final(self).difficulty == old(self).difficulty,
            final(self).blocks().len() == old(self).blocks().len() + 1,
            final(self).blocks().take(old(self).blocks().len() as int) == old(self).blocks(),
            final(self).blocks().last().index == old(self).blocks().len(),
            final(self).blocks().last().transactions == transactions.deep_view(),
            final(self).blocks().last().previous_hash == old(self).blocks().last().hash,
            final(self).blocks().last().hash == block_hash_of(final(self).blocks().last()),
            sealed(final(self).blocks().last().hash, old(self).difficulty as int)
                || mining_exhausted(final(self).blocks().last(), old(self).difficulty as int),
            chain_valid(old(self).blocks()) && all_txs_valid(transactions.deep_view())
                ==> chain_valid(final(self).blocks()),
    {
        let last_hash = crate::transaction::clone_bytes(&self.chain[self.chain.len() - 1].hash);
        let index = self.chain.len() as u64;
        let block = Block::new(index, transactions, last_hash, self.difficulty);
        self.chain.push(block);
        proof {
            let olds = old(self).blocks();
            let news = self.blocks();
            assert(news =~= olds.push(news.last()));
            assert(news.take(olds.len() as int) =~= olds);
            if chain_valid(olds) && all_txs_valid(news.last().transactions) {
                assert forall|i: int| 1 <= i < news.len() implies block_ok(
                    #[trigger] news[i],
                    news[i - 1],
                ) by {
                    if i < olds.len() {
                        assert(block_ok(olds[i], olds[i - 1]));
                    }
                }
            }
        }
    }

    /// Replays the whole chain: checks every block's stored hash
    /// against its recomputed hash, its link against its
    /// predecessor, and every transaction's signature.
    pub fn is_valid(&self) -> (r: bool)
        ensures
            r == chain_valid(self.blocks()),
    {
        let mut i: usize = 1;
        while i < self.chain.len()
            invariant
                1 <= i,
                forall|k: int| 1 <= k < i && k < self.blocks().len() ==> block_ok(
                    #[trigger] self.blocks()[k],
                    self.blocks()[k - 1],
                ),
            decreases self.chain.len() - i,
        {
            let current = &self.chain[i];
            proof {
                assert(self.blocks()[i as int] == self.chain[i as int].deep_view());
                assert(self.blocks()[i as int - 1] == self.chain[i as int - 1].deep_view());
            }
            let recomputed = current.calculate_hash();
            if !crate::wallet::bytes_eq(&current.hash, &recomputed) {
                proof {
                    assert(!block_ok(self.blocks()[i as int], self.blocks()[i as int - 1]));
                }
                return false;
            }
            if !crate::wallet::bytes_eq(&current.previous_hash, &self.chain[i - 1].hash) {
                proof {
                    assert(!block_ok(self.blocks()[i as int], self.blocks()[i as int - 1]));
                }
                return false;
            }
            let mut j: usize = 0;
            while j < current.transactions.len()
                invariant
                    1 <= i < self.chain.len(),
                    j <= current.transactions.len(),
                    current == &self.chain[i as int],
                    self.blocks()[i as int] == self.chain[i as int].deep_view(),
                    self.blocks()[i as int].hash == block_hash_of(self.blocks()[i as int]),
                    self.blocks()[i as int].previous_hash == self.blocks()[i as int - 1].hash,
                    forall|t: int| 0 <= t < j ==> tx_valid(
                        #[trigger] current.transactions.deep_view()[t],
                    ),
                decreases current.transactions.len() - j,
            {
                if !current.transactions[j].is_valid() {
                    proof {
                        assert(current.transactions.deep_view()[j as int]
                            == current.transactions[j as int]@);
                        assert(!all_txs_valid(self.blocks()[i as int].transactions));
                        assert(!block_ok(self.blocks()[i as int], self.blocks()[i as int - 1]));
                    }
                    return false;
                }
                j = j + 1;
            }
            assert(block_ok(self.blocks()[i as int], self.blocks()[i as int - 1]));
            i = i + 1;
        }
        true
    }

    /// Replays every transaction in chain order and reports the
    /// balance of an address: received minus sent, floored at zero.
    pub fn get_balance(&self, address: &Vec<u8>) -> (r: u64)
        requires
            chain_txs(self.blocks()).len() <= 0x1_0000_0000_0000_0000,
            balance_of(self.blocks(), address@) <= u64::MAX,
        ensures
            r == balance_of(self.blocks(), address@),
    {
        let mut received: u128 = 0;
        let mut sent: u128 = 0;
        let mut i: usize = 0;
        while i < self.chain.len()
            invariant
                i <= self.chain.len(),
                chain_txs(self.blocks()).len() <= 0x1_0000_0000_0000_0000,
                chain_txs(self.blocks().take(i as int)).len() <= chain_txs(self.blocks()).len(),
                received == received_in(chain_txs(self.blocks().take(i as int)), address@),
                sent == sent_in(chain_txs(self.blocks().take(i as int)), address@),
            decreases self.chain.len() - i,
        {
            let block = &self.chain[i];
            let ghost pre = chain_txs(self.blocks().take(i as int));
            let ghost cur = block.transactions.deep_view();
            proof {
                assert(self.blocks()[i as int] == self.chain[i as int].deep_view());
                lemma_chain_txs_step(self.blocks(), i as int);
                lemma_chain_txs_prefix_len(self.blocks(), i as int + 1);
                assert(pre + cur == chain_txs(self.blocks().take(i as int + 1)));
                assert(cur.take(0) =~= Seq::<TransactionView>::empty());
                assert(pre + cur.take(0) =~= pre);
            }
            let mut j: usize = 0;
            while j < block.transactions.len()
                invariant
                    j <= block.transactions.len(),
                    cur == block.transactions.deep_view(),
                    (pre + cur).len() <= 0x1_0000_0000_0000_0000,
                    received == received_in(pre + cur.take(j as int), address@),
                    sent == sent_in(pre + cur.take(j as int), address@),
                decreases block.transactions.len() - j,
            {
                let tx = &block.transactions[j];
                proof {
                    assert((pre + cur.take(j as int + 1)).drop_last() =~= pre + cur.take(
                        j as int));
                    assert((pre + cur.take(j as int + 1)).last() == cur[j as int]);
                    assert((pre + cur.take(j as int + 1)).len() <= (pre + cur).len());
                    lemma_sum_bounds(pre + cur.take(j as int), address@);
                }
                if crate::wallet::bytes_eq(&tx.to, address) {
                    received = received + tx.amount as u128;
                }
                if crate::wallet::bytes_eq(&tx.from, address) {
                    sent = sent + tx.amount as u128;
                }
                j = j + 1;
            }
            proof {
                assert(cur.take(cur.len() as int) =~= cur);
            }
            i = i + 1;
        }
        proof {
            assert(self.blocks().take(self.chain.len() as int) =~= self.blocks());
        }
        if received > sent {
            (received - sent) as u64
        } else {
            0
        }
    }
}

} // verus!
