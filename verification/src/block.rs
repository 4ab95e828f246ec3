//! Blocks and proof-of-work sealing.
//!
//! A block's hash is the lowercase hex text of the SHA-256 digest of
//! its content preimage: index, timestamp, transaction text,
//! predecessor hash and nonce, in that order. Mining searches for a
//! nonce whose hash starts with the demanded number of `'0'`
//! characters.

use vstd::prelude::*;
use crate::crypto::{sha256, sha256_of, current_timestamp};
use crate::hexcode::{hex_of, hex_encode};
use crate::transaction::{Transaction, TransactionView, enc_tx};
use crate::wire::{enc_num, push_num, push_blob};

verus! {

/// A mined batch of transactions, linked to its predecessor.
#[derive(Debug, Clone, PartialEq, Eq)]
pub struct Block {
    pub index: u64,
    pub timestamp: Vec<u8>,
    pub transactions: Vec<Transaction>,
    pub previous_hash: Vec<u8>,
    pub hash: Vec<u8>,
    pub nonce: u64,
}

/// The mathematical content of a block.
pub struct BlockView {
    pub index: u64,
    pub timestamp: Seq<u8>,
    pub transactions: Seq<TransactionView>,
    pub previous_hash: Seq<u8>,
    pub hash: Seq<u8>,
    pub nonce: u64,
}

impl View for Block {
    type V = BlockView;

    open spec fn view(&self) -> BlockView {
        BlockView {
            index: self.index,
            timestamp: self.timestamp@,
            transactions: self.transactions.deep_view(),
            previous_hash: self.previous_hash@,
            hash: self.hash@,
            nonce: self.nonce,
        }
    }
}

impl DeepView for Block {
    type V = BlockView;

    open spec fn deep_view(&self) -> BlockView {
        self.view()
    }
}

/// The concatenated wire text of the transactions, in order.
pub open spec fn enc_tx_list(txs: Seq<TransactionView>) -> Seq<u8>
    decreases txs.len(),
{
    if txs.len() == 0 {
        Seq::empty()
    } else {
        enc_tx_list(txs.drop_last()) + enc_tx(txs.last())
    }
}

/// The wire text of a transaction list: its length, then each
/// transaction in order.
pub open spec fn enc_txs(txs: Seq<TransactionView>) -> Seq<u8> {
    enc_num(txs.len()) + enc_tx_list(txs)
}

/// The hash preimage of a block's content.
pub open spec fn preimage_of(b: BlockView) -> Seq<u8> {
    enc_num(b.index as nat) + crate::wire::enc_blob(b.timestamp) + enc_txs(b.transactions)
        + crate::wire::enc_blob(b.previous_hash) + enc_num(b.nonce as nat)
}

/// The content hash of a block: hex text of the SHA-256 digest of
/// its preimage.
pub open spec fn block_hash_of(b: BlockView) -> Seq<u8> {
    hex_of(sha256_of(preimage_of(b)))
}

/// Whether a hash meets the difficulty target: at least `d` leading
/// `'0'` characters.
pub open spec fn sealed(hash: Seq<u8>, d: int) -> bool {
    &&& hash.len() >= d
    &&& forall|i: int| 0 <= i < d ==> hash[i] == 0x30
}

/// The same block content with another nonce.
pub open spec fn with_nonce(b: BlockView, n: u64) -> BlockView {
    BlockView { nonce: n, ..b }
}

/// No nonce at all seals this content at difficulty `d`.
pub open spec fn mining_exhausted(b: BlockView, d: int) -> bool {
    forall|n: u64| !sealed(#[trigger] block_hash_of(with_nonce(b, n)), d)
}

/// Appends the wire text of a transaction list.
pub fn push_txs(out: &mut Vec<u8>, txs: &Vec<Transaction>)
    ensures
        final(out)@ == old(out)@ + enc_txs(txs.deep_view()),
{
    push_num(out, txs.len() as u64);
    let mut i: usize = 0;
    while i < txs.len()
        invariant
            i <= txs.len(),
            out@ == old(out)@ + enc_num(txs.deep_view().len()) + enc_tx_list(
                txs.deep_view().take(i as int),
            ),
        decreases txs.len() - i,
    {
        txs[i].push_enc(out);
        i = i + 1;
        proof {
            assert(txs.deep_view().take(i as int).drop_last() =~= txs.deep_view().take(
                i as int - 1));
            assert(txs.deep_view().take(i as int).last() == txs.deep_view()[i as int - 1]);
            assert(out@ =~= old(out)@ + enc_num(txs.deep_view().len()) + enc_tx_list(
                txs.deep_view().take(i as int)));
        }
    }
    proof {
        assert(txs.deep_view().take(txs.len() as int) =~= txs.deep_view());
        assert(out@ =~= old(out)@ + enc_txs(txs.deep_view()));
    }
}

impl Block {
    /// Recomputes the content hash from the block's own fields.
    pub fn calculate_hash(&self) -> (r: Vec<u8>)
        ensures
            r@ == block_hash_of(self@),
    {
        let mut data: Vec<u8> = Vec::new();
        push_num(&mut data, self.index);
        push_blob(&mut data, &self.timestamp);
        push_txs(&mut data, &self.transactions);
        push_blob(&mut data, &self.previous_hash);
        push_num(&mut data, self.nonce);
        assert(data@ =~= preimage_of(self@));
        let digest = sha256(data.as_slice());
        hex_encode(digest.as_slice())
    }

    /// Whether this block's stored hash meets the difficulty target.
    pub fn is_sealed(&self, difficulty: usize) -> (r: bool)
        ensures
            r == sealed(self@.hash, difficulty as int),
    {
        if self.hash.len() < difficulty {
            return false;
        }
        let mut i: usize = 0;
        while i < difficulty
            invariant
                i <= difficulty,
                difficulty <= self.hash.len(),
                forall|j: int| 0 <= j < i ==> self@.hash[j] == 0x30,
            decreases difficulty - i,
        {
            if self.hash[i] != 0x30 {
                return false;
            }
            i = i + 1;
        }
        true
    }

    /// Searches for a nonce whose content hash meets the difficulty
    /// target, starting from zero, and stores hash and nonce. The
    /// search terminates: it either seals the block or has tried
    /// every nonce and found that none seals this content.
    pub fn mine(&mut self, difficulty: usize)
        ensures
            final(self).index == old(self).index,
            final(self).timestamp == old(self).timestamp,
            final(self).transactions == old(self).transactions,
            final(self).previous_hash == old(self).previous_hash,
            final(self)@.hash == block_hash_of(final(self)@),
            sealed(final(self)@.hash, difficulty as int) || mining_exhausted(
                final(self)@,
                difficulty as int,
            ),
    {
        self.nonce = 0;
        self.hash = self.calculate_hash();
        let mut done = self.is_sealed(difficulty);
        let mut gave_up = false;
        while !done && !gave_up
            invariant
                self.index == old(self).index,
                self.timestamp == old(self).timestamp,
                self.transactions == old(self).transactions,
                self.previous_hash == old(self).previous_hash,
                self@.hash == block_hash_of(self@),
                done == sealed(self@.hash, difficulty as int),
                forall|n: u64|
                    n < self.nonce ==> !sealed(
                        #[trigger] block_hash_of(with_nonce(old(self)@, n)),
                        difficulty as int,
                    ),
                gave_up ==> mining_exhausted(old(self)@, difficulty as int),
            decreases (if gave_up { 0int } else { 1int }), u64::MAX - self.nonce,
        {
            proof {
                assert(preimage_of(self@) =~= preimage_of(with_nonce(old(self)@, self.nonce)));
            }
            if self.nonce == u64::MAX {
                gave_up = true;
                proof {
                    assert forall|n: u64|
                        !sealed(
                            #[trigger] block_hash_of(with_nonce(old(self)@, n)),
                            difficulty as int,
                        ) by {
                        if n == u64::MAX {
                            assert(block_hash_of(with_nonce(old(self)@, n)) == block_hash_of(
                                self@,
                            ));
                        }
                    }
                }
            } else {
                self.nonce = self.nonce + 1;
                self.hash = self.calculate_hash();
                done = self.is_sealed(difficulty);
            }
        }
        proof {
            if !done {
                assert forall|n: u64|
                    !sealed(
                        #[trigger] block_hash_of(with_nonce(final(self)@, n)),
                        difficulty as int,
                    ) by {
                    assert(!sealed(block_hash_of(with_nonce(old(self)@, n)), difficulty as int));
                    assert(preimage_of(with_nonce(final(self)@, n)) =~= preimage_of(
                        with_nonce(old(self)@, n),
                    ));
                    assert(block_hash_of(with_nonce(final(self)@, n)) == block_hash_of(
                        with_nonce(old(self)@, n),
                    ));
                }
            }
        }
    }

    /// Builds and mines a block: records the creation time, then
    /// seals the given content at the given difficulty.
    pub fn new(index: u64, transactions: Vec<Transaction>, previous_hash: Vec<u8>, difficulty: usize) -> (r: Block)
        ensures
            r.index == index,
            r@.transactions == transactions.deep_view(),
            r@.previous_hash == previous_hash@,
            r@.hash == block_hash_of(r@),
            sealed(r@.hash, difficulty as int) || mining_exhausted(r@, difficulty as int),
    {
        let timestamp = current_timestamp();
        let mut block = Block {
            index,
            timestamp,
            transactions,
            previous_hash,
            hash: Vec::new(),
            nonce: 0,
        };
        block.mine(difficulty);
        block
    }
}

} // verus!
