//! The persisted form of a chain, and its parser.
//!
//! A chain is written as its block count followed by each block's
//! fields; every number is decimal text, every byte string a
//! length-prefixed lowercase hex blob. The parser's contract states
//! that it reads back exactly what was written: wherever the input
//! holds the encoding of a value, parsing returns that value.

use vstd::prelude::*;
use crate::block::{Block, BlockView, enc_txs, enc_tx_list, preimage_of, push_txs};
use crate::hexcode::{hex_of, hex_decode, lemma_hex_of_wf, lemma_unhex_hex_of};
use crate::transaction::{Transaction, TransactionView, enc_tx, tx_wf};
use crate::wire::{
    NL, enc_num, enc_blob, num_at, parse_num, push_num, push_blob,
};

verus! {

/// Every transaction of the list has Ed25519 field lengths.
pub open spec fn txs_wf(ts: Seq<TransactionView>) -> bool {
    forall|i: int| 0 <= i < ts.len() ==> tx_wf(#[trigger] ts[i])
}

/// The bytes at `pos` start with the encoding of blob `b`.
pub open spec fn blob_at(s: Seq<u8>, pos: int, b: Seq<u8>, rest: Seq<u8>) -> bool {
    &&& b.len() <= 0xffff_ffff_ffff_ffff
    &&& s.skip(pos) == enc_blob(b) + rest
}

/// The bytes at `pos` start with the encoding of transaction `t`.
pub open spec fn tx_at(s: Seq<u8>, pos: int, t: TransactionView, rest: Seq<u8>) -> bool {
    &&& tx_wf(t)
    &&& s.skip(pos) == enc_tx(t) + rest
}

/// The bytes at `pos` start with the encoding of the transaction
/// list `ts`.
pub open spec fn txs_at(s: Seq<u8>, pos: int, ts: Seq<TransactionView>, rest: Seq<u8>) -> bool {
    &&& txs_wf(ts)
    &&& ts.len() <= 0xffff_ffff_ffff_ffff
    &&& s.skip(pos) == enc_txs(ts) + rest
}

/// Bounds under which a block's content can be written down.
pub open spec fn block_enc_wf(b: BlockView) -> bool {
    &&& txs_wf(b.transactions)
    &&& b.transactions.len() <= 0xffff_ffff_ffff_ffff
    &&& b.timestamp.len() <= 0xffff_ffff_ffff_ffff
    &&& b.previous_hash.len() <= 0xffff_ffff_ffff_ffff
    &&& b.hash.len() <= 0xffff_ffff_ffff_ffff
}

/// The persisted text of one block: its hash preimage fields, then
/// its stored hash.
pub open spec fn enc_block(b: BlockView) -> Seq<u8> {
    preimage_of(b) + enc_blob(b.hash)
}

/// The bytes at `pos` start with the encoding of block `b`.
pub open spec fn block_at(s: Seq<u8>, pos: int, b: BlockView, rest: Seq<u8>) -> bool {
    &&& block_enc_wf(b)
    &&& s.skip(pos) == enc_block(b) + rest
}

/// The concatenated text of the blocks, in order.
pub open spec fn enc_block_list(bs: Seq<BlockView>) -> Seq<u8>
    decreases bs.len(),
{
    if bs.len() == 0 {
        Seq::empty()
    } else {
        enc_block_list(bs.drop_last()) + enc_block(bs.last())
    }
}

/// The persisted text of a whole chain: the block count, then each
/// block.
pub open spec fn enc_chain(bs: Seq<BlockView>) -> Seq<u8> {
    enc_num(bs.len()) + enc_block_list(bs)
}

/// Bounds under which a chain can be written down.
pub open spec fn chain_enc_wf(bs: Seq<BlockView>) -> bool {
    &&& bs.len() <= 0xffff_ffff_ffff_ffff
    &&& forall|i: int| 0 <= i < bs.len() ==> block_enc_wf(#[trigger] bs[i])
}

/// Consuming a known prefix advances the remainder.
pub proof fn lemma_skip_parts(s: Seq<u8>, pos: int, a: Seq<u8>, rest: Seq<u8>)
    requires
        0 <= pos <= s.len(),
        s.skip(pos) == a + rest,
    ensures
        pos + a.len() <= s.len(),
        s.skip(pos + a.len()) == rest,
{
    assert(s.skip(pos).len() == s.len() - pos);
    assert forall|i: int| 0 <= i < rest.len() implies s.skip(pos + a.len())[i] == rest[i] by {
        assert(s.skip(pos + a.len())[i] == s[pos + a.len() + i]);
        assert(s.skip(pos)[a.len() + i] == s[pos + a.len() + i]);
        assert((a + rest)[a.len() + i] == rest[i]);
    }
    assert(s.skip(pos + a.len()) =~= rest);
}

/// A nonempty list's text starts with its first item's text.
pub proof fn lemma_enc_tx_list_front(ts: Seq<TransactionView>)
    requires
        ts.len() > 0,
    ensures
        enc_tx_list(ts) == enc_tx(ts[0]) + enc_tx_list(ts.drop_first()),
    decreases ts.len(),
{
    if ts.len() == 1 {
        assert(ts.drop_last() =~= Seq::<TransactionView>::empty());
        assert(ts.drop_first() =~= Seq::<TransactionView>::empty());
        assert(enc_tx_list(ts) =~= enc_tx(ts[0]) + enc_tx_list(ts.drop_first()));
    } else {
        lemma_enc_tx_list_front(ts.drop_last());
        assert(ts.drop_last()[0] == ts[0]);
        assert(ts.drop_first().drop_last() =~= ts.drop_last().drop_first());
        assert(ts.drop_first().last() == ts.last());
        assert(enc_tx_list(ts.drop_first()) == enc_tx_list(ts.drop_first().drop_last())
            + enc_tx(ts.last()));
        assert(enc_tx_list(ts) =~= enc_tx(ts[0]) + enc_tx_list(ts.drop_first()));
    }
}

/// A nonempty block list's text starts with its first block's text.
pub proof fn lemma_enc_block_list_front(bs: Seq<BlockView>)
    requires
        bs.len() > 0,
    ensures
        enc_block_list(bs) == enc_block(bs[0]) + enc_block_list(bs.drop_first()),
    decreases bs.len(),
{
    if bs.len() == 1 {
        assert(bs.drop_last() =~= Seq::<BlockView>::empty());
        assert(bs.drop_first() =~= Seq::<BlockView>::empty());
        assert(enc_block_list(bs) =~= enc_block(bs[0]) + enc_block_list(bs.drop_first()));
    } else {
        lemma_enc_block_list_front(bs.drop_last());
        assert(bs.drop_last()[0] == bs[0]);
        assert(bs.drop_first().drop_last() =~= bs.drop_last().drop_first());
        assert(bs.drop_first().last() == bs.last());
        assert(enc_block_list(bs.drop_first()) == enc_block_list(bs.drop_first().drop_last())
            + enc_block(bs.last()));
        assert(enc_block_list(bs) =~= enc_block(bs[0]) + enc_block_list(bs.drop_first()));
    }
}

/// Reads an encoded blob. Wherever the input holds an encoded blob,
/// the parse returns exactly its bytes.
pub fn parse_blob(s: &Vec<u8>, pos: usize) -> (r: Option<(Vec<u8>, usize)>)
    requires
        pos <= s@.len(),
    ensures
        r matches Some(q) ==> pos < q.1 <= s@.len(),
        forall|b: Seq<u8>, rest: Seq<u8>| #[trigger]
            blob_at(s@, pos as int, b, rest) ==> r is Some && r.unwrap().0@ == b
                && r.unwrap().1 == pos + enc_blob(b).len(),
{
    let ghost pos0 = pos as int;
    proof {
        assert forall|b: Seq<u8>, rest: Seq<u8>| #[trigger]
            blob_at(s@, pos0, b, rest) implies num_at(
            s@,
            pos0,
            b.len() as u64,
            hex_of(b) + seq![NL] + rest,
        ) by {
            assert(enc_blob(b) + rest =~= enc_num((b.len() as u64) as nat) + (hex_of(b)
                + seq![NL] + rest));
        }
    }
    let parsed = parse_num(s, pos);
    let (n, p1) = match parsed {
        Some(q) => q,
        None => {
            return None;
        },
    };
    proof {
        assert forall|b: Seq<u8>, rest: Seq<u8>| #[trigger] blob_at(s@, pos0, b, rest) implies {
            &&& n == b.len()
            &&& p1 + 2 * b.len() + 1 <= s@.len()
            &&& s@.subrange(p1 as int, p1 + 2 * b.len()) == hex_of(b)
            &&& s@[p1 + 2 * b.len()] == NL
        } by {
            lemma_hex_of_wf(b);
            assert((b.len() as u64) as nat == b.len());
            assert(num_at(s@, pos0, b.len() as u64, hex_of(b) + seq![NL] + rest));
            lemma_skip_parts(s@, pos0, enc_num((b.len() as u64) as nat),
                hex_of(b) + seq![NL] + rest);
            assert(s@.skip(p1 as int) == hex_of(b) + seq![NL] + rest);
            assert(s@.skip(p1 as int).len() == 2 * b.len() + 1 + rest.len());
            assert(s@.subrange(p1 as int, p1 + 2 * b.len()) =~= hex_of(b));
            assert(s@[p1 + 2 * b.len()] == s@.skip(p1 as int)[2 * b.len() as int]);
        }
    }
    let remaining = s.len() - p1;
    if (n as u128) * 2 + 1 > remaining as u128 {
        return None;
    }
    let end = p1 + (n as usize) * 2;
    let hexpart = vstd::slice::slice_subrange(s.as_slice(), p1, end);
    let decoded = match hex_decode(hexpart) {
        Some(v) => v,
        None => {
            proof {
                assert forall|b: Seq<u8>, rest: Seq<u8>| #[trigger]
                    blob_at(s@, pos0, b, rest) implies false by {
                    lemma_hex_of_wf(b);
                }
            }
            return None;
        },
    };
    if s[end] != NL {
        return None;
    }
    proof {
        assert forall|b: Seq<u8>, rest: Seq<u8>| #[trigger] blob_at(s@, pos0, b, rest) implies {
            &&& decoded@ == b
            &&& end + 1 == pos + enc_blob(b).len()
        } by {
            lemma_hex_of_wf(b);
            lemma_unhex_hex_of(b);
        }
    }
    Some((decoded, end + 1))
}

/// Reads an encoded transaction, rejecting key or signature bytes of
/// the wrong length. Wherever the input holds an encoded
/// transaction, the parse returns exactly it.
pub fn parse_tx(s: &Vec<u8>, pos: usize) -> (r: Option<(Transaction, usize)>)
    requires
        pos <= s@.len(),
    ensures
        r matches Some(q) ==> pos < q.1 <= s@.len() && tx_wf(q.0@),
        forall|t: TransactionView, rest: Seq<u8>| #[trigger]
            tx_at(s@, pos as int, t, rest) ==> r is Some && r.unwrap().0@ == t
                && r.unwrap().1 == pos + enc_tx(t).len(),
{
    let ghost pos0 = pos as int;
    proof {
        assert forall|t: TransactionView, rest: Seq<u8>| #[trigger]
            tx_at(s@, pos0, t, rest) implies blob_at(
            s@,
            pos0,
            t.from,
            enc_blob(t.to) + enc_num(t.amount as nat) + enc_blob(t.signature) + rest,
        ) by {
            assert(enc_tx(t) + rest =~= enc_blob(t.from) + (enc_blob(t.to) + enc_num(
                t.amount as nat) + enc_blob(t.signature) + rest));
        }
    }
    let (from_v, p1) = match parse_blob(s, pos) {
        Some(q) => q,
        None => {
            return None;
        },
    };
    proof {
        assert forall|t: TransactionView, rest: Seq<u8>| #[trigger]
            tx_at(s@, pos0, t, rest) implies from_v@ == t.from && blob_at(
            s@,
            p1 as int,
            t.to,
            enc_num(t.amount as nat) + enc_blob(t.signature) + rest,
        ) by {
            let r1 = enc_blob(t.to) + enc_num(t.amount as nat) + enc_blob(t.signature) + rest;
            assert(blob_at(s@, pos0, t.from, r1));
            lemma_skip_parts(s@, pos0, enc_blob(t.from), r1);
            assert(enc_blob(t.to) + enc_num(t.amount as nat) + enc_blob(t.signature) + rest
                =~= enc_blob(t.to) + (enc_num(t.amount as nat) + enc_blob(t.signature) + rest));
        }
    }
    if from_v.len() != 32 {
        return None;
    }
    let (to_v, p2) = match parse_blob(s, p1) {
        Some(q) => q,
        None => {
            return None;
        },
    };
    proof {
        assert forall|t: TransactionView, rest: Seq<u8>| #[trigger]
            tx_at(s@, pos0, t, rest) implies to_v@ == t.to && num_at(
            s@,
            p2 as int,
            t.amount,
            enc_blob(t.signature) + rest,
        ) by {
            let r2 = enc_num(t.amount as nat) + enc_blob(t.signature) + rest;
            assert(blob_at(s@, p1 as int, t.to, r2));
            lemma_skip_parts(s@, p1 as int, enc_blob(t.to), r2);
            assert(enc_num(t.amount as nat) + enc_blob(t.signature) + rest =~= enc_num(
                t.amount as nat) + (enc_blob(t.signature) + rest));
        }
    }
    if to_v.len() != 32 {
        return None;
    }
    let (amount, p3) = match parse_num(s, p2) {
        Some(q) => q,
        None => {
            return None;
        },
    };
    proof {
        assert forall|t: TransactionView, rest: Seq<u8>| #[trigger]
            tx_at(s@, pos0, t, rest) implies amount == t.amount && blob_at(
            s@,
            p3 as int,
            t.signature,
            rest,
        ) by {
            let r3 = enc_blob(t.signature) + rest;
            assert(num_at(s@, p2 as int, t.amount, r3));
            lemma_skip_parts(s@, p2 as int, enc_num(t.amount as nat), r3);
        }
    }
    let (sig_v, p4) = match parse_blob(s, p3) {
        Some(q) => q,
        None => {
            return None;
        },
    };
    proof {
        assert forall|t: TransactionView, rest: Seq<u8>| #[trigger]
            tx_at(s@, pos0, t, rest) implies sig_v@ == t.signature && p4 == pos + enc_tx(
            t).len() by {
            assert(blob_at(s@, p3 as int, t.signature, rest));
        }
    }
    if sig_v.len() != 64 {
        return None;
    }
    Some((Transaction { from: from_v, to: to_v, amount, signature: sig_v }, p4))
}

/// Reads an encoded transaction list. Wherever the input holds an
/// encoded list, the parse returns exactly it.
pub fn parse_txs(s: &Vec<u8>, pos: usize) -> (r: Option<(Vec<Transaction>, usize)>)
    requires
        pos <= s@.len(),
    ensures
        r matches Some(q) ==> pos < q.1 <= s@.len(),
        forall|ts: Seq<TransactionView>, rest: Seq<u8>| #[trigger]
            txs_at(s@, pos as int, ts, rest) ==> r is Some && r.unwrap().0.deep_view() == ts
                && r.unwrap().1 == pos + enc_txs(ts).len(),
{
    let ghost pos0 = pos as int;
    proof {
        assert forall|ts: Seq<TransactionView>, rest: Seq<u8>| #[trigger]
            txs_at(s@, pos0, ts, rest) implies num_at(
            s@,
            pos0,
            ts.len() as u64,
            enc_tx_list(ts) + rest,
        ) by {
            assert(enc_txs(ts) + rest =~= enc_num((ts.len() as u64) as nat) + (enc_tx_list(ts)
                + rest));
        }
    }
    let (n, p1) = match parse_num(s, pos) {
        Some(q) => q,
        None => {
            return None;
        },
    };
    let mut out: Vec<Transaction> = Vec::new();
    let mut cursor: usize = p1;
    let mut k: u64 = 0;
    proof {
        assert forall|ts: Seq<TransactionView>, rest: Seq<u8>| #[trigger]
            txs_at(s@, pos0, ts, rest) implies ts.len() == n && s@.skip(cursor as int)
            == enc_tx_list(ts.skip(k as int)) + rest && out.deep_view() == ts.take(
            k as int) by {
            assert((ts.len() as u64) as nat == ts.len());
            assert(num_at(s@, pos0, ts.len() as u64, enc_tx_list(ts) + rest));
            lemma_skip_parts(s@, pos0, enc_num((ts.len() as u64) as nat),
                enc_tx_list(ts) + rest);
            assert(ts.skip(0) =~= ts);
            assert(out.deep_view() =~= ts.take(0));
        }
    }
    while k < n
        invariant
            pos0 == pos,
            pos < cursor <= s@.len(),
            k <= n,
            out@.len() == k,
            forall|ts: Seq<TransactionView>, rest: Seq<u8>| #[trigger]
                txs_at(s@, pos0, ts, rest) ==> {
                    &&& ts.len() == n
                    &&& out.deep_view() == ts.take(k as int)
                    &&& s@.skip(cursor as int) == enc_tx_list(ts.skip(k as int)) + rest
                },
        decreases n - k,
    {
        proof {
            assert forall|ts: Seq<TransactionView>, rest: Seq<u8>| #[trigger]
                txs_at(s@, pos0, ts, rest) implies tx_at(
                s@,
                cursor as int,
                ts[k as int],
                enc_tx_list(ts.skip(k as int + 1)) + rest,
            ) by {
                lemma_enc_tx_list_front(ts.skip(k as int));
                assert(ts.skip(k as int)[0] == ts[k as int]);
                assert(ts.skip(k as int).drop_first() =~= ts.skip(k as int + 1));
                assert(enc_tx_list(ts.skip(k as int)) + rest =~= enc_tx(ts[k as int]) + (
                enc_tx_list(ts.skip(k as int + 1)) + rest));
            }
        }
        let (tx, p) = match parse_tx(s, cursor) {
            Some(q) => q,
            None => {
                return None;
            },
        };
        proof {
            assert forall|ts: Seq<TransactionView>, rest: Seq<u8>| #[trigger]
                txs_at(s@, pos0, ts, rest) implies tx@ == ts[k as int] && s@.skip(p as int)
                == enc_tx_list(ts.skip(k as int + 1)) + rest by {
                assert(tx_at(s@, cursor as int, ts[k as int],
                    enc_tx_list(ts.skip(k as int + 1)) + rest));
                lemma_skip_parts(s@, cursor as int, enc_tx(ts[k as int]),
                    enc_tx_list(ts.skip(k as int + 1)) + rest);
            }
        }
        out.push(tx);
        cursor = p;
        k = k + 1;
        proof {
            assert forall|ts: Seq<TransactionView>, rest: Seq<u8>| #[trigger]
                txs_at(s@, pos0, ts, rest) implies out.deep_view() == ts.take(k as int) by {
                assert(out.deep_view() =~= ts.take(k as int));
            }
        }
    }
    proof {
        assert forall|ts: Seq<TransactionView>, rest: Seq<u8>| #[trigger]
            txs_at(s@, pos0, ts, rest) implies out.deep_view() == ts && cursor == pos
            + enc_txs(ts).len() by {
            assert(ts.take(k as int) =~= ts);
            assert(ts.skip(k as int) =~= Seq::<TransactionView>::empty());
            assert(enc_tx_list(ts.skip(k as int)) + rest =~= rest);
            assert(s@.skip(cursor as int).len() == s@.len() - cursor);
            assert(s@.skip(pos0).len() == s@.len() - pos0);
        }
    }
    Some((out, cursor))
}

/// The leading fields of a block's text: index, timestamp,
/// transactions.
pub open spec fn enc_block_head(b: BlockView) -> Seq<u8> {
    enc_num(b.index as nat) + enc_blob(b.timestamp) + enc_txs(b.transactions)
}

/// The bytes at `pos` start with the leading fields of block `b`.
pub open spec fn head_at(s: Seq<u8>, pos: int, b: BlockView, rest: Seq<u8>) -> bool {
    &&& block_enc_wf(b)
    &&& s.skip(pos) == enc_block_head(b) + rest
}

/// Reads a block's leading fields: index, timestamp, transactions.
fn parse_block_head(s: &Vec<u8>, pos: usize) -> (r: Option<((u64, Vec<u8>, Vec<Transaction>), usize)>)
    requires
        pos <= s@.len(),
    ensures
        r matches Some(q) ==> pos < q.1 <= s@.len(),
        forall|b: BlockView, rest: Seq<u8>| #[trigger]
            head_at(s@, pos as int, b, rest) ==> r is Some && r.unwrap().0.0 == b.index
                && r.unwrap().0.1@ == b.timestamp && r.unwrap().0.2.deep_view()
                == b.transactions && r.unwrap().1 == pos + enc_block_head(b).len(),
{
    let ghost pos0 = pos as int;
    proof {
        assert forall|b: BlockView, rest: Seq<u8>| #[trigger]
            head_at(s@, pos0, b, rest) implies num_at(
            s@,
            pos0,
            b.index,
            enc_blob(b.timestamp) + enc_txs(b.transactions) + rest,
        ) by {
            assert(enc_block_head(b) + rest =~= enc_num(b.index as nat) + (enc_blob(b.timestamp)
                + enc_txs(b.transactions) + rest));
        }
    }
    let (index, p1) = match parse_num(s, pos) {
        Some(q) => q,
        None => {
            return None;
        },
    };
    proof {
        assert forall|b: BlockView, rest: Seq<u8>| #[trigger]
            head_at(s@, pos0, b, rest) implies index == b.index && blob_at(
            s@,
            p1 as int,
            b.timestamp,
            enc_txs(b.transactions) + rest,
        ) by {
            let r1 = enc_blob(b.timestamp) + enc_txs(b.transactions) + rest;
            assert(num_at(s@, pos0, b.index, r1));
            lemma_skip_parts(s@, pos0, enc_num(b.index as nat), r1);
            assert(r1 =~= enc_blob(b.timestamp) + (enc_txs(b.transactions) + rest));
        }
    }
    let (timestamp, p2) = match parse_blob(s, p1) {
        Some(q) => q,
        None => {
            return None;
        },
    };
    proof {
        assert forall|b: BlockView, rest: Seq<u8>| #[trigger]
            head_at(s@, pos0, b, rest) implies timestamp@ == b.timestamp && txs_at(
            s@,
            p2 as int,
            b.transactions,
            rest,
        ) by {
            let r2 = enc_txs(b.transactions) + rest;
            assert(blob_at(s@, p1 as int, b.timestamp, r2));
            lemma_skip_parts(s@, p1 as int, enc_blob(b.timestamp), r2);
        }
    }
    let (transactions, p3) = match parse_txs(s, p2) {
        Some(q) => q,
        None => {
            return None;
        },
    };
    proof {
        assert forall|b: BlockView, rest: Seq<u8>| #[trigger]
            head_at(s@, pos0, b, rest) implies transactions.deep_view() == b.transactions && p3
            == pos + enc_block_head(b).len() by {
            assert(txs_at(s@, p2 as int, b.transactions, rest));
        }
    }
    Some(((index, timestamp, transactions), p3))
}

/// Reads an encoded block. Wherever the input holds an encoded
/// block, the parse returns exactly it.
pub fn parse_block(s: &Vec<u8>, pos: usize) -> (r: Option<(Block, usize)>)
    requires
        pos <= s@.len(),
    ensures
        r matches Some(q) ==> pos < q.1 <= s@.len(),
        forall|b: BlockView, rest: Seq<u8>| #[trigger]
            block_at(s@, pos as int, b, rest) ==> r is Some && r.unwrap().0@ == b
                && r.unwrap().1 == pos + enc_block(b).len(),
{
    let ghost pos0 = pos as int;
    proof {
        assert forall|b: BlockView, rest: Seq<u8>| #[trigger]
            block_at(s@, pos0, b, rest) implies head_at(
            s@,
            pos0,
            b,
            enc_blob(b.previous_hash) + enc_num(b.nonce as nat) + enc_blob(b.hash) + rest,
        ) by {
            assert(enc_block(b) + rest =~= enc_block_head(b) + (enc_blob(b.previous_hash)
                + enc_num(b.nonce as nat) + enc_blob(b.hash) + rest));
        }
    }
    let (head, p3) = match parse_block_head(s, pos) {
        Some(q) => q,
        None => {
            return None;
        },
    };
    proof {
        assert forall|b: BlockView, rest: Seq<u8>| #[trigger]
            block_at(s@, pos0, b, rest) implies head.0 == b.index && head.1@ == b.timestamp
            && head.2.deep_view() == b.transactions && blob_at(
            s@,
            p3 as int,
            b.previous_hash,
            enc_num(b.nonce as nat) + enc_blob(b.hash) + rest,
        ) by {
            let r3 = enc_blob(b.previous_hash) + enc_num(b.nonce as nat) + enc_blob(b.hash)
                + rest;
            assert(head_at(s@, pos0, b, r3));
            lemma_skip_parts(s@, pos0, enc_block_head(b), r3);
            assert(r3 =~= enc_blob(b.previous_hash) + (enc_num(b.nonce as nat) + enc_blob(
                b.hash) + rest));
        }
    }
    let (index, timestamp, transactions) = head;
    let (previous_hash, p4) = match parse_blob(s, p3) {
        Some(q) => q,
        None => {
            return None;
        },
    };
    proof {
        assert forall|b: BlockView, rest: Seq<u8>| #[trigger]
            block_at(s@, pos0, b, rest) implies previous_hash@ == b.previous_hash && num_at(
            s@,
            p4 as int,
            b.nonce,
            enc_blob(b.hash) + rest,
        ) by {
            let r4 = enc_num(b.nonce as nat) + enc_blob(b.hash) + rest;
            assert(blob_at(s@, p3 as int, b.previous_hash, r4));
            lemma_skip_parts(s@, p3 as int, enc_blob(b.previous_hash), r4);
            assert(r4 =~= enc_num(b.nonce as nat) + (enc_blob(b.hash) + rest));
        }
    }
    let (nonce, p5) = match parse_num(s, p4) {
        Some(q) => q,
        None => {
            return None;
        },
    };
    proof {
        assert forall|b: BlockView, rest: Seq<u8>| #[trigger]
            block_at(s@, pos0, b, rest) implies nonce == b.nonce && blob_at(
            s@,
            p5 as int,
            b.hash,
            rest,
        ) by {
            let r5 = enc_blob(b.hash) + rest;
            assert(num_at(s@, p4 as int, b.nonce, r5));
            lemma_skip_parts(s@, p4 as int, enc_num(b.nonce as nat), r5);
        }
    }
    let (hash, p6) = match parse_blob(s, p5) {
        Some(q) => q,
        None => {
            return None;
        },
    };
    proof {
        assert forall|b: BlockView, rest: Seq<u8>| #[trigger]
            block_at(s@, pos0, b, rest) implies hash@ == b.hash && p6 == pos + enc_block(
            b).len() by {
            assert(blob_at(s@, p5 as int, b.hash, rest));
        }
    }
    Some((Block { index, timestamp, transactions, previous_hash, hash, nonce }, p6))
}

/// Appends the persisted text of one block.
pub fn push_block(out: &mut Vec<u8>, b: &Block)
    ensures
        final(out)@ == old(out)@ + enc_block(b@),
{
    push_num(out, b.index);
    push_blob(out, &b.timestamp);
    push_txs(out, &b.transactions);
    push_blob(out, &b.previous_hash);
    push_num(out, b.nonce);
    push_blob(out, &b.hash);
    assert(out@ =~= old(out)@ + enc_block(b@));
}

/// Writes the persisted text of a whole chain.
pub fn save_chain(chain: &Vec<Block>) -> (r: Vec<u8>)
    ensures
        r@ == enc_chain(chain.deep_view()),
{
    let mut out: Vec<u8> = Vec::new();
    push_num(&mut out, chain.len() as u64);
    let mut i: usize = 0;
    while i < chain.len()
        invariant
            i <= chain.len(),
            out@ == enc_num(chain.deep_view().len()) + enc_block_list(
                chain.deep_view().take(i as int),
            ),
        decreases chain.len() - i,
    {
        push_block(&mut out, &chain[i]);
        i = i + 1;
        proof {
            assert(chain.deep_view().take(i as int).drop_last() =~= chain.deep_view().take(
                i as int - 1));
            assert(chain.deep_view().take(i as int).last() == chain.deep_view()[i as int - 1]);
            assert(chain[i as int - 1].deep_view() == chain.deep_view()[i as int - 1]);
            assert(out@ =~= enc_num(chain.deep_view().len()) + enc_block_list(
                chain.deep_view().take(i as int)));
        }
    }
    proof {
        assert(chain.deep_view().take(chain.len() as int) =~= chain.deep_view());
        assert(out@ =~= enc_chain(chain.deep_view()));
    }
    out
}

/// Reads back a persisted chain. Wherever the input is exactly the
/// persisted text of a chain, the parse returns exactly its blocks;
/// any other input is reported as absent.
pub fn load_chain(data: &Vec<u8>) -> (r: Option<Vec<Block>>)
    ensures
        forall|bs: Seq<BlockView>| #[trigger]
            chain_enc_wf(bs) && data@ == enc_chain(bs) ==> r is Some && r.unwrap().deep_view()
                == bs,
{
    let ghost whole = data@;
    proof {
        assert forall|bs: Seq<BlockView>|
            #[trigger] chain_enc_wf(bs) && data@ == enc_chain(bs) implies num_at(
            data@,
            0,
            bs.len() as u64,
            enc_block_list(bs),
        ) by {
            assert((bs.len() as u64) as nat == bs.len());
            assert(data@.skip(0) =~= data@);
            assert(enc_chain(bs) =~= enc_num((bs.len() as u64) as nat) + enc_block_list(bs));
        }
    }
    let (n, p1) = match parse_num(data, 0) {
        Some(q) => q,
        None => {
            return None;
        },
    };
    let mut out: Vec<Block> = Vec::new();
    let mut cursor: usize = p1;
    let mut k: u64 = 0;
    proof {
        assert forall|bs: Seq<BlockView>|
            #[trigger] chain_enc_wf(bs) && data@ == enc_chain(bs) implies bs.len() == n
            && data@.skip(cursor as int) == enc_block_list(bs.skip(k as int))
            && out.deep_view() == bs.take(k as int) by {
            assert((bs.len() as u64) as nat == bs.len());
            assert(num_at(data@, 0, bs.len() as u64, enc_block_list(bs)));
            lemma_skip_parts(data@, 0, enc_num((bs.len() as u64) as nat), enc_block_list(bs));
            assert(bs.skip(0) =~= bs);
            assert(out.deep_view() =~= bs.take(0));
        }
    }
    while k < n
        invariant
            whole == data@,
            0 < cursor <= data@.len(),
            k <= n,
            forall|bs: Seq<BlockView>|
                #[trigger] chain_enc_wf(bs) && data@ == enc_chain(bs) ==> {
                    &&& bs.len() == n
                    &&& out.deep_view() == bs.take(k as int)
                    &&& data@.skip(cursor as int) == enc_block_list(bs.skip(k as int))
                },
        decreases n - k,
    {
        proof {
            assert forall|bs: Seq<BlockView>|
                #[trigger] chain_enc_wf(bs) && data@ == enc_chain(bs) implies block_at(
                data@,
                cursor as int,
                bs[k as int],
                enc_block_list(bs.skip(k as int + 1)),
            ) by {
                lemma_enc_block_list_front(bs.skip(k as int));
                assert(bs.skip(k as int)[0] == bs[k as int]);
                assert(bs.skip(k as int).drop_first() =~= bs.skip(k as int + 1));
            }
        }
        let (block, p) = match parse_block(data, cursor) {
            Some(q) => q,
            None => {
                return None;
            },
        };
        proof {
            assert forall|bs: Seq<BlockView>|
                #[trigger] chain_enc_wf(bs) && data@ == enc_chain(bs) implies block@
                == bs[k as int] && data@.skip(p as int) == enc_block_list(
                bs.skip(k as int + 1)) by {
                assert(block_at(data@, cursor as int, bs[k as int],
                    enc_block_list(bs.skip(k as int + 1))));
                lemma_skip_parts(data@, cursor as int, enc_block(bs[k as int]),
                    enc_block_list(bs.skip(k as int + 1)));
            }
        }
        out.push(block);
        cursor = p;
        k = k + 1;
        proof {
            assert forall|bs: Seq<BlockView>|
                #[trigger] chain_enc_wf(bs) && data@ == enc_chain(bs) implies out.deep_view()
                == bs.take(k as int) by {
                assert(out.deep_view() =~= bs.take(k as int));
            }
        }
    }
    if cursor != data.len() {
        proof {
            assert forall|bs: Seq<BlockView>|
                #[trigger] chain_enc_wf(bs) && data@ == enc_chain(bs) implies false by {
                assert(bs.skip(k as int) =~= Seq::<BlockView>::empty());
                assert(data@.skip(cursor as int).len() == 0);
            }
        }
        return None;
    }
    proof {
        assert forall|bs: Seq<BlockView>|
            #[trigger] chain_enc_wf(bs) && data@ == enc_chain(bs) implies out.deep_view()
            == bs by {
            assert(bs.take(k as int) =~= bs);
        }
    }
    Some(out)
}

/// Round-trip law: a saved chain always loads back, field for
/// field, nonce and hash included. Holds of every chain whose keys
/// and signatures have Ed25519 lengths, which is every chain the
/// library builds.
pub fn saved_chain_loads_back(chain: &Vec<Block>) -> (r: Option<Vec<Block>>)
    requires
        chain_enc_wf(chain.deep_view()),
    ensures
        r is Some,
        r.unwrap().deep_view() == chain.deep_view(),
{
    load_chain(&save_chain(chain))
}

} // verus!

