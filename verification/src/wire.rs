//! Line-oriented wire primitives: decimal numbers and length-prefixed
//! hex blobs, each terminated by a newline byte.
//!
//! The same encoding is used for the proof-of-work hash preimage and
//! for the persisted form of a chain, so one set of spec functions
//! describes both.

use vstd::prelude::*;
use crate::hexcode::hex_of;

verus! {

/// The terminator byte after every encoded field.
pub const NL: u8 = 10;

/// Decimal ASCII text of a number, most significant digit first.
pub open spec fn dec_of(n: nat) -> Seq<u8>
    decreases n,
{
    if n < 10 {
        seq![(0x30 + n) as u8]
    } else {
        dec_of(n / 10) + seq![(0x30 + n % 10) as u8]
    }
}

/// An encoded number: its decimal text and the terminator.
pub open spec fn enc_num(n: nat) -> Seq<u8> {
    dec_of(n) + seq![NL]
}

/// An encoded blob: its length, then its lowercase hex text and the
/// terminator.
pub open spec fn enc_blob(b: Seq<u8>) -> Seq<u8> {
    enc_num(b.len()) + hex_of(b) + seq![NL]
}

/// Whether a byte is an ASCII decimal digit.
pub open spec fn is_digit(c: u8) -> bool {
    0x30 <= c && c <= 0x39
}

/// The number a digit string stands for, most significant first.
pub open spec fn dec_val(ds: Seq<u8>) -> int
    decreases ds.len(),
{
    if ds.len() == 0 {
        0
    } else {
        dec_val(ds.drop_last()) * 10 + (ds.last() - 0x30)
    }
}

/// Ten to the `k`.
pub open spec fn pow10(k: nat) -> int
    decreases k,
{
    if k == 0 {
        1
    } else {
        10 * pow10((k - 1) as nat)
    }
}

/// Decimal text consists of at least one digit.
pub proof fn lemma_dec_of_digits(n: nat)
    ensures
        dec_of(n).len() >= 1,
        forall|i: int| 0 <= i < dec_of(n).len() ==> is_digit(#[trigger] dec_of(n)[i]),
    decreases n,
{
    if n >= 10 {
        lemma_dec_of_digits(n / 10);
        assert forall|i: int| 0 <= i < dec_of(n).len() implies is_digit(#[trigger] dec_of(n)[i]) by {
            if i < dec_of(n / 10).len() {
                assert(dec_of(n)[i] == dec_of(n / 10)[i]);
            }
        }
    }
}

/// Reading decimal text back gives the number it was written from.
pub proof fn lemma_dec_val_of(n: nat)
    ensures
        dec_val(dec_of(n)) == n,
    decreases n,
{
    if n < 10 {
        assert(dec_of(n).drop_last() =~= Seq::<u8>::empty());
        assert(dec_of(n).last() == (0x30 + n) as u8);
        assert((0x30 + n) as u8 == 0x30 + n);
        assert(dec_val(dec_of(n)) == dec_val(Seq::<u8>::empty()) * 10 + ((0x30 + n) - 0x30));
    } else {
        lemma_dec_val_of(n / 10);
        lemma_dec_of_digits(n / 10);
        assert(dec_of(n).drop_last() =~= dec_of(n / 10));
        assert(dec_of(n).last() == (0x30 + n % 10) as u8);
        assert((0x30 + n % 10) as u8 == 0x30 + n % 10);
        assert(dec_val(dec_of(n)) == (n / 10) * 10 + n % 10);
        vstd::arithmetic::div_mod::lemma_fundamental_div_mod(n as int, 10);
    }
}

/// A number below ten to the `k` takes at most `k` digits.
pub proof fn lemma_dec_of_len(n: nat, k: nat)
    requires
        k >= 1,
        n < pow10(k),
    ensures
        dec_of(n).len() <= k,
    decreases n,
{
    if n >= 10 {
        assert(pow10(k) == 10 * pow10((k - 1) as nat));
        assert(n / 10 < pow10((k - 1) as nat)) by (nonlinear_arith)
            requires
                n < 10 * pow10((k - 1) as nat),
                n >= 10,
        ;
        if k == 1 {
            assert(pow10(1) == 10);
            assert(false);
        }
        lemma_dec_of_len(n / 10, (k - 1) as nat);
    }
}

/// Appends the decimal text of `n`.
pub fn push_dec(out: &mut Vec<u8>, n: u64)
    ensures
        final(out)@ == old(out)@ + dec_of(n as nat),
    decreases n,
{
    if n < 10 {
        out.push((0x30 + n) as u8);
    } else {
        proof {
            assert(n / 10 < n) by (nonlinear_arith)
                requires
                    n >= 10,
            ;
        }
        push_dec(out, n / 10);
        out.push((0x30 + n % 10) as u8);
        assert(out@ =~= old(out)@ + dec_of(n as nat));
    }
}

/// Appends an encoded number.
pub fn push_num(out: &mut Vec<u8>, n: u64)
    ensures
        final(out)@ == old(out)@ + enc_num(n as nat),
{
    push_dec(out, n);
    out.push(NL);
    assert(out@ =~= old(out)@ + enc_num(n as nat));
}

/// The bytes at `pos` start with the encoding of `n`, followed by
/// `rest`.
pub open spec fn num_at(s: Seq<u8>, pos: int, n: u64, rest: Seq<u8>) -> bool {
    s.skip(pos) == enc_num(n as nat) + rest
}

/// Reads an encoded number. Wherever the input holds an encoded
/// number, the parse returns exactly it and stops right after its
/// terminator.
pub fn parse_num(s: &Vec<u8>, pos: usize) -> (r: Option<(u64, usize)>)
    requires
        pos <= s@.len(),
    ensures
        r matches Some(q) ==> pos < q.1 <= s@.len(),
        forall|n: u64, rest: Seq<u8>| #[trigger]
            num_at(s@, pos as int, n, rest) ==> r is Some && r.unwrap().0 == n && r.unwrap().1
                == pos + enc_num(n as nat).len(),
{
    let ghost pos0 = pos as int;
    let mut i: usize = pos;
    let mut acc: u128 = 0;
    proof {
        assert(s@.subrange(pos0, pos0) =~= Seq::<u8>::empty());
    }
    while i < s.len() && i - pos < 20 && 0x30 <= s[i] && s[i] <= 0x39
        invariant
            pos0 == pos,
            pos <= i <= s@.len(),
            i - pos <= 20,
            forall|k: int| pos0 <= k < i ==> is_digit(#[trigger] s@[k]),
            acc == dec_val(s@.subrange(pos0, i as int)),
            0 <= acc < pow10((i - pos) as nat),
        decreases s@.len() - i,
    {
        proof {
            assert(s@.subrange(pos0, i + 1).drop_last() =~= s@.subrange(pos0, i as int));
            assert(pow10(((i + 1) - pos) as nat) == 10 * pow10((i - pos) as nat));
            assert(pow10((i - pos) as nat) <= pow10(20)) by {
                lemma_pow10_mono((i - pos) as nat, 20);
            }
            reveal_with_fuel(pow10, 21);
        }
        acc = acc * 10 + (s[i] - 0x30) as u128;
        i = i + 1;
    }
    proof {
        lemma_parse_num_match(s@, pos0, i as int, acc as int);
    }
    if i == pos {
        return None;
    }
    if i < s.len() && 0x30 <= s[i] && s[i] <= 0x39 {
        return None;
    }
    if acc > 0xffff_ffff_ffff_ffff {
        return None;
    }
    if i == s.len() || s[i] != NL {
        return None;
    }
    Some((acc as u64, i + 1))
}

/// Ten to the `k` is at least one.
pub proof fn lemma_pow10_pos(k: nat)
    ensures
        pow10(k) >= 1,
    decreases k,
{
    if k != 0 {
        lemma_pow10_pos((k - 1) as nat);
    }
}

/// Ten to the `k` grows with `k`.
pub proof fn lemma_pow10_mono(a: nat, b: nat)
    requires
        a <= b,
    ensures
        1 <= pow10(a) <= pow10(b),
    decreases b,
{
    lemma_pow10_pos(a);
    if a < b {
        lemma_pow10_mono(a, (b - 1) as nat);
        assert(pow10(b) == 10 * pow10((b - 1) as nat));
    }
}

/// After a digit scan that stopped correctly, the scan agrees with
/// every encoded number the input may hold at `pos`.
proof fn lemma_parse_num_match(s: Seq<u8>, pos: int, i: int, acc: int)
    requires
        0 <= pos <= i <= s.len(),
        i - pos <= 20,
        forall|k: int| pos <= k < i ==> is_digit(#[trigger] s[k]),
        acc == dec_val(s.subrange(pos, i)),
        !(i < s.len() && i - pos < 20 && is_digit(s[i])),
    ensures
        forall|n: u64, rest: Seq<u8>| #[trigger]
            num_at(s, pos, n, rest) ==> {
                &&& dec_of(n as nat).len() >= 1
                &&& i == pos + dec_of(n as nat).len()
                &&& acc == n
                &&& i < s.len()
                &&& s[i] == NL
            },
{
    assert forall|n: u64, rest: Seq<u8>| #[trigger] num_at(s, pos, n, rest) implies {
        &&& dec_of(n as nat).len() >= 1
        &&& i == pos + dec_of(n as nat).len()
        &&& acc == n
        &&& i < s.len()
        &&& s[i] == NL
    } by {
        let d = dec_of(n as nat);
        lemma_dec_of_digits(n as nat);
        lemma_dec_val_of(n as nat);
        proof_dec_of_len_u64(n);
        let tail = s.skip(pos);
        assert(tail == enc_num(n as nat) + rest);
        assert(forall|k: int| 0 <= k < d.len() ==> tail[k] == d[k]);
        assert(tail[d.len() as int] == NL);
        assert(forall|k: int| pos <= k < s.len() ==> tail[k - pos] == s[k]);
        // the scan cannot stop inside the digit text
        if i < pos + d.len() {
            assert(is_digit(s[i]));
            assert(i - pos < 20);
            assert(false);
        }
        // nor can it pass the terminator
        if i > pos + d.len() {
            assert(is_digit(s[pos + d.len()]));
            assert(!is_digit(NL));
            assert(false);
        }
        assert(i == pos + d.len());
        assert(s.subrange(pos, i) =~= d);
    }
}

/// A 64-bit number takes at most twenty digits.
proof fn proof_dec_of_len_u64(n: u64)
    ensures
        dec_of(n as nat).len() <= 20,
{
    reveal_with_fuel(pow10, 21);
    lemma_dec_of_len(n as nat, 20);
}

/// Appends an encoded blob.
pub fn push_blob(out: &mut Vec<u8>, b: &Vec<u8>)
    ensures
        final(out)@ == old(out)@ + enc_blob(b@),
{
    push_num(out, b.len() as u64);
    let mut h = crate::hexcode::hex_encode(b.as_slice());
    out.append(&mut h);
    out.push(NL);
    assert(out@ =~= old(out)@ + enc_blob(b@));
}

} // verus!
