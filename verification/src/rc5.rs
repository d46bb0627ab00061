//! The RC5 core: key schedule and single-block encryption/decryption,
//! generic over the word width through the [`Word`] trait.
//!
//! Each executable function is pinned to a recursive specification of the
//! algorithm, and the block round trip (decrypt of encrypt is the identity)
//! is proved from the word-level algebra.

use vstd::prelude::*;

use crate::word::rotl;
use crate::word::rotr;
use crate::word::spec_rotl;
use crate::word::spec_rotr;
use crate::word::lemma_rot_roundtrip;
use crate::word::Word;

verus! {

/// Number of words needed to hold a key of `key_len` bytes:
/// `max(1, ceil(8 * key_len / w))`.
pub open spec fn key_word_count<W: Word>(key_len: nat) -> nat {
    let w = W::spec_bits();
    let tmp = (8 * key_len + w - 1) as int / w as int;
    if tmp < 1 {
        1
    } else {
        tmp as nat
    }
}

/// The key byte array folded into words, after the `k` highest byte indices
/// (`key.len() - k` up to `key.len() - 1`) have been folded, in decreasing
/// index order, into a table of `c` word slots that starts all zero.
pub open spec fn spec_fold_key<W: Word>(key: Seq<u8>, c: nat, k: nat) -> Seq<W>
    decreases k,
{
    if k == 0 {
        Seq::new(c, |s: int| W::spec_zero())
    } else {
        let prev = spec_fold_key::<W>(key, c, (k - 1) as nat);
        let i = key.len() - k;
        let slot = i / W::spec_bytes() as int;
        prev.update(slot, prev[slot].spec_push_byte(key[i]))
    }
}

/// Entry `i` of the seeded subkey table: `S[0] = P`, `S[i] = S[i-1] + Q`.
pub open spec fn spec_seed_entry<W: Word>(i: nat) -> W
    decreases i,
{
    if i == 0 {
        W::spec_p()
    } else {
        spec_seed_entry::<W>((i - 1) as nat).spec_wadd(W::spec_q())
    }
}

/// The seeded subkey table of length `t`, before mixing.
pub open spec fn spec_seed_table<W: Word>(t: nat) -> Seq<W> {
    Seq::new(t, |i: int| spec_seed_entry::<W>(i as nat))
}

/// State of the mixing pass after `n` steps: the subkey table, the key word
/// table, the two indices and the two running accumulators.
pub open spec fn spec_mix<W: Word>(s: Seq<W>, l: Seq<W>, t: nat, c: nat, n: nat) -> (
    Seq<W>,
    Seq<W>,
    nat,
    nat,
    W,
    W,
)
    decreases n,
{
    if n == 0 {
        (s, l, 0nat, 0nat, W::spec_zero(), W::spec_zero())
    } else {
        let m = spec_mix::<W>(s, l, t, c, (n - 1) as nat);
        let s0 = m.0;
        let l0 = m.1;
        let i = m.2;
        let j = m.3;
        let a = m.4;
        let b = m.5;
        let sa = spec_rotl(s0[i as int].spec_wadd(a.spec_wadd(b)), W::spec_from_u8(3));
        let s1 = s0.update(i as int, sa);
        let ab = sa.spec_wadd(b);
        let lb = spec_rotl(l0[j as int].spec_wadd(ab), ab);
        let l1 = l0.update(j as int, lb);
        (s1, l1, (i + 1) % t, (j + 1) % c, sa, lb)
    }
}

/// The expanded subkey table: a pure function of the key bytes, the round
/// count and the word width. Its length is `2 * (rounds + 1)`.
pub open spec fn spec_expand_key<W: Word>(key: Seq<u8>, rounds: nat) -> Seq<W> {
    let t = 2 * (rounds + 1);
    let c = key_word_count::<W>(key.len());
    let l = spec_fold_key::<W>(key, c, key.len());
    let s = spec_seed_table::<W>(t);
    let iters = 3 * (if t > c {
        t
    } else {
        c
    });
    spec_mix::<W>(s, l, t, c, iters).0
}

/// A positive round count, and machine limits under which the key
/// schedule's intermediate sizes (`2 * (rounds + 1)` table entries,
/// `3 * max(t, c)` mixing steps, `8 * key_len` key bits) all fit in a
/// `usize`.
pub open spec fn schedule_fits(key_len: nat, rounds: nat) -> bool {
    &&& 1 <= rounds
    &&& 6 * rounds + 6 <= usize::MAX
    &&& 8 * key_len + 256 <= usize::MAX
}

/// State `(A, B)` after the first `n` encryption rounds.
pub open spec fn spec_enc_rounds<W: Word>(a: W, b: W, s: Seq<W>, n: nat) -> (W, W)
    decreases n,
{
    if n == 0 {
        (a, b)
    } else {
        let p = spec_enc_rounds::<W>(a, b, s, (n - 1) as nat);
        let a1 = spec_rotl(p.0.spec_xor(p.1), p.1).spec_wadd(s[2 * n as int]);
        let b1 = spec_rotl(p.1.spec_xor(a1), a1).spec_wadd(s[2 * n as int + 1]);
        (a1, b1)
    }
}

/// One-block encryption: whitening with `S[0]`, `S[1]`, then the rounds.
pub open spec fn spec_encrypt_block<W: Word>(blk: (W, W), s: Seq<W>, rounds: nat) -> (W, W) {
    spec_enc_rounds::<W>(blk.0.spec_wadd(s[0]), blk.1.spec_wadd(s[1]), s, rounds)
}

/// State `(A, B)` after undoing rounds `n` down to `1`.
pub open spec fn spec_dec_rounds<W: Word>(a: W, b: W, s: Seq<W>, n: nat) -> (W, W)
    decreases n,
{
    if n == 0 {
        (a, b)
    } else {
        let b1 = spec_rotr(b.spec_wsub(s[2 * n as int + 1]), a).spec_xor(a);
        let a1 = spec_rotr(a.spec_wsub(s[2 * n as int]), b1).spec_xor(b1);
        spec_dec_rounds::<W>(a1, b1, s, (n - 1) as nat)
    }
}

/// One-block decryption: undo the rounds in reverse order, then the
/// whitening.
pub open spec fn spec_decrypt_block<W: Word>(blk: (W, W), s: Seq<W>, rounds: nat) -> (W, W) {
    let p = spec_dec_rounds::<W>(blk.0, blk.1, s, rounds);
    (p.0.spec_wsub(s[0]), p.1.spec_wsub(s[1]))
}

/// A fresh table of `n` zero words.
fn zero_words<W: Word>(n: usize) -> (v: Vec<W>)
    ensures
        v@ == Seq::new(n as nat, |i: int| W::spec_zero()),
{
    let mut v: Vec<W> = Vec::new();
    let mut k: usize = 0;
    while k < n
        invariant
            k <= n,
            v@ == Seq::new(k as nat, |i: int| W::spec_zero()),
        decreases n - k,
    {
        v.push(W::zero());
        k = k + 1;
        proof {
            assert(v@ =~= Seq::new(k as nat, |i: int| W::spec_zero()));
        }
    }
    v
}

/// The slot a key byte lands in lies below the word count of the key table.
proof fn lemma_key_slot_bound(i: int, b: int, w: int)
    requires
        8 <= w,
        w % 8 == 0,
        0 <= i < b,
    ensures
        i / (w / 8) < (8 * b + w - 1) / w,
{
    let wb = w / 8;
    assert(w == 8 * wb);
    let q = (b - 1) / wb;
    let r = (b - 1) % wb;
    vstd::arithmetic::div_mod::lemma_fundamental_div_mod(b - 1, wb);
    vstd::arithmetic::div_mod::lemma_mod_division_less_than_divisor(b - 1, wb);
    vstd::arithmetic::div_mod::lemma_div_is_ordered(i, b - 1, wb);
    assert(8 * b + 8 * wb - 1 == (q + 1) * (8 * wb) + (8 * r + 7)) by (nonlinear_arith)
        requires
            b - 1 == wb * q + r,
    ;
    vstd::arithmetic::div_mod::lemma_fundamental_div_mod_converse(
        8 * b + 8 * wb - 1,
        8 * wb,
        q + 1,
        8 * r + 7,
    );
}

/// The word count of the key table is at most `key_len + 16`.
proof fn lemma_word_count_small(b: int, w: int)
    requires
        8 <= w <= 128,
        0 <= b,
    ensures
        (8 * b + w - 1) / w <= b + 16,
{
    vstd::arithmetic::div_mod::lemma_div_is_ordered_by_denominator(8 * b + w - 1, 8, w);
    assert((8 * b + w - 1) / 8 <= b + 16);
}

/// Derive the expanded subkey table from the raw key bytes and the round
/// count: fold the key into words, seed the table from P and Q, then run
/// `3 * max(t, c)` mixing steps. Deterministic: the result is exactly
/// `spec_expand_key` of the inputs.
pub fn expand_key<W: Word>(key: &[u8], rounds: usize) -> (s: Vec<W>)
    requires
        schedule_fits(key@.len(), rounds as nat),
    ensures
        s@ == spec_expand_key::<W>(key@, rounds as nat),
        s@.len() == 2 * (rounds + 1),
{
    proof {
        W::lemma_width();
    }
    let word_bytes: usize = W::bytes();
    let w: usize = word_bytes * 8;
    let b: usize = key.len();
    let t: usize = 2 * (rounds + 1);

    let tmp: usize = (8 * b + (w - 1)) / w;
    let c: usize = if tmp < 1 {
        1
    } else {
        tmp
    };
    proof {
        assert(c as nat == key_word_count::<W>(key@.len()));
        lemma_word_count_small(b as int, w as int);
    }

    let mut key_l: Vec<W> = zero_words(c);
    let mut k: usize = 0;
    while k < b
        invariant
            schedule_fits(key@.len(), rounds as nat),
            k <= b,
            b == key@.len(),
            word_bytes as nat == W::spec_bytes(),
            w == 8 * word_bytes,
            8 <= w <= 128,
            c as nat == key_word_count::<W>(key@.len()),
            c >= 1,
            c as int >= (8 * b + w - 1) as int / w as int,
            key_l@.len() == c,
            key_l@ == spec_fold_key::<W>(key@, c as nat, k as nat),
        decreases b - k,
    {
        let i: usize = b - 1 - k;
        let ix: usize = i / word_bytes;
        proof {
            lemma_key_slot_bound(i as int, b as int, w as int);
            assert(ix < c);
        }
        let cur: W = key_l[ix];
        key_l.set(ix, cur.push_byte(key[i]));
        k = k + 1;
        proof {
            assert(key_l@ == spec_fold_key::<W>(key@, c as nat, k as nat));
        }
    }
    proof {
        assert(key_l@ == spec_fold_key::<W>(key@, c as nat, key@.len()));
    }

    let mut key_s: Vec<W> = zero_words(t);
    key_s.set(0, W::p());
    let mut i: usize = 1;
    while i < t
        invariant
            1 <= i <= t,
            key_s@.len() == t,
            forall|m: int| 0 <= m < i ==> key_s@[m] == spec_seed_entry::<W>(m as nat),
        decreases t - i,
    {
        let prev: W = key_s[i - 1];
        key_s.set(i, prev.wadd(W::q()));
        i = i + 1;
    }
    proof {
        assert(key_s@ =~= spec_seed_table::<W>(t as nat));
    }

    let ghost s_start = key_s@;
    let ghost l_start = key_l@;

    let iters: usize = 3 * (if t > c {
        t
    } else {
        c
    });
    let mut mi: usize = 0;
    let mut mj: usize = 0;
    let mut a: W = W::zero();
    let mut bb: W = W::zero();
    let mut n: usize = 0;
    while n < iters
        invariant
            n <= iters,
            t >= 2,
            c >= 1,
            key_s@.len() == t,
            key_l@.len() == c,
            mi < t,
            mj < c,
            ({
                let m = spec_mix::<W>(s_start, l_start, t as nat, c as nat, n as nat);
                key_s@ == m.0 && key_l@ == m.1 && mi as nat == m.2 && mj as nat == m.3 && a == m.4
                    && bb == m.5
            }),
        decreases iters - n,
    {
        let sa: W = rotl(key_s[mi].wadd(a.wadd(bb)), W::from_u8(3));
        key_s.set(mi, sa);
        a = sa;
        let ab: W = a.wadd(bb);
        let lb: W = rotl(key_l[mj].wadd(ab), ab);
        key_l.set(mj, lb);
        bb = lb;
        mi = (mi + 1) % t;
        mj = (mj + 1) % c;
        n = n + 1;
        proof {
            assert(({
                let m = spec_mix::<W>(s_start, l_start, t as nat, c as nat, n as nat);
                key_s@ == m.0 && key_l@ == m.1 && mi as nat == m.2 && mj as nat == m.3 && a == m.4
                    && bb == m.5
            }));
        }
    }
    key_s
}

/// Encrypt one two-word block with the given key and round count.
pub fn encrypt<W: Word>(pt: [W; 2], key: &[u8], rounds: usize) -> (ct: [W; 2])
    requires
        schedule_fits(key@.len(), rounds as nat),
    ensures
        (ct@[0], ct@[1]) == spec_encrypt_block::<W>(
            (pt@[0], pt@[1]),
            spec_expand_key::<W>(key@, rounds as nat),
            rounds as nat,
        ),
{
    let s: Vec<W> = expand_key::<W>(key, rounds);
    let mut a: W = pt[0];
    let mut b: W = pt[1];

    a = a.wadd(s[0]);
    b = b.wadd(s[1]);
    let ghost a0 = a;
    let ghost b0 = b;
    let mut i: usize = 1;
    while i <= rounds
        invariant
            1 <= i <= rounds + 1,
            6 * rounds + 6 <= usize::MAX,
            s@.len() == 2 * (rounds + 1),
            (a, b) == spec_enc_rounds::<W>(a0, b0, s@, (i - 1) as nat),
        decreases rounds + 1 - i,
    {
        a = rotl(a.xor(b), b).wadd(s[2 * i]);
        b = rotl(b.xor(a), a).wadd(s[2 * i + 1]);
        i = i + 1;
        proof {
            assert((a, b) == spec_enc_rounds::<W>(a0, b0, s@, (i - 1) as nat));
        }
    }
    [a, b]
}

/// Decrypt one two-word block with the given key and round count: the exact
/// algebraic inverse of [`encrypt`], applied in reverse round order.
pub fn decrypt<W: Word>(ct: [W; 2], key: &[u8], rounds: usize) -> (pt: [W; 2])
    requires
        schedule_fits(key@.len(), rounds as nat),
    ensures
        (pt@[0], pt@[1]) == spec_decrypt_block::<W>(
            (ct@[0], ct@[1]),
            spec_expand_key::<W>(key@, rounds as nat),
            rounds as nat,
        ),
{
    let s: Vec<W> = expand_key::<W>(key, rounds);
    let mut a: W = ct[0];
    let mut b: W = ct[1];

    let mut i: usize = rounds;
    while i >= 1
        invariant
            i <= rounds,
            6 * rounds + 6 <= usize::MAX,
            s@.len() == 2 * (rounds + 1),
            spec_dec_rounds::<W>(a, b, s@, i as nat) == spec_dec_rounds::<W>(
                ct@[0],
                ct@[1],
                s@,
                rounds as nat,
            ),
        decreases i,
    {
        b = rotr(b.wsub(s[2 * i + 1]), a).xor(a);
        a = rotr(a.wsub(s[2 * i]), b).xor(b);
        i = i - 1;
    }
    [a.wsub(s[0]), b.wsub(s[1])]
}

/// Undoing `n` rounds after performing `n` rounds returns the input state,
/// whatever the subkey table holds.
proof fn lemma_rounds_cancel<W: Word>(a: W, b: W, s: Seq<W>, n: nat)
    ensures
        spec_dec_rounds::<W>(
            spec_enc_rounds::<W>(a, b, s, n).0,
            spec_enc_rounds::<W>(a, b, s, n).1,
            s,
            n,
        ) == (a, b),
    decreases n,
{
    if n > 0 {
        let p = spec_enc_rounds::<W>(a, b, s, (n - 1) as nat);
        let a0 = p.0;
        let b0 = p.1;
        let a1 = spec_rotl(a0.spec_xor(b0), b0).spec_wadd(s[2 * n as int]);
        let b1 = spec_rotl(b0.spec_xor(a1), a1).spec_wadd(s[2 * n as int + 1]);
        W::lemma_wadd_wsub(spec_rotl(b0.spec_xor(a1), a1), s[2 * n as int + 1]);
        lemma_rot_roundtrip::<W>(b0.spec_xor(a1), a1);
        W::lemma_xor_twice(b0, a1);
        assert(spec_rotr(b1.spec_wsub(s[2 * n as int + 1]), a1).spec_xor(a1) == b0);
        W::lemma_wadd_wsub(spec_rotl(a0.spec_xor(b0), b0), s[2 * n as int]);
        lemma_rot_roundtrip::<W>(a0.spec_xor(b0), b0);
        W::lemma_xor_twice(a0, b0);
        assert(spec_rotr(a1.spec_wsub(s[2 * n as int]), b0).spec_xor(b0) == a0);
        lemma_rounds_cancel::<W>(a, b, s, (n - 1) as nat);
    }
}

/// Block round trip: decrypting the encryption of any two-word block under
/// any subkey table and round count returns the block.
pub proof fn lemma_block_roundtrip<W: Word>(blk: (W, W), s: Seq<W>, rounds: nat)
    ensures
        spec_decrypt_block::<W>(spec_encrypt_block::<W>(blk, s, rounds), s, rounds) == blk,
{
    lemma_rounds_cancel::<W>(blk.0.spec_wadd(s[0]), blk.1.spec_wadd(s[1]), s, rounds);
    W::lemma_wadd_wsub(blk.0, s[0]);
    W::lemma_wadd_wsub(blk.1, s[1]);
}

/// Block round trip stated over the key: for every word pair, key and round
/// count, decrypting the encryption returns the pair.
pub proof fn lemma_encrypt_then_decrypt<W: Word>(blk: (W, W), key: Seq<u8>, rounds: nat)
    ensures
        spec_decrypt_block::<W>(
            spec_encrypt_block::<W>(blk, spec_expand_key::<W>(key, rounds), rounds),
            spec_expand_key::<W>(key, rounds),
            rounds,
        ) == blk,
{
    lemma_block_roundtrip::<W>(blk, spec_expand_key::<W>(key, rounds), rounds);
}

} // verus!
