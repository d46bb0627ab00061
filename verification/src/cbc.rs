//! Cipher-block-chaining mode over the 32-bit RC5 block cipher: zero-pads
//! the input to whole blocks, decodes big-endian words, and chains blocks
//! with XOR against the previous ciphertext block, the first block against
//! the implicit all-zero chaining value.

use vstd::prelude::*;

use crate::rc5::lemma_block_roundtrip;
use crate::rc5::schedule_fits;
use crate::rc5::spec_decrypt_block;
use crate::rc5::spec_encrypt_block;
use crate::rc5::spec_expand_key;
use crate::rc5::{decrypt, encrypt};

verus! {

/// Why a CBC operation was refused.
#[derive(Clone, Copy, Debug, PartialEq, Eq)]
pub enum CipherError {
    /// Ciphertext handed to decryption whose length is not a multiple of
    /// the block size.
    MalformedLength,
}

/// The four bytes of a word, most significant first.
pub open spec fn spec_word_be(w: u32) -> Seq<u8> {
    seq![(w >> 24) as u8, (w >> 16) as u8, (w >> 8) as u8, w as u8]
}

/// The word four big-endian bytes stand for.
pub open spec fn spec_be_word(s: Seq<u8>) -> u32 {
    ((s[0] as u32) << 24) | ((s[1] as u32) << 16) | ((s[2] as u32) << 8) | (s[3] as u32)
}

/// Length after zero-padding to a whole number of eight-byte blocks.
pub open spec fn spec_pad_len(n: nat) -> nat {
    ((n + 7) / 8) * 8
}

/// The input zero-padded on the right to a whole number of blocks.
pub open spec fn spec_pad(pt: Seq<u8>) -> Seq<u8> {
    pt + Seq::new((spec_pad_len(pt.len()) - pt.len()) as nat, |i: int| 0u8)
}

/// Ciphertext bytes and chaining block after encrypting the first `k`
/// blocks of `pt` under subkey table `s`. The chaining value starts as the
/// zero block; each plaintext block is XORed with the previous ciphertext
/// block before encryption.
pub open spec fn spec_enc_upto(pt: Seq<u8>, s: Seq<u32>, rounds: nat, k: nat) -> (
    Seq<u8>,
    (u32, u32),
)
    decreases k,
{
    if k == 0 {
        (Seq::empty(), (0u32, 0u32))
    } else {
        let e = spec_enc_upto(pt, s, rounds, (k - 1) as nat);
        let prev = e.1;
        let base = 8 * ((k - 1) as int);
        let a = spec_be_word(pt.subrange(base, base + 4));
        let b = spec_be_word(pt.subrange(base + 4, base + 8));
        let x = (a ^ prev.0, b ^ prev.1);
        let ct = spec_encrypt_block::<u32>(x, s, rounds);
        (e.0 + spec_word_be(ct.0) + spec_word_be(ct.1), ct)
    }
}

/// Plaintext bytes and previous ciphertext block after decrypting the first
/// `k` blocks of `ct`: each decrypted block is XORed with the previous
/// ciphertext block, the first with the zero block.
pub open spec fn spec_dec_upto(ct: Seq<u8>, s: Seq<u32>, rounds: nat, k: nat) -> (
    Seq<u8>,
    (u32, u32),
)
    decreases k,
{
    if k == 0 {
        (Seq::empty(), (0u32, 0u32))
    } else {
        let d = spec_dec_upto(ct, s, rounds, (k - 1) as nat);
        let prev = d.1;
        let base = 8 * ((k - 1) as int);
        let ca = spec_be_word(ct.subrange(base, base + 4));
        let cb = spec_be_word(ct.subrange(base + 4, base + 8));
        let p = spec_decrypt_block::<u32>((ca, cb), s, rounds);
        let pa = p.0 ^ prev.0;
        let pb = p.1 ^ prev.1;
        (d.0 + spec_word_be(pa) + spec_word_be(pb), (ca, cb))
    }
}

/// CBC encryption of a whole byte buffer.
pub open spec fn spec_encrypt_cbc(pt: Seq<u8>, key: Seq<u8>, rounds: nat) -> Seq<u8> {
    let padded = spec_pad(pt);
    spec_enc_upto(padded, spec_expand_key::<u32>(key, rounds), rounds, padded.len() / 8).0
}

/// CBC decryption of a whole byte buffer whose length is a multiple of the
/// block size.
pub open spec fn spec_decrypt_cbc(ct: Seq<u8>, key: Seq<u8>, rounds: nat) -> Seq<u8> {
    spec_dec_upto(ct, spec_expand_key::<u32>(key, rounds), rounds, ct.len() / 8).0
}

/// Encoding a word big-endian and reading it back returns the word.
pub proof fn lemma_be_word_roundtrip(w: u32)
    ensures
        spec_be_word(spec_word_be(w)) == w,
{
    let b0 = (w >> 24) as u8;
    let b1 = (w >> 16) as u8;
    let b2 = (w >> 8) as u8;
    let b3 = w as u8;
    assert((((b0 as u32) << 24) | ((b1 as u32) << 16) | ((b2 as u32) << 8) | (b3 as u32)) == w)
        by (bit_vector)
        requires
            b0 == (w >> 24) as u8,
            b1 == (w >> 16) as u8,
            b2 == (w >> 8) as u8,
            b3 == w as u8,
    ;
}

/// Reading four bytes as a word and encoding the word returns the bytes.
pub proof fn lemma_word_be_roundtrip(s: Seq<u8>)
    requires
        s.len() == 4,
    ensures
        spec_word_be(spec_be_word(s)) == s,
{
    let b0 = s[0];
    let b1 = s[1];
    let b2 = s[2];
    let b3 = s[3];
    let w = spec_be_word(s);
    assert((w >> 24) as u8 == b0 && (w >> 16) as u8 == b1 && (w >> 8) as u8 == b2 && w as u8 == b3)
        by (bit_vector)
        requires
            w == (((b0 as u32) << 24) | ((b1 as u32) << 16) | ((b2 as u32) << 8) | (b3 as u32)),
    ;
    assert(spec_word_be(w) =~= s);
}

/// XOR with the same word twice returns the input.
proof fn lemma_xor_cancel(x: u32, y: u32)
    ensures
        (x ^ y) ^ y == x,
{
    assert((x ^ y) ^ y == x) by (bit_vector);
}

/// The padded length is the nearest multiple of eight at or above `n`.
proof fn lemma_pad_len(n: nat)
    ensures
        n <= spec_pad_len(n) < n + 8,
        spec_pad_len(n) % 8 == 0,
        spec_pad_len(n) == 8 * ((n + 7) / 8),
{
    let q = (n + 7) as int / 8;
    vstd::arithmetic::div_mod::lemma_fundamental_div_mod((n + 7) as int, 8);
    vstd::arithmetic::div_mod::lemma_mod_division_less_than_divisor((n + 7) as int, 8);
    vstd::arithmetic::div_mod::lemma_fundamental_div_mod_converse(q * 8, 8, q, 0);
}

/// A multiple of eight within eight bytes above `n` is the padded length.
proof fn lemma_pad_len_unique(n: nat, m: nat)
    requires
        m % 8 == 0,
        n <= m < n + 8,
    ensures
        m == spec_pad_len(n),
{
    lemma_pad_len(n);
    vstd::arithmetic::div_mod::lemma_fundamental_div_mod(m as int, 8);
    let mq = m as int / 8;
    vstd::arithmetic::div_mod::lemma_fundamental_div_mod_converse(
        (n + 7) as int,
        8,
        mq,
        n + 7 - m,
    );
}

/// Read the big-endian word at byte position `pos`.
fn be_word_at(buf: &Vec<u8>, pos: usize) -> (r: u32)
    requires
        pos + 4 <= buf@.len(),
    ensures
        r == spec_be_word(buf@.subrange(pos as int, pos as int + 4)),
{
    let n: usize = buf.len();
    let b0: u8 = buf[pos];
    let b1: u8 = buf[pos + 1];
    let b2: u8 = buf[pos + 2];
    let b3: u8 = buf[pos + 3];
    proof {
        assert(pos + 4 <= n);
    }
    ((b0 as u32) << 24u32) | ((b1 as u32) << 16u32) | ((b2 as u32) << 8u32) | (b3 as u32)
}

/// Append the four big-endian bytes of `w`.
fn push_word_be(out: &mut Vec<u8>, w: u32)
    ensures
        final(out)@ == old(out)@ + spec_word_be(w),
{
    out.push((w >> 24u32) as u8);
    out.push((w >> 16u32) as u8);
    out.push((w >> 8u32) as u8);
    out.push(w as u8);
    proof {
        assert(out@ =~= old(out)@ + spec_word_be(w));
    }
}

/// Encrypt an arbitrary byte buffer in CBC mode: zero-pad to whole blocks,
/// then chain the block cipher across blocks. The output length is the
/// padded input length; the padding length is not recorded anywhere.
pub fn encrypt_cbc(plaintext: &Vec<u8>, key: &Vec<u8>, rounds: usize) -> (out: Vec<u8>)
    requires
        schedule_fits(key@.len(), rounds as nat),
        plaintext@.len() + 8 <= usize::MAX,
    ensures
        out@ == spec_encrypt_cbc(plaintext@, key@, rounds as nat),
        out@.len() == spec_pad_len(plaintext@.len()),
        out@.len() % 8 == 0,
{
    proof {
        lemma_pad_len(plaintext@.len());
    }
    let mut padded: Vec<u8> = Vec::new();
    let mut p: usize = 0;
    while p < plaintext.len()
        invariant
            p <= plaintext@.len(),
            padded@ == plaintext@.subrange(0, p as int),
        decreases plaintext@.len() - p,
    {
        padded.push(plaintext[p]);
        p = p + 1;
        proof {
            assert(padded@ =~= plaintext@.subrange(0, p as int));
        }
    }
    proof {
        assert(padded@ =~= plaintext@);
    }
    while padded.len() % 8 != 0
        invariant
            plaintext@.len() <= padded@.len() <= spec_pad_len(plaintext@.len()),
            padded@ == plaintext@ + Seq::new(
                (padded@.len() - plaintext@.len()) as nat,
                |i: int| 0u8,
            ),
        decreases spec_pad_len(plaintext@.len()) - padded@.len(),
    {
        proof {
            lemma_pad_len(plaintext@.len());
        }
        padded.push(0u8);
        proof {
            assert(padded@ =~= plaintext@ + Seq::new(
                (padded@.len() - plaintext@.len()) as nat,
                |i: int| 0u8,
            ));
        }
    }
    proof {
        lemma_pad_len(plaintext@.len());
        lemma_pad_len_unique(plaintext@.len(), padded@.len() as nat);
        assert(padded@ =~= spec_pad(plaintext@));
    }

    let ghost sched = spec_expand_key::<u32>(key@, rounds as nat);
    let iters: usize = padded.len() / 8;
    proof {
        vstd::arithmetic::div_mod::lemma_fundamental_div_mod(padded@.len() as int, 8);
    }
    let mut out: Vec<u8> = Vec::new();
    let mut ca: u32 = 0;
    let mut cb: u32 = 0;
    let mut blk: usize = 0;
    while blk < iters
        invariant
            schedule_fits(key@.len(), rounds as nat),
            blk <= iters,
            padded@.len() == 8 * iters,
            padded@.len() <= usize::MAX,
            padded@ == spec_pad(plaintext@),
            ({
                let e = spec_enc_upto(padded@, sched, rounds as nat, blk as nat);
                let prev = e.1;
                out@ == e.0 && ca == prev.0 && cb == prev.1
            }),
            sched == spec_expand_key::<u32>(key@, rounds as nat),
        decreases iters - blk,
    {
        let a: u32 = be_word_at(&padded, 8 * blk);
        let b: u32 = be_word_at(&padded, 8 * blk + 4);
        let xa: u32 = a ^ ca;
        let xb: u32 = b ^ cb;
        let ct: [u32; 2] = encrypt::<u32>([xa, xb], key.as_slice(), rounds);
        ca = ct[0];
        cb = ct[1];
        push_word_be(&mut out, ca);
        push_word_be(&mut out, cb);
        blk = blk + 1;
        proof {
            assert(({
                let e = spec_enc_upto(padded@, sched, rounds as nat, blk as nat);
                let prev = e.1;
                out@ == e.0 && ca == prev.0 && cb == prev.1
            }));
        }
    }
    proof {
        assert(out@ == spec_encrypt_cbc(plaintext@, key@, rounds as nat));
        lemma_enc_upto_len(padded@, sched, rounds as nat, iters as nat);
    }
    out
}

/// Decrypt a CBC buffer. Fails with [`CipherError::MalformedLength`], and
/// only then, when the input length is not a multiple of the block size;
/// otherwise returns the full plaintext, trailing zero padding included.
pub fn decrypt_cbc(ciphertext: &Vec<u8>, key: &Vec<u8>, rounds: usize) -> (r: Result<
    Vec<u8>,
    CipherError,
>)
    requires
        schedule_fits(key@.len(), rounds as nat),
    ensures
        ciphertext@.len() % 8 == 0 <==> r is Ok,
        (r matches Ok(pt) ==> pt@ == spec_decrypt_cbc(ciphertext@, key@, rounds as nat)
            && pt@.len() == ciphertext@.len()),
        (r matches Err(e) ==> e == CipherError::MalformedLength),
{
    if ciphertext.len() % 8 != 0 {
        return Err(CipherError::MalformedLength);
    }
    let ghost sched = spec_expand_key::<u32>(key@, rounds as nat);
    let iters: usize = ciphertext.len() / 8;
    proof {
        vstd::arithmetic::div_mod::lemma_fundamental_div_mod(ciphertext@.len() as int, 8);
    }
    let mut out: Vec<u8> = Vec::new();
    let mut ca: u32 = 0;
    let mut cb: u32 = 0;
    let mut blk: usize = 0;
    while blk < iters
        invariant
            schedule_fits(key@.len(), rounds as nat),
            blk <= iters,
            ciphertext@.len() == 8 * iters,
            ciphertext@.len() <= usize::MAX,
            ({
                let d = spec_dec_upto(ciphertext@, sched, rounds as nat, blk as nat);
                let prev = d.1;
                out@ == d.0 && ca == prev.0 && cb == prev.1
            }),
            sched == spec_expand_key::<u32>(key@, rounds as nat),
        decreases iters - blk,
    {
        let a: u32 = be_word_at(ciphertext, 8 * blk);
        let b: u32 = be_word_at(ciphertext, 8 * blk + 4);
        let p: [u32; 2] = decrypt::<u32>([a, b], key.as_slice(), rounds);
        let pa: u32 = p[0] ^ ca;
        let pb: u32 = p[1] ^ cb;
        ca = a;
        cb = b;
        push_word_be(&mut out, pa);
        push_word_be(&mut out, pb);
        blk = blk + 1;
        proof {
            assert(({
                let d = spec_dec_upto(ciphertext@, sched, rounds as nat, blk as nat);
                let prev = d.1;
                out@ == d.0 && ca == prev.0 && cb == prev.1
            }));
        }
    }
    proof {
        lemma_dec_upto_len(ciphertext@, sched, rounds as nat, iters as nat);
    }
    Ok(out)
}

/// The ciphertext of `k` blocks is `8 * k` bytes.
proof fn lemma_enc_upto_len(pt: Seq<u8>, s: Seq<u32>, rounds: nat, k: nat)
    ensures
        spec_enc_upto(pt, s, rounds, k).0.len() == 8 * k,
    decreases k,
{
    if k > 0 {
        lemma_enc_upto_len(pt, s, rounds, (k - 1) as nat);
    }
}

/// The plaintext of `k` blocks is `8 * k` bytes.
proof fn lemma_dec_upto_len(ct: Seq<u8>, s: Seq<u32>, rounds: nat, k: nat)
    ensures
        spec_dec_upto(ct, s, rounds, k).0.len() == 8 * k,
    decreases k,
{
    if k > 0 {
        lemma_dec_upto_len(ct, s, rounds, (k - 1) as nat);
    }
}

/// Encrypting more blocks only appends: the first `k` blocks of ciphertext
/// do not change.
proof fn lemma_enc_upto_prefix(pt: Seq<u8>, s: Seq<u32>, rounds: nat, k: nat, n: nat)
    requires
        k <= n,
    ensures
        spec_enc_upto(pt, s, rounds, n).0.subrange(0, 8 * k as int) == spec_enc_upto(
            pt,
            s,
            rounds,
            k,
        ).0,
    decreases n,
{
    lemma_enc_upto_len(pt, s, rounds, n);
    lemma_enc_upto_len(pt, s, rounds, k);
    if k == n {
        assert(spec_enc_upto(pt, s, rounds, n).0.subrange(0, 8 * k as int) =~= spec_enc_upto(
            pt,
            s,
            rounds,
            k,
        ).0);
    } else {
        lemma_enc_upto_prefix(pt, s, rounds, k, (n - 1) as nat);
        lemma_enc_upto_len(pt, s, rounds, (n - 1) as nat);
        assert(spec_enc_upto(pt, s, rounds, n).0.subrange(0, 8 * k as int) =~= spec_enc_upto(
            pt,
            s,
            rounds,
            (n - 1) as nat,
        ).0.subrange(0, 8 * k as int));
    }
}

/// Decrypting the first `k` blocks of the encryption of `pt` returns the
/// first `k` blocks of `pt`, and the chaining values agree.
proof fn lemma_dec_undoes_enc(pt: Seq<u8>, s: Seq<u32>, rounds: nat, n: nat, k: nat)
    requires
        pt.len() == 8 * n,
        k <= n,
    ensures
        ({
            let e = spec_enc_upto(pt, s, rounds, n).0;
            let d = spec_dec_upto(e, s, rounds, k);
            d.0 == pt.subrange(0, 8 * k as int) && d.1 == spec_enc_upto(pt, s, rounds, k).1
        }),
    decreases k,
{
    let e_full = spec_enc_upto(pt, s, rounds, n).0;
    lemma_enc_upto_len(pt, s, rounds, n);
    if k == 0 {
        assert(spec_dec_upto(e_full, s, rounds, 0).0 =~= pt.subrange(0, 0));
    } else {
        lemma_dec_undoes_enc(pt, s, rounds, n, (k - 1) as nat);
        lemma_enc_upto_len(pt, s, rounds, k);
        lemma_enc_upto_len(pt, s, rounds, (k - 1) as nat);
        lemma_enc_upto_prefix(pt, s, rounds, k, n);

        let ek = spec_enc_upto(pt, s, rounds, k);
        let ekm1 = spec_enc_upto(pt, s, rounds, (k - 1) as nat);
        let eprev = ekm1.1;
        let base = 8 * ((k - 1) as int);
        let a = spec_be_word(pt.subrange(base, base + 4));
        let b = spec_be_word(pt.subrange(base + 4, base + 8));
        let x = (a ^ eprev.0, b ^ eprev.1);
        let ct = spec_encrypt_block::<u32>(x, s, rounds);

        let pref = e_full.subrange(0, 8 * k as int);
        assert(pref == ekm1.0 + spec_word_be(ct.0) + spec_word_be(ct.1));
        assert(e_full.subrange(base, base + 4) =~= pref.subrange(base, base + 4));
        assert(pref.subrange(base, base + 4) =~= spec_word_be(ct.0));
        assert(e_full.subrange(base + 4, base + 8) =~= pref.subrange(base + 4, base + 8));
        assert(pref.subrange(base + 4, base + 8) =~= spec_word_be(ct.1));
        lemma_be_word_roundtrip(ct.0);
        lemma_be_word_roundtrip(ct.1);

        let d = spec_dec_upto(e_full, s, rounds, k);
        let dm1 = spec_dec_upto(e_full, s, rounds, (k - 1) as nat);
        lemma_block_roundtrip::<u32>(x, s, rounds);
        lemma_xor_cancel(a, eprev.0);
        lemma_xor_cancel(b, eprev.1);
        lemma_word_be_roundtrip(pt.subrange(base, base + 4));
        lemma_word_be_roundtrip(pt.subrange(base + 4, base + 8));
        assert(d.0 =~= pt.subrange(0, 8 * k as int));
    }
}

/// CBC round trip: decrypting the encryption of any byte buffer returns the
/// buffer zero-padded to a whole number of blocks — the buffer itself when
/// its length is already a multiple of the block size.
pub proof fn lemma_cbc_roundtrip(pt: Seq<u8>, key: Seq<u8>, rounds: nat)
    ensures
        spec_decrypt_cbc(spec_encrypt_cbc(pt, key, rounds), key, rounds) == spec_pad(pt),
        spec_encrypt_cbc(pt, key, rounds).len() == spec_pad(pt).len(),
        spec_encrypt_cbc(pt, key, rounds).len() % 8 == 0,
        pt.len() % 8 == 0 ==> spec_pad(pt) == pt,
{
    let padded = spec_pad(pt);
    lemma_pad_len(pt.len());
    if pt.len() % 8 == 0 {
        lemma_pad_len_unique(pt.len(), pt.len());
        assert(spec_pad(pt) =~= pt);
    }
    let q = (pt.len() + 7) / 8;
    vstd::arithmetic::div_mod::lemma_fundamental_div_mod_converse(8 * q as int, 8, q as int, 0);
    let n = padded.len() / 8;
    assert(n == q);
    let s = spec_expand_key::<u32>(key, rounds);
    lemma_enc_upto_len(padded, s, rounds, n);
    let e = spec_enc_upto(padded, s, rounds, n).0;
    vstd::arithmetic::div_mod::lemma_fundamental_div_mod_converse(8 * n as int, 8, n as int, 0);
    assert(e.len() / 8 == n);
    lemma_dec_undoes_enc(padded, s, rounds, n, n);
    assert(spec_dec_upto(e, s, rounds, n).0 =~= padded);
}

} // verus!
