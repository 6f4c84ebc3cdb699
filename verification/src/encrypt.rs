//! Encryption and decryption: a 128-bit block cipher in ECB mode with
//! PKCS#7 padding applied on the final flush, and ECDH key negotiation on
//! the NIST P-256 curve.
//!
//! The block operation itself is the outside cipher's; everything around it
//! — block splitting, buffering, padding and unpadding — is this module's
//! own, verified code.

use aes::cipher::generic_array::GenericArray;
use aes::cipher::{BlockDecrypt, BlockEncrypt, KeyInit};
use vstd::prelude::*;

verus! {

/// Errors that can be occurred during encryption or decryption.
#[derive(Clone, Copy, PartialEq, Eq, Structural, Debug)]
pub enum Error {
    /// An error that occurs during padding or unpadding.
    Padding,
    /// An error that occurs during ECDH.
    Ecdh,
}

/// Errors that can be occurred during encryption.
pub type EncryptionError = Error;

/// Errors that can be occurred during decryption.
pub type DecryptionError = Error;

/// The cipher's block size in bytes.
pub const BLOCK_SIZE: usize = 16;

/// The byte length of a symmetric encryption key.
pub const ENCRYPTION_KEY_LEN: usize = 16;

/// The byte length of a secret key: a 256-bit scalar.
pub const SECRET_KEY_LEN: usize = 32;

// ============ The block cipher, trusted ============

/// What the outside cipher returns for one block, packed as one 128-bit
/// value: a function of the key and the block alone.
pub uninterp spec fn aes_enc_block(key: Seq<u8>, block: Seq<u8>) -> u128;

/// What the outside cipher returns when deciphering one block, packed as one
/// 128-bit value: a function of the key and the block alone.
pub uninterp spec fn aes_dec_block(key: Seq<u8>, block: Seq<u8>) -> u128;

/// The cipher block for one plaintext block, as its 16 bytes.
pub open spec fn spec_enc_block(key: Seq<u8>, block: Seq<u8>) -> Seq<u8> {
    vstd::bytes::spec_u128_to_le_bytes(aes_enc_block(key, block))
}

/// The deciphered block for one cipher block, as its 16 bytes.
pub open spec fn spec_dec_block(key: Seq<u8>, block: Seq<u8>) -> Seq<u8> {
    vstd::bytes::spec_u128_to_le_bytes(aes_dec_block(key, block))
}

/// Every packed block is 16 bytes long.
pub proof fn lemma_block_len(key: Seq<u8>, block: Seq<u8>)
    ensures
        spec_enc_block(key, block).len() == BLOCK_SIZE,
        spec_dec_block(key, block).len() == BLOCK_SIZE,
{
    vstd::bytes::lemma_auto_spec_u128_to_from_le_bytes();
}

/// Relies on `aes::Aes128Enc` through `cipher::BlockEncrypt::encrypt_block`:
/// enciphers one 16-byte block with a 16-byte key. The result is a function
/// of the key and the block alone, and is one block long.
#[verifier::external_body]
fn aes128_encrypt_block(key: &Vec<u8>, block: &Vec<u8>) -> (r: Vec<u8>)
    requires
        key@.len() == ENCRYPTION_KEY_LEN,
        block@.len() == BLOCK_SIZE,
    ensures
        r@ == vstd::bytes::spec_u128_to_le_bytes(aes_enc_block(key@, block@)),
        r@.len() == BLOCK_SIZE,
{
    let cipher = aes::Aes128Enc::new_from_slice(key.as_slice()).unwrap();
    let mut ga = GenericArray::clone_from_slice(block.as_slice());
    cipher.encrypt_block(&mut ga);
    ga.to_vec()
}

/// Relies on `aes::Aes128Dec` through `cipher::BlockDecrypt::decrypt_block`:
/// deciphers one 16-byte block with a 16-byte key. The result is a function
/// of the key and the block alone, it is one block long, and — as the block
/// cipher's contract — deciphering inverts enciphering under the same key.
#[verifier::external_body]
fn aes128_decrypt_block(key: &Vec<u8>, block: &Vec<u8>) -> (r: Vec<u8>)
    requires
        key@.len() == ENCRYPTION_KEY_LEN,
        block@.len() == BLOCK_SIZE,
    ensures
        r@ == vstd::bytes::spec_u128_to_le_bytes(aes_dec_block(key@, block@)),
        r@.len() == BLOCK_SIZE,
        forall|p: Seq<u8>| p.len() == BLOCK_SIZE && block@ == spec_enc_block(key@, p) ==> r@ == p,
{
    let cipher = aes::Aes128Dec::new_from_slice(key.as_slice()).unwrap();
    let mut ga = GenericArray::clone_from_slice(block.as_slice());
    cipher.decrypt_block(&mut ga);
    ga.to_vec()
}

// ============ ECB streams, specified ============

/// The concatenated cipher blocks of every whole 16-byte block of `data`;
/// a trailing partial block contributes nothing.
pub open spec fn spec_ecb_encrypt(key: Seq<u8>, data: Seq<u8>) -> Seq<u8>
    decreases data.len(),
{
    if data.len() < BLOCK_SIZE {
        Seq::empty()
    } else {
        spec_enc_block(key, data.take(BLOCK_SIZE as int)) + spec_ecb_encrypt(
            key,
            data.skip(BLOCK_SIZE as int),
        )
    }
}

/// The concatenated deciphered blocks of every whole 16-byte block of
/// `data`; a trailing partial block contributes nothing.
pub open spec fn spec_ecb_decrypt(key: Seq<u8>, data: Seq<u8>) -> Seq<u8>
    decreases data.len(),
{
    if data.len() < BLOCK_SIZE {
        Seq::empty()
    } else {
        spec_dec_block(key, data.take(BLOCK_SIZE as int)) + spec_ecb_decrypt(
            key,
            data.skip(BLOCK_SIZE as int),
        )
    }
}

/// The PKCS#7 padding of a final partial block: the remainder filled up to
/// one whole block with copies of the pad length.
pub open spec fn spec_pad_block(rem: Seq<u8>) -> Seq<u8> {
    rem + Seq::new((BLOCK_SIZE - rem.len()) as nat, |i: int| (BLOCK_SIZE - rem.len()) as u8)
}

/// PKCS#7 unpadding of a deciphered stream: the last byte names the pad
/// length, which must be between one and the block size, fit the stream, and
/// fill its tail.
pub open spec fn spec_unpad(pt: Seq<u8>) -> Option<Seq<u8>> {
    if pt.len() == 0 {
        None
    } else {
        let p = pt.last() as int;
        if 1 <= p <= BLOCK_SIZE && p <= pt.len() && (forall|i: int|
            pt.len() - p <= i < pt.len() ==> pt[i] == pt.last()) {
            Some(pt.take(pt.len() - p))
        } else {
            None
        }
    }
}

/// The whole-block prefix length of a stream.
pub open spec fn spec_whole_len(n: int) -> int {
    n / (BLOCK_SIZE as int) * (BLOCK_SIZE as int)
}

/// The complete ciphertext of one sealed stream: the whole blocks of `data`
/// enciphered, then the PKCS#7-padded remainder as one final block.
pub open spec fn spec_cipher_ct(key: Seq<u8>, data: Seq<u8>) -> Seq<u8> {
    spec_ecb_encrypt(key, data) + spec_enc_block(
        key,
        spec_pad_block(data.skip(spec_whole_len(data.len() as int))),
    )
}

/// Appending one whole block extends the enciphered stream by that block's
/// cipher block.
pub proof fn lemma_ecb_encrypt_snoc(key: Seq<u8>, data: Seq<u8>, block: Seq<u8>)
    requires
        data.len() % 16 == 0,
        block.len() == 16,
    ensures
        spec_ecb_encrypt(key, data + block) == spec_ecb_encrypt(key, data) + spec_enc_block(
            key,
            block,
        ),
    decreases data.len(),
{
    if data.len() == 0 {
        assert(data + block =~= block);
        assert((data + block).take(16) =~= block);
        assert((data + block).skip(16) =~= Seq::<u8>::empty());
        assert(spec_ecb_encrypt(key, data) =~= Seq::<u8>::empty());
        assert(block.take(16) =~= block);
        assert(block.skip(16).len() == 0);
        assert(spec_ecb_encrypt(key, block.skip(16)) =~= Seq::<u8>::empty());
        assert(spec_ecb_encrypt(key, block) =~= spec_enc_block(key, block) + Seq::<u8>::empty());
    } else {
        lemma_ecb_encrypt_snoc(key, data.skip(16), block);
        assert((data + block).take(16) =~= data.take(16));
        assert((data + block).skip(16) =~= data.skip(16) + block);
    }
}

/// A trailing partial block does not change the enciphered stream.
pub proof fn lemma_ecb_encrypt_tail(key: Seq<u8>, data: Seq<u8>, k: int)
    requires
        0 <= k <= data.len(),
        k % 16 == 0,
        data.len() - k < 16,
    ensures
        spec_ecb_encrypt(key, data) == spec_ecb_encrypt(key, data.take(k)),
    decreases data.len(),
{
    if k == 0 {
        assert(data.take(0) =~= Seq::<u8>::empty());
    } else {
        lemma_ecb_encrypt_tail(key, data.skip(16), k - 16);
        assert(data.take(k).take(16) =~= data.take(16));
        assert(data.take(k).skip(16) =~= data.skip(16).take(k - 16));
    }
}

/// Appending one whole block extends the deciphered stream by that block's
/// deciphered block.
pub proof fn lemma_ecb_decrypt_snoc(key: Seq<u8>, data: Seq<u8>, block: Seq<u8>)
    requires
        data.len() % 16 == 0,
        block.len() == 16,
    ensures
        spec_ecb_decrypt(key, data + block) == spec_ecb_decrypt(key, data) + spec_dec_block(
            key,
            block,
        ),
    decreases data.len(),
{
    if data.len() == 0 {
        assert(data + block =~= block);
        assert((data + block).take(16) =~= block);
        assert((data + block).skip(16) =~= Seq::<u8>::empty());
        assert(spec_ecb_decrypt(key, data) =~= Seq::<u8>::empty());
        assert(block.take(16) =~= block);
        assert(block.skip(16).len() == 0);
        assert(spec_ecb_decrypt(key, block.skip(16)) =~= Seq::<u8>::empty());
        assert(spec_ecb_decrypt(key, block) =~= spec_dec_block(key, block) + Seq::<u8>::empty());
    } else {
        lemma_ecb_decrypt_snoc(key, data.skip(16), block);
        assert((data + block).take(16) =~= data.take(16));
        assert((data + block).skip(16) =~= data.skip(16) + block);
    }
}

/// Unpadding a whole stream followed by a padded remainder yields the stream
/// and the remainder.
pub proof fn lemma_unpad_pad(whole: Seq<u8>, rem: Seq<u8>)
    requires
        rem.len() < 16,
    ensures
        spec_unpad(whole + spec_pad_block(rem)) == Some(whole + rem),
{
    let pt = whole + spec_pad_block(rem);
    let p = (16 - rem.len()) as int;
    assert(pt.len() == whole.len() + 16);
    assert(pt.last() == p as u8);
    assert forall|i: int| pt.len() - p <= i < pt.len() implies pt[i] == pt.last() by {
        assert(pt[i] == spec_pad_block(rem)[i - whole.len()]);
    }
    assert(pt.take(pt.len() - p) =~= whole + rem);
}

// ============ The streaming encryptor, verified ============

/// A block encryptor: buffers input, enciphers each completed 16-byte block,
/// and seals the stream with one PKCS#7-padded final block on flush.
pub struct Encryptor {
    key: Vec<u8>,
    buffer: Vec<u8>,
    processed: Ghost<Seq<u8>>,
}

impl Encryptor {
    /// The symmetric key.
    pub closed spec fn spec_key(&self) -> Seq<u8> {
        self.key@
    }

    /// Everything fed to the encryptor since construction or the last flush.
    pub closed spec fn spec_processed(&self) -> Seq<u8> {
        self.processed@
    }

    /// Well-formedness: the key is one key long and the staging buffer holds
    /// exactly the sub-block tail of the processed stream.
    pub closed spec fn wf(&self) -> bool {
        &&& self.key@.len() == ENCRYPTION_KEY_LEN
        &&& self.buffer@.len() < BLOCK_SIZE
        &&& self.processed@.len() >= self.buffer@.len()
        &&& (self.processed@.len() - self.buffer@.len()) % 16 == 0
        &&& self.buffer@ == self.processed@.skip(self.processed@.len() - self.buffer@.len())
    }

    /// Constructs a new `Encryptor` with an encryption key.
    pub fn new(key: &Vec<u8>) -> (r: Encryptor)
        requires
            key@.len() == ENCRYPTION_KEY_LEN,
        ensures
            r.wf(),
            r.spec_key() == key@,
            r.spec_processed() == Seq::<u8>::empty(),
    {
        let r = Encryptor { key: key.clone(), buffer: Vec::new(), processed: Ghost(Seq::empty()) };
        proof {
            assert(r.buffer@ =~= r.processed@.skip(0));
        }
        r
    }

    /// Feeds bytes into the stream and appends to `out` the cipher blocks of
    /// every block this completes. What comes out is determined by the
    /// concatenation of everything fed in, never by how it was split across
    /// calls.
    pub fn input(&mut self, bytes: &[u8], out: &mut Vec<u8>)
        requires
            old(self).wf(),
        ensures
            final(self).wf(),
            final(self).spec_key() == old(self).spec_key(),
            final(self).spec_processed() == old(self).spec_processed() + bytes@,
            final(out)@ == old(out)@ + spec_ecb_encrypt(
                old(self).spec_key(),
                old(self).spec_processed() + bytes@,
            ).skip(spec_ecb_encrypt(old(self).spec_key(), old(self).spec_processed()).len() as int),
    {
        let ghost key = self.key@;
        let ghost p0 = self.processed@;
        let ghost e0 = spec_ecb_encrypt(key, p0);
        proof {
            lemma_ecb_encrypt_tail(key, p0, p0.len() - self.buffer@.len());
        }
        let mut idx: usize = 0;
        while idx < bytes.len()
            invariant
                0 <= idx <= bytes@.len(),
                self.wf(),
                self.key@ == key,
                self.processed@ == p0 + bytes@.take(idx as int),
                out@ == old(out)@ + spec_ecb_encrypt(key, self.processed@).skip(e0.len() as int),
                spec_ecb_encrypt(key, self.processed@).len() >= e0.len(),
                spec_ecb_encrypt(key, self.processed@) == spec_ecb_encrypt(
                    key,
                    self.processed@.take(self.processed@.len() - self.buffer@.len()),
                ),
                e0 == spec_ecb_encrypt(key, p0),
                e0 == spec_ecb_encrypt(key, self.processed@).take(e0.len() as int),
            decreases bytes@.len() - idx,
        {
            let ghost pre = self.processed@;
            let ghost pre_whole = pre.len() - self.buffer@.len();
            self.buffer.push(bytes[idx]);
            proof {
                self.processed@ = self.processed@ + seq![bytes@[idx as int]];
                assert(self.processed@ =~= p0 + bytes@.take(idx + 1));
                assert(self.buffer@ =~= self.processed@.skip(
                    self.processed@.len() - self.buffer@.len(),
                ));
                lemma_ecb_encrypt_tail(key, pre, pre_whole);
                assert(self.processed@.take(pre_whole) =~= pre.take(pre_whole));
                if self.buffer@.len() < BLOCK_SIZE {
                    lemma_ecb_encrypt_tail(key, self.processed@, pre_whole);
                }
            }
            idx = idx + 1;
            if self.buffer.len() == BLOCK_SIZE {
                let ct = aes128_encrypt_block(&self.key, &self.buffer);
                crate::common::append_bytes(out, ct.as_slice());
                proof {
                    let whole = self.processed@.take(self.processed@.len() - 16);
                    assert(whole.len() % 16 == 0);
                    assert(self.processed@ =~= whole + self.buffer@);
                    lemma_ecb_encrypt_snoc(key, whole, self.buffer@);
                    lemma_ecb_encrypt_tail(key, self.processed@, self.processed@.len() as int);
                    assert(self.processed@.take(self.processed@.len() as int) =~= self.processed@);
                    assert(spec_ecb_encrypt(key, self.processed@) == spec_ecb_encrypt(key, whole)
                        + ct@);
                    assert(out@ =~= old(out)@ + spec_ecb_encrypt(key, self.processed@).skip(
                        e0.len() as int,
                    ));
                }
                self.buffer.clear();
                proof {
                    assert(self.buffer@ =~= self.processed@.skip(self.processed@.len() as int));
                    assert(e0 =~= spec_ecb_encrypt(key, self.processed@).take(e0.len() as int));
                }
            }
        }
        proof {
            assert(self.processed@ =~= p0 + bytes@);
        }
    }

    /// Seals the stream: enciphers the buffered remainder as one final
    /// PKCS#7-padded block, appends it to `out`, and resets the stream.
    pub fn flush(&mut self, out: &mut Vec<u8>)
        requires
            old(self).wf(),
        ensures
            final(self).wf(),
            final(self).spec_key() == old(self).spec_key(),
            final(self).spec_processed() == Seq::<u8>::empty(),
            final(out)@ == old(out)@ + spec_enc_block(
                old(self).spec_key(),
                spec_pad_block(
                    old(self).spec_processed().skip(
                        spec_whole_len(old(self).spec_processed().len() as int),
                    ),
                ),
            ),
    {
        let ghost key = self.key@;
        let ghost rem = self.buffer@;
        let pad: u8 = (BLOCK_SIZE - self.buffer.len()) as u8;
        let mut i: usize = self.buffer.len();
        while i < BLOCK_SIZE
            invariant
                rem.len() < BLOCK_SIZE,
                rem.len() <= i <= BLOCK_SIZE,
                pad == (BLOCK_SIZE - rem.len()) as u8,
                self.buffer@ == spec_pad_block(rem).take(i as int),
                self.key@ == key,
                key.len() == ENCRYPTION_KEY_LEN,
                self.processed@ == old(self).spec_processed(),
                self.processed@.len() >= rem.len(),
                (self.processed@.len() - rem.len()) % 16 == 0,
                rem == self.processed@.skip(self.processed@.len() - rem.len()),
            decreases BLOCK_SIZE - i,
        {
            self.buffer.push(pad);
            i = i + 1;
            proof {
                assert(self.buffer@ =~= spec_pad_block(rem).take(i as int));
            }
        }
        proof {
            assert(self.buffer@ =~= spec_pad_block(rem));
        }
        let ct = aes128_encrypt_block(&self.key, &self.buffer);
        crate::common::append_bytes(out, ct.as_slice());
        self.buffer.clear();
        proof {
            let n = self.processed@.len() as int;
            let b = rem.len() as int;
            let w = n - b;
            vstd::arithmetic::div_mod::lemma_fundamental_div_mod(w, 16);
            vstd::arithmetic::div_mod::lemma_fundamental_div_mod_converse(n, 16, w / 16, b);
            assert(n / 16 * 16 == w) by (nonlinear_arith)
                requires
                    n / 16 == w / 16,
                    w == 16 * (w / 16),
            ;
            assert(rem =~= self.processed@.skip(spec_whole_len(n)));
            self.processed@ = Seq::empty();
            assert(self.buffer@ =~= self.processed@.skip(0));
        }
    }
}


/// The enciphered stream is as long as the whole-block prefix it covers.
pub proof fn lemma_ecb_encrypt_len(key: Seq<u8>, data: Seq<u8>)
    ensures
        spec_ecb_encrypt(key, data).len() == spec_whole_len(data.len() as int),
    decreases data.len(),
{
    vstd::bytes::lemma_auto_spec_u128_to_from_le_bytes();
    if data.len() < 16 {
    } else {
        lemma_ecb_encrypt_len(key, data.skip(16));
        assert(spec_whole_len(data.len() as int) == 16 + spec_whole_len(data.len() - 16)) by {
            vstd::arithmetic::div_mod::lemma_fundamental_div_mod(data.len() as int, 16);
            vstd::arithmetic::div_mod::lemma_fundamental_div_mod(data.len() - 16, 16);
            let q1 = (data.len() as int) / 16;
            let q2 = (data.len() - 16) / 16;
            vstd::arithmetic::div_mod::lemma_fundamental_div_mod_converse(
                data.len() as int,
                16,
                q2 + 1,
                (data.len() - 16) % 16,
            );
        }
    }
}

/// The deciphered stream is as long as the whole-block prefix it covers.
pub proof fn lemma_ecb_decrypt_len(key: Seq<u8>, data: Seq<u8>)
    ensures
        spec_ecb_decrypt(key, data).len() == spec_whole_len(data.len() as int),
    decreases data.len(),
{
    vstd::bytes::lemma_auto_spec_u128_to_from_le_bytes();
    if data.len() < 16 {
    } else {
        lemma_ecb_decrypt_len(key, data.skip(16));
        assert(spec_whole_len(data.len() as int) == 16 + spec_whole_len(data.len() - 16)) by {
            vstd::arithmetic::div_mod::lemma_fundamental_div_mod(data.len() as int, 16);
            vstd::arithmetic::div_mod::lemma_fundamental_div_mod(data.len() - 16, 16);
            let q2 = (data.len() - 16) / 16;
            vstd::arithmetic::div_mod::lemma_fundamental_div_mod_converse(
                data.len() as int,
                16,
                q2 + 1,
                (data.len() - 16) % 16,
            );
        }
    }
}

/// A trailing partial block does not change the deciphered stream.
pub proof fn lemma_ecb_decrypt_tail(key: Seq<u8>, data: Seq<u8>, k: int)
    requires
        0 <= k <= data.len(),
        k % 16 == 0,
        data.len() - k < 16,
    ensures
        spec_ecb_decrypt(key, data) == spec_ecb_decrypt(key, data.take(k)),
    decreases data.len(),
{
    if k == 0 {
        assert(data.take(0) =~= Seq::<u8>::empty());
    } else {
        lemma_ecb_decrypt_tail(key, data.skip(16), k - 16);
        assert(data.take(k).take(16) =~= data.take(16));
        assert(data.take(k).skip(16) =~= data.skip(16).take(k - 16));
    }
}

// ============ One-shot decryption, verified ============

/// Deciphers a stream in one call. With `strip_padding`, the stream must be
/// one or more whole blocks and end in valid PKCS#7 padding, which is
/// removed — this deciphers exactly what a sealed stream holds, so any
/// stream produced by enciphering a byte string and flushing deciphers back
/// to that byte string. Without `strip_padding`, every whole block is
/// deciphered as it stands and a trailing partial block is dropped, as a
/// crash-recovered stream needs.
pub fn decrypt_bytes(key: &Vec<u8>, ct: &Vec<u8>, strip_padding: bool) -> (r: Result<
    Vec<u8>,
    Error,
>)
    requires
        key@.len() == ENCRYPTION_KEY_LEN,
    ensures
        match r {
            Ok(pt) => ((!strip_padding ==> pt@ == spec_ecb_decrypt(key@, ct@)) && (strip_padding
                ==> ct@.len() % 16 == 0 && ct@.len() > 0 && spec_unpad(spec_ecb_decrypt(key@, ct@))
                == Some(pt@))),
            Err(e) => (e == Error::Padding && strip_padding && (ct@.len() % 16 != 0 || ct@.len()
                == 0 || spec_unpad(spec_ecb_decrypt(key@, ct@)) is None)),
        },
        !strip_padding ==> r is Ok,
        !strip_padding ==> (forall|q: Seq<u8>|
            q.len() == spec_whole_len(ct@.len() as int) && spec_ecb_encrypt(key@, q) == ct@.take(
                spec_whole_len(ct@.len() as int),
            ) ==> (r matches Ok(pt) && pt@ == q)),
        strip_padding ==> (forall|data: Seq<u8>|
            ct@ == spec_cipher_ct(key@, data) ==> (r is Ok && r->Ok_0@ == data)),
{
    let ghost k = key@;
    let clen = ct.len();
    let mut pt: Vec<u8> = Vec::new();
    let mut i: usize = 0;
    proof {
        assert(ct@.take(0) =~= Seq::<u8>::empty());
    }
    while BLOCK_SIZE <= clen - i && i < clen
        invariant
            clen == ct@.len(),
            key@ == k,
            k.len() == ENCRYPTION_KEY_LEN,
            0 <= i <= ct@.len() <= usize::MAX,
            i % 16 == 0,
            pt@.len() == i,
            pt@ == spec_ecb_decrypt(k, ct@.take(i as int)),
            forall|q: Seq<u8>|
                q.len() == i && #[trigger] spec_ecb_encrypt(k, q) == ct@.take(i as int) ==> pt@
                    == q,
        decreases ct@.len() - i,
    {
        let mut block: Vec<u8> = Vec::new();
        let mut j: usize = 0;
        while j < BLOCK_SIZE
            invariant
                0 <= j <= BLOCK_SIZE,
                i + BLOCK_SIZE <= ct@.len() <= usize::MAX,
                block@ == ct@.subrange(i as int, i + j),
            decreases BLOCK_SIZE - j,
        {
            block.push(ct[i + j]);
            j = j + 1;
            proof {
                assert(block@ =~= ct@.subrange(i as int, i + j));
            }
        }
        let d = aes128_decrypt_block(key, &block);
        let ghost old_pt = pt@;
        crate::common::append_bytes(&mut pt, d.as_slice());
        proof {
            let pre = ct@.take(i as int);
            let now = ct@.take(i + 16);
            assert(now.take(i as int) =~= pre);
            assert(now.skip(i as int) =~= block@);
            assert(now =~= pre + block@);
            lemma_ecb_decrypt_snoc(k, pre, block@);
            assert(pt@ == spec_ecb_decrypt(k, now));
            assert forall|q: Seq<u8>|
                q.len() == i + 16 && #[trigger] spec_ecb_encrypt(k, q) == now implies pt@
                == q by {
                let qh = q.take(i as int);
                let qt = q.skip(i as int);
                assert(q =~= qh + qt);
                lemma_ecb_encrypt_snoc(k, qh, qt);
                lemma_ecb_encrypt_len(k, qh);
                vstd::arithmetic::div_mod::lemma_fundamental_div_mod(i as int, 16);
                assert(spec_whole_len(i as int) == i) by {
                    vstd::arithmetic::div_mod::lemma_fundamental_div_mod_converse(
                        i as int,
                        16,
                        (i as int) / 16,
                        0,
                    );
                }
                assert(spec_ecb_encrypt(k, q) == spec_ecb_encrypt(k, qh) + spec_enc_block(k, qt));
                vstd::bytes::lemma_auto_spec_u128_to_from_le_bytes();
                assert(spec_ecb_encrypt(k, qh) =~= now.take(i as int));
                assert(spec_enc_block(k, qt) =~= now.skip(i as int));
                assert(block@ == spec_enc_block(k, qt));
                assert(d@ == qt);
                assert(old_pt == qh);
                assert(pt@ =~= q);
            }
        }
        i = i + BLOCK_SIZE;
    }
    proof {
        vstd::arithmetic::div_mod::lemma_fundamental_div_mod(ct@.len() as int, 16);
        assert(ct@.len() - i < 16);
        lemma_ecb_decrypt_tail(k, ct@, i as int);
        assert(ct@.take(ct@.len() as int) =~= ct@);
    }
    if !strip_padding {
        proof {
            assert(pt@ == spec_ecb_decrypt(k, ct@));
            assert(i == spec_whole_len(ct@.len() as int)) by {
                vstd::arithmetic::div_mod::lemma_fundamental_div_mod_converse(
                    ct@.len() as int,
                    16,
                    (i as int) / 16,
                    ct@.len() - i,
                );
                vstd::arithmetic::div_mod::lemma_fundamental_div_mod(i as int, 16);
            }
        }
        return Ok(pt);
    }
    // The law below rests on this: a sealed ciphertext is the enciphering of
    // the padded plaintext, block for block.
    proof {
        assert forall|data: Seq<u8>| ct@ == spec_cipher_ct(k, data) implies (ct@.len() % 16 == 0
            && ct@.len() > 0 && pt@ == data.take(spec_whole_len(data.len() as int))
                + spec_pad_block(data.skip(spec_whole_len(data.len() as int)))) by {
            let n = data.len() as int;
            let w = spec_whole_len(n);
            vstd::arithmetic::div_mod::lemma_fundamental_div_mod(n, 16);
            let rem = data.skip(w);
            let padded = data.take(w) + spec_pad_block(rem);
            lemma_ecb_encrypt_tail(k, data, w);
            assert(data.take(w).take(w) =~= data.take(w));
            lemma_ecb_encrypt_snoc(k, data.take(w), spec_pad_block(rem));
            lemma_ecb_encrypt_len(k, data);
            lemma_ecb_encrypt_len(k, data.take(w));
            assert(spec_ecb_encrypt(k, data) == spec_ecb_encrypt(k, data.take(w)));
            assert(ct@ == spec_ecb_encrypt(k, padded));
            lemma_ecb_encrypt_len(k, padded);
            assert(padded.len() == w + 16);
            assert(spec_whole_len(w + 16) == w + 16) by {
                vstd::arithmetic::div_mod::lemma_fundamental_div_mod_converse(
                    w + 16,
                    16,
                    n / 16 + 1,
                    0,
                );
            }
            assert(ct@.len() == w + 16);
            assert(ct@.len() % 16 == 0) by {
                vstd::arithmetic::div_mod::lemma_fundamental_div_mod_converse(
                    w + 16,
                    16,
                    n / 16 + 1,
                    0,
                );
            }
            assert(i == ct@.len());
            assert(ct@.take(i as int) =~= ct@);
            assert(pt@ == padded);
        }
        assert(spec_padded_source_fact(k, ct@, pt@));
    }
    let n = pt.len();
    if n == 0 || ct.len() % BLOCK_SIZE != 0 {
        proof {
            lemma_ecb_decrypt_len(k, ct@);
            assert forall|data: Seq<u8>| ct@ != spec_cipher_ct(k, data) by {
                if ct@ == spec_cipher_ct(k, data) {
                    vstd::bytes::lemma_auto_spec_u128_to_from_le_bytes();
                }
            }
        }
        return Err(Error::Padding);
    }
    let p = pt[n - 1];
    if p == 0 || p as usize > BLOCK_SIZE {
        proof {
            assert(pt@.last() == p);
            assert(spec_unpad(pt@) is None);
            lemma_no_sealed_source(k, ct@, pt@);
        }
        return Err(Error::Padding);
    }
    let pad = p as usize;
    let mut j: usize = n - pad;
    while j < n
        invariant
            1 <= pad <= 16 <= n == pt@.len(),
            n - pad <= j <= n,
            pt@[n - 1] == p,
            pad == p,
            forall|t: int| n - pad <= t < j ==> pt@[t] == p,
            strip_padding,
            key@ == k,
            pt@ == spec_ecb_decrypt(k, ct@),
            spec_padded_source_fact(k, ct@, pt@),
            ct@.len() % 16 == 0,
        decreases n - j,
    {
        if pt[j] != p {
            proof {
                assert(pt@[j as int] != pt@.last());
                assert(spec_unpad(pt@) is None);
                lemma_no_sealed_source(k, ct@, pt@);
            }
            return Err(Error::Padding);
        }
        j = j + 1;
    }
    proof {
        assert(spec_unpad(pt@) == Some(pt@.take(n - pad)));
    }
    pt.truncate(n - pad);
    proof {
        assert(pt@ =~= spec_ecb_decrypt(k, ct@).take(n - pad));
        assert forall|data: Seq<u8>| ct@ == spec_cipher_ct(k, data) implies pt@ == data by {
            let n2 = data.len() as int;
            let w = spec_whole_len(n2);
            vstd::arithmetic::div_mod::lemma_fundamental_div_mod(n2, 16);
            lemma_unpad_pad(data.take(w), data.skip(w));
            assert(data.take(w) + data.skip(w) =~= data);
        }
    }
    Ok(pt)
}

/// A deciphered stream equals the padded source of any sealed ciphertext it
/// came from.
pub open spec fn spec_padded_source_fact(k: Seq<u8>, ct: Seq<u8>, pt: Seq<u8>) -> bool {
    forall|data: Seq<u8>|
        ct == spec_cipher_ct(k, data) ==> (ct.len() % 16 == 0 && ct.len() > 0 && pt == data.take(
            spec_whole_len(data.len() as int),
        ) + spec_pad_block(data.skip(spec_whole_len(data.len() as int))))
}

/// No sealed ciphertext deciphers to a stream whose padding is broken: used
/// where unpadding has just failed.
proof fn lemma_no_sealed_source(k: Seq<u8>, ct: Seq<u8>, pt: Seq<u8>)
    requires
        spec_unpad(pt) is None,
        spec_padded_source_fact(k, ct, pt),
    ensures
        forall|data: Seq<u8>| ct != spec_cipher_ct(k, data),
{
    assert forall|data: Seq<u8>| ct != spec_cipher_ct(k, data) by {
        if ct == spec_cipher_ct(k, data) {
            let n = data.len() as int;
            let w = spec_whole_len(n);
            vstd::arithmetic::div_mod::lemma_fundamental_div_mod(n, 16);
            lemma_unpad_pad(data.take(w), data.skip(w));
        }
    }
}


// ============ The streaming decryptor, verified ============

/// A block decryptor: buffers input, deciphers each completed 16-byte block
/// on non-final calls, and on the final call deciphers what remains and
/// strips the PKCS#7 padding.
pub struct Decryptor {
    key: Vec<u8>,
    buffer: Vec<u8>,
}

impl Decryptor {
    /// The symmetric key.
    pub closed spec fn spec_key(&self) -> Seq<u8> {
        self.key@
    }

    /// The buffered sub-block tail of the stream.
    pub closed spec fn spec_buffered(&self) -> Seq<u8> {
        self.buffer@
    }

    /// Well-formedness: the key is one key long and the staging buffer holds
    /// less than one block.
    pub closed spec fn wf(&self) -> bool {
        self.key@.len() == ENCRYPTION_KEY_LEN && self.buffer@.len() < BLOCK_SIZE
    }

    /// Constructs a new `Decryptor` with an encryption key.
    pub fn new(key: &Vec<u8>) -> (r: Decryptor)
        requires
            key@.len() == ENCRYPTION_KEY_LEN,
        ensures
            r.wf(),
            r.spec_key() == key@,
            r.spec_buffered() == Seq::<u8>::empty(),
    {
        Decryptor { key: key.clone(), buffer: Vec::new() }
    }

    /// Feeds ciphertext into the stream. On a non-final call, appends to
    /// `out` the deciphered whole blocks this completes and keeps the
    /// sub-block tail. On the final call, deciphers everything that remains
    /// and strips the padding; this fails with the padding error exactly
    /// when what remains is not a positive number of whole blocks ending in
    /// valid padding. An empty input does nothing.
    pub fn decrypt(&mut self, input: &[u8], reached_to_end: bool, out: &mut Vec<u8>) -> (r: Result<
        (),
        Error,
    >)
        requires
            old(self).wf(),
        ensures
            final(self).spec_key() == old(self).spec_key(),
            input@.len() == 0 ==> (r == Ok::<(), Error>(()) && *final(self) == *old(self) && final(out)@ == old(out)@),
            ({
                let total = old(self).spec_buffered() + input@;
                let key = old(self).spec_key();
                input@.len() > 0 && !reached_to_end ==> (r == Ok::<(), Error>(()) && final(self).wf() && final(self).spec_buffered() == total.skip(
                    spec_whole_len(total.len() as int),
                ) && final(out)@ == old(out)@ + spec_ecb_decrypt(key, total))
            }),
            ({
                let total = old(self).spec_buffered() + input@;
                let key = old(self).spec_key();
                input@.len() > 0 && reached_to_end ==> ({
                    &&& (r == Ok::<(), Error>(()) ==> total.len() % 16 == 0 && total.len() > 0
                        && (spec_unpad(spec_ecb_decrypt(key, total)) matches Some(pt) && final(out)@ == old(
                        out,
                    )@ + pt) && final(self).spec_buffered() == Seq::<u8>::empty())
                    &&& (r == Err::<(), Error>(Error::Padding) ==> (total.len() % 16 != 0
                        || total.len() == 0 || spec_unpad(spec_ecb_decrypt(key, total)) is None)
                        && final(out)@ == old(out)@)
                    &&& (r is Ok || r == Err::<(), Error>(Error::Padding))
                })
            }),
    {
        if input.len() == 0 {
            return Ok(());
        }
        let ghost key = self.key@;
        let mut total: Vec<u8> = Vec::new();
        crate::common::append_bytes(&mut total, self.buffer.as_slice());
        crate::common::append_bytes(&mut total, input);
        proof {
            assert(total@ =~= old(self).spec_buffered() + input@);
        }
        if reached_to_end {
            self.buffer.clear();
            match decrypt_bytes(&self.key, &total, true) {
                Ok(pt) => {
                    crate::common::append_bytes(out, pt.as_slice());
                    Ok(())
                },
                Err(e) => Err(e),
            }
        } else {
            let n = total.len();
            let whole = n - n % BLOCK_SIZE;
            let mut head: Vec<u8> = Vec::new();
            let mut i: usize = 0;
            while i < whole
                invariant
                    0 <= i <= whole <= n == total@.len(),
                    head@ == total@.take(i as int),
                decreases whole - i,
            {
                head.push(total[i]);
                i = i + 1;
                proof {
                    assert(head@ =~= total@.take(i as int));
                }
            }
            self.buffer.clear();
            let mut j: usize = whole;
            while j < n
                invariant
                    whole <= j <= n == total@.len(),
                    n - whole < BLOCK_SIZE,
                    self.buffer@ == total@.subrange(whole as int, j as int),
                    self.key@ == key,
                decreases n - j,
            {
                self.buffer.push(total[j]);
                j = j + 1;
                proof {
                    assert(self.buffer@ =~= total@.subrange(whole as int, j as int));
                }
            }
            match decrypt_bytes(&self.key, &head, false) {
                Ok(pt) => {
                    crate::common::append_bytes(out, pt.as_slice());
                    proof {
                        vstd::arithmetic::div_mod::lemma_fundamental_div_mod(
                            total@.len() as int,
                            16,
                        );
                        assert(whole == spec_whole_len(total@.len() as int));
                        lemma_ecb_decrypt_tail(key, total@, whole as int);
                        assert(self.buffer@ =~= total@.skip(spec_whole_len(total@.len() as int)));
                        assert(total@.take(whole as int) =~= head@);
                    }
                    Ok(())
                },
                Err(e) => {
                    proof {
                        assert(false);
                    }
                    Err(e)
                },
            }
        }
    }
}

// ============ ECDH key negotiation, trusted ============

/// The low 16 bytes of the ECDH shared secret between a secret scalar and a
/// public point: a function of the two keys alone.
pub uninterp spec fn ecdh_shared_key(secret: Seq<u8>, public: Seq<u8>) -> Seq<u8>;

/// Whether the outside library accepts the two key encodings for ECDH: a
/// function of the two encodings alone.
pub uninterp spec fn ecdh_ok(secret: Seq<u8>, public: Seq<u8>) -> bool;

/// Relies on `p256::SecretKey::random` and `p256::EncodedPoint::compress`:
/// a fresh ECDH key pair, as the 32-byte secret scalar and the 33-byte
/// compressed public point. The pair is random; only the lengths are assumed.
#[verifier::external_body]
pub fn gen_echd_key_pair() -> (r: (Vec<u8>, Vec<u8>))
    ensures
        r.0@.len() == SECRET_KEY_LEN,
        r.1@.len() == crate::chunk::PUBLIC_KEY_LEN,
{
    let secret_key = p256::SecretKey::random(&mut rand_core::OsRng);
    let public_key = p256::EncodedPoint::from(secret_key.public_key()).compress();
    (secret_key.to_bytes().to_vec(), public_key.as_bytes().to_vec())
}

/// Relies on `p256::ecdh::diffie_hellman`, `p256::SecretKey::from_slice` and
/// `p256::PublicKey::from_sec1_bytes`: the low 16 bytes of the raw shared
/// secret between the secret scalar and the public point — a function of the
/// two keys alone. Whether the two encodings are accepted is deterministic
/// too, so success is pinned to its name.
#[verifier::external_body]
pub(crate) fn ecdh_encryption_key(secret_key: &Vec<u8>, public_key: &Vec<u8>) -> (r: Result<
    Vec<u8>,
    Error,
>)
    requires
        secret_key@.len() == SECRET_KEY_LEN,
        public_key@.len() == crate::chunk::PUBLIC_KEY_LEN,
    ensures
        r is Ok <==> ecdh_ok(secret_key@, public_key@),
        r matches Ok(k) ==> k@ == ecdh_shared_key(secret_key@, public_key@) && k@.len()
            == ENCRYPTION_KEY_LEN,
        r matches Err(e) ==> e == Error::Ecdh,
{
    let sk = match p256::SecretKey::from_slice(secret_key.as_slice()) {
        Ok(sk) => sk,
        Err(_) => {
            return Err(Error::Ecdh);
        },
    };
    let pk = match p256::PublicKey::from_sec1_bytes(public_key.as_slice()) {
        Ok(pk) => pk,
        Err(_) => {
            return Err(Error::Ecdh);
        },
    };
    let shared = p256::ecdh::diffie_hellman(sk.to_nonzero_scalar(), pk.as_affine());
    Ok(shared.raw_secret_bytes().as_slice()[..ENCRYPTION_KEY_LEN].to_vec())
}

/// Represents the public and symmetric keys generated in the initialization
/// of the logger.
pub struct Keys {
    /// The ephemeral public key embedded in every chunk the logger writes.
    pub public_key: Vec<u8>,
    /// The symmetric key for record encryption.
    pub encryption_key: Vec<u8>,
}

impl Keys {
    /// Constructs the keys for one logger instance: draws a fresh ephemeral
    /// key pair and negotiates the symmetric key against the given long-term
    /// public key. Fails exactly when the library rejects one of the key
    /// encodings.
    pub fn new(public_key: &Vec<u8>) -> (r: Result<Keys, Error>)
        requires
            public_key@.len() == crate::chunk::PUBLIC_KEY_LEN,
        ensures
            r matches Ok(k) ==> k.public_key@.len() == crate::chunk::PUBLIC_KEY_LEN
                && k.encryption_key@.len() == ENCRYPTION_KEY_LEN,
    {
        let (ephemeral_secret, ephemeral_public) = gen_echd_key_pair();
        match ecdh_encryption_key(&ephemeral_secret, public_key) {
            Ok(encryption_key) => Ok(Keys { public_key: ephemeral_public, encryption_key }),
            Err(e) => Err(e),
        }
    }
}

/// The all-zero public key: the sentinel that means no encryption.
pub open spec fn spec_empty_public_key() -> Seq<u8> {
    Seq::new(crate::chunk::PUBLIC_KEY_LEN as nat, |i: int| 0u8)
}

/// Builds the all-zero public key.
pub fn empty_public_key() -> (r: Vec<u8>)
    ensures
        r@ == spec_empty_public_key(),
{
    let mut r: Vec<u8> = Vec::new();
    let mut i: usize = 0;
    while i < crate::chunk::PUBLIC_KEY_LEN
        invariant
            0 <= i <= crate::chunk::PUBLIC_KEY_LEN,
            r@ == spec_empty_public_key().take(i as int),
        decreases crate::chunk::PUBLIC_KEY_LEN - i,
    {
        r.push(0);
        i = i + 1;
        proof {
            assert(r@ =~= spec_empty_public_key().take(i as int));
        }
    }
    proof {
        assert(r@ =~= spec_empty_public_key());
    }
    r
}

/// Checks whether a public key is the all-zero sentinel.
pub fn is_empty_public_key(key: &Vec<u8>) -> (r: bool)
    ensures
        r == (key@ == spec_empty_public_key()),
{
    if key.len() != crate::chunk::PUBLIC_KEY_LEN {
        proof {
            assert(key@ != spec_empty_public_key());
        }
        return false;
    }
    let mut i: usize = 0;
    while i < key.len()
        invariant
            0 <= i <= key@.len() == crate::chunk::PUBLIC_KEY_LEN,
            forall|j: int| 0 <= j < i ==> key@[j] == 0,
        decreases key@.len() - i,
    {
        if key[i] != 0 {
            proof {
                assert(key@[i as int] != spec_empty_public_key()[i as int]);
            }
            return false;
        }
        i = i + 1;
    }
    proof {
        assert(key@ =~= spec_empty_public_key());
    }
    true
}

} // verus!
