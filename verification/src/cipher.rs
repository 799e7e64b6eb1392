//! The byte transform that hides the composite map on disk.
//!
//! Encryption runs three stages in order: a repeating-key XOR, a mirror swap
//! over the whole buffer, and a permutation of every full 16-byte block.
//! Decryption undoes them in the opposite order.

use crate::text::{decode_utf8_lossy, utf8_lossy};
use vstd::prelude::*;
use vstd::string::StringSliceAdditionalSpecFns;

verus! {

/// Where byte `i` of an encrypted block comes from in the plain block.
pub open spec fn perm(i: int) -> int {
    if i == 0 {
        12
    } else if i == 1 {
        6
    } else if i == 2 {
        9
    } else if i == 3 {
        4
    } else if i == 4 {
        3
    } else if i == 5 {
        14
    } else if i == 6 {
        1
    } else if i == 7 {
        10
    } else if i == 8 {
        13
    } else if i == 9 {
        2
    } else if i == 10 {
        7
    } else if i == 11 {
        15
    } else if i == 12 {
        0
    } else if i == 13 {
        8
    } else if i == 14 {
        5
    } else {
        11
    }
}

/// The inverse of [`perm`] on `0..16`.
pub open spec fn perm_inv(j: int) -> int {
    if j == 12 {
        0
    } else if j == 6 {
        1
    } else if j == 9 {
        2
    } else if j == 4 {
        3
    } else if j == 3 {
        4
    } else if j == 14 {
        5
    } else if j == 1 {
        6
    } else if j == 10 {
        7
    } else if j == 13 {
        8
    } else if j == 2 {
        9
    } else if j == 7 {
        10
    } else if j == 15 {
        11
    } else if j == 0 {
        12
    } else if j == 8 {
        13
    } else if j == 5 {
        14
    } else {
        15
    }
}

/// Byte `i` of the XOR key, the ASCII text `GeneratePackageMapper`.
pub open spec fn key_byte(i: int) -> u8 {
    if i == 0 {
        0x47
    } else if i == 1 || i == 3 || i == 7 || i == 14 || i == 19 {
        0x65
    } else if i == 2 {
        0x6e
    } else if i == 4 || i == 20 {
        0x72
    } else if i == 5 || i == 9 || i == 12 || i == 16 {
        0x61
    } else if i == 6 {
        0x74
    } else if i == 8 {
        0x50
    } else if i == 10 {
        0x63
    } else if i == 11 {
        0x6b
    } else if i == 13 {
        0x67
    } else if i == 15 {
        0x4d
    } else {
        0x70
    }
}

fn perm_at(i: usize) -> (r: usize)
    requires
        i < 16,
    ensures
        r == perm(i as int),
        r < 16,
{
    let table: [usize; 16] = [12, 6, 9, 4, 3, 14, 1, 10, 13, 2, 7, 15, 0, 8, 5, 11];
    table[i]
}

fn key_at(i: usize) -> (r: u8)
    requires
        i < 21,
    ensures
        r == key_byte(i as int),
{
    let key: [u8; 21] = [
        0x47, 0x65, 0x6e, 0x65, 0x72, 0x61, 0x74, 0x65, 0x50, 0x61, 0x63, 0x6b, 0x61, 0x67,
        0x65, 0x4d, 0x61, 0x70, 0x70, 0x65, 0x72,
    ];
    key[i]
}


/// How many swaps the mirror stage makes on a buffer of `len` bytes.
pub open spec fn swap_count(len: int) -> int {
    if len > 2 {
        (len / 2 + 1) / 2
    } else {
        0
    }
}

/// Whether the advancing cursor of the mirror stage, which starts at 1 and
/// moves by 2, reaches position `k` within the first `done` swaps.
pub open spec fn low_cursor_hits(k: int, done: int) -> bool {
    k % 2 == 1 && 0 < k < 2 * done
}

/// Whether one of the first `done` swaps of the mirror stage moves the byte at
/// position `k` of a buffer of `len` bytes. The retreating cursor starts at
/// `len - 1`, so the two cursors always sum to `len`.
pub open spec fn swapped_within(len: int, k: int, done: int) -> bool {
    low_cursor_hits(k, done) || low_cursor_hits(len - k, done)
}

/// The position that the mirror stage moves to position `k`.
pub open spec fn mirror(len: int, k: int) -> int {
    if swapped_within(len, k, swap_count(len)) {
        len - k
    } else {
        k
    }
}

/// The position inside the same block that the permutation moves to `k`;
/// positions of a trailing partial block stay.
pub open spec fn permuted_from(len: int, k: int) -> int {
    if k < (len / 16) * 16 {
        (k / 16) * 16 + perm(k % 16)
    } else {
        k
    }
}

/// As [`permuted_from`], for the inverse permutation.
pub open spec fn unpermuted_from(len: int, k: int) -> int {
    if k < (len / 16) * 16 {
        (k / 16) * 16 + perm_inv(k % 16)
    } else {
        k
    }
}

/// XOR of every byte with the key, cycled by position.
pub open spec fn xor_stage(s: Seq<u8>) -> Seq<u8> {
    Seq::new(s.len(), |k: int| s[k] ^ key_byte(k % 21))
}

/// The mirror swap over the whole buffer.
pub open spec fn mirror_stage(s: Seq<u8>) -> Seq<u8> {
    Seq::new(s.len(), |k: int| s[mirror(s.len() as int, k)])
}

/// The permutation of every full 16-byte block.
pub open spec fn permute_stage(s: Seq<u8>) -> Seq<u8> {
    Seq::new(s.len(), |k: int| s[permuted_from(s.len() as int, k)])
}

/// The inverse permutation of every full 16-byte block.
pub open spec fn unpermute_stage(s: Seq<u8>) -> Seq<u8> {
    Seq::new(s.len(), |k: int| s[unpermuted_from(s.len() as int, k)])
}

/// The encrypted form of `s`: XOR, then mirror swap, then block permutation.
pub open spec fn encrypted(s: Seq<u8>) -> Seq<u8> {
    permute_stage(mirror_stage(xor_stage(s)))
}

/// The plain form of `s`: inverse block permutation, then mirror swap, then XOR.
pub open spec fn decrypted(s: Seq<u8>) -> Seq<u8> {
    xor_stage(mirror_stage(unpermute_stage(s)))
}

proof fn lemma_xor_twice(x: u8, k: u8)
    ensures
        (x ^ k) ^ k == x,
{
    assert((x ^ k) ^ k == x) by (bit_vector);
}

/// The XOR stage undoes itself.
pub proof fn lemma_xor_stage_involution(s: Seq<u8>)
    ensures
        xor_stage(xor_stage(s)) == s,
{
    assert forall|k: int| 0 <= k < s.len() implies xor_stage(xor_stage(s))[k] == s[k] by {
        lemma_xor_twice(s[k], key_byte(k % 21));
    }
    assert(xor_stage(xor_stage(s)) =~= s);
}

/// The mirror stage keeps every position inside the buffer and undoes itself.
pub proof fn lemma_mirror_involution(len: int, k: int)
    requires
        0 <= k < len,
    ensures
        0 <= mirror(len, k) < len,
        mirror(len, mirror(len, k)) == k,
{
}

/// The mirror stage undoes itself.
pub proof fn lemma_mirror_stage_involution(s: Seq<u8>)
    ensures
        mirror_stage(mirror_stage(s)) == s,
{
    assert forall|k: int| 0 <= k < s.len() implies mirror_stage(mirror_stage(s))[k] == s[k] by {
        lemma_mirror_involution(s.len() as int, k);
    }
    assert(mirror_stage(mirror_stage(s)) =~= s);
}

/// The two block permutations stay inside the buffer and undo each other.
pub proof fn lemma_permutation_inverse(len: int, k: int)
    requires
        0 <= k < len,
    ensures
        0 <= permuted_from(len, k) < len,
        0 <= unpermuted_from(len, k) < len,
        permuted_from(len, unpermuted_from(len, k)) == k,
        unpermuted_from(len, permuted_from(len, k)) == k,
{
    let full = (len / 16) * 16;
    if k < full {
        let base = (k / 16) * 16;
        let r = k % 16;
        assert(base + r == k);
        assert(base + 16 <= full);
        assert(0 <= perm(r) < 16 && 0 <= perm_inv(r) < 16);
        assert((base + perm(r)) / 16 == k / 16 && (base + perm(r)) % 16 == perm(r));
        assert((base + perm_inv(r)) / 16 == k / 16 && (base + perm_inv(r)) % 16 == perm_inv(r));
        assert(perm(perm_inv(r)) == r && perm_inv(perm(r)) == r);
    }
}

/// Permuting and then un-permuting the blocks gives the buffer back.
pub proof fn lemma_unpermute_permute(s: Seq<u8>)
    ensures
        unpermute_stage(permute_stage(s)) == s,
        permute_stage(unpermute_stage(s)) == s,
{
    assert forall|k: int| 0 <= k < s.len() implies unpermute_stage(permute_stage(s))[k] == s[k]
        && permute_stage(unpermute_stage(s))[k] == s[k] by {
        lemma_permutation_inverse(s.len() as int, k);
    }
    assert(unpermute_stage(permute_stage(s)) =~= s);
    assert(permute_stage(unpermute_stage(s)) =~= s);
}

/// Decryption undoes encryption, for every byte string of every length.
pub proof fn lemma_decrypt_encrypt(s: Seq<u8>)
    ensures
        decrypted(encrypted(s)) == s,
        encrypted(s).len() == s.len(),
{
    let x = xor_stage(s);
    let m = mirror_stage(x);
    lemma_unpermute_permute(m);
    lemma_mirror_stage_involution(x);
    lemma_xor_stage_involution(s);
}

/// Encryption undoes decryption, for every byte string of every length.
pub proof fn lemma_encrypt_decrypt(s: Seq<u8>)
    ensures
        encrypted(decrypted(s)) == s,
        decrypted(s).len() == s.len(),
{
    let u = unpermute_stage(s);
    let m = mirror_stage(u);
    lemma_xor_stage_involution(m);
    lemma_mirror_stage_involution(u);
    lemma_unpermute_permute(s);
}

fn apply_xor(buf: &mut Vec<u8>)
    ensures
        final(buf)@ == xor_stage(old(buf)@),
{
    let size = buf.len();
    let mut i: usize = 0;
    while i < size
        invariant
            i <= size,
            buf.len() == size,
            old(buf).len() == size,
            forall|k: int| 0 <= k < i ==> buf[k] == old(buf)[k] ^ key_byte(k % 21),
            forall|k: int| i <= k < size ==> buf[k] == old(buf)[k],
        decreases size - i,
    {
        let b = buf[i] ^ key_at(i % 21);
        buf.set(i, b);
        i += 1;
    }
    assert(buf@ =~= xor_stage(old(buf)@));
}

fn apply_mirror(buf: &mut Vec<u8>)
    ensures
        final(buf)@ == mirror_stage(old(buf)@),
{
    let size = buf.len();
    if size > 2 {
        let count = (size / 2 + 1) / 2;
        let mut a: usize = 1;
        let mut b: usize = size - 1;
        let mut i: usize = 0;
        while i < count
            invariant
                size > 2,
                count == swap_count(size as int),
                i <= count,
                a == 1 + 2 * i,
                a + b == size,
                buf.len() == size,
                old(buf).len() == size,
                forall|k: int|
                    0 <= k < size ==> buf[k] == if swapped_within(size as int, k, i as int) {
                        old(buf)[size - k]
                    } else {
                        old(buf)[k]
                    },
            decreases count - i,
        {
            let low = buf[a];
            let high = buf[b];
            buf.set(a, high);
            buf.set(b, low);
            a += 2;
            b = b.saturating_sub(2);
            i += 1;
        }
    }
    assert(buf@ =~= mirror_stage(old(buf)@));
}

fn apply_permutation(buf: &mut Vec<u8>, inverse: bool)
    ensures
        !inverse ==> final(buf)@ == permute_stage(old(buf)@),
        inverse ==> final(buf)@ == unpermute_stage(old(buf)@),
{
    let size = buf.len();
    let mut offset: usize = 0;
    while size - offset >= 16
        invariant
            offset <= size,
            offset % 16 == 0,
            buf.len() == size,
            old(buf).len() == size,
            forall|k: int|
                0 <= k < offset ==> #[trigger] buf[k] == old(buf)[(k / 16) * 16 + if inverse {
                    perm_inv(k % 16)
                } else {
                    perm(k % 16)
                }],
            forall|k: int| offset <= k < size ==> buf[k] == old(buf)[k],
        decreases size - offset,
    {
        let mut tmp: Vec<u8> = Vec::with_capacity(16);
        let mut j: usize = 0;
        while j < 16
            invariant
                j <= 16,
                offset + 16 <= size,
                buf.len() == size,
                tmp.len() == j,
                forall|k: int| 0 <= k < j ==> tmp[k] == buf[offset + k],
            decreases 16 - j,
        {
            tmp.push(buf[offset + j]);
            j += 1;
        }
        let ghost before = buf@;
        let mut i: usize = 0;
        while i < 16
            invariant
                i <= 16,
                offset + 16 <= size,
                buf.len() == size,
                before.len() == size,
                tmp.len() == 16,
                forall|k: int| 0 <= k < 16 ==> tmp[k] == before[offset + k],
                forall|k: int| 0 <= k < offset || offset + 16 <= k < size ==> buf[k] == before[k],
                !inverse ==> forall|k: int|
                    offset <= k < offset + 16 ==> buf[k] == if k - offset < i {
                        tmp[perm(k - offset)]
                    } else {
                        before[k]
                    },
                inverse ==> forall|k: int|
                    offset <= k < offset + 16 ==> buf[k] == if perm_inv(k - offset) < i {
                        tmp[perm_inv(k - offset)]
                    } else {
                        before[k]
                    },
            decreases 16 - i,
        {
            let p = perm_at(i);
            if inverse {
                assert(perm_inv(p as int) == i);
                assert forall|r: int| 0 <= r < 16 && r != p implies perm_inv(r) != i by {
                    assert(perm(perm_inv(r)) == r);
                }
                buf.set(offset + p, tmp[i]);
            } else {
                buf.set(offset + i, tmp[p]);
            }
            i += 1;
        }
        proof {
            assert forall|k: int| 0 <= k < offset + 16 implies #[trigger] buf[k] == old(buf)[(k
                / 16) * 16 + if inverse {
                perm_inv(k % 16)
            } else {
                perm(k % 16)
            }] by {
                if k < offset {
                    assert(buf[k] == before[k]);
                } else {
                    let r = k - offset;
                    assert(k / 16 == offset / 16 && k % 16 == r);
                    assert((k / 16) * 16 == offset);
                    assert(0 <= perm(r) < 16 && 0 <= perm_inv(r) < 16);
                    assert(tmp[perm(r)] == before[offset + perm(r)]);
                    assert(tmp[perm_inv(r)] == before[offset + perm_inv(r)]);
                }
            }
        }
        offset += 16;
    }
    proof {
        assert(offset == (size / 16) * 16);
        if inverse {
            assert(buf@ =~= unpermute_stage(old(buf)@));
        } else {
            assert(buf@ =~= permute_stage(old(buf)@));
        }
    }
}

fn copy_bytes(input: &[u8]) -> (out: Vec<u8>)
    ensures
        out@ == input@,
{
    let mut out: Vec<u8> = Vec::with_capacity(input.len());
    let mut i: usize = 0;
    while i < input.len()
        invariant
            i <= input.len(),
            out@ == input@.take(i as int),
        decreases input.len() - i,
    {
        out.push(input[i]);
        assert(input@.take(i + 1) =~= input@.take(i as int).push(input[i as int]));
        i += 1;
    }
    assert(input@.take(input.len() as int) =~= input@);
    out
}

/// Encrypts a plain composite map.
pub fn encrypt_mapper(input: &[u8]) -> (out: Vec<u8>)
    ensures
        out@ == encrypted(input@),
        out.len() == input.len(),
{
    let mut buf = copy_bytes(input);
    apply_xor(&mut buf);
    apply_mirror(&mut buf);
    apply_permutation(&mut buf, false);
    buf
}

/// Decrypts an encrypted composite map to the plain bytes.
pub fn decrypt_bytes(input: &[u8]) -> (out: Vec<u8>)
    ensures
        out@ == decrypted(input@),
        out.len() == input.len(),
{
    let mut buf = copy_bytes(input);
    apply_permutation(&mut buf, true);
    apply_mirror(&mut buf);
    apply_xor(&mut buf);
    buf
}


/// The text of an encrypted composite map.
pub open spec fn plain_text(encrypted_map: Seq<u8>) -> Seq<char> {
    utf8_lossy(decrypted(encrypted_map))
}

/// Decrypts an encrypted composite map to its text. Bytes that are not UTF-8
/// are replaced, never refused.
pub fn decrypt_mapper(input: &[u8]) -> (text: String)
    ensures
        text@ == plain_text(input@),
        vstd::utf8::valid_utf8(decrypted(input@)) ==> text@ == vstd::utf8::decode_utf8(
            decrypted(input@),
        ),
{
    let plain = decrypt_bytes(input);
    decode_utf8_lossy(plain.as_slice())
}

/// Encrypts the text of a composite map.
pub fn encrypt_text(text: &str) -> (out: Vec<u8>)
    ensures
        out@ == encrypted(text.spec_bytes()),
{
    encrypt_mapper(text.as_bytes())
}

/// A text that is encrypted and decrypted comes back unchanged.
pub proof fn lemma_text_round_trip(text: Seq<char>)
    ensures
        vstd::utf8::valid_utf8(decrypted(encrypted(vstd::utf8::encode_utf8(text)))),
        vstd::utf8::decode_utf8(decrypted(encrypted(vstd::utf8::encode_utf8(text)))) == text,
{
    lemma_decrypt_encrypt(vstd::utf8::encode_utf8(text));
    vstd::utf8::encode_utf8_valid_utf8(text);
    vstd::utf8::encode_utf8_decode_utf8(text);
}

} // verus!
