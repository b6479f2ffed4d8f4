//! Content digests: a deterministic 64-bit digest of an entry's final byte
//! content, rendered as sixteen lowercase hex characters.  The digest is a
//! pure function of the bytes alone, which is what makes hashed final paths
//! reproducible across builds.

use vstd::prelude::*;

verus! {

pub const FNV_OFFSET_BASIS: u64 = 0xcbf2_9ce4_8422_2325;

pub const FNV_PRIME: u64 = 0x0000_0100_0000_01b3;

/// One step of the digest: fold a byte into the accumulator.
pub open spec fn digest_step(acc: u64, byte: u8) -> u64 {
    (((acc ^ (byte as u64)) as nat * (FNV_PRIME as nat)) % 0x1_0000_0000_0000_0000) as u64
}

/// The digest of a byte sequence: the FNV-1a fold over all bytes.
pub open spec fn digest(bytes: Seq<u8>) -> u64
    decreases bytes.len(),
{
    if bytes.len() == 0 {
        FNV_OFFSET_BASIS
    } else {
        digest_step(digest(bytes.drop_last()), bytes.last())
    }
}

/// The lowercase hex character for a value below sixteen.
pub open spec fn hex_char(d: u64) -> char {
    if d == 0 { '0' } else if d == 1 { '1' } else if d == 2 { '2' } else if d == 3 { '3' }
    else if d == 4 { '4' } else if d == 5 { '5' } else if d == 6 { '6' } else if d == 7 { '7' }
    else if d == 8 { '8' } else if d == 9 { '9' } else if d == 10 { 'a' } else if d == 11 { 'b' }
    else if d == 12 { 'c' } else if d == 13 { 'd' } else if d == 14 { 'e' } else { 'f' }
}

/// The sixteen hex characters of a 64-bit value, most significant first.
pub open spec fn hex64(h: u64) -> Seq<char> {
    seq![
        hex_char((h >> 60) & 0xf), hex_char((h >> 56) & 0xf),
        hex_char((h >> 52) & 0xf), hex_char((h >> 48) & 0xf),
        hex_char((h >> 44) & 0xf), hex_char((h >> 40) & 0xf),
        hex_char((h >> 36) & 0xf), hex_char((h >> 32) & 0xf),
        hex_char((h >> 28) & 0xf), hex_char((h >> 24) & 0xf),
        hex_char((h >> 20) & 0xf), hex_char((h >> 16) & 0xf),
        hex_char((h >> 12) & 0xf), hex_char((h >> 8) & 0xf),
        hex_char((h >> 4) & 0xf), hex_char(h & 0xf),
    ]
}

/// The hash segment inserted into final paths: the hex rendering of the
/// digest of the final content.
pub open spec fn hash_segment(content: Seq<u8>) -> Seq<char> {
    hex64(digest(content))
}

proof fn lemma_nibble_bound(x: u64)
    ensures
        x & 0xf < 16,
{
    assert(x & 0xf < 16) by (bit_vector);
}

fn hex_char_str(d: u64) -> (r: &'static str)
    requires
        d < 16,
    ensures
        r@ =~= seq![hex_char(d)],
{
    proof {
        reveal_strlit("0"); reveal_strlit("1"); reveal_strlit("2"); reveal_strlit("3");
        reveal_strlit("4"); reveal_strlit("5"); reveal_strlit("6"); reveal_strlit("7");
        reveal_strlit("8"); reveal_strlit("9"); reveal_strlit("a"); reveal_strlit("b");
        reveal_strlit("c"); reveal_strlit("d"); reveal_strlit("e"); reveal_strlit("f");
    }
    if d == 0 { "0" } else if d == 1 { "1" } else if d == 2 { "2" } else if d == 3 { "3" }
    else if d == 4 { "4" } else if d == 5 { "5" } else if d == 6 { "6" } else if d == 7 { "7" }
    else if d == 8 { "8" } else if d == 9 { "9" } else if d == 10 { "a" } else if d == 11 { "b" }
    else if d == 12 { "c" } else if d == 13 { "d" } else if d == 14 { "e" } else { "f" }
}

/// Computes the digest of the given bytes.
pub fn compute_digest(bytes: &Vec<u8>) -> (h: u64)
    ensures
        h == digest(bytes@),
{
    let mut acc: u64 = FNV_OFFSET_BASIS;
    let mut i: usize = 0;
    while i < bytes.len()
        invariant
            0 <= i <= bytes@.len(),
            acc == digest(bytes@.take(i as int)),
        decreases bytes@.len() - i,
    {
        acc = (acc ^ (bytes[i] as u64)).wrapping_mul(FNV_PRIME);
        i = i + 1;
        proof {
            let t = bytes@.take(i as int);
            assert(t.drop_last() =~= bytes@.take(i - 1));
            assert(t.last() == bytes@[i - 1]);
        }
    }
    proof {
        assert(bytes@.take(bytes@.len() as int) =~= bytes@);
    }
    acc
}

/// Renders a 64-bit digest as sixteen lowercase hex characters.
pub fn render_hex64(h: u64) -> (s: String)
    ensures
        s@ == hex64(h),
{
    proof {
        lemma_nibble_bound(h >> 60); lemma_nibble_bound(h >> 56);
        lemma_nibble_bound(h >> 52); lemma_nibble_bound(h >> 48);
        lemma_nibble_bound(h >> 44); lemma_nibble_bound(h >> 40);
        lemma_nibble_bound(h >> 36); lemma_nibble_bound(h >> 32);
        lemma_nibble_bound(h >> 28); lemma_nibble_bound(h >> 24);
        lemma_nibble_bound(h >> 20); lemma_nibble_bound(h >> 16);
        lemma_nibble_bound(h >> 12); lemma_nibble_bound(h >> 8);
        lemma_nibble_bound(h >> 4); lemma_nibble_bound(h);
    }
    let mut s = String::new();
    s.append(hex_char_str((h >> 60) & 0xf));
    s.append(hex_char_str((h >> 56) & 0xf));
    s.append(hex_char_str((h >> 52) & 0xf));
    s.append(hex_char_str((h >> 48) & 0xf));
    s.append(hex_char_str((h >> 44) & 0xf));
    s.append(hex_char_str((h >> 40) & 0xf));
    s.append(hex_char_str((h >> 36) & 0xf));
    s.append(hex_char_str((h >> 32) & 0xf));
    s.append(hex_char_str((h >> 28) & 0xf));
    s.append(hex_char_str((h >> 24) & 0xf));
    s.append(hex_char_str((h >> 20) & 0xf));
    s.append(hex_char_str((h >> 16) & 0xf));
    s.append(hex_char_str((h >> 12) & 0xf));
    s.append(hex_char_str((h >> 8) & 0xf));
    s.append(hex_char_str((h >> 4) & 0xf));
    s.append(hex_char_str(h & 0xf));
    proof {
        assert(s@ =~= hex64(h));
    }
    s
}

/// Computes the hash segment of the given content.
pub fn compute_hash_segment(content: &Vec<u8>) -> (s: String)
    ensures
        s@ == hash_segment(content@),
{
    let h = compute_digest(content);
    render_hex64(h)
}

proof fn lemma_mul_prime_inj(x: u64, y: u64)
    by (bit_vector)
    requires
        (x * 0x0000_0100_0000_01b3) % 0x1_0000_0000_0000_0000 == (y * 0x0000_0100_0000_01b3)
            % 0x1_0000_0000_0000_0000,
    ensures
        x == y,
{
}

proof fn lemma_step_inj(a1: u64, a2: u64, b1: u8, b2: u8)
    requires
        digest_step(a1, b1) == digest_step(a2, b2),
    ensures
        a1 ^ (b1 as u64) == a2 ^ (b2 as u64),
        b1 == b2 ==> a1 == a2,
        a1 == a2 ==> b1 == b2,
{
    lemma_mul_prime_inj(a1 ^ (b1 as u64), a2 ^ (b2 as u64));
    assert((a1 ^ (b1 as u64)) == (a2 ^ (b2 as u64)) && b1 == b2 ==> a1 == a2) by (bit_vector);
    assert((a1 ^ (b1 as u64)) == (a2 ^ (b2 as u64)) && a1 == a2 ==> b1 == b2) by (bit_vector);
}

/// Changing exactly one byte of the input always changes the digest: each
/// fold step is injective in both the accumulator and the byte.
pub proof fn lemma_digest_one_byte_change(a: Seq<u8>, b: Seq<u8>, i: int)
    requires
        a.len() == b.len(),
        0 <= i < a.len(),
        a[i] != b[i],
        forall|j: int| 0 <= j < a.len() && j != i ==> a[j] == b[j],
    ensures
        digest(a) != digest(b),
    decreases a.len(),
{
    if i == a.len() - 1 {
        assert(a.drop_last() =~= b.drop_last());
        if digest(a) == digest(b) {
            lemma_step_inj(digest(a.drop_last()), digest(b.drop_last()), a.last(), b.last());
        }
    } else {
        assert(a.drop_last()[i] != b.drop_last()[i]);
        lemma_digest_one_byte_change(a.drop_last(), b.drop_last(), i);
        if digest(a) == digest(b) {
            lemma_step_inj(digest(a.drop_last()), digest(b.drop_last()), a.last(), b.last());
        }
    }
}

proof fn lemma_hex64_inj(h1: u64, h2: u64)
    requires
        hex64(h1) == hex64(h2),
    ensures
        h1 == h2,
{
    assert(hex64(h1)[0] == hex64(h2)[0]);
    assert(hex64(h1)[1] == hex64(h2)[1]);
    assert(hex64(h1)[2] == hex64(h2)[2]);
    assert(hex64(h1)[3] == hex64(h2)[3]);
    assert(hex64(h1)[4] == hex64(h2)[4]);
    assert(hex64(h1)[5] == hex64(h2)[5]);
    assert(hex64(h1)[6] == hex64(h2)[6]);
    assert(hex64(h1)[7] == hex64(h2)[7]);
    assert(hex64(h1)[8] == hex64(h2)[8]);
    assert(hex64(h1)[9] == hex64(h2)[9]);
    assert(hex64(h1)[10] == hex64(h2)[10]);
    assert(hex64(h1)[11] == hex64(h2)[11]);
    assert(hex64(h1)[12] == hex64(h2)[12]);
    assert(hex64(h1)[13] == hex64(h2)[13]);
    assert(hex64(h1)[14] == hex64(h2)[14]);
    assert(hex64(h1)[15] == hex64(h2)[15]);
    lemma_nibble_bound(h1 >> 60); lemma_nibble_bound(h2 >> 60);
    lemma_nibble_bound(h1 >> 56); lemma_nibble_bound(h2 >> 56);
    lemma_nibble_bound(h1 >> 52); lemma_nibble_bound(h2 >> 52);
    lemma_nibble_bound(h1 >> 48); lemma_nibble_bound(h2 >> 48);
    lemma_nibble_bound(h1 >> 44); lemma_nibble_bound(h2 >> 44);
    lemma_nibble_bound(h1 >> 40); lemma_nibble_bound(h2 >> 40);
    lemma_nibble_bound(h1 >> 36); lemma_nibble_bound(h2 >> 36);
    lemma_nibble_bound(h1 >> 32); lemma_nibble_bound(h2 >> 32);
    lemma_nibble_bound(h1 >> 28); lemma_nibble_bound(h2 >> 28);
    lemma_nibble_bound(h1 >> 24); lemma_nibble_bound(h2 >> 24);
    lemma_nibble_bound(h1 >> 20); lemma_nibble_bound(h2 >> 20);
    lemma_nibble_bound(h1 >> 16); lemma_nibble_bound(h2 >> 16);
    lemma_nibble_bound(h1 >> 12); lemma_nibble_bound(h2 >> 12);
    lemma_nibble_bound(h1 >> 8); lemma_nibble_bound(h2 >> 8);
    lemma_nibble_bound(h1 >> 4); lemma_nibble_bound(h2 >> 4);
    lemma_nibble_bound(h1); lemma_nibble_bound(h2);
    assert((h1 >> 60) & 0xf == (h2 >> 60) & 0xf && (h1 >> 56) & 0xf == (h2 >> 56) & 0xf
        && (h1 >> 52) & 0xf == (h2 >> 52) & 0xf && (h1 >> 48) & 0xf == (h2 >> 48) & 0xf
        && (h1 >> 44) & 0xf == (h2 >> 44) & 0xf && (h1 >> 40) & 0xf == (h2 >> 40) & 0xf
        && (h1 >> 36) & 0xf == (h2 >> 36) & 0xf && (h1 >> 32) & 0xf == (h2 >> 32) & 0xf
        && (h1 >> 28) & 0xf == (h2 >> 28) & 0xf && (h1 >> 24) & 0xf == (h2 >> 24) & 0xf
        && (h1 >> 20) & 0xf == (h2 >> 20) & 0xf && (h1 >> 16) & 0xf == (h2 >> 16) & 0xf
        && (h1 >> 12) & 0xf == (h2 >> 12) & 0xf && (h1 >> 8) & 0xf == (h2 >> 8) & 0xf
        && (h1 >> 4) & 0xf == (h2 >> 4) & 0xf && h1 & 0xf == h2 & 0xf);
    assert((h1 >> 60) & 0xf == (h2 >> 60) & 0xf && (h1 >> 56) & 0xf == (h2 >> 56) & 0xf
        && (h1 >> 52) & 0xf == (h2 >> 52) & 0xf && (h1 >> 48) & 0xf == (h2 >> 48) & 0xf
        && (h1 >> 44) & 0xf == (h2 >> 44) & 0xf && (h1 >> 40) & 0xf == (h2 >> 40) & 0xf
        && (h1 >> 36) & 0xf == (h2 >> 36) & 0xf && (h1 >> 32) & 0xf == (h2 >> 32) & 0xf
        && (h1 >> 28) & 0xf == (h2 >> 28) & 0xf && (h1 >> 24) & 0xf == (h2 >> 24) & 0xf
        && (h1 >> 20) & 0xf == (h2 >> 20) & 0xf && (h1 >> 16) & 0xf == (h2 >> 16) & 0xf
        && (h1 >> 12) & 0xf == (h2 >> 12) & 0xf && (h1 >> 8) & 0xf == (h2 >> 8) & 0xf
        && (h1 >> 4) & 0xf == (h2 >> 4) & 0xf && h1 & 0xf == h2 & 0xf ==> h1 == h2) by (bit_vector);
}

/// Changing exactly one byte of the content always changes the hash
/// segment: the digest changes and the hex rendering is injective.
pub proof fn lemma_hash_segment_one_byte_change(a: Seq<u8>, b: Seq<u8>, i: int)
    requires
        a.len() == b.len(),
        0 <= i < a.len(),
        a[i] != b[i],
        forall|j: int| 0 <= j < a.len() && j != i ==> a[j] == b[j],
    ensures
        hash_segment(a) != hash_segment(b),
{
    lemma_digest_one_byte_change(a, b, i);
    if hash_segment(a) == hash_segment(b) {
        lemma_hex64_inj(digest(a), digest(b));
    }
}

/// The hash segment is a pure function of the final content: identical
/// content, in whatever build it arises, carries an identical segment.
pub proof fn lemma_hash_segment_pure(c1: Seq<u8>, c2: Seq<u8>)
    requires
        c1 == c2,
    ensures
        hash_segment(c1) == hash_segment(c2),
{
}

} // verus!
