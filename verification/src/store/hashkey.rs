use vstd::prelude::*;

verus! {

/// FNV-1a 64-bit offset basis.
pub const FNV_OFFSET: u64 = 0xcbf29ce484222325;

/// FNV-1a 64-bit prime.
pub const FNV_PRIME: u64 = 0x100000001b3;

/// First multiplier of the final avalanche step.
pub const MIX_A: u64 = 0xff51afd7ed558ccd;

/// Second multiplier of the final avalanche step.
pub const MIX_B: u64 = 0xc4ceb9fe1a85ec53;

/// One FNV-1a round: xor the byte in, then multiply (mod 2^64) by the prime.
pub open spec fn fnv_step(h: u64, b: u8) -> u64 {
    vstd::wrapping::u64_specs::wrapping_mul(h ^ (b as u64), FNV_PRIME)
}

/// FNV-1a over a byte sequence.
pub open spec fn fnv1a(bytes: Seq<u8>) -> u64
    decreases bytes.len(),
{
    if bytes.len() == 0 {
        FNV_OFFSET
    } else {
        fnv_step(fnv1a(bytes.drop_last()), bytes.last())
    }
}

/// The avalanche step applied to the FNV state.
pub open spec fn mix64(h: u64) -> u64 {
    let h1 = h ^ (h >> 33u64);
    let h2 = vstd::wrapping::u64_specs::wrapping_mul(h1, MIX_A);
    let h3 = h2 ^ (h2 >> 33u64);
    let h4 = vstd::wrapping::u64_specs::wrapping_mul(h3, MIX_B);
    h4 ^ (h4 >> 33u64)
}

/// The hash of a key, as a function of the bytes the key feeds to the hasher.
pub open spec fn key_hash(bytes: Seq<u8>) -> u64 {
    mix64(fnv1a(bytes))
}

proof fn lemma_fnv_push(bytes: Seq<u8>, b: u8)
    ensures
        fnv1a(bytes.push(b)) == fnv_step(fnv1a(bytes), b),
{
    assert(bytes.push(b).drop_last() =~= bytes);
}

/// Runs FNV-1a over `bytes`, starting from state `h`.
fn fnv_extend(h: u64, bytes: &[u8], Ghost(prefix): Ghost<Seq<u8>>) -> (r: u64)
    requires
        h == fnv1a(prefix),
    ensures
        r == fnv1a(prefix + bytes@),
{
    let mut acc = h;
    let n = bytes.len();
    let mut i: usize = 0;
    while i < n
        invariant
            n == bytes@.len(),
            i <= n,
            acc == fnv1a(prefix + bytes@.take(i as int)),
        decreases n - i,
    {
        proof {
            lemma_fnv_push(prefix + bytes@.take(i as int), bytes@[i as int]);
            assert((prefix + bytes@.take(i as int)).push(bytes@[i as int]) =~= prefix + bytes@.take(
                i + 1,
            ));
        }
        acc = (acc ^ (bytes[i] as u64)).wrapping_mul(FNV_PRIME);
        i = i + 1;
    }
    assert(bytes@.take(n as int) =~= bytes@);
    acc
}

/// The avalanche step.
fn mix(h: u64) -> (r: u64)
    ensures
        r == mix64(h),
{
    let mut x = h;
    x ^= x >> 33u64;
    x = x.wrapping_mul(MIX_A);
    x ^= x >> 33u64;
    x = x.wrapping_mul(MIX_B);
    x ^= x >> 33u64;
    x
}

/// A key of the hash table. A key is identified by the bytes it feeds to the
/// hasher: two keys are the same key exactly when these bytes are equal.
pub trait HashKey: Sized {
    /// The bytes this key feeds to the hasher.
    spec fn key_bytes(&self) -> Seq<u8>;

    /// The hash of this key.
    fn hash_key(&self) -> (h: u64)
        ensures
            h == key_hash(self.key_bytes()),
    ;

    /// Whether two keys are the same key.
    fn same_key(&self, other: &Self) -> (b: bool)
        ensures
            b == (self.key_bytes() == other.key_bytes()),
    ;
}

/// The bytes a string key feeds to the hasher: its UTF-8 bytes, then `0xff`.
pub open spec fn str_key(s: Seq<char>) -> Seq<u8> {
    vstd::utf8::encode_utf8(s).push(0xffu8)
}

/// The string whose key bytes are `kb`.
pub open spec fn key_str(kb: Seq<u8>) -> Seq<char> {
    vstd::utf8::decode_utf8(kb.drop_last())
}

/// The string of a string key's bytes is that string.
pub proof fn lemma_key_str(s: Seq<char>)
    ensures
        key_str(str_key(s)) == s,
{
    broadcast use vstd::utf8::encode_utf8_decode_utf8;

    assert(str_key(s).drop_last() =~= vstd::utf8::encode_utf8(s));
}

/// Different strings are different keys.
pub proof fn lemma_str_key_injective(a: Seq<char>, b: Seq<char>)
    ensures
        str_key(a) == str_key(b) ==> a == b,
{
    broadcast use vstd::utf8::encode_utf8_decode_utf8;

    let x = vstd::utf8::encode_utf8(a);
    let y = vstd::utf8::encode_utf8(b);
    if x.push(0xffu8) == y.push(0xffu8) {
        assert(x =~= x.push(0xffu8).drop_last());
        assert(y =~= y.push(0xffu8).drop_last());
        assert(vstd::utf8::decode_utf8(x) == vstd::utf8::decode_utf8(y));
    }
}

impl HashKey for String {
    /// The UTF-8 bytes of the string followed by the terminator byte `0xff`.
    open spec fn key_bytes(&self) -> Seq<u8> {
        str_key(self@)
    }

    fn hash_key(&self) -> (h: u64) {
        let bytes = self.as_str().as_bytes();
        let h0 = fnv_extend(FNV_OFFSET, bytes, Ghost(Seq::empty()));
        assert(Seq::<u8>::empty() + bytes@ =~= bytes@);
        let h1 = (h0 ^ 0xffu64).wrapping_mul(FNV_PRIME);
        proof {
            lemma_fnv_push(bytes@, 0xffu8);
        }
        mix(h1)
    }

    fn same_key(&self, other: &Self) -> (b: bool) {
        let r = *self == *other;
        proof {
            lemma_str_key_injective(self@, other@);
        }
        r
    }
}

/// The four little-endian bytes of a 32-bit integer.
pub open spec fn le_bytes_u32(x: u32) -> Seq<u8> {
    seq![
        (x & 0xff) as u8,
        ((x >> 8u32) & 0xff) as u8,
        ((x >> 16u32) & 0xff) as u8,
        ((x >> 24u32) & 0xff) as u8,
    ]
}

impl HashKey for i32 {
    /// The four bytes of the integer, least significant first.
    open spec fn key_bytes(&self) -> Seq<u8> {
        le_bytes_u32(*self as u32)
    }

    fn hash_key(&self) -> (h: u64) {
        let x = #[verifier::truncate] (*self as u32);
        let bytes: [u8; 4] = [
            (x & 0xff) as u8,
            ((x >> 8u32) & 0xff) as u8,
            ((x >> 16u32) & 0xff) as u8,
            ((x >> 24u32) & 0xff) as u8,
        ];
        let h = fnv_extend(FNV_OFFSET, bytes.as_slice(), Ghost(Seq::empty()));
        assert(Seq::<u8>::empty() + bytes@ =~= le_bytes_u32(x));
        mix(h)
    }

    fn same_key(&self, other: &Self) -> (b: bool) {
        let a = *self;
        let c = *other;
        let x = #[verifier::truncate] (a as u32);
        let y = #[verifier::truncate] (c as u32);
        proof {
            assert(x == y ==> a == c) by (bit_vector)
                requires
                    x == a as u32,
                    y == c as u32,
            ;
            if le_bytes_u32(x) == le_bytes_u32(y) {
                assert(le_bytes_u32(x)[0] == le_bytes_u32(y)[0]);
                assert(le_bytes_u32(x)[1] == le_bytes_u32(y)[1]);
                assert(le_bytes_u32(x)[2] == le_bytes_u32(y)[2]);
                assert(le_bytes_u32(x)[3] == le_bytes_u32(y)[3]);
                assert(x == y) by (bit_vector)
                    requires
                        (x & 0xff) as u8 == (y & 0xff) as u8,
                        ((x >> 8u32) & 0xff) as u8 == ((y >> 8u32) & 0xff) as u8,
                        ((x >> 16u32) & 0xff) as u8 == ((y >> 16u32) & 0xff) as u8,
                        ((x >> 24u32) & 0xff) as u8 == ((y >> 24u32) & 0xff) as u8,
                ;
            }
        }
        *self == *other
    }
}

} // verus!
