//! Seeded permutation tables and integer hashing for coherent noise.
//!
//! A [`Noise`] holds a seed and a 512-entry permutation table: a
//! seed-driven Fisher-Yates shuffle of the bytes `0..=255`, repeated twice so
//! lookups can index past 255 without wrapping. The gradient, value, simplex
//! and cellular noise evaluated from it are floating point and live outside
//! the verified library.

use vstd::prelude::*;

verus! {

/// Which base noise a fractal sum layers.
#[derive(Clone, Copy, Debug, PartialEq, Eq, Structural)]
pub enum NoiseKind {
    Perlin,
    Simplex,
    Value,
}

/// The integer bit-mix hash: xor-shift, multiply, xor-shift, multiply,
/// xor-shift (all products wrap modulo 2^32).
pub open spec fn mix(x: u32) -> u32 {
    let a = x ^ (x >> 16u32);
    let b = a.wrapping_mul(0x7feb_352du32);
    let c = b ^ (b >> 15u32);
    let d = c.wrapping_mul(0x846c_a68bu32);
    d ^ (d >> 16u32)
}

/// Integer bit-mix hash (used to build the permutation table and for cells).
pub fn hash_u32(x: u32) -> (r: u32)
    ensures
        r == mix(x),
{
    let mut x = x;
    x = x ^ (x >> 16);
    x = x.wrapping_mul(0x7feb_352d);
    x = x ^ (x >> 15);
    x = x.wrapping_mul(0x846c_a68b);
    x = x ^ (x >> 16);
    x
}

/// The hash that places the feature point of 2D cell `(cx, cy)`: the seed
/// mixed with each coordinate's bits times its own odd constant (products
/// wrap modulo 2^32), then bit-mixed.
pub open spec fn cell_hash2_spec(seed: u32, cx: i32, cy: i32) -> u32 {
    mix(seed ^ (cx as u32).wrapping_mul(0x1f1f_1f1fu32) ^ (cy as u32).wrapping_mul(0x27d4_eb2fu32))
}

/// Hash of 2D cell `(cx, cy)` for cellular noise.
pub fn cell_hash2(seed: u32, cx: i32, cy: i32) -> (r: u32)
    ensures
        r == cell_hash2_spec(seed, cx, cy),
{
    hash_u32(seed ^ (cx as u32).wrapping_mul(0x1f1f_1f1f) ^ (cy as u32).wrapping_mul(0x27d4_eb2f))
}

/// The two hashes that place the feature point of 3D cell `(cx, cy, cz)`:
/// the bit-mix of the seed mixed with the three coordinates, and the bit-mix
/// of that.
pub open spec fn cell_hash3_spec(seed: u32, cx: i32, cy: i32, cz: i32) -> (u32, u32) {
    let h = mix(
        seed ^ (cx as u32).wrapping_mul(0x1f1f_1f1fu32) ^ (cy as u32).wrapping_mul(0x27d4_eb2fu32) ^ (
        cz as u32).wrapping_mul(0x1656_67b1u32),
    );
    (h, mix(h))
}

/// Hashes of 3D cell `(cx, cy, cz)` for cellular noise.
pub fn cell_hash3(seed: u32, cx: i32, cy: i32, cz: i32) -> (r: (u32, u32))
    ensures
        r == cell_hash3_spec(seed, cx, cy, cz),
{
    let base = seed ^ (cx as u32).wrapping_mul(0x1f1f_1f1f) ^ (cy as u32).wrapping_mul(0x27d4_eb2f) ^ (
    cz as u32).wrapping_mul(0x1656_67b1);
    let h = hash_u32(base);
    let h2 = hash_u32(h);
    (h, h2)
}

/// The shuffle's random state after `n` draws: the seed is mixed with the
/// golden-ratio constant, then each draw hashes the previous state.
pub open spec fn shuffle_state(seed: u32, n: nat) -> u32
    decreases n,
{
    if n == 0 {
        mix(seed ^ 0x9e37_79b9u32)
    } else {
        mix(shuffle_state(seed, (n - 1) as nat))
    }
}

/// `s` with entries `i` and `j` exchanged.
pub open spec fn swap_entries(s: Seq<u8>, i: int, j: int) -> Seq<u8> {
    s.update(i, s[j]).update(j, s[i])
}

/// The identity table `0, 1, ..., 255`.
pub open spec fn identity_table() -> Seq<u8> {
    Seq::new(256, |i: int| i as u8)
}

/// The table after `n` Fisher-Yates steps: step `n` (counting from 1) swaps
/// entry `i = 256 - n` with entry `j = state_n mod (i + 1)`.
pub open spec fn shuffled(seed: u32, n: nat) -> Seq<u8>
    decreases n,
{
    if n == 0 {
        identity_table()
    } else {
        let t = shuffled(seed, (n - 1) as nat);
        let i = 256 - n;
        let j = (shuffle_state(seed, n) % ((i + 1) as u32)) as int;
        swap_entries(t, i, j)
    }
}

/// Every shuffle step keeps the table at 256 entries.
pub proof fn lemma_shuffled_len(seed: u32, n: nat)
    requires
        n <= 256,
    ensures
        shuffled(seed, n).len() == 256,
    decreases n,
{
    if n > 0 {
        lemma_shuffled_len(seed, (n - 1) as nat);
    }
}

/// The 512-entry table for `seed`: the full 255-step shuffle, twice.
pub open spec fn perm_table(seed: u32) -> Seq<u8> {
    shuffled(seed, 255) + shuffled(seed, 255)
}

/// Build the permutation table for `seed`. Its first half holds each byte
/// value exactly once (256 distinct bytes), and the second half repeats the
/// first.
pub fn build_perm(seed: u32) -> (perm: Vec<u8>)
    ensures
        perm@ == perm_table(seed),
        perm@.len() == 512,
        perm@.subrange(0, 256).no_duplicates(),
        forall|i: int| 0 <= i < 256 ==> #[trigger] perm@[i + 256] == perm@[i],
{
    let mut p: Vec<u8> = Vec::new();
    let mut k: usize = 0;
    while k < 256
        invariant
            0 <= k <= 256,
            p@ == identity_table().subrange(0, k as int),
        decreases 256 - k,
    {
        p.push(k as u8);
        proof {
            assert(identity_table().subrange(0, k + 1) =~= identity_table().subrange(0, k as int).push(k as u8));
        }
        k = k + 1;
    }
    proof {
        assert(p@ =~= identity_table());
        assert(p@.no_duplicates()) by {
            assert forall|a: int, b: int| 0 <= a < 256 && 0 <= b < 256 && a != b implies p@[a] != p@[b] by {
                assert(p@[a] == a as u8 && p@[b] == b as u8);
            }
        }
    }
    let mut state: u32 = hash_u32(seed ^ 0x9e37_79b9);
    let mut i: usize = 255;
    let ghost mut n: nat = 0;
    while i >= 1
        invariant
            0 <= i <= 255,
            n == 255 - i,
            state == shuffle_state(seed, n),
            p@ == shuffled(seed, n),
            p@.len() == 256,
            p@.no_duplicates(),
        decreases i,
    {
        state = hash_u32(state);
        let j = (state % (i as u32 + 1)) as usize;
        let a = p[i];
        let b = p[j];
        let ghost before = p@;
        p.set(i, b);
        p.set(j, a);
        proof {
            n = n + 1;
            assert(p@ == swap_entries(before, i as int, j as int));
            assert(p@.no_duplicates()) by {
                assert forall|x: int, y: int| 0 <= x < 256 && 0 <= y < 256 && x != y implies p@[x] != p@[y] by {
                    let sx = if x == i { j as int } else if x == j { i as int } else { x };
                    let sy = if y == i { j as int } else if y == j { i as int } else { y };
                    assert(p@[x] == before[sx]);
                    assert(p@[y] == before[sy]);
                }
            }
        }
        i = i - 1;
    }
    let mut perm: Vec<u8> = Vec::new();
    let mut k: usize = 0;
    while k < 512
        invariant
            0 <= k <= 512,
            p@.len() == 256,
            perm@.len() == k,
            forall|x: int| 0 <= x < k ==> perm@[x] == p@[x % 256],
        decreases 512 - k,
    {
        let idx: usize = k & 255;
        proof {
            assert((k & 255usize) == k % 256) by (bit_vector);
        }
        perm.push(p[idx]);
        k = k + 1;
    }
    proof {
        assert(perm@ =~= p@ + p@);
        assert(perm@.subrange(0, 256) =~= p@);
    }
    perm
}

/// The table used when a noise value is rebuilt without its table: seed 0.
pub fn default_perm() -> (perm: Vec<u8>)
    ensures
        perm@ == perm_table(0),
{
    build_perm(0)
}

/// A seeded noise source: the seed and its 512-entry permutation table.
#[derive(Clone, Debug)]
pub struct Noise {
    pub seed: u32,
    perm: Vec<u8>,
}

impl Noise {
    /// The seed.
    pub closed spec fn seed_of(&self) -> u32 {
        self.seed
    }

    /// The permutation table.
    pub closed spec fn table(&self) -> Seq<u8> {
        self.perm@
    }

    /// The table is the one built for the seed.
    pub closed spec fn wf(&self) -> bool {
        self.table() == perm_table(self.seed)
    }

    /// A noise source for `seed`.
    pub fn new(seed: u32) -> (n: Noise)
        ensures
            n.seed_of() == seed,
            n.wf(),
            n.table() == perm_table(seed),
            n.table().len() == 512,
    {
        Noise { seed, perm: build_perm(seed) }
    }

    /// Table lookup with the index wrapped to `0..=255`.
    pub fn p(&self, i: i32) -> (r: u8)
        requires
            self.wf(),
        ensures
            r == self.table()[(i & 255i32) as int],
    {
        proof {
            assert(0 <= (i & 255i32) < 256) by (bit_vector);
            lemma_shuffled_len(self.seed, 255);
        }
        let k: usize = (i & 255) as usize;
        self.perm[k]
    }
}

} // verus!
