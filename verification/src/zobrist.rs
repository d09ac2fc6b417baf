//! Zobrist hashing keys. Deterministic (fixed seed) so hashes are stable
//! across runs. The keys are the successive outputs of a SplitMix64 generator:
//! first the piece keys ([color][piece][square]), then the sixteen castling
//! keys, the eight en-passant file keys and the side-to-move key.
use crate::types::{Color, PieceType, Square};
use vstd::arithmetic::div_mod::lemma_add_mod_noop;
use vstd::prelude::*;

verus! {

pub const SEED: u64 = 0x1234_5678_9ABC_DEF0;

pub const GAMMA: u64 = 0x9E37_79B9_7F4A_7C15;

/// The SplitMix64 output function applied to a state.
pub open spec fn mix(z: u64) -> u64 {
    let a = (z ^ (z >> 30u64)).wrapping_mul(0xBF58476D1CE4E5B9u64);
    let b = (a ^ (a >> 27u64)).wrapping_mul(0x94D049BB133111EBu64);
    b ^ (b >> 31u64)
}

/// The generator state after `k` steps from the seed.
pub open spec fn state_after(k: nat) -> u64 {
    ((SEED + k * GAMMA) % 0x1_0000_0000_0000_0000) as u64
}

/// The `n`-th key (from 0) that the generator hands out.
pub open spec fn key_spec(n: nat) -> u64 {
    mix(state_after(n + 1))
}

/// Position of a piece key among all keys.
pub open spec fn piece_slot(c: Color, pt: PieceType, sq: int) -> int {
    c.idx() * 384 + pt.idx() * 64 + sq
}

pub open spec fn piece_key_spec(c: Color, pt: PieceType, sq: int) -> u64 {
    key_spec(piece_slot(c, pt, sq) as nat)
}

pub open spec fn castling_key_spec(rights: int) -> u64 {
    key_spec((768 + rights) as nat)
}

pub open spec fn ep_key_spec(file: int) -> u64 {
    key_spec((784 + file) as nat)
}

pub open spec fn side_key_spec() -> u64 {
    key_spec(792)
}

pub struct Zobrist {
    /// Piece keys, indexed [color][piece][square].
    pub pieces: [[[u64; 64]; 6]; 2],
    pub castling: [u64; 16],
    pub ep_file: [u64; 8],
    pub side: u64,
}

/// SplitMix64 PRNG for reproducible key generation.
struct SplitMix64 {
    state: u64,
}

fn mix_exec(z: u64) -> (r: u64)
    ensures
        r == mix(z),
{
    let a = (z ^ (z >> 30)).wrapping_mul(0xBF58476D1CE4E5B9);
    let b = (a ^ (a >> 27)).wrapping_mul(0x94D049BB133111EB);
    b ^ (b >> 31)
}

proof fn lemma_state_step(k: nat)
    ensures
        state_after(k).wrapping_add(GAMMA) == state_after(k + 1),
{
    let m: int = 0x1_0000_0000_0000_0000;
    lemma_add_mod_noop(SEED + k * GAMMA, GAMMA as int, m);
    assert((GAMMA as int) % m == GAMMA as int);
    assert(SEED + k * GAMMA + GAMMA == SEED + (k + 1) * GAMMA) by (nonlinear_arith);
}

impl SplitMix64 {
    fn next(&mut self) -> (r: u64)
        ensures
            final(self).state == old(self).state.wrapping_add(GAMMA),
            r == mix(final(self).state),
    {
        self.state = self.state.wrapping_add(GAMMA);
        mix_exec(self.state)
    }
}

/// The `n`-th key, computed directly from the generator state after `n + 1` steps.
fn key_at(n: u64) -> (r: u64)
    requires
        n < 1000,
    ensures
        r == key_spec(n as nat),
{
    let k = n + 1;
    let st = SEED.wrapping_add(k.wrapping_mul(GAMMA));
    proof {
        let m: int = 0x1_0000_0000_0000_0000;
        lemma_add_mod_noop(SEED as int, k * GAMMA, m);
        assert((SEED as int) % m == SEED as int);
        assert(k.wrapping_mul(GAMMA) == ((k * GAMMA) % m) as u64);
    }
    mix_exec(st)
}

#[inline]
pub fn piece_key(c: Color, pt: PieceType, sq: Square) -> (r: u64)
    requires
        sq < 64,
    ensures
        r == piece_key_spec(c, pt, sq as int),
{
    let n = (c.index() * 384 + pt.index() * 64 + sq as usize) as u64;
    key_at(n)
}

/// The key xored in for the castling-rights value `rights`.
pub fn castling_key(rights: u8) -> (r: u64)
    requires
        rights < 16,
    ensures
        r == castling_key_spec(rights as int),
{
    key_at(768 + rights as u64)
}

/// The key xored in for an en-passant target on `file`.
pub fn ep_key(file: u8) -> (r: u64)
    requires
        file < 8,
    ensures
        r == ep_key_spec(file as int),
{
    key_at(784 + file as u64)
}

/// The key xored in when Black is to move.
pub fn side_key() -> (r: u64)
    ensures
        r == side_key_spec(),
{
    key_at(792)
}

/// All keys, generated in order from the seeded generator.
pub fn zobrist() -> (z: Zobrist)
    ensures
        forall|c: int, p: int, q: int|
            0 <= c < 2 && 0 <= p < 6 && 0 <= q < 64 ==> #[trigger] z.pieces[c][p][q] == key_spec((c * 384 + p * 64 + q) as nat),
        forall|i: int| 0 <= i < 16 ==> #[trigger] z.castling[i] == castling_key_spec(i),
        forall|i: int| 0 <= i < 8 ==> #[trigger] z.ep_file[i] == ep_key_spec(i),
        z.side == side_key_spec(),
{
    let mut rng = SplitMix64 { state: SEED };
    assert(rng.state == state_after(0));
    let mut pieces = [[[0u64; 64]; 6]; 2];
    let mut c: usize = 0;
    while c < 2
        invariant
            c <= 2,
            rng.state == state_after((c * 384) as nat),
            forall|a: int, p: int, q: int|
                0 <= a < c && 0 <= p < 6 && 0 <= q < 64 ==> #[trigger] pieces[a][p][q] == key_spec((a * 384 + p * 64 + q) as nat),
        decreases 2 - c,
    {
        let mut plane = [[0u64; 64]; 6];
        let mut p: usize = 0;
        while p < 6
            invariant
                c < 2,
                p <= 6,
                rng.state == state_after((c * 384 + p * 64) as nat),
                forall|b: int, q: int| 0 <= b < p && 0 <= q < 64 ==> #[trigger] plane[b][q] == key_spec((c * 384 + b * 64 + q) as nat),
            decreases 6 - p,
        {
            let mut row = [0u64; 64];
            let mut q: usize = 0;
            while q < 64
                invariant
                    c < 2,
                    p < 6,
                    q <= 64,
                    rng.state == state_after((c * 384 + p * 64 + q) as nat),
                    forall|d: int| 0 <= d < q ==> #[trigger] row[d] == key_spec((c * 384 + p * 64 + d) as nat),
                decreases 64 - q,
            {
                proof {
                    lemma_state_step((c * 384 + p * 64 + q) as nat);
                }
                let k = rng.next();
                row[q] = k;
                q = q + 1;
            }
            plane[p] = row;
            p = p + 1;
        }
        pieces[c] = plane;
        c = c + 1;
    }
    let mut castling = [0u64; 16];
    let mut j: usize = 0;
    while j < 16
        invariant
            j <= 16,
            rng.state == state_after((768 + j) as nat),
            forall|x: int| 0 <= x < j ==> #[trigger] castling[x] == castling_key_spec(x),
        decreases 16 - j,
    {
        proof {
            lemma_state_step((768 + j) as nat);
        }
        let k = rng.next();
        castling[j] = k;
        j = j + 1;
    }
    let mut ep_file = [0u64; 8];
    let mut e: usize = 0;
    while e < 8
        invariant
            e <= 8,
            rng.state == state_after((784 + e) as nat),
            forall|x: int| 0 <= x < e ==> #[trigger] ep_file[x] == ep_key_spec(x),
        decreases 8 - e,
    {
        proof {
            lemma_state_step((784 + e) as nat);
        }
        let k = rng.next();
        ep_file[e] = k;
        e = e + 1;
    }
    proof {
        lemma_state_step(792);
    }
    let side = rng.next();
    Zobrist { pieces, castling, ep_file, side }
}

} // verus!
