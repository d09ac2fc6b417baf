//! Bitboards viewed as sets of squares: bit `s` of a `u64` holds square `s`.
use vstd::prelude::*;
use vstd::std_specs::bits::{axiom_u64_trailing_zeros, u64_trailing_zeros};

verus! {

/// Square `s` is in bitboard `b`.
pub open spec fn has_sq(b: u64, s: int) -> bool {
    (b >> (s as u64)) & 1u64 == 1u64
}

/// The bitboard holding only square `t`.
pub proof fn lemma_single(t: u64, s: u64)
    requires
        t < 64,
        s < 64,
    ensures
        has_sq(1u64 << t, s as int) == (s == t),
{
    assert(((1u64 << t) >> s) & 1u64 == 1u64 <==> s == t) by (bit_vector)
        requires
            t < 64,
            s < 64,
    ;
}

pub proof fn lemma_empty(s: u64)
    requires
        s < 64,
    ensures
        !has_sq(0u64, s as int),
{
    assert((0u64 >> s) & 1u64 == 0u64) by (bit_vector);
}

pub proof fn lemma_or(a: u64, b: u64, s: u64)
    requires
        s < 64,
    ensures
        has_sq(a | b, s as int) == (has_sq(a, s as int) || has_sq(b, s as int)),
{
    assert(((a | b) >> s) & 1u64 == 1u64 <==> ((a >> s) & 1u64 == 1u64 || (b >> s) & 1u64 == 1u64))
        by (bit_vector);
}

pub proof fn lemma_and(a: u64, b: u64, s: u64)
    requires
        s < 64,
    ensures
        has_sq(a & b, s as int) == (has_sq(a, s as int) && has_sq(b, s as int)),
{
    assert(((a & b) >> s) & 1u64 == 1u64 <==> ((a >> s) & 1u64 == 1u64 && (b >> s) & 1u64 == 1u64))
        by (bit_vector);
}

pub proof fn lemma_not(a: u64, s: u64)
    requires
        s < 64,
    ensures
        has_sq(!a, s as int) == !has_sq(a, s as int),
{
    assert(((!a) >> s) & 1u64 == 1u64 <==> !((a >> s) & 1u64 == 1u64)) by (bit_vector)
        requires
            s < 64,
    ;
}

/// A bitboard is nonzero exactly when it holds some square.
pub proof fn lemma_nonzero(a: u64)
    ensures
        a != 0 <==> exists|s: int| 0 <= s < 64 && #[trigger] has_sq(a, s),
        a != 0 ==> {
            let t = u64_trailing_zeros(a) as int;
            &&& 0 <= t < 64
            &&& has_sq(a, t)
            &&& forall|j: int| 0 <= j < t ==> !#[trigger] has_sq(a, j)
        },
        a == 0 ==> u64_trailing_zeros(a) == 64,
{
    axiom_u64_trailing_zeros(a);
    if a != 0 {
        let t = u64_trailing_zeros(a) as u64;
        assert(has_sq(a, t as int));
        assert forall|j: int| 0 <= j < t implies !#[trigger] has_sq(a, j) by {
            let jj = j as u64;
            assert((a >> jj) & 1u64 == 0u64);
        }
    } else {
        assert forall|s: int| 0 <= s < 64 implies !#[trigger] has_sq(a, s) by {
            lemma_empty(s as u64);
        }
    }
    assert(forall|s: int| 0 <= s < 64 && #[trigger] has_sq(a, s) ==> a != 0) by {
        assert forall|s: int| 0 <= s < 64 && #[trigger] has_sq(a, s) implies a != 0 by {
            if a == 0 {
                lemma_empty(s as u64);
            }
        }
    }
}

/// Two bitboards share a square exactly when their intersection is nonzero.
pub proof fn lemma_intersects(a: u64, b: u64)
    ensures
        (a & b != 0) <==> exists|s: int| 0 <= s < 64 && has_sq(a, s) && #[trigger] has_sq(b, s),
{
    lemma_nonzero(a & b);
    if a & b != 0 {
        let s = choose|s: int| 0 <= s < 64 && #[trigger] has_sq(a & b, s);
        lemma_and(a, b, s as u64);
        assert(has_sq(a, s) && has_sq(b, s));
    }
    assert forall|s: int| 0 <= s < 64 && has_sq(a, s) && #[trigger] has_sq(b, s) implies a & b != 0 by {
        lemma_and(a, b, s as u64);
        assert(has_sq(a & b, s));
    }
}

/// Clearing the lowest square: `b & (b - 1)` holds the squares of `b` but its lowest.
pub proof fn lemma_clear_lowest(b: u64)
    requires
        b != 0,
    ensures
        ({
            let t = u64_trailing_zeros(b) as int;
            forall|s: int| 0 <= s < 64 ==> (#[trigger] has_sq(b & ((b - 1u64) as u64), s) == (has_sq(b, s) && s != t))
        }),
{
    axiom_u64_trailing_zeros(b);
    let t = u64_trailing_zeros(b) as u64;
    assert forall|s: int| 0 <= s < 64 implies (#[trigger] has_sq(b & ((b - 1u64) as u64), s) == (has_sq(b, s) && s != t as int)) by {
        let ss = s as u64;
        assert(b << ((64u64 - t) as u64) == 0);
        assert((b >> t) & 1u64 == 1u64);
        assert(((b & ((b - 1u64) as u64)) >> ss) & 1u64 == 1u64 <==> ((b >> ss) & 1u64 == 1u64 && ss != t)) by (bit_vector)
            requires
                t < 64,
                ss < 64,
                b << ((64u64 - t) as u64) == 0,
                (b >> t) & 1u64 == 1u64,
        ;
    }
}

/// Xor with zero and with itself.
pub proof fn lemma_xor_basics(a: u64, b: u64)
    by (bit_vector)
    ensures
        a ^ 0u64 == a,
        a ^ a == 0u64,
        (a ^ b == 0u64) ==> a == b,
{
}


} // verus!
