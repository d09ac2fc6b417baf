//! Static evaluation: the material balance from the point of view of the
//! side to move, in centipawns.
use crate::position::{BoardView, Position};
use crate::types::{Color, PieceType};
use vstd::prelude::*;

verus! {

/// A score beyond every reachable score.
pub const INF: i32 = 1_000_000;

/// The score of giving mate at the root; a mate found `n` plies deep scores `MATE_VALUE - n`.
pub const MATE_VALUE: i32 = 100_000;

/// Material value of a piece type in centipawns; kings are not counted.
pub open spec fn material_value(pt: PieceType) -> int {
    match pt {
        PieceType::Pawn => 100,
        PieceType::Knight => 320,
        PieceType::Bishop => 330,
        PieceType::Rook => 500,
        PieceType::Queen => 900,
        PieceType::King => 0,
    }
}

/// What the piece on a square counts for `side`: its value if it is `side`'s, minus it otherwise.
pub open spec fn square_material(p: Option<(Color, PieceType)>, side: Color) -> int {
    match p {
        Some((c, pt)) => if c == side { material_value(pt) } else { -material_value(pt) },
        None => 0,
    }
}

/// Material balance of the first `n` squares for `side`.
pub open spec fn material(sq: Seq<Option<(Color, PieceType)>>, n: nat, side: Color) -> int
    decreases n,
{
    if n == 0 {
        0
    } else {
        material(sq, (n - 1) as nat, side) + square_material(sq[n - 1], side)
    }
}

pub open spec fn eval_spec(v: BoardView) -> int {
    material(v.squares, 64, v.side)
}

fn material_value_exec(pt: PieceType) -> (r: i32)
    ensures
        r == material_value(pt),
{
    match pt {
        PieceType::Pawn => 100,
        PieceType::Knight => 320,
        PieceType::Bishop => 330,
        PieceType::Rook => 500,
        PieceType::Queen => 900,
        PieceType::King => 0,
    }
}

/// The material balance of `pos` for the side to move.
pub fn evaluate(pos: &Position) -> (r: i32)
    ensures
        r == eval_spec(pos@),
        -57600 <= r <= 57600,
{
    let side = pos.side;
    let mut total: i32 = 0;
    let mut sq: usize = 0;
    while sq < 64
        invariant
            sq <= 64,
            side == pos@.side,
            total == material(pos@.squares, sq as nat, side),
            -900 * sq <= total <= 900 * sq,
        decreases 64 - sq,
    {
        match pos.mailbox[sq] {
            Some((c, pt)) => {
                let v = material_value_exec(pt);
                if c == side {
                    total = total + v;
                } else {
                    total = total - v;
                }
            },
            None => {},
        }
        sq = sq + 1;
    }
    total
}

} // verus!
