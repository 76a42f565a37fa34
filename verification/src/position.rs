use vstd::prelude::*;

verus! {

/// A position on a board of 19x19 lines
#[derive(Copy, Hash, Eq, PartialEq, Clone, Debug, Structural)]
pub struct Position19x19 {
    pub x: usize,
    pub y: usize,
}

/// Whether a position lies on the 19x19 board.
pub open spec fn pos_on_board(p: Position19x19) -> bool {
    p.x < 19 && p.y < 19
}

/// The index of a position in a row-major enumeration of the board.
pub open spec fn pos_index(p: Position19x19) -> int {
    p.y * 19 + p.x
}

/// The position with the given row-major index.
pub open spec fn pos_at(i: int) -> Position19x19 {
    Position19x19 { x: (i % 19) as usize, y: (i / 19) as usize }
}

/// Whether two positions are orthogonally adjacent on the board.
pub open spec fn adjacent(a: Position19x19, b: Position19x19) -> bool {
    &&& pos_on_board(a)
    &&& pos_on_board(b)
    &&& {
        ||| (a.x == b.x && (a.y + 1 == b.y || b.y + 1 == a.y))
        ||| (a.y == b.y && (a.x + 1 == b.x || b.x + 1 == a.x))
    }
}

/// Indexing positions is a bijection: every index below 361 names one
/// board position.
pub proof fn lemma_pos_at_index(i: int)
    requires
        0 <= i < 361,
    ensures
        pos_on_board(pos_at(i)),
        pos_index(pos_at(i)) == i,
{
    assert(0 <= i % 19 < 19 && 0 <= i / 19 < 19 && (i / 19) * 19 + i % 19 == i) by (nonlinear_arith)
        requires
            0 <= i < 361,
    ;
}

/// Indexing positions is a bijection: every board position is named by
/// its own index and by no other.
pub proof fn lemma_pos_index_at(p: Position19x19)
    requires
        pos_on_board(p),
    ensures
        0 <= pos_index(p) < 361,
        pos_at(pos_index(p)) == p,
{
    assert((p.y * 19 + p.x) % 19 == p.x && (p.y * 19 + p.x) / 19 == p.y) by (nonlinear_arith)
        requires
            p.x < 19 && p.y < 19,
    ;
}

/// Adjacency is symmetric.
pub proof fn lemma_adjacent_sym(a: Position19x19, b: Position19x19)
    ensures
        adjacent(a, b) == adjacent(b, a),
{
}

} // verus!
