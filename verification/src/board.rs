use vstd::prelude::*;

use crate::position::{adjacent, pos_at, pos_index, pos_on_board, Position19x19};
use crate::stone::Stone;

verus! {

/// A default 19x19 go board
///
/// The 361 intersections are stored in row-major order; the board is
/// viewed as that sequence of stones.
#[derive(Hash, Eq, Debug)]
pub struct Board19x19 {
    state: Vec<Stone>,
}

impl View for Board19x19 {
    type V = Seq<Stone>;

    closed spec fn view(&self) -> Seq<Stone> {
        self.state@
    }
}

/// The stone on the board at the given position.
pub open spec fn stone_at(b: Seq<Stone>, p: Position19x19) -> Stone {
    b[pos_index(p)]
}

/// The layout of a board without any stone on it.
pub open spec fn empty_board() -> Seq<Stone> {
    Seq::new(361, |i: int| Stone::Empty)
}

/// The number of positions orthogonally adjacent to a position: two in
/// a corner, three on an edge, four in the interior.
pub open spec fn neighbor_count(p: Position19x19) -> int {
    (if p.x < 18 { 1int } else { 0 }) + (if p.x > 0 { 1int } else { 0 })
        + (if p.y < 18 { 1int } else { 0 }) + (if p.y > 0 { 1int } else { 0 })
}

/// Corner positions have exactly two neighbours, other positions of
/// the board's edge three, and interior positions four.
pub proof fn lemma_neighbor_cardinality(p: Position19x19)
    requires
        pos_on_board(p),
    ensures
        ((p.x == 0 || p.x == 18) && (p.y == 0 || p.y == 18)) ==> neighbor_count(p) == 2,
        ((p.x == 0 || p.x == 18) && 0 < p.y < 18) ==> neighbor_count(p) == 3,
        ((p.y == 0 || p.y == 18) && 0 < p.x < 18) ==> neighbor_count(p) == 3,
        (0 < p.x < 18 && 0 < p.y < 18) ==> neighbor_count(p) == 4,
{
}

/// Whether the given position is one of the fixed star points that a
/// handicap of the given size places a black stone on.
pub open spec fn is_handicap_point(stones: u8, p: Position19x19) -> bool {
    ||| (2 <= stones <= 9 && (p == (Position19x19 { x: 14, y: 4 }) || p == (Position19x19 {
        x: 4,
        y: 14,
    })))
    ||| (3 <= stones <= 9 && p == (Position19x19 { x: 14, y: 14 }))
    ||| (4 <= stones <= 9 && p == (Position19x19 { x: 4, y: 4 }))
    ||| ((stones == 5 || stones == 7 || stones == 9) && p == (Position19x19 { x: 10, y: 10 }))
    ||| (6 <= stones <= 9 && (p == (Position19x19 { x: 4, y: 10 }) || p == (Position19x19 {
        x: 14,
        y: 10,
    })))
    ||| ((stones == 8 || stones == 9) && (p == (Position19x19 { x: 10, y: 4 }) || p
        == (Position19x19 { x: 10, y: 14 })))
}

/// The board layout after placing the handicap stones of the given size.
pub open spec fn handicap_board(b: Seq<Stone>, stones: u8) -> Seq<Stone> {
    Seq::new(361, |i: int| if is_handicap_point(stones, pos_at(i)) {
        Stone::Black
    } else {
        b[i]
    })
}

impl Board19x19 {
    /// A board is well formed when it stores exactly the 361
    /// intersections of the 19x19 grid.
    pub open spec fn wf(&self) -> bool {
        self@.len() == 361
    }

    /// Constructs a new empty board
    pub fn new() -> (r: Board19x19)
        ensures
            r.wf(),
            r@ == empty_board(),
    {
        let mut state: Vec<Stone> = Vec::new();
        let mut i: usize = 0;
        while i < 361
            invariant
                i <= 361,
                state@.len() == i,
                forall|j: int| 0 <= j < i ==> state@[j] == Stone::Empty,
            decreases 361 - i,
        {
            state.push(Stone::Empty);
            i = i + 1;
        }
        let r = Board19x19 { state };
        proof {
            assert(r@ =~= empty_board());
        }
        r
    }

    /// Returns true if the position is on the board
    pub fn on_board(&self, position: &Position19x19) -> (r: bool)
        ensures
            r == pos_on_board(*position),
    {
        position.x < 19 && position.y < 19
    }

    /// Returns the stone at the given position
    pub fn at(&self, position: &Position19x19) -> (r: Stone)
        requires
            self.wf(),
            pos_on_board(*position),
        ensures
            r == stone_at(self@, *position),
    {
        self.state[position.y * 19 + position.x]
    }

    /// Sets the stone at the given position
    pub fn set(&mut self, position: &Position19x19, stone: &Stone)
        requires
            old(self).wf(),
            pos_on_board(*position),
        ensures
            final(self).wf(),
            final(self)@ == old(self)@.update(pos_index(*position), *stone),
    {
        let i: usize = position.y * 19 + position.x;
        self.state.set(i, *stone);
    }
}

impl Clone for Board19x19 {
    /// Copies the board stone by stone.
    fn clone(&self) -> (r: Board19x19)
        ensures
            r@ == self@,
    {
        let mut state: Vec<Stone> = Vec::new();
        let mut i: usize = 0;
        while i < self.state.len()
            invariant
                i <= self.state@.len(),
                state@.len() == i,
                forall|j: int| 0 <= j < i ==> state@[j] == self.state@[j],
            decreases self.state@.len() - i,
        {
            state.push(self.state[i]);
            i = i + 1;
        }
        let r = Board19x19 { state };
        proof {
            assert(r@ =~= self@);
        }
        r
    }
}

impl PartialEq for Board19x19 {
    /// Two boards are equal when every intersection holds the same
    /// stone; this full structural comparison is what lets boards act
    /// as superko fingerprints.
    fn eq(&self, other: &Board19x19) -> (r: bool) {
        if self.state.len() != other.state.len() {
            return false;
        }
        let mut i: usize = 0;
        while i < self.state.len()
            invariant
                self.state@.len() == other.state@.len(),
                i <= self.state@.len(),
                forall|j: int| 0 <= j < i ==> self.state@[j] == other.state@[j],
            decreases self.state@.len() - i,
        {
            if self.state[i] != other.state[i] {
                return false;
            }
            i = i + 1;
        }
        proof {
            assert(self@ =~= other@);
        }
        true
    }
}

impl vstd::std_specs::cmp::PartialEqSpecImpl for Board19x19 {
    open spec fn obeys_eq_spec() -> bool {
        true
    }

    open spec fn eq_spec(&self, other: &Board19x19) -> bool {
        self@ == other@
    }
}

impl Board19x19 {
    /// Returns the vector of positions next to the given position
    ///
    /// Does not only return occupied fields but also empty ones.
    pub fn neighbors(&self, position: &Position19x19) -> (r: Vec<Position19x19>)
        requires
            pos_on_board(*position),
        ensures
            forall|q: Position19x19|
                #![trigger r@.contains(q)]
                #![trigger adjacent(*position, q)]
                r@.contains(q) <==> adjacent(*position, q),
            forall|i: int, j: int| 0 <= i < j < r@.len() ==> r@[i] != r@[j],
            r@.len() == neighbor_count(*position),
    {
        let mut n: Vec<Position19x19> = Vec::new();

        if position.x < 18 {
            n.push(Position19x19 { x: position.x + 1, y: position.y });
        }
        if position.x > 0 {
            n.push(Position19x19 { x: position.x - 1, y: position.y });
        }
        if position.y < 18 {
            n.push(Position19x19 { x: position.x, y: position.y + 1 });
        }
        if position.y > 0 {
            n.push(Position19x19 { x: position.x, y: position.y - 1 });
        }

        proof {
            assert forall|q: Position19x19| n@.contains(q) <==> adjacent(
                *position,
                q,
            ) by {
                if adjacent(*position, q) {
                    let c1: int = if position.x < 18 { 1int } else { 0 };
                    let c2: int = if position.x > 0 { 1int } else { 0 };
                    let c3: int = if position.y < 18 { 1int } else { 0 };
                    if q.x == position.x + 1 {
                        assert(n@[0] == q);
                    } else if q.x + 1 == position.x {
                        assert(n@[c1] == q);
                    } else if q.y == position.y + 1 {
                        assert(n@[c1 + c2] == q);
                    } else {
                        assert(q.y + 1 == position.y);
                        assert(n@[c1 + c2 + c3] == q);
                    }
                }
            }
        }
        n
    }

    /// Returns all positions.
    pub fn positions(&self) -> (r: Vec<Position19x19>)
        ensures
            r@.len() == 361,
            forall|i: int| 0 <= i < 361 ==> pos_on_board(#[trigger] r@[i]),
            forall|p: Position19x19| pos_on_board(p) ==> r@.contains(p),
            forall|i: int, j: int| 0 <= i < j < r@.len() ==> r@[i] != r@[j],
    {
        let mut n: Vec<Position19x19> = Vec::new();
        let mut x: usize = 0;
        while x < 19
            invariant
                x <= 19,
                n@.len() == x * 19,
                forall|i: int| 0 <= i < n@.len() ==> (#[trigger] n@[i]) == (Position19x19 {
                    x: (i / 19) as usize,
                    y: (i % 19) as usize,
                }),
            decreases 19 - x,
        {
            let mut y: usize = 0;
            while y < 19
                invariant
                    x < 19,
                    y <= 19,
                    n@.len() == x * 19 + y,
                    forall|i: int| 0 <= i < n@.len() ==> (#[trigger] n@[i]) == (Position19x19 {
                        x: (i / 19) as usize,
                        y: (i % 19) as usize,
                    }),
                decreases 19 - y,
            {
                n.push(Position19x19 { x, y });
                proof {
                    let k = n@.len() - 1;
                    assert(k == x * 19 + y);
                    assert(k / 19 == x && k % 19 == y) by (nonlinear_arith)
                        requires
                            k == x * 19 + y,
                            x < 19,
                            y < 19,
                    ;
                }
                y = y + 1;
            }
            x = x + 1;
        }
        proof {
            assert forall|p: Position19x19| pos_on_board(p) implies n@.contains(p) by {
                let i = p.x * 19 + p.y;
                assert(i / 19 == p.x && i % 19 == p.y) by (nonlinear_arith)
                    requires
                        i == p.x * 19 + p.y,
                        p.x < 19,
                        p.y < 19,
                ;
                assert(n@[i as int] == p);
            }
        }
        n
    }

    /// Sets the requested amount of handicap stones
    pub fn set_handicap(&mut self, stones: u8)
        requires
            old(self).wf(),
        ensures
            final(self).wf(),
            final(self)@ == handicap_board(old(self)@, stones),
    {
        if 2 <= stones && stones <= 9 {
            // upper right and lower left
            self.set(&Position19x19 { x: 14, y: 4 }, &Stone::Black);
            self.set(&Position19x19 { x: 4, y: 14 }, &Stone::Black);
        }
        if 3 <= stones && stones <= 9 {
            // lower right
            self.set(&Position19x19 { x: 14, y: 14 }, &Stone::Black);
        }
        if 4 <= stones && stones <= 9 {
            // upper left
            self.set(&Position19x19 { x: 4, y: 4 }, &Stone::Black);
        }
        if stones == 5 || stones == 7 || stones == 9 {
            // middle
            self.set(&Position19x19 { x: 10, y: 10 }, &Stone::Black);
        }
        if 6 <= stones && stones <= 9 {
            // left side and right side
            self.set(&Position19x19 { x: 4, y: 10 }, &Stone::Black);
            self.set(&Position19x19 { x: 14, y: 10 }, &Stone::Black);
        }
        if stones == 8 || stones == 9 {
            // upper side and lower side
            self.set(&Position19x19 { x: 10, y: 4 }, &Stone::Black);
            self.set(&Position19x19 { x: 10, y: 14 }, &Stone::Black);
        }
        proof {
            assert forall|i: int| 0 <= i < 361 implies self@[i] == handicap_board(old(self)@, stones)[i] by {
                crate::position::lemma_pos_at_index(i);
            }
            assert(self@ =~= handicap_board(old(self)@, stones));
        }
    }
}

} // verus!
