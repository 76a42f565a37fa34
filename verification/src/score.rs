use vstd::prelude::*;

use crate::board::{stone_at, Board19x19};
use crate::group::{color_connected, is_chain};
use crate::position::{
    adjacent, lemma_pos_at_index, lemma_pos_index_at, pos_at, pos_index, pos_on_board,
    Position19x19,
};
use crate::stone::Stone;

verus! {

broadcast use vstd::seq_lib::group_seq_properties;

/// An empty position that erosion with colour `c` fills: it is joined
/// through empty positions to a neighbour of a stone of that colour.
pub open spec fn fills(b: Seq<Stone>, c: Stone, p: Position19x19) -> bool {
    &&& pos_on_board(p)
    &&& stone_at(b, p) == Stone::Empty
    &&& exists|q: Position19x19, m: Position19x19|
        color_connected(b, Stone::Empty, p, q) && #[trigger] adjacent(q, m) && stone_at(b, m) == c
}

/// The board after eroding with colour `c`: every empty position that
/// erosion fills turns to `c`, everything else keeps its stone.
pub open spec fn erode_spec(b: Seq<Stone>, c: Stone) -> Seq<Stone> {
    Seq::new(361, |i: int| if fills(b, c, pos_at(i)) {
        c
    } else {
        b[i]
    })
}

/// No empty position of the board has a neighbour of colour `c`:
/// erosion with `c` has reached its fixpoint.
pub open spec fn no_fillable(b: Seq<Stone>, c: Stone) -> bool {
    forall|p: Position19x19, m: Position19x19|
        #![trigger adjacent(p, m)]
        pos_on_board(p) && stone_at(b, p) == Stone::Empty && adjacent(p, m) && stone_at(b, m) == c
            ==> false
}

/// How many positions of the first `k` the erosion formula awards to
/// the side whose eroded board is `me`: the position carries the
/// side's colour on its own eroded board, or does not carry the
/// opposing colour on the opponent's eroded board.
pub open spec fn count_scored(me: Seq<Stone>, other: Seq<Stone>, mc: Stone, oc: Stone, k: int) -> nat
    decreases k,
{
    if k <= 0 {
        0
    } else {
        count_scored(me, other, mc, oc, k - 1) + (if me[k - 1] == mc || other[k - 1] != oc {
            1nat
        } else {
            0
        })
    }
}

/// Black's area score of a board.
pub open spec fn black_score_spec(b: Seq<Stone>) -> nat {
    count_scored(erode_spec(b, Stone::Black), erode_spec(b, Stone::White), Stone::Black, Stone::White, 361)
}

/// White's area score of a board.
pub open spec fn white_score_spec(b: Seq<Stone>) -> nat {
    count_scored(erode_spec(b, Stone::White), erode_spec(b, Stone::Black), Stone::White, Stone::Black, 361)
}

/// The number of empty positions of a board.
pub open spec fn count_empty(b: Seq<Stone>) -> nat
    decreases b.len(),
{
    if b.len() == 0 {
        0
    } else {
        count_empty(b.drop_last()) + (if b.last() == Stone::Empty {
            1nat
        } else {
            0
        })
    }
}

/// Filling an empty cell with a stone lowers the number of empty
/// positions.
pub proof fn lemma_count_empty_update(b: Seq<Stone>, i: int, s: Stone)
    requires
        0 <= i < b.len(),
        b[i] == Stone::Empty,
        s != Stone::Empty,
    ensures
        count_empty(b.update(i, s)) < count_empty(b),
    decreases b.len(),
{
    let u = b.update(i, s);
    if i == b.len() - 1 {
        assert(u.drop_last() =~= b.drop_last());
        assert(u.last() == s && b.last() == Stone::Empty);
    } else {
        assert(u.drop_last() =~= b.drop_last().update(i, s));
        lemma_count_empty_update(b.drop_last(), i, s);
        assert(u.last() == b.last());
    }
}

/// A position of colour `color` is joined to itself.
pub proof fn lemma_cc_self(b: Seq<Stone>, color: Stone, p: Position19x19)
    requires
        pos_on_board(p),
        stone_at(b, p) == color,
    ensures
        color_connected(b, color, p, p),
{
    let path = seq![p];
    assert(is_chain(b, path, color));
    assert(path.first() == p && path.last() == p);
}

/// A chain may grow backwards over an adjacent position of the same
/// colour.
pub proof fn lemma_cc_prepend(
    b: Seq<Stone>,
    color: Stone,
    p: Position19x19,
    m: Position19x19,
    q: Position19x19,
)
    requires
        pos_on_board(p),
        stone_at(b, p) == color,
        adjacent(p, m),
        color_connected(b, color, m, q),
    ensures
        color_connected(b, color, p, q),
{
    let path = choose|path: Seq<Position19x19>|
        is_chain(b, path, color) && path.first() == m && path.last() == q;
    let path2 = seq![p] + path;
    assert(is_chain(b, path2, color)) by {
        assert(path2[0] == p);
        assert(forall|i: int| 1 <= i < path2.len() ==> path2[i] == path[i - 1]);
        assert forall|i: int| 0 <= i < path2.len() - 1 implies adjacent(
            #[trigger] path2[i],
            path2[i + 1],
        ) by {
            if i == 0 {
                assert(path2[1] == path[0] && path[0] == m);
            } else {
                assert(adjacent(path[i - 1], path[i]));
            }
        }
    }
    assert(path2.first() == p && path2.last() == q);
}

/// At an erosion fixpoint, a chain of originally empty positions whose
/// end touches a `c`-coloured cell of the current board is entirely
/// filled with `c`.
pub proof fn lemma_filled_chain(
    orig: Seq<Stone>,
    cur: Seq<Stone>,
    c: Stone,
    path: Seq<Position19x19>,
    m: Position19x19,
)
    requires
        c != Stone::Empty,
        orig.len() == 361,
        cur.len() == 361,
        is_chain(orig, path, Stone::Empty),
        adjacent(path.last(), m),
        stone_at(cur, m) == c,
        forall|i: int| 0 <= i < 361 ==> cur[i] == orig[i] || cur[i] == c,
        forall|i: int| 0 <= i < 361 && orig[i] != Stone::Empty ==> cur[i] == orig[i],
        no_fillable(cur, c),
    ensures
        stone_at(cur, path.first()) == c,
    decreases path.len(),
{
    let last = path.last();
    assert(pos_on_board(last) && stone_at(orig, last) == Stone::Empty);
    lemma_pos_index_at(last);
    assert(stone_at(cur, last) == c) by {
        if stone_at(cur, last) != c {
            assert(cur[pos_index(last)] == orig[pos_index(last)]);
            assert(stone_at(cur, last) == Stone::Empty);
            assert(false);
        }
    }
    if path.len() > 1 {
        let front = path.subrange(0, path.len() - 1);
        assert(is_chain(orig, front, Stone::Empty)) by {
            assert(forall|i: int| 0 <= i < front.len() ==> front[i] == path[i]);
        }
        assert(front.last() == path[path.len() - 2]);
        assert(adjacent(front.last(), last));
        lemma_filled_chain(orig, cur, c, front, last);
        assert(front.first() == path.first());
    }
}

/// An empty cell of the current board next to a `c`-coloured cell is
/// one the erosion fills, as long as every filled cell was fillable.
pub proof fn lemma_fill_step(
    orig: Seq<Stone>,
    cur: Seq<Stone>,
    c: Stone,
    p: Position19x19,
    m: Position19x19,
)
    requires
        c != Stone::Empty,
        orig.len() == 361,
        cur.len() == 361,
        pos_on_board(p),
        adjacent(p, m),
        stone_at(cur, p) == Stone::Empty,
        stone_at(cur, m) == c,
        forall|i: int|
            0 <= i < 361 ==> cur[i] == orig[i] || (cur[i] == c && fills(orig, c, pos_at(i))),
    ensures
        fills(orig, c, p),
{
    lemma_pos_index_at(p);
    lemma_pos_index_at(m);
    assert(stone_at(orig, p) == Stone::Empty) by {
        assert(cur[pos_index(p)] == orig[pos_index(p)] || cur[pos_index(p)] == c);
    }
    if stone_at(orig, m) == c {
        lemma_cc_self(orig, Stone::Empty, p);
        assert(color_connected(orig, Stone::Empty, p, p) && adjacent(p, m) && stone_at(orig, m)
            == c);
    } else {
        assert(fills(orig, c, m)) by {
            assert(cur[pos_index(m)] != orig[pos_index(m)]);
        }
        let (q, w) = choose|q: Position19x19, w: Position19x19|
            color_connected(orig, Stone::Empty, m, q) && #[trigger] adjacent(q, w) && stone_at(
                orig,
                w,
            ) == c;
        lemma_cc_prepend(orig, Stone::Empty, p, m, q);
        assert(color_connected(orig, Stone::Empty, p, q) && adjacent(q, w) && stone_at(orig, w)
            == c);
    }
}

/// A scan that found no fillable cell at any index has reached the
/// fixpoint.
pub proof fn lemma_scan_no_fillable(b: Seq<Stone>, c: Stone)
    requires
        b.len() == 361,
        forall|j: int, m: Position19x19|
            #![trigger adjacent(pos_at(j), m)]
            0 <= j < 361 && stone_at(b, pos_at(j)) == Stone::Empty && adjacent(pos_at(j), m)
                ==> stone_at(b, m) != c,
    ensures
        no_fillable(b, c),
{
    assert forall|p: Position19x19, m: Position19x19|
        pos_on_board(p) && stone_at(b, p) == Stone::Empty && adjacent(p, m) && stone_at(b, m)
            == c implies false by {
        lemma_pos_index_at(p);
        let j = pos_index(p);
        assert(pos_at(j) == p);
        assert(stone_at(b, pos_at(j)) == Stone::Empty);
        assert(adjacent(pos_at(j), m));
    }
}

/// At the fixpoint, a board whose every filled cell was fillable is
/// exactly the erosion of the original.
pub proof fn lemma_erosion_fixpoint(orig: Seq<Stone>, cur: Seq<Stone>, c: Stone)
    requires
        c != Stone::Empty,
        orig.len() == 361,
        cur.len() == 361,
        forall|i: int|
            0 <= i < 361 ==> cur[i] == orig[i] || (cur[i] == c && fills(orig, c, pos_at(i))),
        no_fillable(cur, c),
    ensures
        cur == erode_spec(orig, c),
{
    assert forall|i: int| 0 <= i < 361 implies cur[i] == erode_spec(orig, c)[i] by {
        lemma_pos_at_index(i);
        let p = pos_at(i);
        if fills(orig, c, p) {
            let (q, m) = choose|q: Position19x19, m: Position19x19|
                color_connected(orig, Stone::Empty, p, q) && #[trigger] adjacent(q, m)
                    && stone_at(orig, m) == c;
            let path = choose|path: Seq<Position19x19>|
                is_chain(orig, path, Stone::Empty) && path.first() == p && path.last() == q;
            lemma_pos_index_at(m);
            assert(stone_at(cur, m) == c) by {
                assert(orig[pos_index(m)] != Stone::Empty);
            }
            assert forall|j: int| 0 <= j < 361 && orig[j] != Stone::Empty implies cur[j]
                == orig[j] by {
                if cur[j] != orig[j] {
                    assert(fills(orig, c, pos_at(j)));
                }
            }
            assert forall|j: int| 0 <= j < 361 implies cur[j] == orig[j] || cur[j] == c by {}
            lemma_filled_chain(orig, cur, c, path, m);
        } else {
            assert(cur[i] == orig[i]);
        }
    }
    assert(cur =~= erode_spec(orig, c));
}

/// Converts an index of the row-major enumeration to its position.
fn index_to_pos(idx: usize) -> (p: Position19x19)
    requires
        idx < 361,
    ensures
        p == pos_at(idx as int),
        pos_on_board(p),
        pos_index(p) == idx,
{
    proof {
        lemma_pos_at_index(idx as int);
    }
    Position19x19 { x: idx % 19, y: idx / 19 }
}

impl Board19x19 {
    /// Fills all empty intersections that neighbor a stone with the given color by
    /// stones of that color. Repeats until nothing changes.
    #[verifier::loop_isolation(false)]
    #[verifier::rlimit(60)]
    pub fn erode(&mut self, stone: Stone)
        requires
            old(self).wf(),
            stone != Stone::Empty,
        ensures
            final(self).wf(),
            final(self)@ == erode_spec(old(self)@, stone),
    {
        let ghost orig = old(self)@;
        let mut change = true;
        while change
            invariant
                self.wf(),
                forall|i: int|
                    0 <= i < 361 ==> self@[i] == orig[i] || (self@[i] == stone && fills(
                        orig,
                        stone,
                        pos_at(i),
                    )),
                !change ==> no_fillable(self@, stone),
            decreases count_empty(self@) + (if change {
                1int
            } else {
                0int
            }),
        {
            change = false;
            let ghost pass_start = self@;
            let mut idx: usize = 0;
            while idx < 361
                invariant
                    idx <= 361,
                    self.wf(),
                    forall|i: int|
                        0 <= i < 361 ==> self@[i] == orig[i] || (self@[i] == stone && fills(
                            orig,
                            stone,
                            pos_at(i),
                        )),
                    count_empty(self@) <= count_empty(pass_start),
                    change ==> count_empty(self@) < count_empty(pass_start),
                    !change ==> self@ == pass_start,
                    !change ==> forall|j: int, m: Position19x19|
                        #![trigger adjacent(pos_at(j), m)]
                        0 <= j < idx && stone_at(self@, pos_at(j)) == Stone::Empty && adjacent(
                            pos_at(j),
                            m,
                        ) ==> stone_at(self@, m) != stone,
                decreases 361 - idx,
            {
                let p = index_to_pos(idx);
                if self.at(&p) == Stone::Empty {
                    let ns = self.neighbors(&p);
                    let mut any_set = false;
                    let mut k: usize = 0;
                    while k < ns.len()
                        invariant
                            k <= ns@.len(),
                            any_set == exists|j: int|
                                0 <= j < k && stone_at(self@, #[trigger] ns@[j]) == stone,
                        decreases ns@.len() - k,
                    {
                        proof {
                            assert(ns@.contains(ns@[k as int]));
                            assert(adjacent(p, ns@[k as int]));
                        }
                        if self.at(&ns[k]) == stone {
                            any_set = true;
                        }
                        k = k + 1;
                    }

                    if any_set {
                        proof {
                            let j = choose|j: int|
                                0 <= j < ns@.len() && stone_at(self@, #[trigger] ns@[j]) == stone;
                            let m = ns@[j];
                            assert(ns@.contains(m));
                            assert(adjacent(p, m));
                            lemma_fill_step(orig, self@, stone, p, m);
                        }
                        let ghost before = self@;
                        self.set(&p, &stone);
                        proof {
                            lemma_count_empty_update(before, pos_index(p), stone);
                            assert forall|i: int|
                                0 <= i < 361 implies self@[i] == orig[i] || (self@[i] == stone
                                && fills(orig, stone, pos_at(i))) by {
                                if i == pos_index(p) {
                                    assert(pos_at(i) == p);
                                }
                            }
                        }
                        change = true;
                    } else {
                        proof {
                            assert forall|m: Position19x19|
                                adjacent(p, m) implies stone_at(self@, m) != stone by {
                                assert(ns@.contains(m));
                                let j = choose|j: int| 0 <= j < ns@.len() && ns@[j] == m;
                            }
                        }
                    }
                }
                proof {
                    if !change {
                        assert forall|j: int, m: Position19x19|
                            0 <= j < idx + 1 && stone_at(self@, pos_at(j)) == Stone::Empty
                                && adjacent(pos_at(j), m) implies stone_at(self@, m)
                            != stone by {
                            if j == idx {
                                assert(pos_at(j) == p);
                            }
                        }
                    }
                }
                idx = idx + 1;
            }
            proof {
                if !change {
                    lemma_scan_no_fillable(self@, stone);
                }
            }
        }
        proof {
            lemma_erosion_fixpoint(orig, self@, stone);
        }
    }

    /// Computes the area score of the board as (black_score, white_score)
    ///
    /// Each colour erodes a copy of the board to its maximal area of
    /// influence; a position then counts for a side when it carries
    /// that side's colour on its own eroded copy, or does not carry
    /// the opposing colour on the opponent's copy. Boundary positions
    /// of seki-like shapes can count for both sides.
    #[verifier::loop_isolation(false)]
    pub fn area_scoring(&self) -> (r: (usize, usize))
        requires
            self.wf(),
        ensures
            r.0 == black_score_spec(self@),
            r.1 == white_score_spec(self@),
    {
        let mut white_board = self.clone();
        let mut black_board = self.clone();

        white_board.erode(Stone::White);
        black_board.erode(Stone::Black);

        let ghost wb = white_board@;
        let ghost bb = black_board@;

        let mut black_score: usize = 0;
        let mut white_score: usize = 0;
        let mut idx: usize = 0;
        while idx < 361
            invariant
                idx <= 361,
                wb == white_board@,
                bb == black_board@,
                black_score == count_scored(bb, wb, Stone::Black, Stone::White, idx as int),
                white_score == count_scored(wb, bb, Stone::White, Stone::Black, idx as int),
                black_score <= idx,
                white_score <= idx,
            decreases 361 - idx,
        {
            let p = index_to_pos(idx);
            let at_white = white_board.at(&p);
            let at_black = black_board.at(&p);
            if at_black == Stone::Black || at_white != Stone::White {
                black_score = black_score + 1;
            }
            if at_white == Stone::White || at_black != Stone::Black {
                white_score = white_score + 1;
            }
            idx = idx + 1;
        }
        (black_score, white_score)
    }
}

} // verus!
