use vstd::prelude::*;
use vstd::seq_lib::*;
use vstd::set_lib::{lemma_int_range, lemma_len_subset, set_int_range};

use crate::board::{stone_at, Board19x19};
use crate::position::{
    adjacent, lemma_pos_index_at, pos_index, pos_on_board, Position19x19,
};
use crate::stone::Stone;

verus! {

broadcast use vstd::seq_lib::group_seq_properties;

/// A sequence of positions without repetition.
pub open spec fn distinct_seq(s: Seq<Position19x19>) -> bool {
    forall|i: int, j: int| 0 <= i < j < s.len() ==> s[i] != s[j]
}

/// A chain of positions of one colour: every entry lies on the board
/// and holds the given stone, and consecutive entries are adjacent.
pub open spec fn is_chain(b: Seq<Stone>, path: Seq<Position19x19>, color: Stone) -> bool {
    &&& path.len() > 0
    &&& (forall|i: int|
        0 <= i < path.len() ==> pos_on_board(#[trigger] path[i]) && stone_at(b, path[i]) == color)
    &&& (forall|i: int| 0 <= i < path.len() - 1 ==> adjacent(#[trigger] path[i], path[i + 1]))
}

/// Two positions are connected through a chain of the given colour.
pub open spec fn color_connected(
    b: Seq<Stone>,
    color: Stone,
    from: Position19x19,
    to: Position19x19,
) -> bool {
    exists|path: Seq<Position19x19>|
        is_chain(b, path, color) && path.first() == from && path.last() == to
}

/// `to` belongs to the group of the stone standing at `from`: there is
/// a stone at `from`, and a chain of stones of its colour joins the two
/// positions.
pub open spec fn reaches(b: Seq<Stone>, from: Position19x19, to: Position19x19) -> bool {
    &&& pos_on_board(from)
    &&& stone_at(b, from) != Stone::Empty
    &&& color_connected(b, stone_at(b, from), from, to)
}

/// A liberty of the group of the stone at `p`: an empty position
/// orthogonally adjacent to some member of that group.
pub open spec fn group_liberty(b: Seq<Stone>, p: Position19x19, q: Position19x19) -> bool {
    &&& pos_on_board(q)
    &&& stone_at(b, q) == Stone::Empty
    &&& exists|m: Position19x19| reaches(b, p, m) && adjacent(m, q)
}

/// A stone reaches itself.
pub proof fn lemma_reaches_self(b: Seq<Stone>, p: Position19x19)
    requires
        pos_on_board(p),
        stone_at(b, p) != Stone::Empty,
    ensures
        reaches(b, p, p),
{
    let path = seq![p];
    assert(is_chain(b, path, stone_at(b, p)));
    assert(path.first() == p && path.last() == p);
}

/// Every member of a group lies on the board and has the group's colour.
pub proof fn lemma_reaches_member(b: Seq<Stone>, p: Position19x19, q: Position19x19)
    requires
        reaches(b, p, q),
    ensures
        pos_on_board(q),
        stone_at(b, q) == stone_at(b, p),
{
    let color = stone_at(b, p);
    let path = choose|path: Seq<Position19x19>|
        is_chain(b, path, color) && path.first() == p && path.last() == q;
    assert(pos_on_board(path[path.len() - 1]) && stone_at(b, path[path.len() - 1]) == color);
}

/// A group extends over any same-coloured neighbour of a member.
pub proof fn lemma_reaches_step(
    b: Seq<Stone>,
    p: Position19x19,
    q: Position19x19,
    r: Position19x19,
)
    requires
        reaches(b, p, q),
        adjacent(q, r),
        stone_at(b, r) == stone_at(b, p),
    ensures
        reaches(b, p, r),
{
    let color = stone_at(b, p);
    let path = choose|path: Seq<Position19x19>|
        is_chain(b, path, color) && path.first() == p && path.last() == q;
    let path2 = path.push(r);
    assert(is_chain(b, path2, color)) by {
        assert(forall|i: int| 0 <= i < path.len() ==> path2[i] == path[i]);
        assert(path2[path2.len() - 1] == r);
        assert(adjacent(path[path.len() - 1], r));
    }
    assert(path2.first() == p && path2.last() == r);
}

/// Group membership is symmetric.
pub proof fn lemma_reaches_sym(b: Seq<Stone>, p: Position19x19, q: Position19x19)
    requires
        reaches(b, p, q),
    ensures
        reaches(b, q, p),
{
    lemma_reaches_member(b, p, q);
    let color = stone_at(b, p);
    let path = choose|path: Seq<Position19x19>|
        is_chain(b, path, color) && path.first() == p && path.last() == q;
    let len = path.len() as int;
    let rev = Seq::new(path.len(), |i: int| path[len - 1 - i]);
    assert(is_chain(b, rev, color)) by {
        assert forall|i: int| 0 <= i < rev.len() - 1 implies adjacent(
            #[trigger] rev[i],
            rev[i + 1],
        ) by {
            assert(adjacent(path[len - 2 - i], path[len - 1 - i]));
        }
    }
    assert(rev.first() == q && rev.last() == p);
}

/// Group membership is transitive.
pub proof fn lemma_reaches_trans(
    b: Seq<Stone>,
    p: Position19x19,
    q: Position19x19,
    r: Position19x19,
)
    requires
        reaches(b, p, q),
        reaches(b, q, r),
    ensures
        reaches(b, p, r),
{
    lemma_reaches_member(b, p, q);
    let color = stone_at(b, p);
    let path1 = choose|path: Seq<Position19x19>|
        is_chain(b, path, color) && path.first() == p && path.last() == q;
    let path2 = choose|path: Seq<Position19x19>|
        is_chain(b, path, color) && path.first() == q && path.last() == r;
    if path2.len() == 1 {
        assert(q == r);
    } else {
        let cat = path1 + path2.subrange(1, path2.len() as int);
        let len1 = path1.len() as int;
        assert(is_chain(b, cat, color)) by {
            assert(forall|i: int| 0 <= i < len1 ==> cat[i] == path1[i]);
            assert(forall|i: int| len1 <= i < cat.len() ==> cat[i] == path2[i - len1 + 1]);
            assert forall|i: int| 0 <= i < cat.len() - 1 implies adjacent(
                #[trigger] cat[i],
                cat[i + 1],
            ) by {
                if i < len1 - 1 {
                    assert(adjacent(path1[i], path1[i + 1]));
                } else if i == len1 - 1 {
                    assert(cat[i] == path1[len1 - 1] && path1[len1 - 1] == q && path2[0] == q);
                    assert(adjacent(path2[0], path2[1]));
                } else {
                    assert(adjacent(path2[i - len1], path2[i - len1 + 1]));
                }
            }
        }
        assert(cat.first() == p);
        assert(cat.last() == path2[path2.len() - 1]);
    }
}

/// The group of a stone is the same whichever of its members it is
/// asked for: any two members see exactly the same membership.
pub proof fn lemma_same_group(b: Seq<Stone>, p: Position19x19, q: Position19x19)
    requires
        reaches(b, p, q),
    ensures
        forall|r: Position19x19| reaches(b, p, r) <==> reaches(b, q, r),
{
    assert forall|r: Position19x19| reaches(b, p, r) <==> reaches(b, q, r) by {
        if reaches(b, p, r) {
            lemma_reaches_sym(b, p, q);
            lemma_reaches_trans(b, q, p, r);
        }
        if reaches(b, q, r) {
            lemma_reaches_trans(b, p, q, r);
        }
    }
}

/// A set of positions that holds the start of a chain and is closed
/// under same-coloured adjacency also holds the chain's end.
pub proof fn lemma_chain_in_closed_seq(
    b: Seq<Stone>,
    s: Seq<Position19x19>,
    color: Stone,
    path: Seq<Position19x19>,
)
    requires
        is_chain(b, path, color),
        s.contains(path.first()),
        forall|c: Position19x19, n: Position19x19|
            #![trigger s.contains(c), adjacent(c, n)]
            s.contains(c) && adjacent(c, n) && stone_at(b, n) == color ==> s.contains(n),
    ensures
        s.contains(path.last()),
    decreases path.len(),
{
    if path.len() > 1 {
        assert(adjacent(path[0], path[1]));
        assert(stone_at(b, path[1]) == color);
        assert(s.contains(path[1]));
        let rest = path.subrange(1, path.len() as int);
        assert(is_chain(b, rest, color)) by {
            assert(forall|i: int| 0 <= i < rest.len() ==> rest[i] == path[i + 1]);
        }
        assert(rest.first() == path[1]);
        lemma_chain_in_closed_seq(b, s, color, rest);
        assert(rest.last() == path.last());
    }
}

/// There are no more than 361 pairwise distinct board positions.
pub proof fn lemma_distinct_on_board_bound(s: Seq<Position19x19>)
    requires
        distinct_seq(s),
        forall|i: int| 0 <= i < s.len() ==> pos_on_board(#[trigger] s[i]),
    ensures
        s.len() <= 361,
{
    let t = s.map_values(|p: Position19x19| pos_index(p));
    assert forall|i: int, j: int|
        0 <= i < t.len() && 0 <= j < t.len() && i != j implies t[i] != t[j] by {
        lemma_pos_index_at(s[i]);
        lemma_pos_index_at(s[j]);
    }
    t.unique_seq_to_set();
    assert(t.to_set().subset_of(set_int_range(0, 361))) by {
        assert forall|e: int| t.to_set().contains(e) implies set_int_range(0, 361).contains(
            e,
        ) by {
            let k = choose|k: int| 0 <= k < t.len() && t[k] == e;
            lemma_pos_index_at(s[k]);
        }
    }
    lemma_int_range(0, 361);
    lemma_len_subset(t.to_set(), set_int_range(0, 361));
}

/// A group of stones on a specific board
///
/// A snapshot of one connected component: the member positions, the
/// liberties they had, and the colour, all taken from the board the
/// group was computed on. The snapshot is not guarded against a later
/// change of that board.
#[derive(Eq, Debug)]
pub struct Group {
    /// The positions that are part of the group
    pub positions: Vec<Position19x19>,
    /// The liberties the group had on the board it was computed from
    pub liberties: Vec<Position19x19>,
    /// The colour of the group, if it has any member
    pub stone: Option<Stone>,
}

impl Group {
    /// What it means for this value to describe the group found at the
    /// board position `p`: the members are exactly the positions the
    /// stone at `p` reaches, the liberties are exactly that group's
    /// liberties, and the colour is the colour standing at `p`. At an
    /// empty position all three are empty.
    pub open spec fn is_group_of(self, b: Seq<Stone>, p: Position19x19) -> bool {
        &&& distinct_seq(self.positions@)
        &&& distinct_seq(self.liberties@)
        &&& (forall|q: Position19x19|
            #![trigger self.positions@.contains(q)]
            #![trigger reaches(b, p, q)]
            self.positions@.contains(q) <==> reaches(b, p, q))
        &&& (forall|q: Position19x19|
            #![trigger self.liberties@.contains(q)]
            #![trigger group_liberty(b, p, q)]
            self.liberties@.contains(q) <==> group_liberty(b, p, q))
        &&& self.stone == (if stone_at(b, p) == Stone::Empty {
            Option::<Stone>::None
        } else {
            Option::Some(stone_at(b, p))
        })
    }

    /// Creates a new group
    ///
    /// Collects all stones with the same color at the given position.
    /// If there is no stone, the group will be empty.
    #[verifier::loop_isolation(false)]
    pub fn new(board: &Board19x19, position: &Position19x19) -> (g: Group)
        requires
            board.wf(),
            pos_on_board(*position),
        ensures
            g.is_group_of(board@, *position),
    {
        let ghost b = board@;
        let stone = board.at(position);
        if stone == Stone::Empty {
            let g = Group { positions: Vec::new(), liberties: Vec::new(), stone: Option::None };
            return g;
        }

        let mut stack: Vec<Position19x19> = Vec::new();
        let mut content: Vec<Position19x19> = Vec::new();
        stack.push(*position);
        content.push(*position);
        proof {
            lemma_reaches_self(b, *position);
        }

        while stack.len() != 0
            invariant
                distinct_seq(content@),
                distinct_seq(stack@),
                content@.contains(*position),
                forall|q: Position19x19| #[trigger]
                    content@.contains(q) ==> reaches(b, *position, q),
                forall|q: Position19x19| #[trigger]
                    stack@.contains(q) ==> content@.contains(q),
                forall|c: Position19x19, n: Position19x19|
                    #![trigger content@.contains(c), adjacent(c, n)]
                    content@.contains(c) && !stack@.contains(c) && adjacent(c, n) && stone_at(
                        b,
                        n,
                    ) == stone ==> content@.contains(n),
            decreases 362 - content@.len(), stack@.len(),
        {
            proof {
                assert forall|q: Position19x19| content@.contains(q) implies pos_on_board(q) by {
                    lemma_reaches_member(b, *position, q);
                }
                lemma_distinct_on_board_bound(content@);
            }
            let ghost old_stack = stack@;
            let ghost old_content = content@;
            let top = stack.pop().unwrap();
            proof {
                assert(old_stack.contains(top));
                assert(reaches(b, *position, top));
                lemma_reaches_member(b, *position, top);
                assert forall|q: Position19x19| stack@.contains(q) implies old_stack.contains(q)
                    && q != top by {
                    let k = choose|k: int| 0 <= k < stack@.len() && stack@[k] == q;
                    assert(old_stack[k] == q);
                    if q == top {
                        assert(old_stack[k] == old_stack[old_stack.len() - 1]);
                    }
                }
                assert forall|q: Position19x19| old_stack.contains(q) && q != top implies
                    stack@.contains(q) by {
                    let k = choose|k: int| 0 <= k < old_stack.len() && old_stack[k] == q;
                    assert(k != old_stack.len() - 1);
                    assert(stack@[k] == q);
                }
                assert(!stack@.contains(top));
                assert(distinct_seq(stack@)) by {
                    assert forall|i1: int, j1: int| 0 <= i1 < j1 < stack@.len() implies
                        stack@[i1] != stack@[j1] by {
                        assert(old_stack[i1] != old_stack[j1]);
                    }
                }
                assert forall|q: Position19x19| stack@.contains(q) implies content@.contains(
                    q,
                ) by {
                    assert(old_stack.contains(q));
                }
            }
            let ns = board.neighbors(&top);
            let mut i: usize = 0;
            while i < ns.len()
                invariant
                    i <= ns@.len(),
                    distinct_seq(content@),
                    distinct_seq(stack@),
                    content@.contains(*position),
                    content@.contains(top),
                    old_content.len() <= content@.len(),
                    forall|q: Position19x19| #[trigger]
                        content@.contains(q) ==> reaches(b, *position, q),
                    forall|q: Position19x19| #[trigger]
                        stack@.contains(q) ==> content@.contains(q),
                    content@.len() > old_content.len() || (content@ == old_content
                        && stack@.len() < old_stack.len()),
                    forall|c: Position19x19, n: Position19x19|
                        #![trigger content@.contains(c), adjacent(c, n)]
                        content@.contains(c) && !stack@.contains(c) && c != top && adjacent(c, n)
                            && stone_at(b, n) == stone ==> content@.contains(n),
                    forall|j: int|
                        0 <= j < i ==> (stone_at(b, #[trigger] ns@[j]) == stone
                            ==> content@.contains(ns@[j])),
                decreases ns@.len() - i,
            {
                let n = ns[i];
                proof {
                    assert(ns@.contains(n));
                    assert(adjacent(top, n));
                }
                let sn = board.at(&n);
                if sn == stone {
                    if !vec_has(&content, &n) {
                        let ghost c_before = content@;
                        let ghost s_before = stack@;
                        content.push(n);
                        stack.push(n);
                        proof {
                            lemma_reaches_step(b, *position, top, n);
                            assert(distinct_seq(content@)) by {
                                assert forall|i1: int, j1: int|
                                    0 <= i1 < j1 < content@.len() implies content@[i1]
                                    != content@[j1] by {
                                    if j1 == content@.len() - 1 {
                                        assert(c_before.contains(c_before[i1]));
                                    }
                                }
                            }
                            assert(distinct_seq(stack@)) by {
                                assert forall|i1: int, j1: int|
                                    0 <= i1 < j1 < stack@.len() implies stack@[i1]
                                    != stack@[j1] by {
                                    if j1 == stack@.len() - 1 {
                                        assert(s_before.contains(s_before[i1]));
                                        assert(c_before.contains(s_before[i1]));
                                    }
                                }
                            }
                        }
                    }
                }
                i = i + 1;
            }
            proof {
                assert forall|c: Position19x19, n: Position19x19|
                    content@.contains(c) && !stack@.contains(c) && adjacent(c, n) && stone_at(
                        b,
                        n,
                    ) == stone implies content@.contains(n) by {
                    if c == top {
                        assert(ns@.contains(n));
                        let j = choose|j: int| 0 <= j < ns@.len() && ns@[j] == n;
                    }
                }
                assert forall|q: Position19x19| content@.contains(q) implies pos_on_board(q) by {
                    lemma_reaches_member(b, *position, q);
                }
                lemma_distinct_on_board_bound(content@);
            }
        }

        proof {
            assert forall|q: Position19x19| reaches(b, *position, q) implies content@.contains(
                q,
            ) by {
                let color = stone_at(b, *position);
                let path = choose|path: Seq<Position19x19>|
                    is_chain(b, path, color) && path.first() == *position && path.last() == q;
                lemma_chain_in_closed_seq(b, content@, color, path);
            }
        }

        let mut liberties: Vec<Position19x19> = Vec::new();
        let mut i: usize = 0;
        while i < content.len()
            invariant
                i <= content@.len(),
                distinct_seq(liberties@),
                forall|q: Position19x19| #[trigger]
                    liberties@.contains(q) ==> group_liberty(b, *position, q),
                forall|j: int, q: Position19x19|
                    #![trigger adjacent(content@[j], q)]
                    0 <= j < i && adjacent(content@[j], q) && stone_at(b, q) == Stone::Empty
                        ==> liberties@.contains(q),
            decreases content@.len() - i,
        {
            let m = content[i];
            proof {
                assert(content@.contains(m));
            }
            let ns = board.neighbors(&m);
            let mut k: usize = 0;
            while k < ns.len()
                invariant
                    k <= ns@.len(),
                    distinct_seq(liberties@),
                    forall|q: Position19x19| #[trigger]
                        liberties@.contains(q) ==> group_liberty(b, *position, q),
                    forall|j: int, q: Position19x19|
                        #![trigger adjacent(content@[j], q)]
                        0 <= j < i && adjacent(content@[j], q) && stone_at(b, q) == Stone::Empty
                            ==> liberties@.contains(q),
                    forall|j: int|
                        0 <= j < k ==> (stone_at(b, #[trigger] ns@[j]) == Stone::Empty
                            ==> liberties@.contains(ns@[j])),
                decreases ns@.len() - k,
            {
                let n = ns[k];
                proof {
                    assert(ns@.contains(n));
                    assert(adjacent(m, n));
                }
                if board.at(&n) == Stone::Empty {
                    if !vec_has(&liberties, &n) {
                        liberties.push(n);
                    }
                    proof {
                        assert(group_liberty(b, *position, n));
                    }
                }
                k = k + 1;
            }
            proof {
                assert forall|q: Position19x19|
                    adjacent(content@[i as int], q) && stone_at(b, q)
                        == Stone::Empty implies liberties@.contains(q) by {
                    assert(ns@.contains(q));
                    let j = choose|j: int| 0 <= j < ns@.len() && ns@[j] == q;
                }
            }
            i = i + 1;
        }
        proof {
            assert forall|q: Position19x19| group_liberty(b, *position, q) implies
                liberties@.contains(q) by {
                let m = choose|m: Position19x19| reaches(b, *position, m) && adjacent(m, q);
                assert(content@.contains(m));
                let j = choose|j: int| 0 <= j < content@.len() && content@[j] == m;
                assert(adjacent(content@[j], q));
            }
        }

        Group { positions: content, liberties, stone: Option::Some(stone) }
    }

    /// Returns a view into the contained positions
    pub fn positions(&self) -> (r: &Vec<Position19x19>)
        ensures
            r == &self.positions,
    {
        &self.positions
    }

    /// Returns if the position is part of the group
    pub fn contains(&self, pos: &Position19x19) -> (r: bool)
        ensures
            r == self.positions@.contains(*pos),
    {
        vec_has(&self.positions, pos)
    }

    /// The number of stones in the group.
    pub fn len(&self) -> (r: usize)
        ensures
            r == self.positions@.len(),
    {
        self.positions.len()
    }

    /// Returns the positions that are liberties of the group
    pub fn liberties(&self) -> (r: &Vec<Position19x19>)
        ensures
            r == &self.liberties,
    {
        &self.liberties
    }

    /// The liberties, for use in contracts.
    pub open spec fn liberties_view(&self) -> Seq<Position19x19> {
        self.liberties@
    }

    /// Returns the groups stone-color
    pub fn stone(&self) -> (r: Option<Stone>)
        ensures
            r == self.stone,
    {
        self.stone
    }

    /// The colour, for use in contracts.
    pub open spec fn stone_view(&self) -> Option<Stone> {
        self.stone
    }
}

/// Whether a vector of positions holds the given one.
pub fn vec_has(v: &Vec<Position19x19>, p: &Position19x19) -> (r: bool)
    ensures
        r == v@.contains(*p),
{
    let mut i: usize = 0;
    while i < v.len()
        invariant
            i <= v@.len(),
            forall|j: int| 0 <= j < i ==> v@[j] != *p,
        decreases v@.len() - i,
    {
        if v[i].x == p.x && v[i].y == p.y {
            return true;
        }
        i = i + 1;
    }
    false
}

impl PartialEq for Group {
    /// Two groups are equal when they hold the same member set, the
    /// same liberty set and the same colour, whatever the order the
    /// positions were collected in.
    fn eq(&self, other: &Group) -> (r: bool) {
        let same_stone = match (self.stone, other.stone) {
            (Option::Some(a), Option::Some(b)) => a == b,
            (Option::None, Option::None) => true,
            _ => false,
        };
        if !same_stone {
            return false;
        }
        let r = seq_same_elements(&self.positions, &other.positions) && seq_same_elements(
            &self.liberties,
            &other.liberties,
        );
        proof {
            if r {
                assert(self.positions@.to_set() =~= other.positions@.to_set());
                assert(self.liberties@.to_set() =~= other.liberties@.to_set());
            } else {
                if self.positions@.to_set() == other.positions@.to_set()
                    && self.liberties@.to_set() == other.liberties@.to_set() {
                    assert forall|q: Position19x19|
                        self.positions@.contains(q) == other.positions@.contains(q) by {
                        assert(self.positions@.to_set().contains(q) == other
                            .positions@
                            .to_set()
                            .contains(q));
                    }
                    assert forall|q: Position19x19|
                        self.liberties@.contains(q) == other.liberties@.contains(q) by {
                        assert(self.liberties@.to_set().contains(q) == other
                            .liberties@
                            .to_set()
                            .contains(q));
                    }
                }
            }
        }
        r
    }
}

impl vstd::std_specs::cmp::PartialEqSpecImpl for Group {
    open spec fn obeys_eq_spec() -> bool {
        true
    }

    open spec fn eq_spec(&self, other: &Group) -> bool {
        &&& self.positions@.to_set() == other.positions@.to_set()
        &&& self.liberties@.to_set() == other.liberties@.to_set()
        &&& self.stone == other.stone
    }
}

/// Whether two vectors of positions hold the same elements, in
/// whatever order and multiplicity.
fn seq_same_elements(a: &Vec<Position19x19>, b: &Vec<Position19x19>) -> (r: bool)
    ensures
        r == (forall|q: Position19x19| a@.contains(q) == b@.contains(q)),
{
    let mut i: usize = 0;
    while i < a.len()
        invariant
            i <= a@.len(),
            forall|j: int| 0 <= j < i ==> b@.contains(#[trigger] a@[j]),
        decreases a@.len() - i,
    {
        if !vec_has(b, &a[i]) {
            proof {
                assert(a@.contains(a@[i as int]));
            }
            return false;
        }
        i = i + 1;
    }
    let mut k: usize = 0;
    while k < b.len()
        invariant
            k <= b@.len(),
            forall|j: int| 0 <= j < a@.len() ==> b@.contains(#[trigger] a@[j]),
            forall|j: int| 0 <= j < k ==> a@.contains(#[trigger] b@[j]),
        decreases b@.len() - k,
    {
        if !vec_has(a, &b[k]) {
            proof {
                assert(b@.contains(b@[k as int]));
            }
            return false;
        }
        k = k + 1;
    }
    proof {
        assert forall|q: Position19x19| a@.contains(q) == b@.contains(q) by {
            if a@.contains(q) {
                let j = choose|j: int| 0 <= j < a@.len() && a@[j] == q;
            }
            if b@.contains(q) {
                let j = choose|j: int| 0 <= j < b@.len() && b@[j] == q;
            }
        }
    }
    true
}

} // verus!
