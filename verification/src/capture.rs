use vstd::prelude::*;

use crate::board::{stone_at, Board19x19};
use crate::group::{
    distinct_seq, group_liberty, lemma_reaches_member, lemma_reaches_self, lemma_reaches_sym,
    lemma_reaches_trans, lemma_same_group, reaches, Group,
};
use crate::player::Player;
use crate::position::{adjacent, lemma_adjacent_sym, pos_on_board, Position19x19};
use crate::stone::Stone;

verus! {

broadcast use vstd::seq_lib::group_seq_properties;

/// Some group in the sequence is the group of the board position `n`.
pub open spec fn covers_neighbor(r: Seq<Group>, b: Seq<Stone>, n: Position19x19) -> bool {
    exists|i: int| 0 <= i < r.len() && (#[trigger] r[i]).is_group_of(b, n)
}

/// The group value describes the group of one of the neighbours of `pos`.
pub open spec fn group_of_some_neighbor(g: Group, b: Seq<Stone>, pos: Position19x19) -> bool {
    exists|n: Position19x19| #[trigger] adjacent(pos, n) && g.is_group_of(b, n)
}

/// Whether `p` would be captured by the given player playing at `pos`:
/// `p` carries a stone of the opposing colour and the one liberty of
/// its group is exactly the point played on.
pub open spec fn is_captured(
    b: Seq<Stone>,
    player: Player,
    pos: Position19x19,
    p: Position19x19,
) -> bool {
    &&& pos_on_board(p)
    &&& stone_at(b, p) == player.other_spec().stone_spec()
    &&& (forall|q: Position19x19| group_liberty(b, p, q) <==> q == pos)
}

/// Whether a play at `pos` by the player captures something: some
/// adjacent opposing group is down to that one liberty.
pub open spec fn play_captures(b: Seq<Stone>, pos: Position19x19, player: Player) -> bool {
    exists|n: Position19x19|
        #[trigger] adjacent(pos, n) && stone_at(b, n) == player.other_spec().stone_spec() && (
        forall|q: Position19x19| group_liberty(b, n, q) <==> q == pos)
}

/// Whether some adjacent friendly group keeps a liberty other than
/// `pos` itself after a play there.
pub open spec fn friendly_keeps_liberty(b: Seq<Stone>, pos: Position19x19, player: Player) -> bool {
    exists|n: Position19x19|
        #[trigger] adjacent(pos, n) && stone_at(b, n) == player.stone_spec() && (exists|
            q: Position19x19,
        |
            group_liberty(b, n, q) && q != pos)
}

/// Whether some adjacent friendly group is down to `pos` as its last
/// liberty.
pub open spec fn friendly_loses_last_liberty(
    b: Seq<Stone>,
    pos: Position19x19,
    player: Player,
) -> bool {
    exists|n: Position19x19|
        #[trigger] adjacent(pos, n) && stone_at(b, n) == player.stone_spec() && (forall|
            q: Position19x19,
        |
            group_liberty(b, n, q) <==> q == pos)
}

/// The suicide rule, in the precedence the engine applies: a play is
/// suicide when it captures nothing, no adjacent friendly group keeps
/// another liberty, and some adjacent friendly group would lose its
/// last one.
pub open spec fn would_be_suicide_spec(b: Seq<Stone>, pos: Position19x19, player: Player) -> bool {
    &&& !play_captures(b, pos, player)
    &&& !friendly_keeps_liberty(b, pos, player)
    &&& friendly_loses_last_liberty(b, pos, player)
}

/// Liberties are a property of the group, not of the member they were
/// asked through: two members of one group see the same liberties.
pub proof fn lemma_same_liberties(b: Seq<Stone>, m: Position19x19, n: Position19x19)
    requires
        reaches(b, m, n),
    ensures
        forall|q: Position19x19| group_liberty(b, m, q) <==> group_liberty(b, n, q),
{
    lemma_same_group(b, m, n);
    lemma_reaches_member(b, m, n);
    assert forall|q: Position19x19| group_liberty(b, m, q) <==> group_liberty(b, n, q) by {
        if group_liberty(b, m, q) {
            let w = choose|w: Position19x19| reaches(b, m, w) && adjacent(w, q);
            assert(reaches(b, n, w));
        }
        if group_liberty(b, n, q) {
            let w = choose|w: Position19x19| reaches(b, n, w) && adjacent(w, q);
            assert(reaches(b, m, w));
        }
    }
}

/// A group value computed for one of its members also describes the
/// group of any position it contains.
pub proof fn lemma_group_rebase(g: Group, b: Seq<Stone>, m: Position19x19, n: Position19x19)
    requires
        g.is_group_of(b, m),
        g.positions@.contains(n),
    ensures
        g.is_group_of(b, n),
{
    assert(reaches(b, m, n));
    lemma_reaches_member(b, m, n);
    lemma_reaches_sym(b, m, n);
    lemma_same_group(b, n, m);
    lemma_same_liberties(b, m, n);
}

/// How the liberty count of the group of an occupied neighbour of an
/// empty point reads at the level of liberty sets.
pub proof fn lemma_liberty_count(g: Group, b: Seq<Stone>, pos: Position19x19, n: Position19x19)
    requires
        g.is_group_of(b, n),
        adjacent(pos, n),
        stone_at(b, pos) == Stone::Empty,
        stone_at(b, n) != Stone::Empty,
    ensures
        g.stone_view() == Option::Some(stone_at(b, n)),
        g.liberties_view().len() == 1 <==> (forall|q: Position19x19|
            group_liberty(b, n, q) <==> q == pos),
        g.liberties_view().len() > 1 <==> (exists|q: Position19x19|
            group_liberty(b, n, q) && q != pos),
{
    lemma_reaches_self(b, n);
    lemma_adjacent_sym(pos, n);
    assert(group_liberty(b, n, pos));
    assert(g.liberties_view().contains(pos));
    let libs = g.liberties_view();
    if libs.len() == 1 {
        assert forall|q: Position19x19| group_liberty(b, n, q) <==> q == pos by {
            if group_liberty(b, n, q) {
                let i = choose|i: int| 0 <= i < libs.len() && libs[i] == q;
                let j = choose|j: int| 0 <= j < libs.len() && libs[j] == pos;
                assert(i == 0 && j == 0);
            }
        }
    }
    if forall|q: Position19x19| #[trigger] group_liberty(b, n, q) <==> q == pos {
        assert(libs.len() <= 1) by {
            if libs.len() > 1 {
                assert(libs.contains(libs[0]) && libs.contains(libs[1]));
                assert(libs[0] == pos && libs[1] == pos);
            }
        }
    }
    if libs.len() > 1 {
        assert(libs.contains(libs[0]) && libs.contains(libs[1]));
        assert(libs[0] != libs[1]);
        if libs[0] != pos {
            assert(group_liberty(b, n, libs[0]) && libs[0] != pos);
        } else {
            assert(group_liberty(b, n, libs[1]) && libs[1] != pos);
        }
    }
    if exists|q: Position19x19| group_liberty(b, n, q) && q != pos {
        let q = choose|q: Position19x19| group_liberty(b, n, q) && q != pos;
        assert(libs.contains(q));
        let i = choose|i: int| 0 <= i < libs.len() && libs[i] == q;
        let j = choose|j: int| 0 <= j < libs.len() && libs[j] == pos;
        assert(i != j);
        assert(libs.len() > 1);
    }
}

/// The group returned for any member of a connected same-coloured
/// region has the same member set whichever member it was asked for.
pub proof fn lemma_group_of_any_member(
    g1: Group,
    g2: Group,
    b: Seq<Stone>,
    p: Position19x19,
    q: Position19x19,
)
    requires
        g1.is_group_of(b, p),
        g2.is_group_of(b, q),
        g1.positions@.contains(q),
    ensures
        forall|r: Position19x19| g1.positions@.contains(r) == g2.positions@.contains(r),
{
    assert(reaches(b, p, q));
    lemma_same_group(b, p, q);
}

/// A play that captures is never suicide, even where it would
/// otherwise fill the group's own last liberty.
pub proof fn lemma_capture_overrides_suicide(b: Seq<Stone>, pos: Position19x19, player: Player)
    requires
        exists|p: Position19x19| is_captured(b, player, pos, p),
    ensures
        !would_be_suicide_spec(b, pos, player),
{
    let p = choose|p: Position19x19| is_captured(b, player, pos, p);
    assert(group_liberty(b, p, pos));
    let m = choose|m: Position19x19| reaches(b, p, m) && adjacent(m, pos);
    lemma_reaches_member(b, p, m);
    lemma_adjacent_sym(m, pos);
    lemma_same_liberties(b, p, m);
    assert(adjacent(pos, m) && stone_at(b, m) == player.other_spec().stone_spec() && (forall|
        q: Position19x19,
    |
        group_liberty(b, m, q) <==> q == pos));
}

/// What the stored colour and liberty count of one adjacent group say
/// at the level of the suicide rule's three conditions.
pub proof fn lemma_group_conditions(g: Group, b: Seq<Stone>, pos: Position19x19, player: Player)
    requires
        group_of_some_neighbor(g, b, pos),
        stone_at(b, pos) == Stone::Empty,
    ensures
        g.stone_view() == Option::Some(player.other_spec().stone_spec())
            && g.liberties_view().len() == 1 ==> play_captures(b, pos, player),
        g.stone_view() == Option::Some(player.stone_spec()) && g.liberties_view().len() > 1
            ==> friendly_keeps_liberty(b, pos, player),
        g.stone_view() == Option::Some(player.stone_spec()) && g.liberties_view().len() == 1
            ==> friendly_loses_last_liberty(b, pos, player),
{
    let n = choose|n: Position19x19| #[trigger] adjacent(pos, n) && g.is_group_of(b, n);
    if stone_at(b, n) != Stone::Empty {
        lemma_liberty_count(g, b, pos, n);
    } else {
        assert(g.stone_view() == Option::<Stone>::None);
    }
}

/// Each of the suicide rule's three conditions is witnessed by one of
/// the groups adjacent to the point, as its stored colour and liberty
/// count.
pub proof fn lemma_condition_witnesses(
    groups: Seq<Group>,
    b: Seq<Stone>,
    pos: Position19x19,
    player: Player,
)
    requires
        stone_at(b, pos) == Stone::Empty,
        forall|n: Position19x19| #[trigger] adjacent(pos, n) ==> covers_neighbor(groups, b, n),
    ensures
        play_captures(b, pos, player) ==> exists|j: int|
            0 <= j < groups.len() && (#[trigger] groups[j]).stone_view() == Option::Some(
                player.other_spec().stone_spec(),
            ) && groups[j].liberties_view().len() == 1,
        friendly_keeps_liberty(b, pos, player) ==> exists|j: int|
            0 <= j < groups.len() && (#[trigger] groups[j]).stone_view() == Option::Some(
                player.stone_spec(),
            ) && groups[j].liberties_view().len() > 1,
        friendly_loses_last_liberty(b, pos, player) ==> exists|j: int|
            0 <= j < groups.len() && (#[trigger] groups[j]).stone_view() == Option::Some(
                player.stone_spec(),
            ) && groups[j].liberties_view().len() == 1,
{
    if play_captures(b, pos, player) {
        let n = choose|n: Position19x19|
            #[trigger] adjacent(pos, n) && stone_at(b, n) == player.other_spec().stone_spec() && (
            forall|q: Position19x19| group_liberty(b, n, q) <==> q == pos);
        assert(covers_neighbor(groups, b, n));
        let j = choose|j: int| 0 <= j < groups.len() && (#[trigger] groups[j]).is_group_of(b, n);
        lemma_liberty_count(groups[j], b, pos, n);
        assert(groups[j].liberties_view().len() == 1);
    }
    if friendly_keeps_liberty(b, pos, player) {
        let n = choose|n: Position19x19|
            #[trigger] adjacent(pos, n) && stone_at(b, n) == player.stone_spec() && (exists|
                q: Position19x19,
            |
                group_liberty(b, n, q) && q != pos);
        assert(covers_neighbor(groups, b, n));
        let j = choose|j: int| 0 <= j < groups.len() && (#[trigger] groups[j]).is_group_of(b, n);
        lemma_liberty_count(groups[j], b, pos, n);
        assert(groups[j].liberties_view().len() > 1);
    }
    if friendly_loses_last_liberty(b, pos, player) {
        let n = choose|n: Position19x19|
            #[trigger] adjacent(pos, n) && stone_at(b, n) == player.stone_spec() && (forall|
                q: Position19x19,
            |
                group_liberty(b, n, q) <==> q == pos);
        assert(covers_neighbor(groups, b, n));
        let j = choose|j: int| 0 <= j < groups.len() && (#[trigger] groups[j]).is_group_of(b, n);
        lemma_liberty_count(groups[j], b, pos, n);
        assert(groups[j].liberties_view().len() == 1);
    }
}

impl Board19x19 {
    /// Returns the possibly empty group that contains the position
    pub fn group_at(&self, position: &Position19x19) -> (g: Group)
        requires
            self.wf(),
            pos_on_board(*position),
        ensures
            g.is_group_of(self@, *position),
    {
        Group::new(self, position)
    }

    /// Returns the vector of groups that have a liberty at the given position
    ///
    /// The groups of the occupied neighbours, each once, together with
    /// one empty group for each empty neighbour; nothing when the
    /// position itself is occupied.
    #[verifier::loop_isolation(false)]
    pub fn groups_with_liberty_at(&self, position: &Position19x19) -> (r: Vec<Group>)
        requires
            self.wf(),
            pos_on_board(*position),
        ensures
            stone_at(self@, *position) != Stone::Empty ==> r@.len() == 0,
            forall|i: int|
                0 <= i < r@.len() ==> group_of_some_neighbor(#[trigger] r@[i], self@, *position),
            stone_at(self@, *position) == Stone::Empty ==> forall|n: Position19x19|
                #[trigger] adjacent(*position, n) ==> covers_neighbor(r@, self@, n),
            forall|i: int, j: int, q: Position19x19|
                #![trigger r@[i].positions@.contains(q), r@[j].positions@.contains(q)]
                0 <= i < j < r@.len() ==> !(r@[i].positions@.contains(q)
                    && r@[j].positions@.contains(q)),
    {
        let ghost b = self@;
        if self.at(position) != Stone::Empty {
            let r = Vec::<Group>::new();
            return r;
        }

        let ns = self.neighbors(position);
        let mut found_groups: Vec<Group> = Vec::new();
        let mut i: usize = 0;
        while i < ns.len()
            invariant
                i <= ns@.len(),
                forall|k: int|
                    0 <= k < found_groups@.len() ==> group_of_some_neighbor(
                        #[trigger] found_groups@[k],
                        b,
                        *position,
                    ),
                forall|j: int| 0 <= j < i ==> covers_neighbor(found_groups@, b, #[trigger] ns@[j]),
                forall|k1: int, k2: int, q: Position19x19|
                    #![trigger found_groups@[k1].positions@.contains(q), found_groups@[k2].positions@.contains(q)]
                    0 <= k1 < k2 < found_groups@.len() ==> !(found_groups@[k1].positions@.contains(
                        q,
                    ) && found_groups@[k2].positions@.contains(q)),
            decreases ns@.len() - i,
        {
            let pos = ns[i];
            proof {
                assert(ns@.contains(pos));
                assert(adjacent(*position, pos));
            }
            let mut already: bool = false;
            let mut k: usize = 0;
            while k < found_groups.len()
                invariant
                    k <= found_groups@.len(),
                    already ==> covers_neighbor(found_groups@, b, pos),
                    !already ==> forall|j: int|
                        0 <= j < k ==> !(#[trigger] found_groups@[j]).positions@.contains(pos),
                decreases found_groups@.len() - k,
            {
                if found_groups[k].contains(&pos) {
                    proof {
                        let g = found_groups@[k as int];
                        let m = choose|m: Position19x19|
                            adjacent(*position, m) && g.is_group_of(b, m);
                        lemma_group_rebase(g, b, m, pos);
                    }
                    already = true;
                }
                k = k + 1;
            }

            if !already {
                let g = Group::new(self, &pos);
                proof {
                    let gg = g;
                    assert forall|k1: int, q: Position19x19|
                        #![trigger found_groups@[k1].positions@.contains(q)]
                        0 <= k1 < found_groups@.len() && found_groups@[k1].positions@.contains(
                            q,
                        ) implies !gg.positions@.contains(q) by {
                        if gg.positions@.contains(q) {
                            let gk = found_groups@[k1];
                            let m = choose|m: Position19x19|
                                adjacent(*position, m) && gk.is_group_of(b, m);
                            assert(reaches(b, m, q));
                            assert(reaches(b, pos, q));
                            lemma_reaches_sym(b, pos, q);
                            lemma_reaches_trans(b, m, q, pos);
                            assert(gk.positions@.contains(pos));
                        }
                    }
                }
                let ghost oldf = found_groups@;
                found_groups.push(g);
                proof {
                    assert(found_groups@[found_groups@.len() - 1] == g);
                    assert(adjacent(*position, pos) && g.is_group_of(b, pos));
                    assert(group_of_some_neighbor(g, b, *position));
                    assert forall|j: int| 0 <= j < i implies covers_neighbor(
                        found_groups@,
                        b,
                        #[trigger] ns@[j],
                    ) by {
                        let k = choose|k: int|
                            0 <= k < oldf.len() && (#[trigger] oldf[k]).is_group_of(b, ns@[j]);
                        assert(found_groups@[k] == oldf[k]);
                    }
                    assert(covers_neighbor(found_groups@, b, pos));
                }
            } else {
                proof {
                    assert(covers_neighbor(found_groups@, b, pos));
                }
            }
            i = i + 1;
        }
        proof {
            assert forall|n: Position19x19| adjacent(*position, n) implies covers_neighbor(
                found_groups@,
                b,
                n,
            ) by {
                assert(ns@.contains(n));
                let j = choose|j: int| 0 <= j < ns@.len() && ns@[j] == n;
            }
        }
        found_groups
    }

    /// Returns the positions that would be captured if the given player plays at the given position
    ///
    /// The union of the members of every adjacent opposing group whose
    /// last liberty is exactly the point played on.
    #[verifier::loop_isolation(false)]
    #[verifier::rlimit(60)]
    pub fn would_be_captured(&self, player: &Player, position: &Position19x19) -> (r: Vec<
        Position19x19,
    >)
        requires
            self.wf(),
            pos_on_board(*position),
        ensures
            distinct_seq(r@),
            forall|p: Position19x19| r@.contains(p) <==> is_captured(self@, *player, *position, p),
    {
        let ghost b = self@;
        let groups = self.groups_with_liberty_at(position);
        let mut captured: Vec<Position19x19> = Vec::new();
        let mut i: usize = 0;
        while i < groups.len()
            invariant
                i <= groups@.len(),
                distinct_seq(captured@),
                forall|p: Position19x19| #[trigger]
                    captured@.contains(p) ==> is_captured(b, *player, *position, p),
                forall|p: Position19x19| #[trigger]
                    captured@.contains(p) ==> exists|j: int|
                        #![trigger groups@[j].positions@.contains(p)]
                        0 <= j < i && groups@[j].positions@.contains(p),
                forall|j: int, p: Position19x19|
                    #![trigger groups@[j].positions@.contains(p)]
                    0 <= j < i && groups@[j].stone_view() != Option::Some(player.stone_spec())
                        && groups@[j].liberties_view().len() == 1 && groups@[j].positions@.contains(
                        p,
                    ) ==> captured@.contains(p),
            decreases groups@.len() - i,
        {
            let g = &groups[i];
            let take = (match g.stone() {
                Option::Some(s) => s != player.stone(),
                Option::None => true,
            }) && g.liberties().len() == 1;
            if take {
                proof {
                    let gg = groups@[i as int];
                    let n = choose|n: Position19x19|
                        adjacent(*position, n) && gg.is_group_of(b, n);
                    assert(stone_at(b, *position) == Stone::Empty) by {
                        if stone_at(b, *position) != Stone::Empty {
                            assert(groups@.len() == 0);
                        }
                    }
                    assert(stone_at(b, n) != Stone::Empty) by {
                        if stone_at(b, n) == Stone::Empty {
                            let e = gg.liberties_view()[0];
                            assert(gg.liberties_view().contains(e));
                            assert(group_liberty(b, n, e));
                            let w = choose|w: Position19x19| reaches(b, n, w) && adjacent(w, e);
                            assert(stone_at(b, n) != Stone::Empty);
                        }
                    }
                    lemma_liberty_count(gg, b, *position, n);
                    assert forall|p: Position19x19| gg.positions@.contains(p) implies is_captured(
                        b,
                        *player,
                        *position,
                        p,
                    ) by {
                        assert(reaches(b, n, p));
                        lemma_reaches_member(b, n, p);
                        lemma_same_liberties(b, n, p);
                        assert(stone_at(b, p) == stone_at(b, n));
                        assert(stone_at(b, n) != player.stone_spec() && stone_at(b, n)
                            != Stone::Empty);
                        assert(stone_at(b, p) == player.other_spec().stone_spec());
                    }
                }
                let ghost cap0 = captured@;
                let mut k: usize = 0;
                while k < g.positions.len()
                    invariant
                        k <= g.positions@.len(),
                        captured@ == cap0 + g.positions@.subrange(0, k as int),
                    decreases g.positions@.len() - k,
                {
                    captured.push(g.positions[k]);
                    proof {
                        assert(captured@ =~= cap0 + g.positions@.subrange(0, k + 1 as int));
                    }
                    k = k + 1;
                }
                proof {
                    assert(captured@ =~= cap0 + groups@[i as int].positions@);
                    let gg = groups@[i as int];
                    assert forall|p: Position19x19| captured@.contains(p) implies (cap0.contains(p)
                        || gg.positions@.contains(p)) by {
                        let x = choose|x: int| 0 <= x < captured@.len() && captured@[x] == p;
                        if x < cap0.len() {
                            assert(cap0[x] == p);
                        } else {
                            assert(gg.positions@[x - cap0.len()] == p);
                        }
                    }
                    assert forall|i1: int, j1: int| 0 <= i1 < j1 < captured@.len() implies
                        captured@[i1] != captured@[j1] by {
                        if i1 >= cap0.len() {
                            assert(gg.positions@[i1 - cap0.len()] != gg.positions@[j1
                                - cap0.len()]);
                        } else if j1 >= cap0.len() {
                            let p = cap0[i1];
                            assert(cap0.contains(p));
                            let jprev = choose|j: int|
                                0 <= j < i && (#[trigger] groups@[j]).positions@.contains(p);
                            if gg.positions@.contains(p) {
                                assert(false);
                            }
                            assert(captured@[j1] == gg.positions@[j1 - cap0.len()]);
                            assert(gg.positions@.contains(gg.positions@[j1 - cap0.len()]));
                        } else {
                            assert(cap0[i1] != cap0[j1]);
                        }
                    }
                }
            }
            i = i + 1;
        }
        proof {
            assert forall|p: Position19x19| is_captured(b, *player, *position, p) implies
                captured@.contains(p) by {
                assert(group_liberty(b, p, *position));
                let m = choose|m: Position19x19| reaches(b, p, m) && adjacent(m, *position);
                lemma_reaches_member(b, p, m);
                lemma_adjacent_sym(m, *position);
                assert(adjacent(*position, m));
                assert(covers_neighbor(groups@, b, m));
                let j = choose|j: int| 0 <= j < groups@.len() && (#[trigger] groups@[j]).is_group_of(
                    b,
                    m,
                );
                let gj = groups@[j];
                lemma_reaches_sym(b, p, m);
                assert(gj.positions@.contains(p));
                lemma_liberty_count(gj, b, *position, m);
                lemma_same_liberties(b, p, m);
                assert(forall|q: Position19x19| group_liberty(b, m, q) <==> q == *position);
                assert(gj.liberties_view().len() == 1);
                assert(gj.stone_view() != Option::Some(player.stone_spec()));
            }
        }
        captured
    }

    /// Returns if a play here would be suicide
    ///
    /// Returns false if a play at position by player would:
    /// * kill something
    /// * connect own groups that have at least two remaining liberties
    ///
    /// If none of those match, returns true if a friendly neighboring group looses
    /// its last liberty. Note that it returns true if it is a suicidal move.
    #[verifier::loop_isolation(false)]
    #[verifier::rlimit(60)]
    pub fn would_be_suicide(&self, position: &Position19x19, player: &Player) -> (r: bool)
        requires
            self.wf(),
            pos_on_board(*position),
        ensures
            r == would_be_suicide_spec(self@, *position, *player),
    {
        let ghost b = self@;
        let groups = self.groups_with_liberty_at(position);
        proof {
            if stone_at(b, *position) != Stone::Empty {
                assert(!friendly_loses_last_liberty(b, *position, *player)) by {
                    if friendly_loses_last_liberty(b, *position, *player) {
                        let n = choose|n: Position19x19|
                            #[trigger] adjacent(*position, n) && stone_at(b, n)
                                == player.stone_spec() && (forall|q: Position19x19|
                                group_liberty(b, n, q) <==> q == *position);
                        assert(group_liberty(b, n, *position));
                    }
                }
            }
        }
        let mut friendly_looses_last_liberty = false;
        let mut i: usize = 0;
        while i < groups.len()
            invariant
                i <= groups@.len(),
                stone_at(b, *position) == Stone::Empty || groups@.len() == 0,
                forall|j: int|
                    0 <= j < i ==> !((#[trigger] groups@[j]).stone_view() == Option::Some(
                        player.other_spec().stone_spec(),
                    ) && groups@[j].liberties_view().len() == 1),
                forall|j: int|
                    0 <= j < i ==> !((#[trigger] groups@[j]).stone_view() == Option::Some(
                        player.stone_spec(),
                    ) && groups@[j].liberties_view().len() > 1),
                friendly_looses_last_liberty == exists|j: int|
                    0 <= j < i && (#[trigger] groups@[j]).stone_view() == Option::Some(
                        player.stone_spec(),
                    ) && groups@[j].liberties_view().len() == 1,
            decreases groups@.len() - i,
        {
            let g = &groups[i];
            let liberties_len = g.liberties().len();
            let g_stone = g.stone();

            let is_other = match g_stone {
                Option::Some(s) => s == player.other().stone(),
                Option::None => false,
            };
            let is_mine = match g_stone {
                Option::Some(s) => s == player.stone(),
                Option::None => false,
            };
            proof {
                lemma_group_conditions(groups@[i as int], b, *position, *player);
            }

            if liberties_len == 1 && is_other {
                return false;
            }
            if liberties_len > 1 && is_mine {
                return false;
            }
            if liberties_len == 1 && is_mine {
                friendly_looses_last_liberty = true;
                proof {
                    assert(friendly_loses_last_liberty(b, *position, *player));
                }
            }
            i = i + 1;
        }
        proof {
            if groups@.len() == 0 && stone_at(b, *position) != Stone::Empty {
                assert(!friendly_looses_last_liberty);
                assert(!friendly_loses_last_liberty(b, *position, *player));
            } else {
                lemma_condition_witnesses(groups@, b, *position, *player);
                if friendly_looses_last_liberty {
                    let j = choose|j: int|
                        0 <= j < groups@.len() && (#[trigger] groups@[j]).stone_view()
                            == Option::Some(player.stone_spec()) && groups@[
                            j
                        ].liberties_view().len() == 1;
                    lemma_group_conditions(groups@[j], b, *position, *player);
                }
            }
        }
        friendly_looses_last_liberty
    }
}

} // verus!
