use vstd::prelude::*;

verus! {

broadcast use vstd::seq_lib::group_seq_properties;

/// A game state
///
/// Beside the constructor, the trait carries the ghost notions the
/// tree reasons with: which values are initial, which the tree may
/// work on, and when two states cannot be told apart.
pub trait GameState: Sized {
    /// The states on which actions may be tested and executed.
    spec fn inv(&self) -> bool;

    /// Whether this value is an initial state.
    spec fn is_init(&self) -> bool;

    /// Observational equality: two states that no test or action can
    /// tell apart.
    spec fn alike(&self, other: &Self) -> bool;

    /// Any two initial states are alike.
    proof fn lemma_init_alike(&self, other: &Self)
        requires
            self.is_init(),
            other.is_init(),
        ensures
            self.alike(other),
    ;

    /// constructs the initial game state
    fn new() -> (r: Self)
        ensures
            r.is_init(),
            r.inv(),
    ;
}

/// An game action
pub trait Action: Sized {
    /// The states these actions modify
    type GameState: GameState;

    /// Whether the action is applicable to the given state.
    spec fn test_spec(&self, state: &Self::GameState) -> bool;

    /// How executing the action relates the state before it to the
    /// state after it.
    spec fn step(&self, pre: &Self::GameState, post: &Self::GameState) -> bool;

    /// Applicability cannot tell alike states apart.
    proof fn lemma_test_alike(&self, s1: &Self::GameState, s2: &Self::GameState)
        requires
            s1.alike(s2),
        ensures
            self.test_spec(s1) == self.test_spec(s2),
    ;

    /// Execution keeps alike states alike.
    proof fn lemma_step_alike(
        &self,
        pre1: &Self::GameState,
        post1: &Self::GameState,
        pre2: &Self::GameState,
        post2: &Self::GameState,
    )
        requires
            pre1.alike(pre2),
            self.step(pre1, post1),
            self.step(pre2, post2),
        ensures
            post1.alike(post2),
    ;

    /// Tests if the action is applicable to the given state
    fn test(&self, state: &Self::GameState) -> (r: bool)
        requires
            state.inv(),
        ensures
            r == self.test_spec(state),
    ;

    /// Executes the action on the given state
    fn execute(&self, state: &mut Self::GameState)
        requires
            old(state).inv(),
            self.test_spec(old(state)),
        ensures
            final(state).inv(),
            self.step(old(state), final(state)),
    ;
}

/// The path to one game tree item
///
/// Stores the path as an id to the parent item.
#[derive(Clone, Copy, PartialEq, Eq, Structural, Debug)]
pub enum Path {
    /// There is no parent (we mean the trees root)
    Empty,
    /// The parents id
    HistoryItemId(usize),
}

/// An history item for use in the game tree
#[derive(Debug)]
pub struct HistoryItem<SomeAction> where SomeAction: Action {
    /// The path to the parent item
    pub parent: Path,
    /// An action to be executed after the parent item
    pub action: SomeAction,
}

/// How deep a replay over this path can recurse.
pub open spec fn path_rank(p: Path) -> int {
    match p {
        Path::Empty => 0,
        Path::HistoryItemId(i) => i + 1,
    }
}

/// Whether a path points into a store of `len` items.
pub open spec fn path_ok(p: Path, len: int) -> bool {
    match p {
        Path::Empty => true,
        Path::HistoryItemId(i) => i < len,
    }
}

/// Every item's parent comes earlier in the store: the flat store is
/// a well-founded forest.
pub open spec fn links_ok<SomeAction: Action>(hist: Seq<HistoryItem<SomeAction>>) -> bool {
    forall|i: int| 0 <= i < hist.len() ==> path_rank((#[trigger] hist[i]).parent) <= i
}

/// Whether `s` is a state the store reconstructs at `at`: an initial
/// state at the root, and otherwise the result of one step of the
/// item's action from a state reconstructed at the item's parent.
pub open spec fn is_replay<SomeAction: Action>(
    hist: Seq<HistoryItem<SomeAction>>,
    at: Path,
    s: SomeAction::GameState,
) -> bool
    decreases path_rank(at),
{
    match at {
        Path::Empty => s.is_init(),
        Path::HistoryItemId(i) => {
            if 0 <= i < hist.len() && path_rank(hist[i as int].parent) <= i as int {
                exists|pre: SomeAction::GameState|
                    #[trigger] hist[i as int].action.step(&pre, &s) && is_replay(
                        hist,
                        hist[i as int].parent,
                        pre,
                    )
            } else {
                false
            }
        },
    }
}

/// All recorded actions passed their applicability test when they were
/// inserted, on the state reconstructed at their parent.
pub open spec fn tested_ok<SomeAction: Action>(hist: Seq<HistoryItem<SomeAction>>) -> bool {
    forall|i: int, pre: SomeAction::GameState|
        #![trigger is_replay(hist, hist[i].parent, pre)]
        0 <= i < hist.len() && is_replay(hist, hist[i].parent, pre) ==> hist[i].action.test_spec(
            &pre,
        )
}

/// Two states reconstructed at the same path cannot be told apart.
pub proof fn lemma_replay_alike<SomeAction: Action>(
    hist: Seq<HistoryItem<SomeAction>>,
    at: Path,
    s1: SomeAction::GameState,
    s2: SomeAction::GameState,
)
    requires
        is_replay(hist, at, s1),
        is_replay(hist, at, s2),
    ensures
        s1.alike(&s2),
    decreases path_rank(at),
{
    match at {
        Path::Empty => {
            s1.lemma_init_alike(&s2);
        },
        Path::HistoryItemId(i) => {
            let pre1 = choose|pre: SomeAction::GameState|
                #[trigger] hist[i as int].action.step(&pre, &s1) && is_replay(
                    hist,
                    hist[i as int].parent,
                    pre,
                );
            let pre2 = choose|pre: SomeAction::GameState|
                #[trigger] hist[i as int].action.step(&pre, &s2) && is_replay(
                    hist,
                    hist[i as int].parent,
                    pre,
                );
            lemma_replay_alike(hist, hist[i as int].parent, pre1, pre2);
            hist[i as int].action.lemma_step_alike(&pre1, &s1, &pre2, &s2);
        },
    }
}

/// Appending an item to the store never changes what an existing path
/// reconstructs: a Path once handed out stays valid, and its state
/// stays reachable, for the lifetime of the tree.
pub proof fn lemma_replay_push<SomeAction: Action>(
    hist: Seq<HistoryItem<SomeAction>>,
    item: HistoryItem<SomeAction>,
    at: Path,
    s: SomeAction::GameState,
)
    requires
        path_ok(at, hist.len() as int),
    ensures
        is_replay(hist.push(item), at, s) == is_replay(hist, at, s),
    decreases path_rank(at),
{
    let h2 = hist.push(item);
    match at {
        Path::Empty => {},
        Path::HistoryItemId(i) => {
            assert(h2[i as int] == hist[i as int]);
            if path_rank(hist[i as int].parent) <= i as int {
                let parent = hist[i as int].parent;
                assert(path_ok(parent, hist.len() as int));
                assert forall|pre: SomeAction::GameState|
                    is_replay(h2, parent, pre) == is_replay(hist, parent, pre) by {
                    lemma_replay_push(hist, item, parent, pre);
                }
                if is_replay(h2, at, s) {
                    let pre = choose|pre: SomeAction::GameState|
                        #[trigger] h2[i as int].action.step(&pre, &s) && is_replay(h2, parent, pre);
                    assert(hist[i as int].action.step(&pre, &s) && is_replay(hist, parent, pre));
                }
                if is_replay(hist, at, s) {
                    let pre = choose|pre: SomeAction::GameState|
                        #[trigger] hist[i as int].action.step(&pre, &s) && is_replay(
                            hist,
                            parent,
                            pre,
                        );
                    assert(h2[i as int].action.step(&pre, &s) && is_replay(h2, parent, pre));
                }
            }
        },
    }
}

/// The game tree
///
/// A game is a tree of history items representing actions.
/// This allows for easy undo/redo. Represents the tree
/// as a flat array of items interlinked by parent-ids.
#[derive(Debug)]
pub struct Game<SomeAction> where SomeAction: Action {
    data: Vec<HistoryItem<SomeAction>>,
}

impl<SomeAction: Action> View for Game<SomeAction> {
    type V = Seq<HistoryItem<SomeAction>>;

    closed spec fn view(&self) -> Seq<HistoryItem<SomeAction>> {
        self.data@
    }
}

impl<SomeAction> Game<SomeAction> where SomeAction: Action {
    /// A well-formed tree: parents point backwards, and every recorded
    /// action was accepted against the state at its parent.
    pub open spec fn wf(&self) -> bool {
        links_ok(self@) && tested_ok(self@)
    }

    /// Creates a new game
    pub fn new() -> (r: Game<SomeAction>)
        ensures
            r.wf(),
            r@ == Seq::<HistoryItem<SomeAction>>::empty(),
    {
        let r = Game { data: Vec::new() };
        proof {
            assert(r@ =~= Seq::<HistoryItem<SomeAction>>::empty());
        }
        r
    }

    /// Inserts the action after parent
    ///
    /// Does reconstruct the game state at path and applies action:
    /// when the action's test accepts that state the item is appended
    /// and its path returned, else the tree is left unchanged and the
    /// root path returned as the rejection signal.
    pub fn insert(&mut self, parent: &Path, action: SomeAction) -> (r: Path)
        requires
            old(self).wf(),
            path_ok(*parent, old(self)@.len() as int),
        ensures
            final(self).wf(),
            path_ok(r, final(self)@.len() as int),
            forall|s: SomeAction::GameState| #[trigger]
                is_replay(old(self)@, *parent, s) ==> if action.test_spec(&s) {
                    final(self)@ == old(self)@.push(
                        (HistoryItem { parent: *parent, action }),
                    ) && r == Path::HistoryItemId(old(self)@.len() as usize)
                } else {
                    final(self)@ == old(self)@ && r == Path::Empty
                },
    {
        let state = self.get_state(parent);
        let ok = action.test(&state);
        proof {
            assert forall|s: SomeAction::GameState| #[trigger]
                is_replay(self@, *parent, s) implies action.test_spec(&s) == ok by {
                lemma_replay_alike::<SomeAction>(self@, *parent, s, state);
                action.lemma_test_alike(&s, &state);
            }
        }
        if ok {
            let ghost old_data = self.data@;
            let item = HistoryItem { parent: *parent, action };
            self.data.push(item);
            proof {
                let new_data = self.data@;
                assert(new_data == old_data.push(item));
                assert(links_ok(new_data)) by {
                    assert forall|i: int|
                        0 <= i < new_data.len() implies path_rank(
                        (#[trigger] new_data[i]).parent,
                    ) <= i by {
                        if i < old_data.len() {
                            assert(new_data[i] == old_data[i]);
                        }
                    }
                }
                assert(tested_ok(new_data)) by {
                    assert forall|i: int, pre: SomeAction::GameState|
                        0 <= i < new_data.len() && #[trigger] is_replay(
                            new_data,
                            new_data[i].parent,
                            pre,
                        ) implies new_data[i].action.test_spec(&pre) by {
                        if i < old_data.len() {
                            assert(new_data[i] == old_data[i]);
                            assert(path_ok(old_data[i].parent, old_data.len() as int));
                            lemma_replay_push(old_data, item, old_data[i].parent, pre);
                            assert(is_replay(old_data, old_data[i].parent, pre));
                        } else {
                            assert(new_data[i] == item);
                            lemma_replay_push(old_data, item, *parent, pre);
                            assert(is_replay(old_data, *parent, pre));
                        }
                    }
                }
            }
            Path::HistoryItemId(self.data.len() - 1)
        } else {
            Path::Empty
        }
    }

    /// Returns the state at the given path
    ///
    /// Does reapply all previous actions
    #[verifier::loop_isolation(false)]
    pub fn get_state(&self, at: &Path) -> (s: SomeAction::GameState)
        requires
            self.wf(),
            path_ok(*at, self@.len() as int),
        ensures
            is_replay(self@, *at, s),
            s.inv(),
    {
        let mut state = SomeAction::GameState::new();
        let up_to: usize;
        match *at {
            Path::Empty => {
                return state;
            },
            Path::HistoryItemId(i) => {
                up_to = i;
            },
        }

        let mut path_vec: Vec<usize> = Vec::new();
        let mut curr: usize = up_to;
        let mut done = false;
        while !done
            invariant
                curr < self@.len(),
                !done && path_vec@.len() == 0 ==> curr == up_to,
                path_vec@.len() > 0 ==> path_vec@[0] == up_to,
                forall|k: int| 0 <= k < path_vec@.len() ==> (#[trigger] path_vec@[k]) < self@.len(),
                forall|k: int|
                    0 <= k < path_vec@.len() - 1 ==> self@[#[trigger] path_vec@[k] as int].parent
                        == Path::HistoryItemId(path_vec@[k + 1]),
                !done ==> (path_vec@.len() > 0 ==> self@[path_vec@.last() as int].parent
                    == Path::HistoryItemId(curr)),
                done ==> path_vec@.len() > 0 && self@[path_vec@.last() as int].parent
                    == Path::Empty,
            decreases (if done { 0int } else { 1int }), curr,
        {
            let parent = self.data[curr].parent;
            match parent {
                Path::HistoryItemId(next) => {
                    path_vec.push(curr);
                    curr = next;
                },
                Path::Empty => {
                    path_vec.push(curr);
                    done = true;
                },
            }
        }

        let ghost hist = self@;
        let mut k: usize = path_vec.len();
        while k > 0
            invariant
                k <= path_vec@.len(),
                state.inv(),
                is_replay(
                    hist,
                    if k == path_vec@.len() {
                        Path::Empty
                    } else {
                        Path::HistoryItemId(path_vec@[k as int])
                    },
                    state,
                ),
            decreases k,
        {
            k = k - 1;
            let idx = path_vec[k];
            proof {
                if k + 1 == path_vec@.len() {
                    assert(self@[idx as int].parent == Path::Empty);
                } else {
                    assert(self@[idx as int].parent == Path::HistoryItemId(path_vec@[k + 1]));
                }
                assert(is_replay(hist, self@[idx as int].parent, state));
                assert(self@[idx as int].action.test_spec(&state));
            }
            let ghost pre_state = state;
            self.data[idx].action.execute(&mut state);
            proof {
                assert(hist[idx as int].action.step(&pre_state, &state));
                assert(path_rank(hist[idx as int].parent) <= idx as int);
                assert(is_replay(hist, Path::HistoryItemId(idx), state));
            }
        }
        proof {
            assert(path_vec@[0] == up_to);
        }
        state
    }
}

} // verus!
