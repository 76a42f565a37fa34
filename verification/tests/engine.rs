use goban::engine::{Action, Game, GameState, Path};

struct SimpleGameState {
    acc: i32,
}

impl GameState for SimpleGameState {
    // The specification members of the trait are compiled to ordinary
    // functions that nothing calls at run time; stubs suffice here.
    fn inv(&self) -> bool {
        true
    }

    fn is_init(&self) -> bool {
        self.acc == 0
    }

    fn alike(&self, other: &Self) -> bool {
        self.acc == other.acc
    }

    fn lemma_init_alike(&self, _other: &Self) {}

    fn new() -> SimpleGameState {
        SimpleGameState { acc: 0 }
    }
}

enum SimpleAction {
    Inc,
    Dec,
}

impl Action for SimpleAction {
    type GameState = SimpleGameState;

    fn test_spec(&self, state: &SimpleGameState) -> bool {
        match self {
            SimpleAction::Inc => true,
            SimpleAction::Dec => state.acc > 0,
        }
    }

    fn step(&self, pre: &SimpleGameState, post: &SimpleGameState) -> bool {
        match self {
            SimpleAction::Inc => post.acc == pre.acc + 1,
            SimpleAction::Dec => post.acc == pre.acc - 1,
        }
    }

    fn lemma_test_alike(&self, _s1: &SimpleGameState, _s2: &SimpleGameState) {}

    fn lemma_step_alike(
        &self,
        _pre1: &SimpleGameState,
        _post1: &SimpleGameState,
        _pre2: &SimpleGameState,
        _post2: &SimpleGameState,
    ) {
    }

    fn test(&self, state: &SimpleGameState) -> bool {
        match self {
            SimpleAction::Inc => true,
            SimpleAction::Dec => state.acc > 0,
        }
    }

    fn execute(&self, state: &mut SimpleGameState) {
        match self {
            SimpleAction::Inc => state.acc += 1,
            SimpleAction::Dec => state.acc -= 1,
        }
    }
}

#[test]
fn test_tree() {
    let mut g = Game::<SimpleAction>::new();
    let root_cursor = Path::Empty;

    let parent_cursor = g.insert(&root_cursor, SimpleAction::Inc);
    assert!(g.get_state(&parent_cursor).acc == 1);

    let invalid_cursor = g.insert(&root_cursor, SimpleAction::Dec);
    assert!(invalid_cursor == Path::Empty);

    let child_0 = g.insert(&parent_cursor, SimpleAction::Dec);
    assert!(child_0 != Path::Empty);
    assert!(g.get_state(&child_0).acc == 0);

    let child_1 = g.insert(&parent_cursor, SimpleAction::Inc);
    assert!(child_1 != Path::Empty);
    assert!(g.get_state(&child_1).acc == 2);
}

#[test]
fn game_tree() {
    let mut g = Game::<SimpleAction>::new();
    let root_cursor = Path::Empty;

    let parent_cursor = g.insert(&root_cursor, SimpleAction::Inc);
    assert!(g.get_state(&parent_cursor).acc == 1);

    let invalid_cursor = g.insert(&root_cursor, SimpleAction::Dec);
    assert!(invalid_cursor == Path::Empty);

    let child_0 = g.insert(&parent_cursor, SimpleAction::Dec);
    assert!(child_0 != Path::Empty);
    assert!(g.get_state(&child_0).acc == 0);

    let child_1 = g.insert(&parent_cursor, SimpleAction::Inc);
    assert!(child_1 != Path::Empty);
    assert!(g.get_state(&child_1).acc == 2);
}

#[test]
fn rejected_insert_keeps_root_state_fresh() {
    let mut g = Game::<SimpleAction>::new();

    let rejected = g.insert(&Path::Empty, SimpleAction::Dec);
    assert!(rejected == Path::Empty);
    assert!(g.get_state(&Path::Empty).acc == SimpleGameState::new().acc);
}
