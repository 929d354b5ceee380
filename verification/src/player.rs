//! What the player is doing: the list of actions that the pressed keys
//! stand for.

use vstd::prelude::*;

verus! {

/// A movement that lasts while its key is held down.
#[derive(Clone, Copy, Debug, PartialEq, Eq, Structural)]
pub enum Action {
    // WASD movement
    Forward,
    Backward,
    Left,
    Right,
    // Flight
    Up,
    Down,
}

/// A key of the keyboard, as far as the player is concerned.
#[derive(Clone, Copy, Debug, PartialEq, Eq, Structural)]
pub enum Key {
    W,
    A,
    S,
    D,
    Space,
    LShift,
    /// Any key that steers nothing.
    Other,
}

/// The actions that are under way.
pub struct Player {
    pub actions: Vec<Action>,
}

/// The action that a key stands for.
pub open spec fn key_action(key: Key) -> Option<Action> {
    match key {
        Key::W => Some(Action::Forward),
        Key::A => Some(Action::Left),
        Key::S => Some(Action::Backward),
        Key::D => Some(Action::Right),
        Key::Space => Some(Action::Up),
        Key::LShift => Some(Action::Down),
        Key::Other => None,
    }
}

/// The place of the first `action` in `actions`, or the length of `actions`
/// if there is none.
pub open spec fn first_index(actions: Seq<Action>, action: Action) -> int
    decreases actions.len(),
{
    if actions.len() == 0 {
        0
    } else if actions[0] == action {
        0
    } else {
        1 + first_index(actions.drop_first(), action)
    }
}

/// The list with `action` under way: added at the end unless it is there
/// already.
pub open spec fn with_action(actions: Seq<Action>, action: Action) -> Seq<Action> {
    if actions.contains(action) {
        actions
    } else {
        actions.push(action)
    }
}

/// The list with the first `action` taken out: the last action moves into
/// its place. Nothing changes if there is none.
pub open spec fn without_action(actions: Seq<Action>, action: Action) -> Seq<Action> {
    if actions.contains(action) {
        actions.update(first_index(actions, action), actions.last()).drop_last()
    } else {
        actions
    }
}

/// The first place of an action lies in the list exactly if the action does,
/// holds that action, and no place before it does.
pub proof fn lemma_first_index(actions: Seq<Action>, action: Action)
    ensures
        0 <= first_index(actions, action) <= actions.len(),
        first_index(actions, action) < actions.len() <==> actions.contains(action),
        actions.contains(action) ==> actions[first_index(actions, action)] == action,
        forall|i: int| 0 <= i < first_index(actions, action) ==> actions[i] != action,
    decreases actions.len(),
{
    if actions.len() == 0 {
    } else if actions[0] == action {
    } else {
        let rest = actions.drop_first();
        lemma_first_index(rest, action);
        let at = first_index(rest, action);
        if actions.contains(action) {
            let i = choose|i: int| 0 <= i < actions.len() && actions[i] == action;
            assert(rest[i - 1] == action);
        }
        if at < rest.len() {
            assert(actions[at + 1] == action);
        }
        assert forall|i: int| 0 <= i < 1 + at implies actions[i] != action by {
            if i > 0 {
                assert(rest[i - 1] == actions[i]);
            }
        }
    }
}

/// A list in which no action occurs twice stays so when an action starts or
/// stops. An action that has started is in the list, and one that has stopped
/// is not.
pub proof fn lemma_actions_stay_distinct(actions: Seq<Action>, action: Action)
    requires
        actions.no_duplicates(),
    ensures
        with_action(actions, action).no_duplicates(),
        with_action(actions, action).contains(action),
        without_action(actions, action).no_duplicates(),
        !without_action(actions, action).contains(action),
{
    let more = with_action(actions, action);
    if !actions.contains(action) {
        assert(more[actions.len() as int] == action);
    }
    let fewer = without_action(actions, action);
    if actions.contains(action) {
        lemma_first_index(actions, action);
        let at = first_index(actions, action);
        assert forall|i: int| 0 <= i < fewer.len() implies fewer[i] != action by {
            if i == at {
                assert(fewer[i] == actions[actions.len() - 1]);
            } else {
                assert(fewer[i] == actions[i]);
            }
        }
    }
}

impl Player {
    /// A player at rest.
    pub fn new() -> (player: Self)
        ensures
            player.actions@ == Seq::<Action>::empty(),
    {
        Player { actions: Vec::new() }
    }

    /// Starts `action`, unless it is under way already.
    pub fn new_action(&mut self, action: Action)
        ensures
            final(self).actions@ == with_action(old(self).actions@, action),
    {
        if self.find(action).is_none() {
            self.actions.push(action);
        }
    }

    /// Stops `action`, if it is under way.
    pub fn remove_action(&mut self, action: Action)
        ensures
            final(self).actions@ == without_action(old(self).actions@, action),
    {
        let pos = self.find(action);

        if let Some(i) = pos {
            proof {
                lemma_first_index(self.actions@, action);
            }
            self.actions.swap_remove(i);
        }
    }

    /// Takes note that `key` has been pressed or released. Returns whether
    /// the key steers the player; if it does, its action starts on a press
    /// and stops on a release.
    pub fn process_keys(&mut self, key: Key, pressed: bool) -> (handled: bool)
        ensures
            handled == (key_action(key) is Some),
            final(self).actions@ == match key_action(key) {
                Some(action) => if pressed {
                    with_action(old(self).actions@, action)
                } else {
                    without_action(old(self).actions@, action)
                },
                None => old(self).actions@,
            },
    {
        let action = match key {
            Key::W => Action::Forward,
            Key::A => Action::Left,
            Key::S => Action::Backward,
            Key::D => Action::Right,
            Key::Space => Action::Up,
            Key::LShift => Action::Down,
            Key::Other => {
                return false;
            },
        };
        if pressed {
            self.new_action(action);
        } else {
            self.remove_action(action);
        }
        true
    }

    /// The place of the first `action` in the list, if there is one.
    fn find(&self, action: Action) -> (pos: Option<usize>)
        ensures
            match pos {
                Some(i) => self.actions@.contains(action) && i == first_index(self.actions@, action),
                None => !self.actions@.contains(action),
            },
    {
        let mut i: usize = 0;
        while i < self.actions.len()
            invariant
                i <= self.actions@.len(),
                forall|j: int| 0 <= j < i ==> self.actions@[j] != action,
            decreases self.actions@.len() - i,
        {
            if self.actions[i] == action {
                proof {
                    lemma_first_index(self.actions@, action);
                }
                return Some(i);
            }
            i += 1;
        }
        None
    }
}

} // verus!
