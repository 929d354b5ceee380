use voxel_chunks::player::{Action, Key, Player};

#[test]
fn new_player_is_at_rest() {
    assert!(Player::new().actions.is_empty());
}

#[test]
fn new_action_is_added_once() {
    let mut player = Player::new();
    player.new_action(Action::Forward);
    player.new_action(Action::Left);
    player.new_action(Action::Forward);
    assert_eq!(player.actions, vec![Action::Forward, Action::Left]);
}

#[test]
fn remove_action_moves_the_last_into_the_gap() {
    let mut player = Player::new();
    player.new_action(Action::Forward);
    player.new_action(Action::Left);
    player.new_action(Action::Up);
    player.new_action(Action::Down);
    player.remove_action(Action::Left);
    assert_eq!(player.actions, vec![Action::Forward, Action::Down, Action::Up]);
    player.remove_action(Action::Up);
    assert_eq!(player.actions, vec![Action::Forward, Action::Down]);
    player.remove_action(Action::Forward);
    assert_eq!(player.actions, vec![Action::Down]);
    player.remove_action(Action::Down);
    assert!(player.actions.is_empty());
}

#[test]
fn remove_action_that_is_not_under_way_changes_nothing() {
    let mut player = Player::new();
    player.remove_action(Action::Right);
    assert!(player.actions.is_empty());
    player.new_action(Action::Backward);
    player.remove_action(Action::Right);
    assert_eq!(player.actions, vec![Action::Backward]);
}

#[test]
fn remove_action_takes_the_first_of_several() {
    let mut player = Player {
        actions: vec![Action::Up, Action::Left, Action::Up, Action::Right],
    };
    player.remove_action(Action::Up);
    assert_eq!(player.actions, vec![Action::Right, Action::Left, Action::Up]);
}

#[test]
fn keys_stand_for_their_actions() {
    let keys = [
        (Key::W, Action::Forward),
        (Key::A, Action::Left),
        (Key::S, Action::Backward),
        (Key::D, Action::Right),
        (Key::Space, Action::Up),
        (Key::LShift, Action::Down),
    ];
    for (key, action) in keys {
        let mut player = Player::new();
        assert!(player.process_keys(key, true));
        assert_eq!(player.actions, vec![action]);
        assert!(player.process_keys(key, true));
        assert_eq!(player.actions, vec![action]);
        assert!(player.process_keys(key, false));
        assert!(player.actions.is_empty());
        assert!(player.process_keys(key, false));
        assert!(player.actions.is_empty());
    }
}

#[test]
fn other_keys_are_not_handled() {
    let mut player = Player::new();
    player.new_action(Action::Forward);
    assert!(!player.process_keys(Key::Other, true));
    assert!(!player.process_keys(Key::Other, false));
    assert_eq!(player.actions, vec![Action::Forward]);
}

#[test]
fn several_keys_held_together() {
    let mut player = Player::new();
    player.process_keys(Key::W, true);
    player.process_keys(Key::D, true);
    player.process_keys(Key::Space, true);
    assert_eq!(player.actions, vec![Action::Forward, Action::Right, Action::Up]);
    player.process_keys(Key::W, false);
    assert_eq!(player.actions, vec![Action::Up, Action::Right]);
}
