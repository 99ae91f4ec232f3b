use game2048::direction::Direction;

#[test]
fn no_key_is_idle() {
    assert_eq!(Direction::from_keys(false, false, false, false), Direction::Idle);
}

#[test]
fn each_arrow_key_alone_gives_its_direction() {
    assert_eq!(Direction::from_keys(true, false, false, false), Direction::Up);
    assert_eq!(Direction::from_keys(false, true, false, false), Direction::Down);
    assert_eq!(Direction::from_keys(false, false, true, false), Direction::Right);
    assert_eq!(Direction::from_keys(false, false, false, true), Direction::Left);
}

#[test]
fn keys_pressed_together_are_ranked() {
    assert_eq!(Direction::from_keys(true, true, true, true), Direction::Left);
    assert_eq!(Direction::from_keys(true, true, true, false), Direction::Right);
    assert_eq!(Direction::from_keys(true, true, false, false), Direction::Down);
    assert_eq!(Direction::from_keys(true, false, false, true), Direction::Left);
    assert_eq!(Direction::from_keys(true, false, true, false), Direction::Right);
}

#[test]
fn swipe_follows_the_larger_axis_and_its_sign() {
    assert_eq!(Direction::from_swipe(true, true), Direction::Right);
    assert_eq!(Direction::from_swipe(true, false), Direction::Left);
    assert_eq!(Direction::from_swipe(false, true), Direction::Down);
    assert_eq!(Direction::from_swipe(false, false), Direction::Up);
}
