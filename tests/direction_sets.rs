use grid_puzzle::{Direction, DirectionSet};

const ALL: [Direction; 8] = [
    Direction::Left,
    Direction::Right,
    Direction::Up,
    Direction::Down,
    Direction::LeftUp,
    Direction::LeftDown,
    Direction::RightUp,
    Direction::RightDown,
];

#[test]
fn from_directions_contains_exactly_the_listed() {
    let listed = [Direction::Left, Direction::Up, Direction::Left, Direction::RightDown];
    let set = DirectionSet::from_directions(&listed);
    for d in ALL {
        assert_eq!(set.contains(d), listed.contains(&d));
    }
}

#[test]
fn new_set_is_empty() {
    let set = DirectionSet::new();
    for d in ALL {
        assert!(!set.contains(d));
    }
    assert_eq!(DirectionSet::from_directions(&[]), set);
}

#[test]
fn set_algebra() {
    let a = DirectionSet::from_directions(&[Direction::Left, Direction::Right, Direction::Up]);
    let b = DirectionSet::from_directions(&[Direction::Up, Direction::Down]);
    let and = a & b;
    let or = a | b;
    let xor = a ^ b;
    let not = !a;
    for d in ALL {
        assert_eq!(and.contains(d), a.contains(d) && b.contains(d));
        assert_eq!(or.contains(d), a.contains(d) || b.contains(d));
        assert_eq!(xor.contains(d), a.contains(d) != b.contains(d));
        assert_eq!(not.contains(d), !a.contains(d));
    }
    assert!(and.contains(Direction::Up));
    assert!(!and.contains(Direction::Left));
    assert!(not.contains(Direction::RightDown));
}

#[test]
fn every_direction_has_its_own_bit() {
    for d in ALL {
        let set = DirectionSet::from_directions(&[d]);
        for e in ALL {
            assert_eq!(set.contains(e), d == e);
        }
    }
}
