use mergex::owes;
use mergex::retires;
use mergex::stays;
use mergex::Action;
use mergex::Climb;
use mergex::Glance;
use mergex::Marks;
use mergex::Probe;
use mergex::Reply;
use mergex::Walk;

#[test]
fn a_short_list_of_marks_is_searched_as_it_is() {
    let marks = Marks::new(vec![5, 1, 9]);
    for key in 0..12 {
        assert_eq!(marks.contains(key), [1, 5, 9].contains(&key));
    }
    assert!(!Marks::new(vec![]).contains(0));
}

#[test]
fn a_long_list_of_marks_is_sorted_first() {
    let keys = vec![90, 10, 80, 20, 70, 30, 60, 40, 50, 20, 0];
    let marks = Marks::new(keys.clone());
    for key in 0..100 {
        assert_eq!(marks.contains(key), keys.contains(&key));
    }
    let falling: Vec<usize> = (0..1000).rev().map(|i| i * 3).collect();
    let marks = Marks::new(falling);
    for key in 0..3000 {
        assert_eq!(marks.contains(key), key % 3 == 0);
    }
    assert!(!marks.contains(usize::MAX));
}

#[test]
fn a_climb_stops_at_the_first_raised_flag() {
    let climb = Climb::after_write(false, 3);
    assert_eq!(climb.target(), Some(0));
    let climb = climb.resume(false);
    assert_eq!(climb.target(), Some(1));
    assert_eq!(climb.resume(true).target(), None);
    let climb = climb.resume(false);
    assert_eq!(climb.target(), Some(2));
    assert_eq!(climb.resume(false).target(), None);
}

#[test]
fn a_write_to_a_dirty_node_does_not_climb() {
    assert_eq!(Climb::after_write(true, 3).target(), None);
    assert_eq!(Climb::after_write(false, 0).target(), None);
}

#[test]
fn small_decisions() {
    assert!(owes(true, 1));
    assert!(!owes(true, 0));
    assert!(!owes(false, 1));
    assert!(retires(1));
    assert!(!retires(2));
    assert!(!stays(true, 0, false));
    assert!(stays(false, 0, false));
    assert!(stays(true, 1, false));
    assert!(stays(true, 0, true));
}

#[test]
fn a_walk_over_a_clear_flag_is_one_touch() {
    let walk: Walk<&str, i64> = Walk::new("root");
    assert!(matches!(walk.action(), Action::Lower(&"root")));
    let walk = walk.resume(Reply::Flag(false));
    assert!(matches!(walk.action(), Action::Finish(false)));
}

#[test]
fn a_walk_takes_folds_and_unlinks() {
    let walk: Walk<&str, i64> = Walk::new("root");
    let walk = walk.resume(Reply::Flag(true));
    assert!(matches!(walk.action(), Action::List(&"root")));
    let walk = walk.resume(Reply::Sons(vec!["a", "b"]));
    // a: nothing below, dirty, and then spent
    assert!(matches!(walk.action(), Action::Lower(&"a")));
    let walk = walk.resume(Reply::Flag(false));
    assert!(matches!(walk.action(), Action::LoadDirty(&"a")));
    let walk = walk.resume(Reply::Flag(true));
    assert!(matches!(walk.action(), Action::Take(&"a")));
    let walk = walk.resume(Reply::Delta(42));
    assert!(matches!(walk.action(), Action::Fold(&"root", &42)));
    let walk = walk.resume(Reply::Ack);
    assert!(matches!(walk.action(), Action::LoadDead(&"a")));
    let walk = walk.resume(Reply::Flag(true));
    assert!(matches!(walk.action(), Action::LoadHandles(&"a")));
    let walk = walk.resume(Reply::Count(0));
    assert!(matches!(walk.action(), Action::LoadDirty(&"a")));
    let walk = walk.resume(Reply::Flag(false));
    assert!(matches!(walk.action(), Action::IsEmpty(&"a")));
    let walk = walk.resume(Reply::Flag(true));
    // b: entered, but nothing in it; clean; alive
    assert!(matches!(walk.action(), Action::Lower(&"b")));
    let walk = walk.resume(Reply::Flag(true));
    assert!(matches!(walk.action(), Action::List(&"b")));
    let walk = walk.resume(Reply::Sons(vec![]));
    assert!(matches!(walk.action(), Action::LoadDirty(&"b")));
    let walk = walk.resume(Reply::Flag(false));
    assert!(matches!(walk.action(), Action::LoadDead(&"b")));
    let walk = walk.resume(Reply::Flag(false));
    match walk.action() {
        Action::Unlink(node, sons, places) => {
            assert_eq!(*node, "root");
            assert_eq!(*sons, vec!["a", "b"]);
            assert_eq!(*places, vec![0]);
        }
        _ => panic!("a was spent"),
    }
    let walk = walk.resume(Reply::Ack);
    assert!(matches!(walk.action(), Action::Finish(true)));
    assert_eq!(*walk.origin(), "root");
}

#[test]
fn a_son_that_absorbed_a_grandson_is_taken_though_clean() {
    let walk: Walk<u8, i64> = Walk::new(0);
    let walk = walk.resume(Reply::Flag(true)).resume(Reply::Sons(vec![1]));
    let walk = walk.resume(Reply::Flag(true)).resume(Reply::Sons(vec![2]));
    let walk = walk.resume(Reply::Flag(false)); // nothing below 2
    let walk = walk.resume(Reply::Flag(true)).resume(Reply::Delta(7)); // 2 is dirty
    assert!(matches!(walk.action(), Action::Fold(&1, &7)));
    let walk = walk.resume(Reply::Ack).resume(Reply::Flag(false)); // 2 is alive
    assert!(matches!(walk.action(), Action::LoadDirty(&1)));
    let walk = walk.resume(Reply::Flag(false)); // 1 is clean, but it changed
    assert!(matches!(walk.action(), Action::Take(&1)));
}

#[test]
fn a_son_with_handles_or_dirt_or_sons_is_not_spent() {
    let at_dead = || {
        let walk: Walk<u8, i64> = Walk::new(0);
        walk.resume(Reply::Flag(true))
            .resume(Reply::Sons(vec![1]))
            .resume(Reply::Flag(false))
            .resume(Reply::Flag(false))
    };
    let over = |walk: Walk<u8, i64>| matches!(walk.action(), Action::Finish(false));
    assert!(over(at_dead().resume(Reply::Flag(false))));
    let dead = at_dead().resume(Reply::Flag(true));
    assert!(over(dead.clone().resume(Reply::Count(1))));
    let gone = dead.resume(Reply::Count(0));
    assert!(over(gone.clone().resume(Reply::Flag(true))));
    assert!(over(gone.resume(Reply::Flag(false)).resume(Reply::Flag(false))));
}

#[test]
fn a_probe_of_a_clear_flag_is_one_look() {
    let probe = Probe::new("root");
    assert!(matches!(probe.glance(), Glance::Flag(&"root")));
    assert!(matches!(probe.seen(false).glance(), Glance::Finish(false)));
}

#[test]
fn a_probe_stops_at_the_first_dirty_node() {
    let probe = Probe::new("root").seen(true);
    assert!(matches!(probe.glance(), Glance::List(&"root")));
    let probe = probe.listed(vec!["a", "b"]);
    assert!(matches!(probe.glance(), Glance::Dirty(&"a")));
    let probe = probe.seen(false);
    assert!(matches!(probe.glance(), Glance::Flag(&"a")));
    let probe = probe.seen(true).listed(vec!["c"]);
    assert!(matches!(probe.glance(), Glance::Dirty(&"c")));
    let found = probe.clone().seen(true);
    assert!(matches!(found.glance(), Glance::Finish(true)));
    // c is clean and has nothing below: out of a, on to b
    let probe = probe.seen(false).seen(false);
    assert!(matches!(probe.glance(), Glance::Dirty(&"b")));
    let probe = probe.seen(false).seen(true).listed(vec![]);
    assert!(matches!(probe.glance(), Glance::Finish(false)));
}

#[test]
fn a_probe_looks_everywhere_before_it_says_no() {
    // 0 -> {1 -> {3}, 2}, the flags of 0 and 1 up and nothing dirty
    let sons = [vec![1usize, 2], vec![3], vec![], vec![]];
    let mut probe = Probe::new(0usize);
    let mut looks = 0;
    let found = loop {
        enum Seen {
            Bit(bool),
            Sons(Vec<usize>),
        }
        let seen = match probe.glance() {
            Glance::Flag(node) => Seen::Bit(*node < 2),
            Glance::Dirty(_) => Seen::Bit(false),
            Glance::List(node) => Seen::Sons(sons[*node].clone()),
            Glance::Finish(found) => break found,
        };
        looks += 1;
        probe = match seen {
            Seen::Bit(up) => probe.seen(up),
            Seen::Sons(list) => probe.listed(list),
        };
    };
    assert!(!found);
    assert_eq!(looks, 9); // four flags, two lists, three dirty bits
}
