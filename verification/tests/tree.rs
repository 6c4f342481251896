use std::rc::Rc;

use mergex::Crew;
use mergex::Mergex;
use mergex::Tree;

type Adder = fn(&mut i32, &i32);

fn add(father: &mut i32, son: &i32) {
    *father += *son;
}

fn add_wide(father: &mut i64, son: &i64) {
    *father += *son;
}

fn sum() -> (Tree<i32, Adder>, Mergex<i32>) {
    Mergex::new(7, 0, add as Adder)
}

fn sons(root: &Mergex<i32>, tree: &Tree<i32, Adder>) -> usize {
    root.outline(tree).sons.len()
}

#[test]
fn grandsons_merge_bottom_up() {
    let (mut tree, root) = sum();
    let son = root.copy(&mut tree);
    let grandson = son.copy(&mut tree);
    grandson.set(&mut tree, 5);

    assert!(root.check_children(&tree)); // seen through the son
    assert_eq!(root.get(&mut tree), 12); // 7 + (0 + 5)
}

#[test]
fn dropping_the_root_strands_the_son() {
    let (mut tree, root) = sum();
    let son = root.copy(&mut tree);
    son.set(&mut tree, 3); // never folded: the root is about to go away
    root.drop(&mut tree);

    assert_eq!(son.get_threaded(&tree), 3);
}

#[test]
fn a_dropped_handle_still_delivers_its_write() {
    let (mut tree, root) = sum();
    let worker = root.copy(&mut tree);
    worker.set(&mut tree, 5);
    worker.drop(&mut tree); // the worker is gone before anyone reads

    assert_eq!(root.get(&mut tree), 12); // 7 + 5, collected by the merge
}

#[test]
fn a_spent_son_is_unlinked_by_the_next_merge() {
    let (mut tree, root) = sum();
    let worker = root.copy(&mut tree);
    worker.set(&mut tree, 5);
    worker.drop(&mut tree);
    assert_eq!(sons(&root, &tree), 1); // still linked

    assert_eq!(root.get(&mut tree), 12); // folds, then reaps
    assert_eq!(sons(&root, &tree), 0);
}

#[test]
fn a_live_son_is_never_unlinked() {
    let (mut tree, root) = sum();
    let worker = root.copy(&mut tree);
    worker.set(&mut tree, 5);

    assert_eq!(root.get(&mut tree), 12);
    assert_eq!(sons(&root, &tree), 1); // handle still held

    worker.set(&mut tree, 2);
    assert_eq!(root.get(&mut tree), 14); // and still usable
}

#[test]
fn a_dead_son_holding_a_live_grandson_stays() {
    let (mut tree, root) = sum();
    let son = root.copy(&mut tree);
    let grandson = son.copy(&mut tree);
    son.drop(&mut tree); // the intermediate handle is gone, but its son is not
    grandson.set(&mut tree, 9);

    assert_eq!(root.get(&mut tree), 16); // 7 + (0 + 9), through the dead intermediate
    assert_eq!(sons(&root, &tree), 1); // not reaped: not empty
}

#[test]
fn a_pool_of_short_lived_workers_does_not_grow_the_son_list() {
    let (mut tree, root) = Mergex::new(0i64, 0, add_wide);
    for i in 1..=100 {
        let w = root.copy(&mut tree);
        w.set(&mut tree, i);
        w.drop(&mut tree);
        root.get(&mut tree); // a pool reads between tasks
    }

    assert_eq!(root.get(&mut tree), (1..=100).sum::<i64>());
    assert_eq!(root.outline(&tree).sons.len(), 0);
}

#[test]
fn merging_is_idempotent() {
    let (mut tree, root) = sum();
    let son = root.copy(&mut tree);
    son.set(&mut tree, 10);
    son.drop(&mut tree);

    assert_eq!(root.get(&mut tree), 17);
    assert_eq!(root.get(&mut tree), 17); // dirty bit cleared, no double counting
}

#[test]
fn a_read_does_not_replay_an_earlier_delta() {
    let (mut tree, root) = sum();
    let son = root.copy(&mut tree);

    son.update(&mut tree, |x| *x += 1);
    assert_eq!(root.get(&mut tree), 8);
    son.update(&mut tree, |x| *x += 1);
    assert_eq!(root.get(&mut tree), 9); // not 10: the first +1 is not folded twice
    son.update(&mut tree, |x| *x += 1);
    assert_eq!(root.get(&mut tree), 10);
}

#[test]
fn folding_resets_the_son_to_the_identity() {
    let (mut tree, root) = sum();
    let son = root.copy(&mut tree);

    assert_eq!(son.get_threaded(&tree), 0); // a fresh son owes its father nothing
    son.set(&mut tree, 5);
    assert_eq!(root.get(&mut tree), 12);
    assert_eq!(son.get_threaded(&tree), 0); // and owes nothing again once folded
}

#[test]
fn an_intermediate_node_is_reset_too() {
    let (mut tree, root) = sum();
    let son = root.copy(&mut tree);
    let grandson = son.copy(&mut tree);

    grandson.set(&mut tree, 4);
    assert_eq!(root.get(&mut tree), 11);
    assert_eq!(son.get_threaded(&tree), 0); // the son passed the delta on
    assert_eq!(grandson.get_threaded(&tree), 0);

    grandson.set(&mut tree, 4);
    assert_eq!(root.get(&mut tree), 15); // 11 + 4, not 11 + 8
}

#[test]
fn a_delta_is_not_folded_twice_by_two_reads() {
    let (mut tree, root) = Mergex::new(10i64, 0, add_wide);
    let son = root.copy(&mut tree);
    son.set(&mut tree, 5);
    assert_eq!(root.get(&mut tree), 15);
    assert_eq!(root.get(&mut tree), 15);
}

#[test]
fn a_read_below_the_root_loses_nothing() {
    let (mut tree, root) = sum();
    let son = root.copy(&mut tree);
    let grandson = son.copy(&mut tree);
    grandson.set(&mut tree, 5);

    assert_eq!(son.get(&mut tree), 5);
    assert!(son.check_dirty_bit(&tree)); // it owes its father what it took in
    assert!(root.check_children(&tree));
    assert_eq!(root.get(&mut tree), 12);
    assert_eq!(son.get_threaded(&tree), 0);
}

#[test]
fn a_read_below_the_root_and_then_gone_loses_nothing() {
    let (mut tree, root) = sum();
    let son = root.copy(&mut tree);
    let grandson = son.copy(&mut tree);
    grandson.set(&mut tree, 5);
    grandson.drop(&mut tree);
    assert_eq!(son.get(&mut tree), 5);
    son.drop(&mut tree);

    assert_eq!(root.get(&mut tree), 12);
    assert_eq!(sons(&root, &tree), 0);
}

#[test]
fn reading_the_root_leaves_its_dirty_bit_alone() {
    let (mut tree, root) = sum();
    let son = root.copy(&mut tree);
    son.set(&mut tree, 1);
    assert!(!root.check_dirty_bit(&tree));
    assert_eq!(root.get(&mut tree), 8);
    assert!(!root.check_dirty_bit(&tree));
    root.set(&mut tree, 3);
    assert!(root.check_dirty_bit(&tree));
    assert_eq!(root.get(&mut tree), 3);
}

#[test]
fn the_dirty_bit_follows_writes_and_folds() {
    let (mut tree, root) = sum();
    let son = root.copy(&mut tree);
    assert!(!son.check_dirty_bit(&tree));
    assert!(!root.check_children(&tree));
    son.set(&mut tree, 4);
    assert!(son.check_dirty_bit(&tree));
    assert!(root.check_children(&tree));
    assert_eq!(root.get(&mut tree), 11);
    assert!(!son.check_dirty_bit(&tree));
    assert!(!root.check_children(&tree));
}

#[test]
fn writes_between_merges_coalesce() {
    let (mut tree, root) = sum();
    let son = root.copy(&mut tree);
    son.set(&mut tree, 10);
    son.set(&mut tree, 20);
    assert_eq!(root.get(&mut tree), 27); // the first was overwritten, never delivered
    son.update(&mut tree, |x| *x += 1);
    son.update(&mut tree, |x| *x += 2);
    assert_eq!(son.get_threaded(&tree), 3);
    assert_eq!(root.get(&mut tree), 30);
}

#[test]
fn a_clone_shares_the_node() {
    let (mut tree, root) = sum();
    let son = root.copy(&mut tree);
    let other = son.clone(&mut tree);
    son.set(&mut tree, 2);
    assert_eq!(other.get_threaded(&tree), 2);
    son.drop(&mut tree);
    assert_eq!(root.get(&mut tree), 9);
    assert_eq!(sons(&root, &tree), 1); // one handle is left
    other.update(&mut tree, |x| *x += 5);
    other.drop(&mut tree);
    assert_eq!(root.get(&mut tree), 14);
    assert_eq!(sons(&root, &tree), 0);
}

#[test]
fn a_clean_dead_son_waits_for_the_next_sweep() {
    let (mut tree, root) = sum();
    let idle = root.copy(&mut tree);
    let busy = root.copy(&mut tree);
    idle.drop(&mut tree);
    assert_eq!(root.get(&mut tree), 7); // nothing dirty: no sweep, no reaping
    assert_eq!(sons(&root, &tree), 2);
    busy.set(&mut tree, 1);
    assert_eq!(root.get(&mut tree), 8);
    assert_eq!(sons(&root, &tree), 1);
}

#[test]
fn a_whole_generation_retires_at_once() {
    let (mut tree, root) = sum();
    let mut live = Vec::new();
    let mut done = Vec::new();
    for i in 0..40 {
        let w = root.copy(&mut tree);
        w.set(&mut tree, 1);
        if i % 4 == 0 {
            live.push(w);
        } else {
            done.push(w);
        }
    }
    for w in done {
        w.drop(&mut tree);
    }
    assert_eq!(root.get(&mut tree), 47);
    assert_eq!(sons(&root, &tree), 10);
    for w in &live {
        w.set(&mut tree, 2);
    }
    assert_eq!(root.get(&mut tree), 67);
}

#[test]
fn a_dead_branch_drains_from_the_bottom() {
    let (mut tree, root) = sum();
    let a = root.copy(&mut tree);
    let b = a.copy(&mut tree);
    let c = b.copy(&mut tree);
    c.set(&mut tree, 1);
    b.set(&mut tree, 2);
    a.set(&mut tree, 4);
    a.drop(&mut tree);
    b.drop(&mut tree);
    c.drop(&mut tree);
    assert_eq!(root.get(&mut tree), 14);
    assert_eq!(sons(&root, &tree), 0);
}

#[test]
fn sons_are_folded_oldest_first_and_deepest_first() {
    fn join(father: &mut String, son: &String) {
        *father = format!("({}{})", father, son);
    }
    let (mut tree, root) = Mergex::new(String::from("r"), String::new(), join);
    let a = root.copy(&mut tree);
    let b = root.copy(&mut tree);
    let c = a.copy(&mut tree);
    let d = root.copy(&mut tree);
    b.set(&mut tree, String::from("b"));
    c.set(&mut tree, String::from("c"));
    a.set(&mut tree, String::from("a"));
    assert!(!d.check_dirty_bit(&tree));
    assert_eq!(root.get(&mut tree), "((r(ac))b)");
}

#[test]
fn a_maximum_keeps_the_largest() {
    let (mut tree, root) = Mergex::new(0i64, 0, |father: &mut i64, son: &i64| {
        *father = (*father).max(*son)
    });
    let son = root.copy(&mut tree);
    for i in [3, 9, 4] {
        son.set(&mut tree, i);
        root.get(&mut tree);
    }
    assert_eq!(root.get(&mut tree), 9);
}

#[test]
fn an_outline_shows_the_tree_and_changes_nothing() {
    let (mut tree, root) = sum();
    let son = root.copy(&mut tree);
    let grandson = son.copy(&mut tree);
    grandson.set(&mut tree, 5);

    let picture = root.outline(&tree);
    assert_eq!(picture.data, 7);
    assert!(!picture.dirty);
    assert_eq!(picture.sons.len(), 1);
    assert_eq!(picture.sons[0].data, 0);
    assert!(!picture.sons[0].dirty);
    assert_eq!(picture.sons[0].sons[0].data, 5);
    assert!(picture.sons[0].sons[0].dirty);
    assert_eq!(
        format!("{:?}", picture),
        "Outline { data: 7, dirty: false, sons: [Outline { data: 0, dirty: false, sons: \
         [Outline { data: 5, dirty: true, sons: [] }] }] }"
    );

    // looking is no way to lose a handle: the sons stay linked and usable
    assert_eq!(root.get(&mut tree), 12);
    grandson.set(&mut tree, 1);
    son.set(&mut tree, 1);
    assert_eq!(root.get(&mut tree), 14);
    assert_eq!(sons(&root, &tree), 1);
}

#[test]
fn a_dropped_handle_is_never_missed() {
    // the same operations, once with the handle kept and once after it was given up
    for last in [true, false] {
        let mut seen: Vec<Vec<i32>> = Vec::new();
        for gone in [false, true] {
            let (mut tree, root) = Mergex::new(0, 0, add as Adder);
            let son = root.copy(&mut tree);
            let grandson = son.copy(&mut tree);
            let spare = if last { None } else { Some(son.clone(&mut tree)) };
            son.set(&mut tree, 5);
            grandson.set(&mut tree, 100);
            let kept = if gone {
                son.drop(&mut tree);
                None
            } else {
                Some(son)
            };
            let mut reads = vec![root.get(&mut tree)];
            grandson.update(&mut tree, |x| *x += 20);
            reads.push(grandson.get(&mut tree));
            reads.push(root.get(&mut tree));
            let other = root.copy(&mut tree);
            other.set(&mut tree, 1000);
            reads.push(root.get(&mut tree));
            grandson.set(&mut tree, 7);
            grandson.drop(&mut tree);
            reads.push(root.get(&mut tree));
            reads.push(root.get(&mut tree));
            assert_eq!(spare.is_none(), last);
            assert_eq!(kept.is_none(), gone);
            seen.push(reads);
        }
        assert_eq!(seen[0], seen[1]);
        assert_eq!(seen[0], [105, 20, 125, 1125, 1132, 1132]);
    }
}

#[test]
fn a_new_son_changes_no_read() {
    let (mut tree, root) = Mergex::new(0, 0, add as Adder);
    let son = root.copy(&mut tree);
    son.set(&mut tree, 5);
    let grandson = son.copy(&mut tree);
    assert!(!son.check_children(&tree));
    assert_eq!(son.get(&mut tree), 5);
    assert_eq!(root.get(&mut tree), 5);
    assert_eq!(grandson.get(&mut tree), 0);
}

#[test]
fn a_sweep_keeps_exactly_the_sons_that_somebody_is_left_at() {
    let (mut tree, root) = Mergex::new(0, 0, add as Adder);
    let held = root.copy(&mut tree);
    let left = root.copy(&mut tree);
    let father = root.copy(&mut tree);
    let grandson = father.copy(&mut tree);
    let owing = root.copy(&mut tree);
    owing.set(&mut tree, 4);
    left.drop(&mut tree); // no handle, owes nothing, no sons
    father.drop(&mut tree); // no handle, but a son
    owing.drop(&mut tree); // no handle, delivered by the sweep
    held.set(&mut tree, 1);
    assert_eq!(root.get(&mut tree), 5);
    let shown = root.outline(&tree);
    assert_eq!(shown.sons.len(), 2);
    assert_eq!(shown.sons[0].sons.len(), 0); // the one that is held, first as before
    assert_eq!(shown.sons[1].sons.len(), 1); // the one with a son
    grandson.drop(&mut tree);
}

#[test]
fn an_overwrite_takes_away_only_what_its_node_still_owed() {
    let (mut tree, root) = Mergex::new(0, 0, add as Adder);
    let a = root.copy(&mut tree);
    let b = root.copy(&mut tree);
    a.set(&mut tree, 5);
    b.set(&mut tree, 100);
    assert_eq!(root.get(&mut tree), 105);
    a.set(&mut tree, 7); // over nothing: the 5 was folded
    b.set(&mut tree, 20);
    b.set(&mut tree, 30); // over the 20
    assert_eq!(root.get(&mut tree), 142);
}

/// A tree of sums whose values can be counted: every node holds a share of the
/// identity until it is written to, and again once it was folded.
fn shares() -> (Tree<Rc<i32>, fn(&mut Rc<i32>, &Rc<i32>)>, Mergex<Rc<i32>>, Rc<i32>) {
    fn join(father: &mut Rc<i32>, son: &Rc<i32>) {
        *father = Rc::new(**father + **son);
    }
    let zero = Rc::new(0);
    let (tree, root) =
        Mergex::new(Rc::new(0), Rc::clone(&zero), join as fn(&mut Rc<i32>, &Rc<i32>));
    (tree, root, zero)
}

#[test]
fn what_is_unlinked_is_freed() {
    let (mut tree, root, zero) = shares();
    let empty = Rc::strong_count(&zero);
    let keeper = root.copy(&mut tree);
    for round in 0..5 {
        let mut workers = Vec::new();
        for _ in 0..20 {
            workers.push(root.copy(&mut tree));
        }
        let grandson = workers[0].copy(&mut tree);
        assert_eq!(Rc::strong_count(&zero), empty + 22);
        grandson.set(&mut tree, Rc::new(1));
        grandson.drop(&mut tree);
        for worker in workers {
            worker.drop(&mut tree);
        }
        assert_eq!(*root.get(&mut tree), round + 1);
        assert_eq!(Rc::strong_count(&zero), empty + 1); // the one that is held
    }
    keeper.drop(&mut tree);
}

#[test]
fn what_is_unlinked_step_by_step_is_freed_once_nobody_reads() {
    let (mut tree, root, zero) = shares();
    let empty = Rc::strong_count(&zero);
    let son = root.copy(&mut tree);
    son.set(&mut tree, Rc::new(5));
    son.drop(&mut tree);
    let mut crew = Crew::new(tree, 2);
    crew.begin_get(0, &root);
    crew.begin_get(1, &root);
    let mut read = None;
    while !crew.is_idle(0) {
        if let Some(value) = crew.step(0) {
            read = Some(*value);
        }
    }
    assert_eq!(read, Some(5));
    assert_eq!(Rc::strong_count(&zero), empty + 1); // unlinked, and the other still reads
    while !crew.is_idle(1) {
        crew.step(1);
    }
    assert_eq!(Rc::strong_count(&zero), empty);
    let tree = crew.disband();
    assert_eq!(sons_of(&root, &tree), 0);
}

fn sons_of(
    root: &Mergex<Rc<i32>>,
    tree: &Tree<Rc<i32>, fn(&mut Rc<i32>, &Rc<i32>)>,
) -> usize {
    root.outline(tree).sons.len()
}
