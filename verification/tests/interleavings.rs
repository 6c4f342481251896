//! Exhaustive interleaving checks: every order in which the steps of a few
//! threads can come, on small trees.
use std::collections::HashSet;

use mergex::Crew;
use mergex::Mergex;
use mergex::Tree;

type Adder = fn(&mut i64, &i64);

fn add(father: &mut i64, son: &i64) {
    *father += *son;
}

fn adder() -> (Tree<i64, Adder>, Mergex<i64>) {
    Mergex::new(0i64, 0, add as Adder)
}

/// What a thread does, on the handle at a place in a list.
#[derive(Clone, Copy)]
enum Op {
    Put(usize, i64),
    Add(usize, i64),
    Get(usize),
}

struct Model<'a> {
    handles: &'a [Mergex<i64>],
    scripts: &'a [Vec<Op>],
    seen: HashSet<String>,
    ends: usize,
}

impl<'a> Model<'a> {
    fn explore(
        &mut self,
        crew: &Crew<i64, Adder>,
        done: &[usize],
        check: &dyn Fn(Tree<i64, Adder>),
    ) {
        if !self.seen.insert(format!("{:?} {:?}", crew, done)) {
            return;
        }
        let mut over = true;
        for w in 0..self.scripts.len() {
            let mut crew = crew.clone();
            let mut done = done.to_vec();
            if !crew.is_idle(w) {
                crew.step(w);
            } else if done[w] < self.scripts[w].len() {
                match self.scripts[w][done[w]] {
                    Op::Put(h, v) => crew.begin_set(w, &self.handles[h], v),
                    Op::Add(h, v) => crew.begin_update(w, &self.handles[h], |x| *x += v),
                    Op::Get(h) => crew.begin_get(w, &self.handles[h]),
                }
                done[w] += 1;
            } else {
                continue;
            }
            over = false;
            self.explore(&crew, &done, check);
        }
        if over {
            self.ends += 1;
            check(crew.clone().disband());
        }
    }
}

fn model(
    tree: Tree<i64, Adder>,
    handles: &[Mergex<i64>],
    scripts: &[Vec<Op>],
    check: &dyn Fn(Tree<i64, Adder>),
) {
    let crew = Crew::new(tree, scripts.len());
    let mut model = Model { handles, scripts, seen: HashSet::new(), ends: 0 };
    model.explore(&crew, &vec![0; scripts.len()], check);
    println!("states: {}, ends: {}", model.seen.len(), model.ends);
    assert!(model.ends > 0);
}

#[test]
fn in_every_order_a_write_to_a_son_survives_a_concurrent_read() {
    let (mut tree, root) = adder();
    let son = root.copy(&mut tree);
    let handles = [root, son];
    model(tree, &handles, &[vec![Op::Put(1, 1)], vec![Op::Get(0)]], &|mut tree| {
        assert_eq!(handles[0].get(&mut tree), 1, "the write to the son was lost");
    });
}

#[test]
fn in_every_order_a_write_to_a_grandson_survives_a_concurrent_read() {
    let (mut tree, root) = adder();
    let son = root.copy(&mut tree);
    let grandson = son.copy(&mut tree);
    let handles = [root, son, grandson];
    model(tree, &handles, &[vec![Op::Put(2, 1)], vec![Op::Get(0)]], &|mut tree| {
        assert_eq!(handles[0].get(&mut tree), 1, "the write to the grandson was lost");
    });
}

#[test]
fn in_every_order_the_early_return_in_mark_ancestors_never_hides_a_write() {
    let (mut tree, root) = adder();
    let son = root.copy(&mut tree);
    let g1 = son.copy(&mut tree);
    let g2 = son.copy(&mut tree);
    let handles = [root, son, g1, g2];
    let writer = vec![Op::Put(2, 1), Op::Put(3, 1)];
    model(tree, &handles, &[writer, vec![Op::Get(0)]], &|mut tree| {
        assert_eq!(handles[0].get(&mut tree), 2, "the early return swallowed a write");
    });
}

#[test]
fn in_every_order_two_writers_racing_to_flag_the_same_father() {
    let (mut tree, root) = adder();
    let a = root.copy(&mut tree);
    let b = root.copy(&mut tree);
    let handles = [root, a, b];
    model(tree, &handles, &[vec![Op::Put(1, 1)], vec![Op::Put(2, 1)]], &|mut tree| {
        assert_eq!(handles[0].get(&mut tree), 2, "one brother overran the other");
    });
}

#[test]
fn in_every_order_an_interleaved_read_never_folds_the_same_delta_twice() {
    let (mut tree, root) = adder();
    let son = root.copy(&mut tree);
    let handles = [root, son];
    let writer = vec![Op::Add(1, 1), Op::Add(1, 1)];
    model(tree, &handles, &[writer, vec![Op::Get(0)]], &|mut tree| {
        assert_eq!(handles[0].get(&mut tree), 2, "a delta was counted twice");
    });
}

#[test]
fn in_every_order_a_second_write_that_skips_the_mark_is_still_found() {
    let (mut tree, root) = adder();
    let son = root.copy(&mut tree);
    let grandson = son.copy(&mut tree);
    let handles = [root, son, grandson];
    let writer = vec![Op::Add(2, 1), Op::Add(2, 1)];
    model(tree, &handles, &[writer, vec![Op::Get(0)]], &|mut tree| {
        assert_eq!(handles[0].get(&mut tree), 2, "the second write skipped the mark and was lost");
    });
}

#[test]
fn thread_updates_reach_the_root() {
    let (mut tree, root) = Mergex::new(7i64, 0, add as Adder);
    let t1 = root.copy(&mut tree);
    let t2 = root.copy(&mut tree);
    let handles = [root, t1, t2];
    model(tree, &handles, &[vec![Op::Put(1, 10)], vec![Op::Put(2, 20)]], &|mut tree| {
        assert!(handles[0].check_children(&tree));
        assert_eq!(handles[0].get(&mut tree), 37); // 7 + 10 + 20
        assert!(!handles[0].check_children(&tree)); // dirty bits cleared
    });
}

#[test]
fn two_readers_and_a_writer_lose_nothing() {
    let (mut tree, root) = adder();
    let son = root.copy(&mut tree);
    let grandson = son.copy(&mut tree);
    let handles = [root, son, grandson];
    let scripts = [vec![Op::Add(2, 1), Op::Add(2, 4)], vec![Op::Get(0)], vec![Op::Get(0)]];
    model(tree, &handles, &scripts, &|mut tree| {
        assert_eq!(handles[0].get(&mut tree), 5);
    });
}

#[test]
fn a_reader_in_the_middle_takes_nothing_from_the_root() {
    let (mut tree, root) = adder();
    let son = root.copy(&mut tree);
    let grandson = son.copy(&mut tree);
    let handles = [root, son, grandson];
    let scripts = [vec![Op::Add(2, 3)], vec![Op::Get(1)], vec![Op::Get(0)]];
    model(tree, &handles, &scripts, &|mut tree| {
        assert_eq!(handles[0].get(&mut tree), 3);
    });
}

/// Lets one worker finish what it has in hand.
fn finish(crew: &mut Crew<i64, Adder>, w: usize) -> Option<i64> {
    let mut read = None;
    while !crew.is_idle(w) {
        if let Some(value) = crew.step(w) {
            read = Some(value);
        }
    }
    read
}

#[test]
fn sons_created_inside_a_thread_register() {
    let (mut tree, root) = Mergex::new(7i64, 0, add as Adder);
    let t1 = root.copy(&mut tree);
    let mut crew = Crew::new(tree, 2);
    crew.begin_get(1, &root); // a reader under way all the while
    let grandson = crew.register(0, &t1);
    crew.begin_set(0, &grandson, 1000);
    crew.step(1);
    finish(&mut crew, 0);
    crew.begin_drop(0, grandson);
    finish(&mut crew, 0);
    crew.begin_drop(0, t1);
    finish(&mut crew, 0);
    finish(&mut crew, 1);
    let mut tree = crew.disband();
    assert_eq!(root.get(&mut tree), 1007); // 7 + (0 + 1000)
}

#[test]
fn a_read_alone_returns_the_total() {
    let (mut tree, root) = Mergex::new(7i64, 0, add as Adder);
    let son = root.copy(&mut tree);
    let grandson = son.copy(&mut tree);
    son.set(&mut tree, 10);
    grandson.set(&mut tree, 100);
    let mut crew = Crew::new(tree, 1);
    crew.begin_get(0, &root);
    assert_eq!(finish(&mut crew, 0), Some(117));
    let tree = crew.disband();
    assert!(!root.check_children(&tree));
    assert_eq!(son.get_threaded(&tree), 0);
}

#[test]
fn a_stale_read_is_made_good_by_the_next() {
    let (mut tree, root) = adder();
    let son = root.copy(&mut tree);
    son.set(&mut tree, 5);
    let mut crew = Crew::new(tree, 2);
    crew.begin_get(0, &root);
    crew.step(0); // has lowered the flag, and no more
    crew.begin_get(1, &root);
    assert_eq!(finish(&mut crew, 1), Some(0)); // the other has the sweep
    assert_eq!(finish(&mut crew, 0), Some(5));
    let mut tree = crew.disband();
    assert_eq!(root.get(&mut tree), 5);
}

#[test]
fn the_last_handle_goes_in_two_steps() {
    let (mut tree, root) = adder();
    let son = root.copy(&mut tree);
    son.set(&mut tree, 5);
    let mut crew = Crew::new(tree, 2);
    let other = crew.share(0, &son);
    crew.begin_drop(0, son);
    assert!(crew.is_idle(0)); // one handle is left
    crew.begin_drop(0, other);
    assert!(!crew.is_idle(0)); // not declared dead yet
    crew.begin_get(1, &root);
    assert_eq!(finish(&mut crew, 1), Some(5));
    finish(&mut crew, 0);
    let mut tree = crew.disband();
    assert_eq!(root.outline(&tree).sons.len(), 1); // the sweep came too early
    root.copy(&mut tree).set(&mut tree, 1);
    assert_eq!(root.get(&mut tree), 6);
    assert_eq!(root.outline(&tree).sons.len(), 1);
}

#[test]
fn a_read_ends_however_much_is_written_meanwhile() {
    let (mut tree, root) = adder();
    let a = root.copy(&mut tree);
    let b = root.copy(&mut tree);
    b.set(&mut tree, 1);
    let mut crew = Crew::new(tree, 2);
    crew.begin_get(0, &root);
    let mut steps = 0;
    while !crew.is_idle(0) {
        crew.step(0);
        steps += 1;
        crew.begin_update(1, &a, |x| *x += 1);
        finish(&mut crew, 1);
        crew.begin_update(1, &b, |x| *x += 1);
        finish(&mut crew, 1);
    }
    assert!(steps <= 24, "{} steps", steps); // ten for each son, and four
    let mut tree = crew.disband();
    assert_eq!(root.get(&mut tree), 2 * steps + 1);
}

#[test]
fn a_worker_that_leaves_at_any_moment_of_a_read_delivers_and_goes() {
    for early in 0..40 {
        let (mut tree, root) = adder();
        let son = root.copy(&mut tree);
        let other = root.copy(&mut tree);
        other.set(&mut tree, 100);
        let mut crew = Crew::new(tree, 2);
        crew.begin_get(0, &root);
        for _ in 0..early {
            if !crew.is_idle(0) {
                crew.step(0);
            }
        }
        crew.begin_set(1, &son, 7);
        finish(&mut crew, 1);
        crew.begin_drop(1, son);
        finish(&mut crew, 1);
        finish(&mut crew, 0);
        crew.begin_set(1, &other, 20);
        finish(&mut crew, 1);
        crew.begin_get(0, &root);
        assert_eq!(finish(&mut crew, 0), Some(127));
        let tree = crew.disband();
        assert_eq!(root.outline(&tree).sons.len(), 1); // gone, and not coming back
    }
}

#[test]
fn in_every_order_growing_overwrites_reach_a_maximum() {
    fn largest(father: &mut i64, son: &i64) {
        *father = (*father).max(*son);
    }
    let (mut tree, root) = Mergex::new(0i64, 0, largest as Adder);
    let son = root.copy(&mut tree);
    let grandson = son.copy(&mut tree);
    let other = root.copy(&mut tree);
    let handles = [root, grandson, other];
    let scripts = [vec![Op::Put(1, 3), Op::Put(1, 8)], vec![Op::Put(2, 5)], vec![Op::Get(0)]];
    model(tree, &handles, &scripts, &|mut tree| {
        assert_eq!(handles[0].get(&mut tree), 8);
    });
}

#[test]
fn in_every_order_an_overwrite_replaces_what_was_not_folded_yet() {
    let (mut tree, root) = adder();
    let son = root.copy(&mut tree);
    let other = root.copy(&mut tree);
    other.set(&mut tree, 100);
    let handles = [root, son, other];
    let scripts = [vec![Op::Put(1, 5), Op::Put(1, 7)], vec![Op::Get(0)]];
    model(tree, &handles, &scripts, &|mut tree| {
        let read = handles[0].get(&mut tree);
        assert!(read == 107 || read == 112, "{}", read); // the 5 overwritten, or folded before
    });
}

#[test]
fn an_overwrite_of_a_node_in_the_middle_takes_away_what_it_had_taken_in() {
    let (mut tree, root) = adder();
    let son = root.copy(&mut tree);
    let grandson = son.copy(&mut tree);
    grandson.set(&mut tree, 8);
    let handles = [root, son, grandson];
    let scripts = [vec![Op::Put(1, 5)], vec![Op::Get(0)]];
    model(tree, &handles, &scripts, &|mut tree| {
        let read = handles[0].get(&mut tree);
        assert!(read == 5 || read == 13, "{}", read);
    });
}

#[test]
fn a_read_step_by_step_makes_of_the_tree_what_a_read_at_once_makes_of_it() {
    let build = || {
        let (mut tree, root) = Mergex::new(7i64, 0, add as Adder);
        let son = root.copy(&mut tree);
        let grandson = son.copy(&mut tree);
        let other = root.copy(&mut tree);
        grandson.set(&mut tree, 100);
        other.set(&mut tree, 20);
        other.drop(&mut tree);
        (tree, root, son, grandson)
    };
    for below in [false, true] {
        let (mut tree, root, son, _) = build();
        let at_once = if below { son.get(&mut tree) } else { root.get(&mut tree) };
        let (other, root, son, _) = build();
        let mut crew = Crew::new(other, 1);
        crew.begin_get(0, if below { &son } else { &root });
        assert_eq!(finish(&mut crew, 0), Some(at_once));
        assert_eq!(format!("{:?}", crew.disband()), format!("{:?}", tree));
    }
}

#[test]
fn no_read_ever_returns_more_than_the_largest_value_written() {
    fn largest(father: &mut i64, son: &i64) {
        *father = (*father).max(*son);
    }
    let (mut tree, root) = Mergex::new(0i64, 0, largest as Adder);
    let a = root.copy(&mut tree);
    let b = a.copy(&mut tree);
    let mut crew = Crew::new(tree, 3);
    let mut seen = 0;
    for round in 1..200i64 {
        if crew.is_idle(0) {
            crew.begin_set(0, &a, round);
        }
        if crew.is_idle(1) {
            crew.begin_set(1, &b, round);
        }
        if crew.is_idle(2) {
            crew.begin_get(2, &root);
        }
        for w in 0..3 {
            if (round as usize + w) % 3 != 0 {
                if let Some(value) = crew.step(w) {
                    assert!(value <= round);
                    seen = seen.max(value);
                }
            }
        }
    }
    assert!(seen > 0);
}
