//! Long runs under a random schedule.
use mergex::Crew;
use mergex::Mergex;

/// A small pseudo-random generator, so that runs repeat.
struct Dice {
    state: u64,
}

impl Dice {
    fn roll(&mut self, sides: usize) -> usize {
        self.state = self.state.wrapping_mul(6364136223846793005).wrapping_add(1442695040888963407);
        ((self.state >> 33) as usize) % sides
    }
}

fn largest(father: &mut i64, son: &i64) {
    *father = (*father).max(*son);
}

fn add(father: &mut i64, son: &i64) {
    *father += *son;
}

/// A writer pushing 1..=N with a max-merge, racing a merging reader.
/// After the writer is done, a final get() must report N: the last value written
/// cannot be dropped on the floor.
#[test]
fn the_last_set_is_never_swallowed() {
    const N: i64 = 2_000;
    let mut lost = 0u64;
    let mut worst = N;

    for run in 0..300 {
        let mut dice = Dice { state: run };
        let (mut tree, root) = Mergex::new(0i64, 0, largest);
        let son = root.copy(&mut tree);
        let mut crew = Crew::new(tree, 2);
        let mut next = 1;
        while next <= N || !crew.is_idle(0) || !crew.is_idle(1) {
            let w = dice.roll(2);
            if !crew.is_idle(w) {
                crew.step(w);
            } else if next <= N {
                if w == 0 {
                    crew.begin_set(0, &son, next);
                    next += 1;
                } else {
                    crew.begin_get(1, &root); // merging reader
                }
            }
        }
        let mut tree = crew.disband();
        let final_value = root.get(&mut tree);
        if final_value != N {
            lost += 1;
            worst = worst.min(final_value);
        }
    }

    println!("runs that lost the last set: {lost}/300 (worst value seen: {worst}, expected {N})");
    assert_eq!(lost, 0);
}

/// Two readers merging while a writer runs. An individual get() may come back
/// stale, but nothing may be lost: once the tree is quiet, a final get() must be
/// exact.
#[test]
fn concurrent_readers_never_lose_a_write() {
    const N: i64 = 5_000;

    for run in 0..50 {
        let mut dice = Dice { state: 1000 + run };
        let (mut tree, root) = Mergex::new(0i64, 0, largest);
        let son = root.copy(&mut tree);
        let mut crew = Crew::new(tree, 3);
        let mut next = 1;
        let mut reads = 0;
        let mut seen = 0;
        loop {
            let w = dice.roll(3);
            if !crew.is_idle(w) {
                if let Some(value) = crew.step(w) {
                    if w == 1 {
                        seen = seen.max(value);
                    }
                }
            } else if w == 0 && next <= N {
                crew.begin_set(0, &son, next);
                next += 1;
            } else if w == 1 && reads < 20_000 {
                crew.begin_get(1, &root);
                reads += 1;
            } else if w == 2 && next <= N {
                crew.begin_get(2, &root);
            } else if next > N && reads == 20_000 && (0..3).all(|w| crew.is_idle(w)) {
                break;
            }
        }

        assert!(seen <= N, "a reader saw {seen}, more than the largest value written, {N}");
        let mut tree = crew.disband();
        assert_eq!(root.get(&mut tree), N, "the last set was lost");
    }
}

#[test]
fn many_threads_registering_and_setting_at_once() {
    let (tree, root) = Mergex::new(0i64, 0, add);
    let mut crew = Crew::new(tree, 51);
    let mut dice = Dice { state: 7 };
    let mut stage = vec![0; 50];
    let mut sons: Vec<Option<Mergex<i64>>> = (0..50).map(|_| None).collect();
    while stage.iter().any(|s| *s < 4) || (0..51).any(|w| !crew.is_idle(w)) {
        let w = dice.roll(51);
        if !crew.is_idle(w) {
            crew.step(w);
        } else if w == 50 {
            if stage.iter().any(|s| *s < 4) {
                crew.begin_get(w, &root); // a reader in the thick of it
            }
        } else if stage[w] == 0 {
            sons[w] = Some(crew.register(w, &root));
            stage[w] = 1;
        } else if stage[w] == 1 {
            if let Some(son) = &sons[w] {
                crew.begin_set(w, son, w as i64 + 1);
            }
            stage[w] = 2;
        } else if stage[w] == 2 {
            if let Some(son) = sons[w].take() {
                crew.begin_drop(w, son);
            }
            stage[w] = 3;
        } else {
            stage[w] = 4;
        }
    }
    let mut tree = crew.disband();
    assert_eq!(root.get(&mut tree), (1..=50).sum::<i64>()); // 1275, nothing lost
}

#[test]
fn eight_writers_of_a_thousand_increments() {
    let (mut tree, root) = Mergex::new(0i64, 0, add);
    let nodes: Vec<Mergex<i64>> = (0..8).map(|_| root.copy(&mut tree)).collect();
    let mut crew = Crew::new(tree, 8);
    let mut dice = Dice { state: 3 };
    let mut next = vec![1i64; 8];
    while next.iter().any(|i| *i <= 1000) || (0..8).any(|w| !crew.is_idle(w)) {
        let w = dice.roll(8);
        if !crew.is_idle(w) {
            crew.step(w);
        } else if next[w] <= 1000 {
            let i = next[w];
            crew.begin_update(w, &nodes[w], |slot| *slot += i);
            next[w] += 1;
        }
    }
    let mut tree = crew.disband();
    assert_eq!(root.get(&mut tree), 4_004_000);
}
