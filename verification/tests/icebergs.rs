use htmf::board::{Board, Player};
use htmf::cellset::CellSet;
use htmf::NUM_CELLS;
use rand::rngs::StdRng;
use rand::seq::SliceRandom;
use rand::SeedableRng;

fn fresh_board() -> Board {
    Board::new(&mut SeedableRng::seed_from_u64(0))
}

#[test]
fn one_connected_component_at_start() {
    let b = fresh_board();
    let components = b.connected_components();
    assert_eq!(components.len(), 1);
    assert_eq!(components[0].len(), NUM_CELLS);
}

#[test]
fn two_connected_components() {
    let mut b = fresh_board();

    // carve out upper left corner
    let claimed = vec![1, 7, 8];
    for &x in claimed.iter() {
        b.claim_cell(Player { id: 0 }, x).unwrap();
    }

    let components = b.connected_components();
    assert_eq!(components.len(), 2);
    assert_eq!(components[0].len(), 1);
    assert_eq!(components[1].len(), NUM_CELLS - 1 - claimed.len());
}

#[test]
fn test_connected_components() {
    fn run_test(seed: [u8; 32]) {
        let mut b = fresh_board();

        let mut cells: Vec<_> = (0..NUM_CELLS).collect();
        let mut rng: StdRng = SeedableRng::from_seed(seed);
        cells.shuffle(&mut rng);

        for c in 0..30 {
            b.claim_cell(Player { id: 0 }, c).unwrap();
        }
        let components = b.connected_components();
        let mut count = 0;
        for component in components.iter() {
            let mut it = component.iter();
            while let Some(_) = it.next() {
                count += 1;
            }
        }
        assert_eq!(b.claimed_cells().len() + count, NUM_CELLS,);
        let mut all_cells = CellSet::new();
        for component in components {
            let mut it = component.iter();
            while let Some(cell) = it.next() {
                all_cells = all_cells.insert(cell);
            }
        }
        let mut it = b.claimed_cells().iter();
        while let Some(cell) = it.next() {
            all_cells = all_cells.insert(cell);
        }
        assert_eq!(all_cells.len(), NUM_CELLS);
    }

    for seed in 0..100 {
        run_test([seed; 32]);
    }
}

#[test]
fn one_penguin_prunes_the_whole_board() {
    let mut b = fresh_board();
    b.claim_cell(Player { id: 0 }, 0).unwrap();
    b.prune();
    let num_claimed_cells = (0..NUM_CELLS as u8).filter(|&c| b.is_claimed(c)).count();
    assert_eq!(num_claimed_cells, NUM_CELLS);
}

#[test]
fn two_players_no_pruning() {
    let mut b = fresh_board();
    b.claim_cell(Player { id: 0 }, 0).unwrap();
    b.claim_cell(Player { id: 1 }, 1).unwrap();
    b.prune();
    let num_claimed_cells = (0..NUM_CELLS as u8).filter(|&c| b.is_claimed(c)).count();
    assert_eq!(num_claimed_cells, 2);
}

#[test]
fn components_partition_random_boards() {
    let mut rng = StdRng::seed_from_u64(11);
    for round in 0..200 {
        let mut b = fresh_board();
        let mut cells: Vec<u8> = (0..NUM_CELLS as u8).collect();
        cells.shuffle(&mut rng);
        let n = round % 60;
        for (i, &c) in cells.iter().take(n).enumerate() {
            b.claim_cell(Player { id: i % 2 }, c).unwrap();
        }
        let components = b.connected_components();
        let mut seen = CellSet::new();
        let mut total = 0;
        let mut last_least = None;
        for comp in components.iter() {
            assert!(!comp.is_empty());
            assert!(seen.intersect(*comp).is_empty());
            assert!(comp.intersect(b.claimed_cells()).is_empty());
            seen = seen.union(*comp);
            total += comp.len();
            let least = comp.iter().next();
            assert!(last_least < least);
            last_least = least;
            // every component is the flood fill of each of its cells
            let mut it = comp.iter();
            while let Some(c) = it.next() {
                assert_eq!(b.component(c), *comp);
            }
        }
        assert_eq!(b.claimed_cells().len() + total, NUM_CELLS);
        assert_eq!(seen.union(b.claimed_cells()), CellSet::full());
    }
}

#[test]
fn fill_takes_all_the_fish_of_a_small_iceberg() {
    let mut fish = vec![1usize; 60];
    fish[1] = 3;
    fish[2] = 2;
    let mut b = Board::with_fish(&fish);
    // player 0 stands on 0; cells 1 and 2 are cut off by player 1's wall
    b.claim_cell(Player { id: 0 }, 0).unwrap();
    for c in [7u8, 8, 9, 10, 3] {
        b.claimed[1] = b.claimed[1].insert(c);
    }
    assert_eq!(b.best_score_for_penguin(0), 5);
    assert_eq!(b.iceberg_fish(b.component(1)), 5);
    let (trail, best) = b.optimal_path(Player { id: 0 }, 0).unwrap();
    assert_eq!(best, 5);
    let cells: Vec<u8> = trail.iter().map(|s| s.1).collect();
    assert_eq!(cells, vec![0, 1, 2]);
    let scores: Vec<usize> = trail.iter().map(|s| s.2).collect();
    assert_eq!(scores, vec![0, 3, 5]);
    let before = b.get_score(Player { id: 0 });
    assert!(b.prune());
    assert_eq!(b.get_score(Player { id: 0 }), before + 5);
    assert!(b.is_claimed(1) && b.is_claimed(2));
    assert!(b.penguins[0].contains(2) && !b.penguins[0].contains(0));
    // nothing is left to do
    assert!(!b.prune());
}

#[test]
fn prune_leaves_a_penguin_that_can_leave() {
    let mut b = fresh_board();
    b.claim_cell(Player { id: 0 }, 8).unwrap();
    // cell 0 is an iceberg of its own next to the penguin on 8 once 1 and 7
    // are claimed, but the penguin can step on to the rest of the board
    b.claim_cell(Player { id: 1 }, 1).unwrap();
    b.claim_cell(Player { id: 1 }, 7).unwrap();
    let before = b.clone();
    assert_eq!(b.connected_components().len(), 2);
    assert!(b.can_leave(b.component(0), 8));
    assert!(!b.prune());
    assert_eq!(b, before);
}

#[test]
fn sole_penguin_needs_exactly_one() {
    let mut b = fresh_board();
    let all = b.component(5);
    assert_eq!(b.sole_penguin(all), None);
    b.claim_cell(Player { id: 1 }, 20).unwrap();
    let all = b.component(5);
    assert_eq!(b.sole_penguin(all), Some((Player { id: 1 }, 20)));
    b.claim_cell(Player { id: 0 }, 40).unwrap();
    let all = b.component(5);
    assert_eq!(b.sole_penguin(all), None);
    assert!(Board::touches(all, 40));
    assert!(!Board::touches(CellSet::new().insert(0), 40));
}

/// The most fish that a penguin on `src` can take by moving on and on,
/// found by trying every walk.
fn most_fish_by_walking(board: &Board, src: u8) -> usize {
    let mut best = 0;
    let mut targets = board.moves(src).iter();
    while let Some(dst) = targets.next() {
        let mut next = board.clone();
        next.claimed[0] = next.claimed[0].insert(dst);
        let got = board.num_fish(dst) + most_fish_by_walking(&next, dst);
        if got > best {
            best = got;
        }
    }
    best
}

#[test]
fn a_walk_is_found_exactly_when_there_is_one() {
    let mut rng = StdRng::seed_from_u64(21);
    let mut found = 0;
    let mut missed = 0;
    for round in 0..300 {
        let mut b = Board::new(&mut rng);
        let mut cells: Vec<u8> = (0..NUM_CELLS as u8).collect();
        cells.shuffle(&mut rng);
        let penguin = cells[0];
        b.claim_cell(Player { id: 0 }, penguin).unwrap();
        for &c in cells.iter().skip(1).take(40 + round % 12) {
            b.claimed[1] = b.claimed[1].insert(c);
        }
        let best = b.best_score_for_penguin(penguin);
        let reachable = most_fish_by_walking(&b, penguin);
        assert!(reachable <= best);
        match b.optimal_path(Player { id: 0 }, penguin) {
            Some((trail, score)) => {
                assert_eq!(score, best);
                assert_eq!(reachable, best);
                assert_eq!(trail[0], (b, penguin, 0));
                assert_eq!(trail.last().unwrap().2, best);
                for w in trail.windows(2) {
                    assert!(w[0].0.moves(w[0].1).contains(w[1].1));
                    assert_eq!(w[1].2, w[0].2 + b.num_fish(w[1].1));
                    assert!(w[1].0.is_claimed(w[1].1));
                }
                found += 1;
            }
            None => {
                assert!(reachable < best);
                missed += 1;
            }
        }
    }
    assert!(found > 0 && missed > 0, "found {} missed {}", found, missed);
}
