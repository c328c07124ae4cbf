use htmf::board::{Board, Player};
use htmf::cellset::CellSet;
use htmf::hex;
use htmf::hex::EvenR;
use htmf::NUM_CELLS;
use rand::rngs::StdRng;
use rand::{Rng, SeedableRng};

fn fresh_board() -> Board {
    Board::new(&mut StdRng::seed_from_u64(0))
}

#[test]
fn can_create_board() {
    Board::new(&mut StdRng::seed_from_u64(0));
}

#[test]
fn index_evenr_translation() {
    for idx in 0..NUM_CELLS as u8 {
        assert!(Board::evenr_to_index(&Board::index_to_evenr(idx)) == idx);
    }
}

#[test]
fn claim_cell() {
    let mut b = fresh_board();

    let c = 32;
    assert!(!b.is_claimed(c));

    b.claim_cell(Player { id: 1 }, c).unwrap();
    assert!(b.is_claimed(c));
}

#[test]
fn claimed_cell_breaks_path() {
    let mut b = fresh_board();

    let c1 = EvenR { col: 1, row: 2 };
    let c2 = EvenR { col: 3, row: 5 };
    assert!(b.is_clear_path(&c1, &c2));

    b.claim_cell(
        Player { id: 1 },
        Board::evenr_to_index(&EvenR { col: 2, row: 3 }),
    )
    .unwrap();
    assert!(!b.is_clear_path(&c1, &c2));
}

#[test]
fn claimed_start() {
    let mut b = fresh_board();
    let c1 = EvenR { col: 1, row: 2 };
    let c2 = EvenR { col: 3, row: 5 };
    b.claim_cell(Player { id: 1 }, Board::evenr_to_index(&c1))
        .unwrap();
    assert!(b.is_clear_path(&c1, &c2));
}

#[test]
fn claimed_finish() {
    let mut b = fresh_board();
    let c1 = EvenR { col: 1, row: 2 };
    let c2 = EvenR { col: 3, row: 5 };
    b.claim_cell(Player { id: 1 }, Board::evenr_to_index(&c2))
        .unwrap();
    assert!(!b.is_clear_path(&c1, &c2));
}

#[test]
fn nonempty_legal_moves() {
    let b = fresh_board();
    let c = EvenR { col: 1, row: 2 };
    let moves = b.moves(Board::evenr_to_index(&c));
    assert_ne!(moves, CellSet::new());
}

#[test]
fn empty_legal_moves() {
    let mut b = fresh_board();
    let c = EvenR { col: 1, row: 2 };
    for x in c.neighbors().iter() {
        if Board::in_bounds(x) {
            b.claim_cell(Player { id: 1 }, Board::evenr_to_index(x))
                .unwrap();
        }
    }
    let moves = b.moves(Board::evenr_to_index(&c));
    assert_eq!(moves, CellSet::new());
}

#[test]
fn test_cut_cell_in_corner() {
    let mut b = fresh_board();

    b.claim_cell(Player { id: 0 }, 8).unwrap();
    assert!(b.is_cut_cell(1));
}

fn ref_legal_moves_in_line(board: &Board, src: &EvenR, dst: &EvenR) -> CellSet {
    if src == dst {
        return CellSet::new();
    }

    let mut ret = CellSet::new();
    let mut walk = hex::line(src, dst);
    loop {
        let hex = walk.next().unwrap();
        if &hex == src {
            continue;
        }
        if !Board::in_bounds(&hex) {
            break;
        }
        let idx = Board::evenr_to_index(&hex);
        if board.is_claimed(idx) {
            break;
        }
        ret = ret.insert(idx);
    }
    ret
}

fn ref_moves(board: &Board, cell_idx: u8) -> CellSet {
    let cell = Board::index_to_evenr(cell_idx);
    cell.neighbors()
        .iter()
        .map(|n| ref_legal_moves_in_line(board, &cell, n))
        .fold(CellSet::new(), |acc, moves| acc.union(moves))
}

#[test]
fn moves_agree_with_line_scan() {
    let mut rng = StdRng::seed_from_u64(7);
    for round in 0..400 {
        let mut board = fresh_board();
        let full = CellSet::full().data;
        let density: u64 = if round % 2 == 0 { rng.random() } else { rng.random::<u64>() & rng.random::<u64>() };
        let split: u64 = rng.random();
        board.claimed[0] = CellSet { data: density & split & full };
        board.claimed[1] = CellSet { data: density & !split & full };
        for src in 0..NUM_CELLS as u8 {
            assert_eq!(board.moves(src), ref_moves(&board, src), "round {} src {}", round, src);
        }
    }
}

#[test]
fn moves_on_an_empty_board_from_a_corner() {
    let b = fresh_board();
    // from cell 0: east along row 0, and down both diagonals
    let expected = [1u8, 2, 3, 4, 5, 6, 7, 8, 16, 24, 32, 40, 48, 56];
    let mut want = CellSet::new();
    for c in expected {
        want = want.insert(c);
    }
    assert_eq!(b.moves(0), want);
}

#[test]
fn neighbors_of_cells() {
    let n = Board::neighbors(0);
    assert_eq!(n.as_slice(), &[1, 7, 8]);
    let n = Board::neighbors(23);
    assert_eq!(n.as_slice(), &[24, 16, 15, 22, 30, 31]);
    let n = Board::neighbors(59);
    assert_eq!(n.as_slice(), &[51, 58]);
}

#[test]
fn claim_twice_is_rejected_and_changes_nothing() {
    let mut b = fresh_board();
    b.claim_cell(Player { id: 0 }, 5).unwrap();
    let before = b.clone();
    let err = b.claim_cell(Player { id: 1 }, 5).unwrap_err();
    assert_eq!(err.player, Player { id: 1 });
    assert_eq!(err.message, "Cell at 5 already claimed");
    assert_eq!(b, before);
}

#[test]
fn move_penguin_follows_the_rules() {
    let mut b = fresh_board();
    b.claim_cell(Player { id: 0 }, 0).unwrap();
    b.claim_cell(Player { id: 1 }, 3).unwrap();
    // not this player's penguin
    assert!(b.move_penguin(Player { id: 1 }, 0, 1).is_err());
    // blocked by the penguin on 3
    assert!(!b.is_legal_move(Player { id: 0 }, 0, 4));
    let before = b.clone();
    let err = b.move_penguin(Player { id: 0 }, 0, 4).unwrap_err();
    assert_eq!(err.message, "Player Player { id: 0 } cannot move penguin from 0 to 4");
    assert_eq!(b, before);
    // not on a line
    assert!(b.move_penguin(Player { id: 0 }, 0, 9).is_err());
    // onto itself, onto a claimed cell
    assert!(b.move_penguin(Player { id: 0 }, 0, 0).is_err());
    assert!(b.move_penguin(Player { id: 0 }, 0, 3).is_err());
    assert_eq!(b, before);
    // a legal move
    assert!(b.is_legal_move(Player { id: 0 }, 0, 2));
    b.move_penguin(Player { id: 0 }, 0, 2).unwrap();
    assert!(b.is_claimed(0) && b.is_claimed(2));
    assert!(b.penguins[0].contains(2) && !b.penguins[0].contains(0));
    assert_eq!(b.claimed[0].len(), 2);
}

#[test]
fn score_counts_fish_on_claimed_cells() {
    let mut fish = vec![1usize; 60];
    fish[1] = 2;
    fish[2] = 3;
    fish[10] = 3;
    let mut b = Board::with_fish(&fish);
    assert_eq!(b.num_fish(0), 1);
    assert_eq!(b.num_fish(1), 2);
    assert_eq!(b.num_fish(2), 3);
    for c in [0u8, 1, 2] {
        b.claim_cell(Player { id: 0 }, c).unwrap();
    }
    b.claim_cell(Player { id: 1 }, 10).unwrap();
    assert_eq!(b.get_score(Player { id: 0 }), 6);
    assert_eq!(b.get_score(Player { id: 1 }), 3);
    assert_eq!(b.all_claimed_cells().len(), 4);
    assert_eq!(b.claimed_cells(), b.all_claimed_cells());
}

#[test]
fn new_board_has_the_fish_of_the_game() {
    let b = Board::new(&mut StdRng::seed_from_u64(3));
    assert_eq!(b.fish[0].len(), 30);
    assert_eq!(b.fish[1].len(), 20);
    assert_eq!(b.fish[2].len(), 10);
    assert_eq!(b.fish[0].union(b.fish[1]).union(b.fish[2]), CellSet::full());
    let other = Board::new(&mut StdRng::seed_from_u64(4));
    assert_ne!(b.fish, other.fish);
}

#[test]
fn reap_takes_stuck_penguins_only() {
    let mut b = fresh_board();
    b.claim_cell(Player { id: 0 }, 0).unwrap();
    b.claim_cell(Player { id: 1 }, 1).unwrap();
    b.claim_cell(Player { id: 1 }, 7).unwrap();
    b.claim_cell(Player { id: 1 }, 8).unwrap();
    b.reap();
    assert!(b.penguins[0].is_empty());
    assert!(b.is_claimed(0));
    assert_eq!(b.penguins[1].len(), 3);
    assert!(!b.can_move_from(0));
    assert!(b.can_move_from(1));
}

#[test]
fn cut_cell_needs_two_crossings() {
    let b = fresh_board();
    // an inner cell on an empty board has six open neighbours
    assert!(!b.is_cut_cell(23));
    let mut b = fresh_board();
    b.claim_cell(Player { id: 0 }, 15).unwrap();
    assert!(!b.is_cut_cell(23));
    b.claim_cell(Player { id: 0 }, 30).unwrap();
    assert!(b.is_cut_cell(23));
}
