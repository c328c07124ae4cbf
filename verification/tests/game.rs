use htmf::board::{Board, Player};
use htmf::game::{Action, GameState};
use rand::rngs::StdRng;
use rand::SeedableRng;

fn new_game(seed: u64) -> GameState {
    GameState::new_two_player(&mut StdRng::seed_from_u64(seed))
}

fn first_free_one_fish_cell(g: &GameState) -> u8 {
    let mut it = g.board.fish[0].iter();
    loop {
        let c = it.next().unwrap();
        if !g.board.is_claimed(c) {
            return c;
        }
    }
}

#[test]
fn draft_turn_sequence_is_good() {
    let g = new_game(0);

    let actives: Vec<usize> = (0..8)
        .scan(g, |g, _| {
            let p = g.active_player().unwrap();
            g.turn += 1;
            Some(p.id)
        })
        .collect();
    let expected = vec![0, 1, 1, 0, 0, 1, 1, 0];
    assert_eq!(actives, expected);
}

#[test]
fn game_not_over_after_draft_is_over() {
    let mut g = new_game(0);

    for _ in 0..8 {
        assert!(!g.finished_drafting());
        assert!(!g.game_over());
        assert!(g.active_player().is_some());
        let one_fish_cell = first_free_one_fish_cell(&g);
        g.place_penguin(one_fish_cell).unwrap();
    }

    assert!(g.finished_drafting());
    assert!(!g.game_over());
    assert!(g.active_player().is_some());
}

#[test]
fn drafting_lasts_eight_or_nine_turns() {
    for (nplayers, limit) in [(2usize, 8usize), (3, 9), (4, 8)] {
        let mut g = new_game(1);
        g.nplayers = nplayers;
        g.turn = limit - 1;
        assert!(!g.finished_drafting());
        g.turn = limit;
        assert!(g.finished_drafting());
    }
}

#[test]
fn draft_order_snakes_for_three_players() {
    let mut g = new_game(1);
    g.nplayers = 3;
    let mut order = vec![];
    for turn in 0..9 {
        g.turn = turn;
        order.push(g.active_player().unwrap().id);
    }
    assert_eq!(order, vec![0, 1, 2, 2, 1, 0, 0, 1, 2]);
}

#[test]
fn placing_is_validated() {
    let mut g = new_game(2);
    let two_fish = g.board.fish[1].iter().next().unwrap();
    let before = g.clone();
    let err = g.place_penguin(two_fish).unwrap_err();
    assert_eq!(err.player, Player { id: 0 });
    assert_eq!(err.message, "You must place on a cell containing one fish!");
    assert_eq!(g, before);

    let c = first_free_one_fish_cell(&g);
    assert!(g.is_legal_place(c));
    g.place_penguin(c).unwrap();
    assert_eq!(g.turn, 1);
    assert!(g.board.penguins[0].contains(c) && g.board.claimed[0].contains(c));
    assert!(!g.is_legal_place(c));
    let before = g.clone();
    let err = g.place_penguin(c).unwrap_err();
    assert_eq!(err.player, Player { id: 1 });
    assert_eq!(err.message, format!("Cell at {} already claimed", c));
    assert_eq!(g, before);

    // moving is not allowed yet
    let err = g.move_penguin(c, c).unwrap_err();
    assert_eq!(err.message, "Drafting phase is not over");
    assert_eq!(g, before);
}

fn drafted_game(seed: u64) -> GameState {
    let mut g = new_game(seed);
    for _ in 0..8 {
        let c = first_free_one_fish_cell(&g);
        g.place_penguin(c).unwrap();
    }
    g
}

#[test]
fn placing_after_the_draft_is_rejected() {
    let mut g = drafted_game(3);
    let before = g.clone();
    let c = first_free_one_fish_cell(&g);
    let err = g.place_penguin(c).unwrap_err();
    assert_eq!(err.message, "Drafting phase is over");
    assert_eq!(err.player, g.active_player().unwrap());
    assert_eq!(g, before);
}

#[test]
fn moving_passes_the_turn_and_claims() {
    let mut g = drafted_game(4);
    let p = g.active_player().unwrap();
    assert_eq!(p, Player { id: 0 });
    let src = g.board.penguins[p.id].iter().next().unwrap();
    let dst = g.board.moves(src).iter().next().unwrap();
    assert!(g.is_legal_move(src, dst));
    let score = g.board.get_score(p);
    let fish = g.board.num_fish(dst);
    g.apply_action(&Action::Move(src, dst)).unwrap();
    assert_eq!(g.turn, 9);
    assert_eq!(g.board.get_score(p), score + fish);
    assert!(g.board.is_claimed(src) && g.board.is_claimed(dst));
    assert!(!g.board.penguins[p.id].contains(src));
    assert_eq!(g.active_player(), Some(Player { id: 1 }));
    let scores = g.get_scores();
    assert_eq!(scores.len(), 2);
    assert_eq!(scores[0], g.board.get_score(Player { id: 0 }));
    assert_eq!(scores[1], g.board.get_score(Player { id: 1 }));

    // an illegal move leaves the game as it is
    let before = g.clone();
    let err = g.apply_action(&Action::Move(src, dst)).unwrap_err();
    assert_eq!(err.player, Player { id: 1 });
    assert_eq!(g, before);
}

#[test]
fn a_player_without_penguins_is_passed_over() {
    let mut g = drafted_game(5);
    g.board.penguins[1] = htmf::cellset::CellSet::new();
    g.turn = 9;
    assert_eq!(g.active_player(), Some(Player { id: 0 }));
    g.board.penguins[0] = htmf::cellset::CellSet::new();
    assert!(g.game_over());
    assert_eq!(g.active_player(), None);
}

#[test]
fn a_whole_game_of_first_moves_ends() {
    let mut g = drafted_game(6);
    let mut turns = 0;
    while let Some(p) = g.active_player() {
        let src = g.board.penguins[p.id].iter().next().unwrap();
        let dst = g.board.moves(src).iter().next().unwrap();
        g.move_penguin(src, dst).unwrap();
        turns += 1;
        assert!(turns <= 60);
    }
    assert!(g.game_over());
    let scores = g.get_scores();
    assert!(scores[0] + scores[1] <= 100);
    let claimed: Board = g.board;
    assert!(claimed.claimed[0].intersect(claimed.claimed[1]).is_empty());
}

#[test]
fn placing_through_apply_action() {
    let mut g = new_game(7);
    let c = first_free_one_fish_cell(&g);
    g.apply_action(&Action::Place(c)).unwrap();
    assert_eq!(g.turn, 1);
    assert_eq!(g.active_player(), Some(Player { id: 1 }));
}
