use htmf::board::Board;
use htmf::game::GameState;
use htmf::json::{BoardJSON, GameModeType, GameStateJSON};
use htmf::NUM_CELLS;
use rand::rngs::StdRng;
use rand::SeedableRng;

fn new_game(seed: u64) -> GameState {
    GameState::new_two_player(&mut StdRng::seed_from_u64(seed))
}

#[test]
fn initial_state() {
    let game = new_game(0);
    let game_json = GameStateJSON::from_state(&game);
    let game_again = game_json.to_state();
    assert_eq!(game, game_again);
}

#[test]
fn after_claiming() {
    let mut game = new_game(0);
    let eligible_place = (0..NUM_CELLS as u8)
        .find(|&cell| game.board.num_fish(cell) == 1)
        .unwrap();
    game.place_penguin(eligible_place).unwrap();
    let game_json = GameStateJSON::from_state(&game);
    let game_again = game_json.to_state();
    assert_eq!(game, game_again);
}

#[test]
fn lists_of_a_game() {
    let mut game = new_game(1);
    let cells: Vec<u8> = game.board.fish[0].to_vec();
    game.place_penguin(cells[3]).unwrap();
    game.place_penguin(cells[1]).unwrap();
    game.place_penguin(cells[0]).unwrap();
    let json = GameStateJSON::from_state(&game);
    assert!(json.last_move_valid);
    assert_eq!(json.mode_type, GameModeType::Drafting);
    assert_eq!(json.nplayers, 2);
    assert_eq!(json.turn, 3);
    assert_eq!(json.active_player, Some(0));
    assert_eq!(json.scores, vec![1, 2]);
    assert_eq!(json.board.fish.len(), 60);
    for c in 0..60u8 {
        assert_eq!(json.board.fish[c as usize], game.board.num_fish(c));
    }
    assert_eq!(json.board.claimed, vec![vec![cells[3]], vec![cells[0], cells[1]]]);
    assert_eq!(json.board.penguins, json.board.claimed);
    assert!(json.board.possible_moves.is_none());
    assert!(json.board.is_in_bounds());
    game.turn = 8;
    assert_eq!(GameStateJSON::from_state(&game).mode_type, GameModeType::Playing);
}

#[test]
fn lists_of_a_board() {
    let board = Board::new(&mut StdRng::seed_from_u64(2));
    let json = GameStateJSON::from_board(&board);
    assert_eq!(json.mode_type, GameModeType::Drafting);
    assert_eq!(json.scores, vec![0, 0]);
    assert_eq!(json.active_player, Some(0));
    assert_eq!(json.turn, 0);
    assert_eq!(json.board.to_board(), board);
}

#[test]
fn missing_lists_are_empty_and_bad_cells_are_found() {
    let json = BoardJSON {
        fish: vec![1, 2, 3, 1],
        penguins: vec![vec![2]],
        claimed: vec![],
        possible_moves: None,
    };
    assert!(json.is_in_bounds());
    let board = json.to_board();
    assert_eq!(board.fish[0].to_vec(), vec![0, 3]);
    assert_eq!(board.fish[1].to_vec(), vec![1]);
    assert_eq!(board.fish[2].to_vec(), vec![2]);
    assert_eq!(board.penguins[0].to_vec(), vec![2]);
    assert!(board.penguins[1].is_empty());
    assert!(board.claimed[0].is_empty() && board.claimed[1].is_empty());
    let bad = BoardJSON {
        fish: vec![1; 60],
        penguins: vec![vec![], vec![60]],
        claimed: vec![],
        possible_moves: None,
    };
    assert!(!bad.is_in_bounds());
    let long = BoardJSON { fish: vec![1; 61], penguins: vec![], claimed: vec![], possible_moves: None };
    assert!(!long.is_in_bounds());
}
