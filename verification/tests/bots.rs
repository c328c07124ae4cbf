use htmf::board::{Board, Player};
use htmf::game::{Action, GameState};
use htmf::minimaxbot::MinimaxBot;
use htmf::randombot::RandomBot;
use rand::rngs::StdRng;
use rand::SeedableRng;

fn new_game(seed: u64) -> GameState {
    GameState::new_two_player(&mut StdRng::seed_from_u64(seed))
}

/// Whether the player to act has a move to make.
fn can_act(game: &GameState) -> bool {
    match game.active_player() {
        None => false,
        Some(p) => {
            if !game.finished_drafting() {
                return true;
            }
            let mut board = game.board;
            board.reap();
            board.penguins[p.id] == game.board.penguins[p.id]
        }
    }
}

#[test]
fn randombot_two_players_no_illegal_moves() {
    let mut rng = StdRng::seed_from_u64(1);
    let mut game = new_game(0);
    let mut bots = vec![
        RandomBot::new(&game, Player { id: 0 }),
        RandomBot::new(&game, Player { id: 1 }),
    ];
    while let Some(player) = game.active_player() {
        if !can_act(&game) {
            break;
        }
        let bot = &mut bots[player.id];
        let action = bot.take_action(&mut rng);
        game.apply_action(&action).unwrap();
        for bot in &mut bots {
            bot.update(&game);
        }
    }
}

#[test]
fn minimaxbot_two_players_no_illegal_moves() {
    let mut rng = StdRng::seed_from_u64(2);
    let mut game = new_game(0);
    let mut bots = vec![
        MinimaxBot::new_with_ply(&game, Player { id: 0 }, 0),
        MinimaxBot::new_with_ply(&game, Player { id: 1 }, 0),
    ];
    while let Some(player) = game.active_player() {
        if !can_act(&game) {
            break;
        }
        let bot = &mut bots[player.id];
        let action = bot.take_action(&mut rng);
        game.apply_action(&action).unwrap();
        for bot in &mut bots {
            bot.update(&game);
        }
    }
}

#[test]
fn negamax_is_the_lead_over_the_best_other() {
    assert_eq!(MinimaxBot::negamax_score(&[10, 4], &Player { id: 0 }), 6);
    assert_eq!(MinimaxBot::negamax_score(&[10, 4], &Player { id: 1 }), -6);
    assert_eq!(MinimaxBot::negamax_score(&[3, 9, 5], &Player { id: 2 }), -4);
    assert_eq!(MinimaxBot::negamax_score(&[7], &Player { id: 0 }), 7);
}

/// Player 0 on cell 0 can go east over cells with one fish, or down to
/// cell 8 with three fish.
fn small_position() -> GameState {
    let mut fish = vec![1usize; 60];
    fish[8] = 3;
    let mut board = Board::with_fish(&fish);
    board.claim_cell(Player { id: 0 }, 0).unwrap();
    board.claim_cell(Player { id: 1 }, 59).unwrap();
    GameState { nplayers: 2, turn: 8, board }
}

#[test]
fn minimax_takes_the_richest_cell() {
    let game = small_position();
    let moves = MinimaxBot::all_moves(&game, Player { id: 0 });
    assert_eq!(moves.len(), 14);
    assert_eq!(moves[0], (0, 1));
    assert!(moves.windows(2).all(|w| w[0] < w[1]));
    // without looking ahead every move scores as the board stands, and the
    // last move is taken
    let (scores, mv) = MinimaxBot::best_move(&game, &Player { id: 0 }, 0);
    assert_eq!(scores, vec![1, 1]);
    assert_eq!(mv, *moves.last().unwrap());
    assert_eq!(MinimaxBot::score_move(&game, &(0, 8), 0), vec![1, 1]);
    // one move ahead
    assert_eq!(MinimaxBot::score_move(&game, &(0, 8), 1), vec![4, 1]);
    assert_eq!(MinimaxBot::score_move(&game, &(0, 1), 1), vec![2, 1]);
    let (scores, mv) = MinimaxBot::best_move(&game, &Player { id: 0 }, 1);
    assert_eq!(mv, (0, 8));
    assert_eq!(scores, vec![4, 1]);
    let mut bot = MinimaxBot::new_with_ply(&game, Player { id: 0 }, 1);
    let mut rng = StdRng::seed_from_u64(3);
    assert!(matches!(bot.take_action(&mut rng), Action::Move(0, 8)));
    assert_eq!(MinimaxBot::new(&game, Player { id: 0 }).ply, 2);
}

#[test]
fn random_bot_makes_legal_moves_only() {
    let mut rng = StdRng::seed_from_u64(4);
    let game = small_position();
    let mut bot = RandomBot::new(&game, Player { id: 0 });
    let mut seen = std::collections::HashSet::new();
    for _ in 0..300 {
        match bot.take_action(&mut rng) {
            Action::Move(src, dst) => {
                assert_eq!(src, 0);
                assert!(game.board.moves(0).contains(dst));
                seen.insert(dst);
            }
            _ => panic!("not a move"),
        }
    }
    assert_eq!(seen.len(), 14);
    let draft = new_game(5);
    let mut bot = RandomBot::new(&draft, Player { id: 0 });
    for _ in 0..50 {
        match bot.take_action(&mut rng) {
            Action::Place(c) => assert_eq!(draft.board.num_fish(c), 1),
            _ => panic!("not a placement"),
        }
    }
}
