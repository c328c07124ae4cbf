use htmf::board::{Board, Player};
use htmf::game::{Action, GameState};
use htmf::mctsbot::{
    get_reward, move_to_direction_distance, move_to_policy_index, reward_for, Game, Move,
    REWARD_TIE, REWARD_WIN,
};
use htmf::tree::{rollout, MCTSBot, TreeNode};
use rand::rngs::StdRng;
use rand::seq::IndexedRandom;
use rand::SeedableRng;

/// The UCB1 score as an integer that orders as the score does.
fn ucb1(parent_visits: u32, rewards: u64, visits: u32, _prior: u32) -> u64 {
    if visits == 0 {
        return u64::MAX;
    }
    let n = visits as f64;
    let explore = (2.0 * (parent_visits as f64).ln() / n).sqrt();
    let exploit = (rewards as f64 / REWARD_WIN as f64 + 1.0) / (n + 2.0);
    let score = explore + exploit;
    if score.is_nan() || score < 0.0 {
        0
    } else {
        score.to_bits()
    }
}

fn new_game(seed: u64) -> GameState {
    GameState::new_two_player(&mut StdRng::seed_from_u64(seed))
}

#[test]
fn test_run_full_game() {
    let mut rng = StdRng::seed_from_u64(1);
    let mut game = new_game(0);
    let mut bots = (0..=1)
        .map(|i| MCTSBot::new(game.clone(), Player { id: i }))
        .collect::<Vec<MCTSBot>>();

    while let Some(p) = game.active_player() {
        if (Game { state: game }).available_moves().is_empty() {
            break;
        }
        bots[p.id].playout(&ucb1, &mut rng);
        let action = bots[p.id].take_action(&ucb1, &mut rng);
        game.apply_action(&action).unwrap();
        for bot in &mut bots {
            bot.update(&game);
        }
    }
}

#[test]
fn test_tree_size_optimization() {
    let mut rng = StdRng::seed_from_u64(2);
    let game = new_game(0);
    let mut bot = MCTSBot::new(game.clone(), Player { id: 0 });

    assert_eq!(bot.tree_size(), 1);

    bot.playout(&ucb1, &mut rng);
    // Playout expands at least one node (unless game over, which it isn't)
    assert!(bot.tree_size() > 1);

    // Verify tree size matches manual calculation
    assert_eq!(bot.tree_size(), bot.calculate_tree_size());

    // Run more playouts
    for _ in 0..10 {
        bot.playout(&ucb1, &mut rng);
    }
    assert_eq!(bot.tree_size(), bot.calculate_tree_size());

    // Update bot (make a move)
    let action = bot.take_action(&ucb1, &mut rng);
    let mut new_game = game.clone();
    new_game.apply_action(&action).unwrap();
    bot.update(&new_game);

    // After update, tree size should be recalculated and correct
    assert_eq!(bot.tree_size(), bot.calculate_tree_size());
}

#[test]
fn terminal_reward_of_three_scores() {
    let scores = [5usize, 5, 3];
    assert_eq!(reward_for(&scores, 0), REWARD_TIE);
    assert_eq!(reward_for(&scores, 1), REWARD_TIE);
    assert_eq!(reward_for(&scores, 2), 0);
    assert_eq!(REWARD_TIE * 2, REWARD_WIN);
    assert_eq!(reward_for(&scores, 0) as f64 / REWARD_WIN as f64, 0.5);
    assert_eq!(reward_for(&[7, 5, 3], 0), REWARD_WIN);
    assert_eq!(reward_for(&[7, 5, 3], 1), 0);
    assert_eq!(reward_for(&[4], 0), REWARD_WIN);
}

#[test]
fn reward_of_a_finished_game() {
    let mut fish = vec![1usize; 60];
    fish[0] = 3;
    let mut g = GameState { nplayers: 2, turn: 20, board: Board::with_fish(&fish) };
    g.board.claimed[0] = g.board.claimed[0].insert(0);
    g.board.claimed[1] = g.board.claimed[1].insert(1).insert(2);
    assert_eq!(get_reward(&g, 0), REWARD_WIN);
    assert_eq!(get_reward(&g, 1), 0);
    g.board.claimed[1] = g.board.claimed[1].insert(3);
    assert_eq!(get_reward(&g, 0), REWARD_TIE);
    assert_eq!(get_reward(&g, 1), REWARD_TIE);
}

#[test]
fn moves_and_actions_convert() {
    assert_eq!(Move::from_action(&Action::Move(3, 4)), Some(Move::Move((3, 4))));
    assert_eq!(Move::from_action(&Action::Place(9)), Some(Move::Place(9)));
    assert_eq!(Move::from_action(&Action::Selection(9)), None);
    assert!(matches!(Move::Move((3, 4)).into_action(), Action::Move(3, 4)));
    assert!(matches!(Move::Place(7).into_action(), Action::Place(7)));
    assert!(Move::Place(7).same(&Move::Place(7)));
    assert!(!Move::Place(7).same(&Move::Move((7, 7))));
    assert!(!Move::Move((1, 2)).same(&Move::Move((1, 3))));
}

#[test]
fn drafting_moves_are_the_free_one_fish_cells() {
    let mut g = new_game(5);
    let first = g.board.fish[0].iter().next().unwrap();
    g.place_penguin(first).unwrap();
    let moves = Game { state: g }.available_moves();
    assert_eq!(moves.len(), 29);
    let mut last = None;
    for m in moves.iter() {
        match m {
            Move::Place(c) => {
                assert!(g.board.fish[0].contains(*c));
                assert!(*c != first);
                assert!(last < Some(*c));
                last = Some(*c);
            }
            _ => panic!("a move while drafting"),
        }
    }
}

fn drafted(seed: u64) -> Game {
    let mut game = Game { state: new_game(seed) };
    for _ in 0..8 {
        let m = game.available_moves()[0];
        game.make_move(m);
    }
    game
}

#[test]
fn playing_moves_are_the_moves_of_the_active_penguins() {
    let game = drafted(6);
    assert!(game.state.finished_drafting());
    let p = game.current_player();
    let moves = game.available_moves();
    let mut expected = vec![];
    let mut sources = game.state.board.penguins[p.id].iter();
    while let Some(src) = sources.next() {
        let mut targets = game.state.board.moves(src).iter();
        while let Some(dst) = targets.next() {
            expected.push(Move::Move((src, dst)));
        }
    }
    assert!(!expected.is_empty());
    assert_eq!(moves, expected);
    // making a move claims the target and passes the turn
    let mut next = game;
    next.make_move(moves[0]);
    if let Move::Move((src, dst)) = moves[0] {
        assert!(next.state.board.claimed[p.id].contains(dst));
        assert!(!next.state.board.penguins[p.id].contains(src));
    }
    assert_eq!(next.state.turn, game.state.turn + 1);
    assert!(!game.same(&next));
    assert!(game.same(&game.clone()));
}

#[test]
fn no_moves_once_the_game_is_over() {
    let mut game = drafted(7);
    let mut rng = StdRng::seed_from_u64(3);
    let rewards = rollout(&mut game, &mut rng);
    assert!(game.available_moves().is_empty());
    assert_eq!(rewards.0, get_reward(&game.state, 0));
    assert_eq!(rewards.1, get_reward(&game.state, 1));
    assert!(rewards.0 + rewards.1 == REWARD_WIN);
}

#[test]
fn direction_and_distance_of_moves() {
    // from cell 23 (row 3, col 1): its six neighbours in order
    let around = [24u8, 16, 15, 22, 30, 31];
    for (dir, n) in around.iter().enumerate() {
        assert_eq!(move_to_direction_distance(23, *n), Some((dir, 1)));
    }
    assert_eq!(move_to_direction_distance(0, 6), Some((0, 6)));
    assert_eq!(move_to_direction_distance(6, 0), Some((3, 6)));
    assert_eq!(move_to_direction_distance(0, 56), Some((5, 7)));
    assert_eq!(move_to_direction_distance(56, 0), Some((2, 7)));
    assert_eq!(move_to_direction_distance(0, 0), None);
    assert_eq!(move_to_direction_distance(0, 9), None);
}

#[test]
fn policy_index_of_moves() {
    let penguins = [5u8, 23, 40, 59];
    assert_eq!(move_to_policy_index(&Move::Place(17), true, &penguins), 17);
    // second penguin, direction 4, distance 1
    assert_eq!(
        move_to_policy_index(&Move::Move((23, 30)), false, &penguins),
        1 * 42 + 4 * 7
    );
    // third penguin, direction 0, distance 3
    assert_eq!(
        move_to_policy_index(&Move::Move((40, 43)), false, &penguins),
        2 * 42 + 0 * 7 + 2
    );
    // a penguin that is not listed counts as the first
    assert_eq!(
        move_to_policy_index(&Move::Move((24, 25)), false, &penguins),
        0
    );
    // no straight move
    assert_eq!(move_to_policy_index(&Move::Move((23, 0)), false, &penguins), 0);
}

/// A position with a single legal move: one penguin of player 0 with one
/// free neighbour, and a penguin of player 1 elsewhere.
fn single_move_position() -> Game {
    let fish = vec![1usize; 60];
    let mut board = Board::with_fish(&fish);
    board.claim_cell(Player { id: 0 }, 0).unwrap();
    board.claim_cell(Player { id: 1 }, 59).unwrap();
    board.claimed[1] = board.claimed[1].insert(7).insert(8).insert(2);
    Game { state: GameState { nplayers: 2, turn: 8, board } }
}

#[test]
fn playouts_count_the_visits_of_a_single_move() {
    let game = single_move_position();
    assert_eq!(game.available_moves(), vec![Move::Move((0, 1))]);
    let mut rng = StdRng::seed_from_u64(4);
    let mut bot = MCTSBot::new(game.state, Player { id: 0 });
    let n = 25u32;
    for done in 0..n {
        assert_eq!(bot.root.rewards_visits.get().1, done);
        bot.playout(&ucb1, &mut rng);
    }
    // the move was chosen in every playout
    assert_eq!(bot.root.rewards_visits.get().1, n);
    let children = bot.root.children.as_ref().unwrap();
    assert_eq!(children.len(), 1);
    assert_eq!(children[0].0, Move::Move((0, 1)));
    // the first playout made the child and played on from it at random;
    // every later one chose a move from the child
    assert_eq!(children[0].1.rewards_visits.get().1, n - 1);
    assert!(children[0].1.rewards_visits.get().0 <= n as u64 * REWARD_WIN);
    assert!(matches!(bot.take_action(&ucb1, &mut rng), Action::Move(0, 1)));
}

#[test]
fn update_keeps_the_subtree_of_the_move_made() {
    let mut rng = StdRng::seed_from_u64(5);
    let game = new_game(8);
    let mut bot = MCTSBot::new(game, Player { id: 0 });
    for _ in 0..200 {
        bot.playout(&ucb1, &mut rng);
    }
    let action = bot.take_action(&ucb1, &mut rng);
    let m = Move::from_action(&action).unwrap();
    let (visits, rewards, size) = {
        let children = bot.root.children.as_ref().unwrap();
        let child = &children.iter().find(|(cm, _)| *cm == m).unwrap().1;
        (child.rewards_visits.get().1, child.rewards_visits.get().0, child.count_nodes())
    };
    assert!(visits > 0);
    let mut next = Game { state: game };
    next.make_move(m);
    bot.update(&next.state);
    assert_eq!(bot.root.rewards_visits.get(), (rewards, visits));
    assert_eq!(bot.tree_size(), size);
    assert_eq!(bot.calculate_tree_size(), size);
    assert_eq!(bot.root_game.state, next.state);
}

#[test]
fn update_to_an_unknown_state_starts_afresh() {
    let mut rng = StdRng::seed_from_u64(6);
    let mut bot = MCTSBot::new(new_game(9), Player { id: 1 });
    for _ in 0..50 {
        bot.playout(&ucb1, &mut rng);
    }
    assert!(bot.tree_size() > 1);
    let elsewhere = new_game(10);
    bot.update(&elsewhere);
    assert_eq!(bot.tree_size(), 1);
    assert!(bot.root.is_leaf());
    assert_eq!(bot.root.rewards_visits.get(), (0, 0));
    assert_eq!(bot.root_game.state, elsewhere);
}

#[test]
fn take_action_picks_the_most_visited_child() {
    let mut rng = StdRng::seed_from_u64(7);
    let mut bot = MCTSBot::new(new_game(11), Player { id: 0 });
    for _ in 0..300 {
        bot.playout(&ucb1, &mut rng);
    }
    let action = bot.take_action(&ucb1, &mut rng);
    let children = bot.root.children.as_ref().unwrap();
    let most = children.iter().map(|(_, c)| c.rewards_visits.get().1).max().unwrap();
    let last = children
        .iter()
        .rev()
        .find(|(_, c)| c.rewards_visits.get().1 == most)
        .unwrap()
        .0;
    assert_eq!(Move::from_action(&action), Some(last));
}

#[test]
fn choose_child_follows_the_scores() {
    let game = Game { state: new_game(12) };
    let mut rng = StdRng::seed_from_u64(8);
    let mut node = TreeNode::new();
    let mut count = 1usize;
    // the score is the prior plus what the child has: all equal at first
    let by_rewards = |_n: u32, rewards: u64, _v: u32, _p: u32| rewards;
    let (_, first) = node.choose_child(&game, &by_rewards, &mut rng, &mut count).unwrap();
    assert_eq!(count, 31);
    assert_eq!(node.rewards_visits.get().1, 1);
    assert!(first < 30);
    // after a reward, that child is the only best one
    node.children.as_mut().unwrap()[17].1.rewards_visits.add_reward(5);
    for _ in 0..20 {
        let (m, idx) = node.choose_child(&game, &by_rewards, &mut rng, &mut count).unwrap();
        assert_eq!(idx, 17);
        assert_eq!(m, node.children.as_ref().unwrap()[17].0);
    }
    assert_eq!(count, 31);
    assert_eq!(node.rewards_visits.get().1, 21);
    // ties are broken at random: every child is chosen some time
    let flat = |_n: u32, _r: u64, _v: u32, _p: u32| 1u64;
    let mut seen = vec![false; 30];
    for _ in 0..2000 {
        let (_, idx) = node.choose_child(&game, &flat, &mut rng, &mut count).unwrap();
        seen[idx] = true;
    }
    assert!(seen.iter().all(|s| *s));
}

#[test]
fn the_bot_beats_random_moves() {
    let mut rng = StdRng::seed_from_u64(9);
    let mut wins = 0;
    let games = 12;
    for round in 0..games {
        let me = Player { id: round % 2 };
        let mut game = Game { state: new_game(100 + round as u64) };
        let mut bot = MCTSBot::new(game.state, me);
        loop {
            let moves = game.available_moves();
            if moves.is_empty() {
                break;
            }
            let p = game.current_player();
            let m = if p == me {
                for _ in 0..150 {
                    bot.playout(&ucb1, &mut rng);
                }
                Move::from_action(&bot.take_action(&ucb1, &mut rng)).unwrap()
            } else {
                *moves.choose(&mut rng).unwrap()
            };
            game.make_move(m);
            bot.update(&game.state);
        }
        let scores = game.state.get_scores();
        if scores[me.id] > scores[1 - me.id] {
            wins += 1;
        }
    }
    assert!(wins * 2 > games, "won {} of {}", wins, games);
}

#[test]
fn children_are_found_by_their_moves() {
    let game = Game { state: new_game(13) };
    let mut node = TreeNode::new();
    let mut count = 1usize;
    node.expand(&game, &mut count);
    assert_eq!(count, 31);
    assert_eq!(node.count_nodes(), 31);
    let m = node.children.as_ref().unwrap()[4].0;
    node.get_child_mut(m).rewards_visits.add_reward(7);
    node.get_child_mut(m).rewards_visits.get_and_increment_visits();
    assert_eq!(node.get_child(m).rewards_visits.get(), (7, 1));
    assert_eq!(node.children.as_ref().unwrap()[4].1.rewards_visits.get(), (7, 1));
    assert_eq!(node.children.as_ref().unwrap()[3].1.rewards_visits.get(), (0, 0));
    // the rewards stop at the top of the counter
    node.get_child_mut(m).rewards_visits.add_reward(u64::MAX);
    assert_eq!(node.get_child(m).rewards_visits.get().0, u64::MAX);
}

#[test]
fn a_playout_rewards_the_child_it_passed() {
    let mut rng = StdRng::seed_from_u64(14);
    let game = single_move_position();
    let mut bot = MCTSBot::new(game.state, Player { id: 0 });
    bot.playout(&ucb1, &mut rng);
    let first = bot.root.children.as_ref().unwrap()[0].1.rewards_visits.get();
    assert_eq!(first.1, 0);
    assert!(first.0 == 0 || first.0 == REWARD_TIE || first.0 == REWARD_WIN);
    bot.playout(&ucb1, &mut rng);
    let second = bot.root.children.as_ref().unwrap()[0].1.rewards_visits.get();
    assert_eq!(second.1, 1);
    let gained = second.0 - first.0;
    assert!(gained == 0 || gained == REWARD_TIE || gained == REWARD_WIN);
}

#[test]
fn update_from_a_leaf_root_keeps_a_fresh_child_or_starts_afresh() {
    let game = new_game(15);
    let mut bot = MCTSBot::new(game, Player { id: 0 });
    let mut next = Game { state: game };
    let m = next.available_moves()[2];
    next.make_move(m);
    bot.update(&next.state);
    assert_eq!(bot.tree_size(), 1);
    assert!(bot.root.is_leaf());
    assert_eq!(bot.root.prior as u64, REWARD_WIN);
    assert_eq!(bot.root_game.state, next.state);
}

#[test]
fn a_rollout_plays_legal_moves_to_the_end() {
    let mut rng = StdRng::seed_from_u64(16);
    let start = drafted(17);
    let mut game = start;
    let rewards = rollout(&mut game, &mut rng);
    assert!(game.available_moves().is_empty());
    // the claims of the start are still there, and the turns have passed
    assert!(start.state.board.claimed[0].exclude(game.state.board.claimed[0]).is_empty());
    assert!(start.state.board.claimed[1].exclude(game.state.board.claimed[1]).is_empty());
    let claimed_since = game.state.board.claimed_cells().len()
        - start.state.board.claimed_cells().len();
    assert_eq!(game.state.turn, start.state.turn + claimed_since);
    assert!(claimed_since > 0);
    assert_eq!(game.state.board.fish, start.state.board.fish);
    assert_eq!(rewards, (get_reward(&game.state, 0), get_reward(&game.state, 1)));
}
