use htmf::board::{Board, Player};
use htmf::game::{Action, GameState};
use htmf::mctsbot::{move_to_policy_index, Game, Move, REWARD_WIN};
use htmf::neuralnet::{extract_features, NUM_FEATURES};
use htmf::tree::{MCTSBot, TreeNode};
use rand::rngs::StdRng;
use rand::SeedableRng;

/// The PUCT score as an integer that orders as the score does.
fn puct(parent_visits: u32, rewards: u64, visits: u32, prior: u32) -> u64 {
    let q = if visits == 0 {
        0.5
    } else {
        rewards as f64 / REWARD_WIN as f64 / visits as f64
    };
    let p = prior as f64 / REWARD_WIN as f64;
    let score = q + 1.0 * p * (parent_visits as f64).sqrt() / (1.0 + visits as f64);
    if score.is_nan() || score < 0.0 {
        0
    } else {
        score.to_bits()
    }
}

/// A predictor that likes low places of the policy, and thinks the game
/// even.
fn oracle(game: GameState, _player: usize) -> Option<(Vec<u32>, u64)> {
    let n = if game.finished_drafting() { 168 } else { 60 };
    Some(((0..n as u32).map(|i| 1000 - i).collect(), REWARD_WIN / 2))
}

fn failing_oracle(_game: GameState, _player: usize) -> Option<(Vec<u32>, u64)> {
    None
}

fn new_game(seed: u64) -> GameState {
    GameState::new_two_player(&mut StdRng::seed_from_u64(seed))
}

#[test]
fn priors_are_shares_of_the_policy() {
    let game = Game { state: new_game(1) };
    let moves = game.available_moves();
    assert_eq!(moves.len(), 30);
    let mut policy = vec![0u32; 60];
    let first = match moves[0] {
        Move::Place(c) => c,
        _ => panic!("a move while drafting"),
    };
    let second = match moves[1] {
        Move::Place(c) => c,
        _ => panic!("a move while drafting"),
    };
    policy[first as usize] = 3;
    policy[second as usize] = 1;
    let mut node = TreeNode::new();
    let mut count = 1usize;
    node.expand_with_priors(&game, &policy, 0, &mut count);
    assert_eq!(count, 31);
    let children = node.children.as_ref().unwrap();
    assert_eq!(children.len(), 30);
    assert_eq!(children[0].1.prior as u64, REWARD_WIN * 3 / 4);
    assert_eq!(children[1].1.prior as u64, REWARD_WIN / 4);
    for (i, (m, child)) in children.iter().enumerate() {
        assert_eq!(*m, moves[i]);
        assert!(child.is_leaf());
        if i >= 2 {
            assert_eq!(child.prior, 0);
        }
    }
    // a second call changes nothing
    node.expand_with_priors(&game, &vec![7u32; 60], 0, &mut count);
    assert_eq!(count, 31);
    assert_eq!(node.children.as_ref().unwrap()[0].1.prior as u64, REWARD_WIN * 3 / 4);
}

#[test]
fn a_short_or_empty_policy_gives_even_priors() {
    let game = Game { state: new_game(2) };
    for policy in [vec![5u32; 3], vec![0u32; 60]] {
        let mut node = TreeNode::new();
        let mut count = 1usize;
        node.expand_with_priors(&game, &policy, 0, &mut count);
        let children = node.children.as_ref().unwrap();
        assert_eq!(children.len(), 30);
        for (_, child) in children.iter() {
            assert_eq!(child.prior as u64, REWARD_WIN);
        }
    }
    assert_eq!(TreeNode::with_prior(17).prior, 17);
    assert_eq!(TreeNode::new().prior as u64, REWARD_WIN);
}

#[test]
fn guided_playouts_grow_the_tree() {
    let mut rng = StdRng::seed_from_u64(3);
    let game = new_game(3);
    let mut bot = MCTSBot::with_neural_net(game, Player { id: 0 }, &oracle);
    assert_eq!(bot.tree_size(), 31);
    assert_eq!(bot.root.rewards_visits.get(), (0, 0));
    for n in 1..=40u32 {
        bot.playout_nn(&oracle, &puct, &mut rng);
        assert_eq!(bot.root.rewards_visits.get().1, n);
        assert_eq!(bot.tree_size(), bot.calculate_tree_size());
    }
    assert!(bot.tree_size() > 31);
    // each playout gave the value of an even game to one child of the root
    let total: u64 = bot
        .root
        .children
        .as_ref()
        .unwrap()
        .iter()
        .map(|(_, c)| c.rewards_visits.get().0)
        .sum();
    assert_eq!(total, 40 * (REWARD_WIN / 2));
    let action = bot.take_action(&puct, &mut rng);
    assert!(matches!(action, Action::Place(_)));
}

#[test]
fn a_failing_predictor_falls_back_to_random_playouts() {
    let mut rng = StdRng::seed_from_u64(4);
    let game = new_game(4);
    let mut bot = MCTSBot::with_neural_net(game, Player { id: 0 }, &failing_oracle);
    assert_eq!(bot.tree_size(), 1);
    bot.playout_nn(&failing_oracle, &puct, &mut rng);
    assert_eq!(bot.tree_size(), 31);
    for _ in 0..20 {
        bot.playout_nn(&failing_oracle, &puct, &mut rng);
    }
    assert_eq!(bot.tree_size(), bot.calculate_tree_size());
    assert_eq!(bot.root.rewards_visits.get().1, 20);
}

#[test]
fn update_with_a_predictor_seeds_a_new_root() {
    let mut rng = StdRng::seed_from_u64(5);
    let game = new_game(5);
    let mut bot = MCTSBot::with_neural_net(game, Player { id: 0 }, &oracle);
    for _ in 0..30 {
        bot.playout_nn(&oracle, &puct, &mut rng);
    }
    // a known move: the subtree is kept as it is
    let m = bot.root.children.as_ref().unwrap()[0].0;
    let kept = bot.root.get_child(m).rewards_visits.get();
    let mut next = Game { state: game };
    next.make_move(m);
    bot.update_nn(&next.state, &oracle);
    assert_eq!(bot.root.rewards_visits.get(), kept);
    assert_eq!(bot.tree_size(), bot.calculate_tree_size());
    // an unknown state: a new root with the predictor's priors
    let elsewhere = new_game(6);
    bot.update_nn(&elsewhere, &oracle);
    assert_eq!(bot.root.rewards_visits.get(), (0, 0));
    assert_eq!(bot.tree_size(), 31);
    let priors: Vec<u32> =
        bot.root.children.as_ref().unwrap().iter().map(|(_, c)| c.prior).collect();
    assert!(priors.windows(2).all(|w| w[0] >= w[1]));
    assert!(priors[0] > priors[29]);
}

#[test]
fn sampling_follows_the_weights() {
    let mut rng = StdRng::seed_from_u64(6);
    let ucb = |n: u32, r: u64, v: u32, _p: u32| {
        if v == 0 {
            u64::MAX
        } else {
            (((2.0 * (n as f64).ln() / v as f64).sqrt()
                + (r as f64 / REWARD_WIN as f64 + 1.0) / (v as f64 + 2.0))
                * 1e9) as u64
        }
    };
    let mut bot = MCTSBot::new(new_game(7), Player { id: 0 });
    for _ in 0..100 {
        bot.playout(&ucb, &mut rng);
    }
    // all the weight on children with an even number of visits
    let picky = |v: u32| if v % 2 == 0 { 1 + v as u64 } else { 0 };
    for _ in 0..50 {
        let action = bot.take_action_with_temperature(&picky, &ucb, &mut rng);
        let m = Move::from_action(&action).unwrap();
        let visits = bot.root.get_child(m).rewards_visits.get().1;
        assert!(visits % 2 == 0);
    }
    // no weight at all: any child may come out
    let none = |_v: u32| 0u64;
    let mut seen = std::collections::HashSet::new();
    for _ in 0..300 {
        let action = bot.take_action_with_temperature(&none, &ucb, &mut rng);
        seen.insert(Move::from_action(&action).unwrap());
    }
    assert!(seen.len() > 20);
}

#[test]
fn features_mark_the_planes() {
    let mut g = new_game(8);
    let c = g.board.fish[0].iter().next().unwrap();
    g.place_penguin(c).unwrap();
    let f = extract_features(&g, 0);
    assert_eq!(f.len(), NUM_FEATURES);
    assert_eq!(f.len(), 8 * 60);
    for cell in 0..60u8 {
        let i = cell as usize;
        assert_eq!(f[i], g.board.fish[0].contains(cell) as u8);
        assert_eq!(f[60 + i], g.board.fish[1].contains(cell) as u8);
        assert_eq!(f[120 + i], g.board.fish[2].contains(cell) as u8);
        assert_eq!(f[180 + i], (cell == c) as u8);
        assert_eq!(f[240 + i], 0);
        assert_eq!(f[300 + i], (cell == c) as u8);
        assert_eq!(f[360 + i], 0);
        assert_eq!(f[420 + i], 1);
    }
    // seen from the other seat, the penguin is the opponent's
    let f = extract_features(&g, 1);
    assert_eq!(f[180 + c as usize], 0);
    assert_eq!(f[240 + c as usize], 1);
    assert_eq!(f[360 + c as usize], 1);
    // after the draft the last plane is empty
    g.turn = 8;
    let f = extract_features(&g, 0);
    assert!(f[420..].iter().all(|x| *x == 0));
}

#[test]
fn policy_places_use_the_penguins_in_order() {
    let fish = vec![1usize; 60];
    let mut board = Board::with_fish(&fish);
    for c in [40u8, 5, 23] {
        board.claim_cell(Player { id: 0 }, c).unwrap();
    }
    board.claim_cell(Player { id: 1 }, 59).unwrap();
    let game = Game { state: GameState { nplayers: 2, turn: 8, board } };
    // a policy with weight on one place only: the move of the second
    // penguin (cell 23) one step east
    let mut policy = vec![0u32; 168];
    let place = move_to_policy_index(&Move::Move((23, 24)), false, &[5, 23, 40]);
    assert_eq!(place, 42);
    policy[place] = 9;
    let mut node = TreeNode::new();
    let mut count = 1usize;
    node.expand_with_priors(&game, &policy, 0, &mut count);
    for (m, child) in node.children.as_ref().unwrap().iter() {
        if *m == Move::Move((23, 24)) {
            assert_eq!(child.prior as u64, REWARD_WIN);
        } else {
            assert_eq!(child.prior, 0);
        }
    }
}

#[test]
fn a_guided_playout_hands_the_value_up_the_path() {
    let mut rng = StdRng::seed_from_u64(9);
    // the predictor gives the player to act three quarters of a win
    let sure = |game: GameState, _p: usize| -> Option<(Vec<u32>, u64)> {
        let n = if game.finished_drafting() { 168 } else { 60 };
        Some((vec![1u32; n], REWARD_WIN / 4 * 3))
    };
    let game = new_game(9);
    // seat 0 acts at the root, seat 1 after the first move
    let mut bot = MCTSBot::with_neural_net(game, Player { id: 0 }, &sure);
    bot.playout_nn(&sure, &puct, &mut rng);
    // the first playout reaches a child that is a leaf: the value is that of
    // seat 1, so the child, to which seat 0 moved, gets the rest of a win
    let children = bot.root.children.as_ref().unwrap();
    let rewarded: Vec<&TreeNode> =
        children.iter().map(|(_, c)| c).filter(|c| c.rewards_visits.get().0 > 0).collect();
    assert_eq!(rewarded.len(), 1);
    assert_eq!(rewarded[0].rewards_visits.get(), (REWARD_WIN / 4, 0));
    assert!(!rewarded[0].is_leaf());
    assert_eq!(bot.root.rewards_visits.get(), (0, 1));
    assert_eq!(bot.tree_size(), bot.calculate_tree_size());
}

#[test]
fn a_bot_for_a_finished_game_is_one_node() {
    let mut over = new_game(10);
    over.turn = 8;
    let bot = MCTSBot::with_neural_net(over, Player { id: 0 }, &oracle);
    assert!(over.game_over());
    assert_eq!(bot.tree_size(), 1);
    assert!(bot.root.is_leaf());
}
