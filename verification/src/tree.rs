//! The search tree: a node for each position that the search has reached,
//! with its counts, and below it a node for each move from that position.

use vstd::prelude::*;
use rand::rngs::StdRng;
use crate::chance::{choose_item, one_in, random_below};
use crate::board::Player;
use crate::game::{Action, GameState};
use crate::mctsbot::{get_reward, move_to_policy_index, spec_policy_index, spec_reward};
use crate::mctsbot::{lemma_plays_on, lemma_reached_after, plays_to, reached};
use crate::mctsbot::{Game, Move, MAX_MOVES, REWARD_WIN};

verus! {

/// The counts of a node: how often the search has chosen a move from it,
/// and the rewards that playouts through it have brought.
#[derive(Clone, Copy, Debug, Default)]
pub struct RewardsVisits {
    pub rewards: u64,
    pub visits: u32,
}

impl RewardsVisits {
    /// The rewards and the visits.
    pub fn get(&self) -> (r: (u64, u32))
        ensures
            r == (self.rewards, self.visits),
    {
        (self.rewards, self.visits)
    }

    /// The counts as they were; the visits are then counted up by one.
    pub fn get_and_increment_visits(&mut self) -> (r: (u64, u32))
        requires
            old(self).visits < u32::MAX,
        ensures
            r == (old(self).rewards, old(self).visits),
            final(self).rewards == old(self).rewards,
            final(self).visits == old(self).visits + 1,
    {
        let result = (self.rewards, self.visits);
        self.visits += 1;
        result
    }

    /// Adds `reward` to the rewards. The sum stops at the largest number
    /// that the counter holds.
    pub fn add_reward(&mut self, reward: u64)
        ensures
            final(self).visits == old(self).visits,
            final(self).rewards == if old(self).rewards + reward > u64::MAX {
                u64::MAX
            } else {
                (old(self).rewards + reward) as u64
            },
    {
        self.rewards = self.rewards.saturating_add(reward);
    }
}

/// A node of the search tree. A node without a list of children is a leaf;
/// the list is made when the search first chooses a move from the node.
pub struct TreeNode {
    pub rewards_visits: RewardsVisits,
    pub children: Option<Vec<(Move, TreeNode)>>,
    /// How much the policy favours the move that leads here, in units of
    /// which `REWARD_WIN` make certainty.
    pub prior: u32,
}

/// The number of nodes of the trees below the given edges.
pub open spec fn forest_size(children: Seq<(Move, TreeNode)>) -> nat
    decreases children,
{
    if children.len() == 0 {
        0
    } else {
        forest_size(children.drop_last()) + children.last().1.size()
    }
}

/// The moves of the given edges, in order.
pub open spec fn edge_moves(children: Seq<(Move, TreeNode)>) -> Seq<Move> {
    Seq::new(children.len(), |i: int| children[i].0)
}

impl TreeNode {
    /// No child has been visited more often than its parent, anywhere in
    /// the tree.
    pub open spec fn ordered(self) -> bool
        decreases self,
    {
        match self.children {
            Some(children) => forall|i: int|
                0 <= i < children@.len() ==> (#[trigger] children@[i]).1.rewards_visits.visits
                    <= self.rewards_visits.visits && children@[i].1.ordered(),
            None => true,
        }
    }

    /// The tree is a tree of searches from `game`: where a node has
    /// children, they are the moves that may be made in its position, in
    /// order, and each child is such a tree for the position after its
    /// move.
    pub open spec fn fits(self, game: Game) -> bool
        decreases self,
    {
        match self.children {
            Some(children) => children@.len() <= MAX_MOVES && game.lists_moves(
                edge_moves(children@),
            ) && forall|i: int|
                0 <= i < children@.len() ==> (#[trigger] children@[i]).1.fits(
                    game.after(children@[i].0),
                ),
            None => true,
        }
    }

    /// The edges to the children of the node; none for a leaf.
    pub open spec fn kids(self) -> Seq<(Move, TreeNode)> {
        match self.children {
            Some(children) => children@,
            None => Seq::empty(),
        }
    }

    /// The number of nodes of the tree below and including this node.
    pub open spec fn size(self) -> nat
        decreases self,
    {
        1 + match self.children {
            Some(children) => forest_size(children@),
            None => 0,
        }
    }

    /// A node with no counts and no children, and the weight of a move
    /// that no policy has weighed.
    pub open spec fn spec_new() -> TreeNode {
        TreeNode {
            rewards_visits: RewardsVisits { rewards: 0, visits: 0 },
            children: None,
            prior: REWARD_WIN as u32,
        }
    }

    /// A node with no counts and no children.
    #[verifier::when_used_as_spec(spec_new)]
    pub fn new() -> (node: TreeNode)
        ensures
            node == TreeNode::spec_new(),
            node.is_fresh(),
            node.prior == REWARD_WIN,
    {
        TreeNode {
            rewards_visits: RewardsVisits { rewards: 0, visits: 0 },
            children: None,
            prior: REWARD_WIN as u32,
        }
    }

    /// The node with `reward` added to its rewards, up to the most that the
    /// counter holds.
    pub open spec fn with_reward(self, reward: u64) -> TreeNode {
        TreeNode {
            rewards_visits: RewardsVisits {
                rewards: if self.rewards_visits.rewards + reward > u64::MAX {
                    u64::MAX
                } else {
                    (self.rewards_visits.rewards + reward) as u64
                },
                visits: self.rewards_visits.visits,
            },
            children: self.children,
            prior: self.prior,
        }
    }

    /// The node has children, one more visit than `before`, and the rewards
    /// and the weight of `before`.
    pub open spec fn counted_from(self, before: TreeNode) -> bool {
        &&& self.children is Some
        &&& self.rewards_visits.visits == before.rewards_visits.visits + 1
        &&& self.rewards_visits.rewards == before.rewards_visits.rewards
        &&& self.prior == before.prior
    }

    /// The node has no counts and no children.
    pub open spec fn is_fresh(self) -> bool {
        self.rewards_visits.rewards == 0 && self.rewards_visits.visits == 0 && self.children is None
    }

    /// Whether the node has no list of children yet.
    pub fn is_leaf(&self) -> (b: bool)
        ensures
            b == (self.children is None),
    {
        self.children.is_none()
    }

    /// The number of nodes of the tree below and including this node.
    pub fn count_nodes(&self) -> (n: usize)
        requires
            self.size() <= usize::MAX,
        ensures
            n == self.size(),
        decreases self,
    {
        let mut sum: usize = 1;
        match &self.children {
            Some(children) => {
                let mut i: usize = 0;
                while i < children.len()
                    invariant
                        i <= children.len(),
                        self.children == Some(*children),
                        self.size() <= usize::MAX,
                        sum == 1 + forest_size(children@.take(i as int)),
                    decreases children.len() - i,
                {
                    proof {
                        lemma_forest_take(children@, i as int);
                        lemma_forest_grows(children@, i as int + 1);
                    }
                    sum = sum + children[i].1.count_nodes();
                    i += 1;
                }
                proof {
                    assert(children@.take(children@.len() as int) =~= children@);
                }
            },
            None => {},
        }
        sum
    }
}

/// One more edge adds the nodes of its tree.
pub proof fn lemma_forest_take(children: Seq<(Move, TreeNode)>, i: int)
    requires
        0 <= i < children.len(),
    ensures
        forest_size(children.take(i + 1)) == forest_size(children.take(i)) + children[i].1.size(),
{
    assert(children.take(i + 1).drop_last() =~= children.take(i));
}

/// The first edges have no more nodes below them than all of them.
pub proof fn lemma_forest_grows(children: Seq<(Move, TreeNode)>, i: int)
    requires
        0 <= i <= children.len(),
    ensures
        forest_size(children.take(i)) <= forest_size(children),
    decreases children.len() - i,
{
    if i == children.len() {
        assert(children.take(i) =~= children);
    } else {
        lemma_forest_take(children, i);
        lemma_forest_grows(children, i + 1);
    }
}

/// The counts of child `i` and the visits of its parent, as the scoring
/// function gets them.
pub open spec fn score_args(children: Seq<(Move, TreeNode)>, total_visits: u32, i: int) -> (
    u32,
    u64,
    u32,
    u32,
) {
    (
        total_visits,
        children[i].1.rewards_visits.rewards,
        children[i].1.rewards_visits.visits,
        children[i].1.prior,
    )
}

/// Child `chosen` has the best score: the scoring function gave each child
/// a score from its counts, and none got more than this one.
pub open spec fn best_scored<F: Fn(u32, u64, u32, u32) -> u64>(
    score: F,
    children: Seq<(Move, TreeNode)>,
    total_visits: u32,
    chosen: int,
) -> bool {
    exists|keys: Seq<u64>|
        #![trigger keys.len()]
        keys.len() == children.len() && 0 <= chosen < children.len() && (forall|j: int|
            0 <= j < children.len() ==> call_ensures(
                score,
                score_args(children, total_visits, j),
                #[trigger] keys[j],
            )) && forall|j: int| 0 <= j < children.len() ==> #[trigger] keys[j] <= keys[chosen]
}

/// One more edge adds the nodes of its tree.
pub proof fn lemma_forest_push(children: Seq<(Move, TreeNode)>, edge: (Move, TreeNode))
    ensures
        forest_size(children.push(edge)) == forest_size(children) + edge.1.size(),
{
    assert(children.push(edge).drop_last() =~= children);
}

/// A tree in place of another changes the number of nodes by the
/// difference of the two.
pub proof fn lemma_forest_update(children: Seq<(Move, TreeNode)>, i: int, edge: (Move, TreeNode))
    requires
        0 <= i < children.len(),
    ensures
        forest_size(children.update(i, edge)) + children[i].1.size() == forest_size(children)
            + edge.1.size(),
    decreases children.len(),
{
    let changed = children.update(i, edge);
    if i == children.len() - 1 {
        assert(changed.drop_last() =~= children.drop_last());
    } else {
        lemma_forest_update(children.drop_last(), i, edge);
        assert(changed.drop_last() =~= children.drop_last().update(i, edge));
    }
}

/// No tree of a forest has more nodes than the forest.
pub proof fn lemma_forest_member(children: Seq<(Move, TreeNode)>, i: int)
    requires
        0 <= i < children.len(),
    ensures
        children[i].1.size() <= forest_size(children),
    decreases children.len(),
{
    if i < children.len() - 1 {
        lemma_forest_member(children.drop_last(), i);
    }
}

impl TreeNode {
    /// Gives a leaf its children: a node without counts for each move that
    /// may be made in the position, in order.
    pub fn expand(&mut self, game: &Game, node_count: &mut usize)
        requires
            old(self).children is None,
            game.wf(),
            *old(node_count) <= usize::MAX - MAX_MOVES,
        ensures
            final(self).rewards_visits == old(self).rewards_visits,
            final(self).prior == old(self).prior,
            final(self).children is Some,
            final(self).fits(*game),
            final(self).ordered(),
            forall|i: int|
                0 <= i < final(self).kids().len() ==> (
                #[trigger] final(self).kids()[i]).1 == TreeNode::spec_new(),
            final(self).size() == 1 + final(self).kids().len(),
            *final(node_count) == *old(node_count) + final(self).kids().len(),
    {
        let moves = game.available_moves();
        let mut children: Vec<(Move, TreeNode)> = Vec::new();
        let mut i: usize = 0;
        while i < moves.len()
            invariant
                i <= moves.len(),
                children@.len() == i,
                forall|j: int| 0 <= j < i ==> (#[trigger] children@[j]).0 == moves@[j],
                forall|j: int| 0 <= j < i ==> (#[trigger] children@[j]).1 == TreeNode::spec_new(),
                forest_size(children@) == i,
            decreases moves.len() - i,
        {
            let ghost before = children@;
            let child = TreeNode::new();
            proof {
                lemma_forest_push(before, (moves@[i as int], child));
            }
            children.push((moves[i], child));
            i += 1;
        }
        proof {
            assert(edge_moves(children@) =~= moves@);
            reveal_with_fuel(TreeNode::fits, 2);
            reveal_with_fuel(TreeNode::ordered, 2);
        }
        *node_count += children.len();
        self.children = Some(children);
    }

    /// Counts a visit of the node, gives it its children if it has none
    /// yet, and chooses the child with the best score; among several with
    /// the best score, one picked at random, each with the same chance.
    /// None where the position has no move.
    pub fn choose_child<F: Fn(u32, u64, u32, u32) -> u64>(
        &mut self,
        game: &Game,
        score: &F,
        rng: &mut StdRng,
        node_count: &mut usize,
    ) -> (r: Option<(Move, usize)>)
        requires
            old(self).fits(*game),
            old(self).ordered(),
            game.wf(),
            old(self).rewards_visits.visits < u32::MAX,
            *old(node_count) <= usize::MAX - MAX_MOVES,
            forall|a: u32, b: u64, c: u32, d: u32| call_requires(*score, (a, b, c, d)),
        ensures
            final(self).rewards_visits.visits == old(self).rewards_visits.visits + 1,
            final(self).rewards_visits.rewards == old(self).rewards_visits.rewards,
            final(self).prior == old(self).prior,
            final(self).children is Some,
            old(self).children is Some ==> final(self).children == old(self).children
                && *final(node_count) == *old(node_count),
            old(self).children is None ==> *final(node_count) == *old(node_count) + final(self).kids().len() && final(self).size() == 1 + final(self).kids().len() && forall|i: int|
                0 <= i < final(self).kids().len() ==> (
                #[trigger] final(self).kids()[i]).1 == TreeNode::spec_new(),
            final(self).fits(*game),
            final(self).ordered(),
            r is None <==> final(self).kids().len() == 0,
            r matches Some((m, i)) ==> i < final(self).kids().len() && final(self).kids()[i as int].0 == m && best_scored(
                *score,
                final(self).kids(),
                old(self).rewards_visits.visits,
                i as int,
            ),
    {
        let (_, total_visits) = self.rewards_visits.get_and_increment_visits();
        if self.children.is_none() {
            self.expand(game, node_count);
        }
        match &self.children {
            Some(children) => {
                if children.len() == 0 {
                    return None;
                }
                let mut chosen_idx: usize = 0;
                let mut num_optimal: u32 = 0;
                let mut best_so_far: u64 = 0;
                let ghost mut keys: Seq<u64> = Seq::empty();
                let mut idx: usize = 0;
                while idx < children.len()
                    invariant
                        idx <= children.len(),
                        children@.len() <= MAX_MOVES,
                        forall|a: u32, b: u64, c: u32, d: u32|
                            call_requires(*score, (a, b, c, d)),
                        keys.len() == idx,
                        forall|j: int|
                            0 <= j < idx ==> call_ensures(
                                *score,
                                score_args(children@, total_visits, j),
                                #[trigger] keys[j],
                            ),
                        num_optimal <= idx,
                        idx > 0 ==> chosen_idx < idx && keys[chosen_idx as int] == best_so_far
                            && num_optimal >= 1,
                        forall|j: int| 0 <= j < idx ==> #[trigger] keys[j] <= best_so_far,
                    decreases children.len() - idx,
                {
                    let child = &children[idx].1;
                    let (child_rewards, child_visits) = child.rewards_visits.get();
                    let key = score(total_visits, child_rewards, child_visits, child.prior);
                    proof {
                        keys = keys.push(key);
                    }
                    if idx == 0 || key > best_so_far {
                        chosen_idx = idx;
                        num_optimal = 1;
                        best_so_far = key;
                    } else if key == best_so_far {
                        num_optimal += 1;
                        if one_in(rng, num_optimal) {
                            chosen_idx = idx;
                        }
                    }
                    idx += 1;
                }
                proof {
                    assert(keys.len() == children@.len());
                }
                Some((children[chosen_idx].0, chosen_idx))
            },
            None => None,
        }
    }
}

/// The reward of the player `mover` among the rewards of the two players;
/// nothing where nobody is to move.
pub open spec fn reward_of(mover: Option<Player>, rewards: (u64, u64)) -> u64 {
    match mover {
        Some(p) => if p.id == 0 {
            rewards.0
        } else {
            rewards.1
        },
        None => 0,
    }
}

/// Of the children `before`, child `i` was played through and got
/// `reward` added to its rewards, up to the most that the counter holds;
/// the others are in `after` as they were.
pub open spec fn rewarded(
    before: Seq<(Move, TreeNode)>,
    after: Seq<(Move, TreeNode)>,
    i: int,
    reward: u64,
) -> bool {
    &&& after.len() == before.len()
    &&& 0 <= i < before.len()
    &&& after[i].0 == before[i].0
    &&& after[i].1.rewards_visits.rewards == if before[i].1.rewards_visits.rewards + reward
        > u64::MAX {
        u64::MAX
    } else {
        (before[i].1.rewards_visits.rewards + reward) as u64
    }
    &&& forall|j: int| 0 <= j < before.len() && j != i ==> #[trigger] after[j] == before[j]
}

/// A child without counts for each of `moves`, in order.
pub open spec fn fresh_edges(moves: Seq<Move>) -> Seq<(Move, TreeNode)> {
    Seq::new(moves.len(), |j: int| (moves[j], TreeNode::spec_new()))
}

/// One playout from the node `before` in the position `game` makes the
/// node `after`, ends in the position `end` and gives `rewards`.
///
/// A leaf whose game is over stays as it is, and the rewards are those of
/// the game as it stands. Else the visit is counted, the node has a child
/// for each move that may be made, and where there is a move, one child
/// with the best score is chosen. Below a leaf, the game is played on from
/// the chosen move to an end; below any other node, the chosen child is
/// what a playout from it makes. The chosen child then gets the reward of
/// the player who made the move to it, and the rewards are those of the end
/// of the game.
pub open spec fn played<F: Fn(u32, u64, u32, u32) -> u64>(
    score: F,
    before: TreeNode,
    game: Game,
    after: TreeNode,
    rewards: (u64, u64),
    end: Game,
) -> bool
    decreases before,
{
    let reward = reward_of(game.state.spec_active_player(), rewards);
    match before.children {
        None => if game.state.spec_game_over() {
            after == before && end == game && rewards == final_rewards(game)
        } else {
            &&& after.counted_from(before)
            &&& game.lists_moves(edge_moves(after.kids()))
            &&& is_stuck(end)
            &&& rewards == final_rewards(end)
            &&& if after.kids().len() == 0 {
                end == game
            } else {
                exists|i: int|
                    #![trigger after.kids()[i]]
                    best_scored(
                        score,
                        fresh_edges(edge_moves(after.kids())),
                        before.rewards_visits.visits,
                        i,
                    ) && after.kids() == fresh_edges(edge_moves(after.kids())).update(
                        i,
                        (after.kids()[i].0, TreeNode::spec_new().with_reward(reward)),
                    ) && reached(game.after(after.kids()[i].0), end)
            }
        },
        Some(children) => {
            &&& after.counted_from(before)
            &&& is_stuck(end)
            &&& rewards == final_rewards(end)
            &&& if children@.len() == 0 {
                end == game && after.kids() == children@
            } else {
                exists|i: int, mid: TreeNode|
                    #![trigger children@[i], mid.with_reward(reward)]
                    0 <= i < children@.len() && best_scored(
                        score,
                        children@,
                        before.rewards_visits.visits,
                        i,
                    ) && played(
                        score,
                        children@[i].1,
                        game.after(children@[i].0),
                        mid,
                        rewards,
                        end,
                    ) && after.kids() == children@.update(
                        i,
                        (children@[i].0, mid.with_reward(reward)),
                    )
            }
        },
    }
}

/// The rewards of the two players at the end of `game`.
pub open spec fn final_rewards(game: Game) -> (u64, u64) {
    let scores = seq![
        game.state.board.spec_score(0) as usize,
        game.state.board.spec_score(1) as usize,
    ];
    (spec_reward(scores, 0), spec_reward(scores, 1))
}

/// No move may be made in the position.
pub open spec fn is_stuck(game: Game) -> bool {
    forall|m: Move| !game.legal(m)
}

/// Plays `game` to its end with moves picked at random, each legal move
/// with the same chance, and gives the rewards of the two players.
pub fn rollout(game: &mut Game, rng: &mut StdRng) -> (rewards: (u64, u64))
    requires
        old(game).wf(),
    ensures
        final(game).wf(),
        reached(*old(game), *final(game)),
        is_stuck(*final(game)),
        rewards == final_rewards(*final(game)),
        rewards.0 <= REWARD_WIN && rewards.1 <= REWARD_WIN,
{
    let ghost mut made: Seq<Move> = Seq::empty();
    proof {
        crate::pruning::lemma_occupied_bound(game.state.board);
    }
    loop
        invariant
            game.wf(),
            game.state.board.occupied().len() <= 60,
            plays_to(*old(game), made, *game),
        decreases 60 - game.state.board.occupied().len(),
    {
        let moves = game.available_moves();
        match choose_item(&moves, rng) {
            Some(game_move) => {
                proof {
                    lemma_plays_on(*old(game), made, *game, game_move);
                    made = made.push(game_move);
                }
                game.make_move(game_move);
            },
            None => {
                proof {
                    assert forall|m: Move| !game.legal(m) by {
                        if game.legal(m) {
                            assert(moves@.contains(m));
                        }
                    }
                }
                return (get_reward(&game.state, 0), get_reward(&game.state, 1));
            },
        }
    }
}

impl TreeNode {
    /// One playout from this node: chooses moves by their scores down to a
    /// leaf, gives the leaf its children and chooses among them, plays the
    /// game to its end at random, and on the way back adds to each child
    /// passed the reward of the player who moved to it. At a leaf whose
    /// game is over, the rewards are those of the game as it stands.
    /// Leaves `game` at the end of the game played, and gives its rewards.
    pub fn playout<F: Fn(u32, u64, u32, u32) -> u64>(
        &mut self,
        game: &mut Game,
        score: &F,
        rng: &mut StdRng,
        node_count: &mut usize,
    ) -> (rewards: (u64, u64))
        requires
            old(self).fits(*old(game)),
            old(self).ordered(),
            old(game).wf(),
            old(self).rewards_visits.visits < u32::MAX,
            *old(node_count) <= usize::MAX - MAX_MOVES,
            forall|a: u32, b: u64, c: u32, d: u32| call_requires(*score, (a, b, c, d)),
        ensures
            final(self).fits(*old(game)),
            final(self).ordered(),
            final(self).rewards_visits.rewards == old(self).rewards_visits.rewards,
            final(self).prior == old(self).prior,
            final(self).rewards_visits.visits == old(self).rewards_visits.visits + if old(self).children is None && old(game).state.spec_game_over() {
                0int
            } else {
                1int
            },
            !(old(self).children is None && old(game).state.spec_game_over()) ==> final(self).children is Some,
            *final(node_count) + old(self).size() == *old(node_count) + final(self).size(),
            *final(node_count) <= *old(node_count) + MAX_MOVES,
            old(self).size() <= final(self).size(),
            old(self).children is Some ==> final(self).kids().len() == old(self).kids().len(),
            old(self).children is None ==> forall|i: int|
                0 <= i < final(self).kids().len() ==> (
                #[trigger] final(self).kids()[i]).1.rewards_visits.visits == 0,
            old(self).children is Some && old(self).kids().len() == 1 ==> final(self).kids()[0].1.rewards_visits.visits == old(self).kids()[0].1.rewards_visits.visits
                + if old(self).kids()[0].1.children is None && old(game).after(
                old(self).kids()[0].0,
            ).state.spec_game_over() {
                0int
            } else {
                1int
            },
            old(self).children is Some && old(self).kids().len() > 0 ==> exists|i: int|
                #![trigger final(self).kids()[i]]
                best_scored(*score, old(self).kids(), old(self).rewards_visits.visits, i)
                    && rewarded(
                    old(self).kids(),
                    final(self).kids(),
                    i,
                    reward_of(old(game).state.spec_active_player(), rewards),
                ),
            old(self).children is None && final(self).kids().len() > 0 ==> exists|i: int|
                #![trigger final(self).kids()[i]]
                0 <= i < final(self).kids().len() && final(self).kids()[i].1.children is None
                    && final(self).kids()[i].1.rewards_visits.rewards == reward_of(
                    old(game).state.spec_active_player(),
                    rewards,
                ) && forall|j: int|
                    0 <= j < final(self).kids().len() && j != i ==> (
                    #[trigger] final(self).kids()[j]).1.is_fresh(),
            final(game).wf(),
            is_stuck(*final(game)),
            reached(*old(game), *final(game)),
            rewards == final_rewards(*final(game)),
            rewards.0 <= REWARD_WIN && rewards.1 <= REWARD_WIN,
            played(*score, *old(self), *old(game), *final(self), rewards, *final(game)),
        decreases 60 - old(game).state.board.occupied().len(),
    {
        let ghost start = *self;
        let ghost start_game = *game;
        let was_leaf = self.is_leaf();
        proof {
            assert(plays_to(start_game, Seq::<Move>::empty(), start_game));
        }
        if was_leaf && game.state.game_over() {
            proof {
                assert forall|m: Move| !game.legal(m) by {}
            }
            return (get_reward(&game.state, 0), get_reward(&game.state, 1));
        }
        let chosen = self.choose_child(game, score, rng, node_count);
        let ghost expanded = *self;
        match chosen {
            None => {
                proof {
                    assert forall|m: Move| !game.legal(m) by {
                        if game.legal(m) {
                            assert(edge_moves(self.kids()).contains(m));
                        }
                    }
                }
                (get_reward(&game.state, 0), get_reward(&game.state, 1))
            },
            Some((child_move, idx)) => {
                proof {
                    assert(edge_moves(self.kids())[idx as int] == child_move);
                    assert(game.legal(child_move));
                    crate::pruning::lemma_occupied_bound(game.state.board);
                }
                let mover = game.current_player();
                game.make_move(child_move);
                let ghost below = *game;
                let ghost mut mid = start;
                let rewards = match &mut self.children {
                    Some(children) => {
                        let ghost edges = children@;
                        let entry = &mut children[idx];
                        let child = &mut entry.1;
                        let ghost child_before = *child;
                        proof {
                            assert(child_before == edges[idx as int].1);
                            assert(child_before.fits(below));
                            lemma_forest_member(edges, idx as int);
                        }
                        let rewards = if was_leaf {
                            rollout(game, rng)
                        } else {
                            child.playout(game, score, rng, node_count)
                        };
                        proof {
                            mid = *child;
                        }
                        child.rewards_visits.add_reward(
                            if mover.id == 0 {
                                rewards.0
                            } else {
                                rewards.1
                            },
                        );
                        proof {
                            lemma_forest_update(edges, idx as int, (child_move, *child));
                            assert(children@ =~= edges.update(idx as int, (child_move, *child)));
                            assert(edge_moves(children@) =~= edge_moves(edges));
                            assert((*child).fits(below)) by {
                                reveal_with_fuel(TreeNode::fits, 1);
                            }
                            assert((*child).ordered()) by {
                                reveal_with_fuel(TreeNode::ordered, 1);
                            }
                            assert(children@[idx as int].1 == *child);
                            assert(*child == mid.with_reward(
                                reward_of(start_game.state.spec_active_player(), rewards),
                            ));
                            if !was_leaf {
                                assert(rewarded(
                                    edges,
                                    children@,
                                    idx as int,
                                    reward_of(start_game.state.spec_active_player(), rewards),
                                ));
                            }
                        }
                        rewards
                    },
                    None => vstd::pervasive::unreached(),
                };
                proof {
                    lemma_reached_after(start_game, child_move, *game);
                    let reward = reward_of(start_game.state.spec_active_player(), rewards);
                    let edges = expanded.kids();
                    assert(self.kids() =~= edges.update(
                        idx as int,
                        (child_move, mid.with_reward(reward)),
                    ));
                    if was_leaf {
                        assert(edges =~= fresh_edges(edge_moves(self.kids())));
                        assert(self.kids()[idx as int].0 == child_move);
                    } else {
                        assert(edges == start.kids());
                        assert(played(
                            *score,
                            edges[idx as int].1,
                            start_game.after(edges[idx as int].0),
                            mid,
                            rewards,
                            *game,
                        ));
                    }
                }
                rewards
            },
        }
    }

    /// A node with no counts and no children, to which the policy gives
    /// the weight `prior`.
    pub fn with_prior(prior: u32) -> (node: TreeNode)
        ensures
            node.is_fresh(),
            node.prior == prior,
    {
        TreeNode { rewards_visits: RewardsVisits { rewards: 0, visits: 0 }, children: None, prior }
    }

    /// The node has the children that `policy` seeds in the position `game`
    /// for `current_player`: a node without counts for each move that may
    /// be made, in order, each with the share of its move in the weights
    /// that the policy gives to all of these moves.
    pub open spec fn seeded_with(self, game: Game, policy: Seq<u32>, current_player: int) -> bool {
        &&& self.children is Some
        &&& game.lists_moves(edge_moves(self.kids()))
        &&& self.kids().len() <= MAX_MOVES
        &&& forall|i: int|
            0 <= i < self.kids().len() ==> (#[trigger] self.kids()[i]).1.is_fresh()
                && self.kids()[i].1.prior == spec_prior(
                policy,
                edge_moves(self.kids()),
                crate::cellset::sorted_cells(game.state.board.penguins[current_player]@),
                i,
            )
    }

    /// Gives a leaf its children with the weights of a policy: `policy`
    /// holds a weight for each place of a move, and each child gets the
    /// share of its move in the weights of all the moves that may be made,
    /// in units of which `REWARD_WIN` make the whole. Where the policy is
    /// too short for one of the moves, or gives them no weight at all,
    /// every child gets the weight of a node made without a policy. A node
    /// that has children stays as it is.
    pub fn expand_with_priors(
        &mut self,
        game: &Game,
        policy: &[u32],
        current_player: usize,
        node_count: &mut usize,
    )
        requires
            game.wf(),
            current_player < 2,
            *old(node_count) <= usize::MAX - MAX_MOVES,
        ensures
            final(self).rewards_visits == old(self).rewards_visits,
            final(self).prior == old(self).prior,
            old(self).children is Some ==> *final(self) == *old(self) && *final(node_count)
                == *old(node_count),
            old(self).children is None ==> {
                &&& final(self).children is Some
                &&& game.lists_moves(edge_moves(final(self).kids()))
                &&& final(self).kids().len() <= MAX_MOVES
                &&& final(self).size() == 1 + final(self).kids().len()
                &&& *final(node_count) == *old(node_count) + final(self).kids().len()
                &&& forall|i: int|
                    0 <= i < final(self).kids().len() ==> (#[trigger] final(self).kids()[i]).1.is_fresh()
                        && final(self).kids()[i].1.prior == spec_prior(
                        policy@,
                        edge_moves(final(self).kids()),
                        crate::cellset::sorted_cells(game.state.board.penguins[current_player as int]@),
                        i,
                    )
            },
            old(self).fits(*game) ==> final(self).fits(*game),
            old(self).ordered() ==> final(self).ordered(),
    {
        if self.children.is_some() {
            return ;
        }
        let is_drafting = !game.state.finished_drafting();
        let moves = game.available_moves();

        // the penguins in ascending order, for the places of the moves
        assert(game.state.board.penguins[current_player as int].wf());
        let penguins = game.state.board.penguins[current_player].to_vec();
        proof {
            crate::cellset::lemma_sorted_cells(
                penguins@,
                game.state.board.penguins[current_player as int]@,
            );
        }

        // the weight of each move, and the weight of all of them
        let mut weights: Vec<u32> = Vec::new();
        let mut total: u64 = 0;
        let mut complete = true;
        let mut k: usize = 0;
        while k < moves.len()
            invariant
                k <= moves.len(),
                moves@.len() <= MAX_MOVES,
                penguins@.len() <= 60,
                weights@.len() == k,
                total <= k * 0xffff_ffff,
                complete == (forall|j: int|
                    0 <= j < k ==> spec_policy_index(#[trigger] moves@[j], penguins@) < policy@.len()),
                complete ==> total == total_weight(policy@, moves@, penguins@, k as int),
                complete ==> forall|j: int|
                    0 <= j < k ==> #[trigger] weights@[j] == policy@[spec_policy_index(
                        moves@[j],
                        penguins@,
                    )],
            decreases moves.len() - k,
        {
            let idx = move_to_policy_index(&moves[k], is_drafting, penguins.as_slice());
            let weight = if idx < policy.len() {
                policy[idx]
            } else {
                complete = false;
                0
            };
            weights.push(weight);
            assert((k + 1) * 0xffff_ffff == k * 0xffff_ffff + 0xffff_ffff) by (nonlinear_arith);
            total = total + weight as u64;
            k += 1;
        }
        let uniform = !complete || total == 0;

        let mut children: Vec<(Move, TreeNode)> = Vec::new();
        let mut i: usize = 0;
        while i < moves.len()
            invariant
                i <= moves.len(),
                weights@.len() == moves@.len(),
                children@.len() == i,
                uniform == (!complete || total == 0),
                complete == (forall|j: int|
                    0 <= j < moves@.len() ==> spec_policy_index(#[trigger] moves@[j], penguins@)
                        < policy@.len()),
                complete ==> total == total_weight(
                    policy@,
                    moves@,
                    penguins@,
                    moves@.len() as int,
                ),
                complete ==> forall|j: int|
                    0 <= j < moves@.len() ==> #[trigger] weights@[j] == policy@[spec_policy_index(
                        moves@[j],
                        penguins@,
                    )],
                forall|j: int| 0 <= j < i ==> (#[trigger] children@[j]).0 == moves@[j],
                forall|j: int|
                    0 <= j < i ==> (#[trigger] children@[j]).1.is_fresh() && children@[j].1.prior
                        == spec_prior(policy@, moves@, penguins@, j),
                forest_size(children@) == i,
            decreases moves.len() - i,
        {
            let child = if uniform {
                TreeNode::new()
            } else {
                let weight = weights[i] as u64;
                proof {
                    lemma_total_weight_bounds(policy@, moves@, penguins@, moves@.len() as int, i as int);
                    assert(weight * REWARD_WIN <= 0xffff_ffff * 65536) by (nonlinear_arith)
                        requires
                            weight <= 0xffff_ffff,
                            REWARD_WIN == 65536,
                    ;
                    assert((weight * REWARD_WIN) / (total as int) <= REWARD_WIN)
                        by (nonlinear_arith)
                        requires
                            0 <= weight <= total,
                            total > 0,
                            REWARD_WIN == 65536,
                    ;
                }
                TreeNode::with_prior((weight * REWARD_WIN / total) as u32)
            };
            proof {
                lemma_forest_push(children@, (moves@[i as int], child));
            }
            children.push((moves[i], child));
            i += 1;
        }
        proof {
            assert(edge_moves(children@) =~= moves@);
            reveal_with_fuel(TreeNode::fits, 2);
            reveal_with_fuel(TreeNode::ordered, 2);
        }
        *node_count += children.len();
        self.children = Some(children);
    }
}

/// The weights that `policy` gives to the first `n` of `moves`, added up.
pub open spec fn total_weight(policy: Seq<u32>, moves: Seq<Move>, penguins: Seq<u8>, n: int) -> int
    decreases n,
{
    if n <= 0 {
        0
    } else {
        total_weight(policy, moves, penguins, n - 1) + policy[spec_policy_index(
            moves[n - 1],
            penguins,
        )]
    }
}

proof fn lemma_total_weight_bounds(
    policy: Seq<u32>,
    moves: Seq<Move>,
    penguins: Seq<u8>,
    n: int,
    i: int,
)
    requires
        0 <= i < n,
    ensures
        policy[spec_policy_index(moves[i], penguins)] <= total_weight(policy, moves, penguins, n),
        0 <= total_weight(policy, moves, penguins, i),
    decreases n,
{
    if n > 0 {
        lemma_total_weight_nonneg(policy, moves, penguins, n - 1);
        lemma_total_weight_nonneg(policy, moves, penguins, i);
        if i < n - 1 {
            lemma_total_weight_bounds(policy, moves, penguins, n - 1, i);
        }
    }
}

proof fn lemma_total_weight_nonneg(policy: Seq<u32>, moves: Seq<Move>, penguins: Seq<u8>, n: int)
    ensures
        0 <= total_weight(policy, moves, penguins, n),
    decreases n,
{
    if n > 0 {
        lemma_total_weight_nonneg(policy, moves, penguins, n - 1);
    }
}

/// The weight that child `i` gets from `policy`: the share of its move in
/// the weights of all the moves, in units of which `REWARD_WIN` make the
/// whole; and `REWARD_WIN` where the policy is too short or gives the
/// moves no weight.
pub open spec fn spec_prior(policy: Seq<u32>, moves: Seq<Move>, penguins: Seq<u8>, i: int) -> u32 {
    let total = total_weight(policy, moves, penguins, moves.len() as int);
    if (forall|j: int|
        0 <= j < moves.len() ==> spec_policy_index(#[trigger] moves[j], penguins) < policy.len())
        && total != 0 {
        (policy[spec_policy_index(moves[i], penguins)] * REWARD_WIN / total) as u32
    } else {
        REWARD_WIN as u32
    }
}

/// Edge `i` is the first of `kids` with the move `m`.
pub open spec fn first_with_move(kids: Seq<(Move, TreeNode)>, m: Move, i: int) -> bool {
    &&& 0 <= i < kids.len()
    &&& kids[i].0 == m
    &&& forall|j: int| 0 <= j < i ==> (#[trigger] kids[j]).0 != m
}

/// The rewards of the two players that a predicted value stands for: the
/// value for the player it was predicted for, and the rest of a win for
/// the other. A value above a win counts as a win.
pub open spec fn value_rewards(value: u64, player: usize) -> (u64, u64) {
    let v = if value > REWARD_WIN {
        REWARD_WIN
    } else {
        value
    };
    if player == 0 {
        (v, (REWARD_WIN - v) as u64)
    } else {
        ((REWARD_WIN - v) as u64, v)
    }
}

/// What a guided playout makes of a leaf in the game `game`, which goes on.
/// The predictor is asked about the game and the player to act. Where it
/// gives a policy and a value, `after` has the children that the policy
/// seeds, the rewards are those that the value stands for, and the game
/// ends as it was. Where it fails, `after` has a child without counts or
/// weights for each move that may be made, the game was played on to an end
/// `end`, and the rewards are those of that end.
pub open spec fn guided_leaf<O: Fn(GameState, usize) -> Option<(Vec<u32>, u64)>>(
    oracle: O,
    game: Game,
    after: TreeNode,
    rewards: (u64, u64),
    end: Game,
) -> bool {
    let p = game.state.spec_active_player().unwrap().id;
    ||| exists|policy: Vec<u32>, value: u64|
        #[trigger] call_ensures(oracle, (game.state, p), Some((policy, value)))
            && after.seeded_with(game, policy@, p as int) && rewards == value_rewards(value, p)
            && end == game
    ||| {
        &&& call_ensures(oracle, (game.state, p), None::<(Vec<u32>, u64)>)
        &&& after.children is Some
        &&& game.lists_moves(edge_moves(after.kids()))
        &&& forall|i: int|
            0 <= i < after.kids().len() ==> (#[trigger] after.kids()[i]).1 == TreeNode::spec_new()
        &&& reached(game, end)
        &&& is_stuck(end)
        &&& rewards == final_rewards(end)
    }
}

/// One guided playout from the node `before` in the position `game` makes
/// the node `after`, ends in the position `end` and gives `rewards`.
///
/// A leaf whose game is over stays as it is, and the rewards are those of
/// the game as it stands. A leaf whose game goes on keeps its counts and is
/// what the predictor's answer makes of it. Of any other node the visit is
/// counted, and where it has children, one with the best score is chosen:
/// it is what a guided playout from it makes, and then gets the reward of
/// the player who made the move to it. So every node on the way down gets
/// the predicted value, or the rest of a win, as its mover is the player
/// the value was predicted for or the other.
pub open spec fn played_nn<
    F: Fn(u32, u64, u32, u32) -> u64,
    O: Fn(GameState, usize) -> Option<(Vec<u32>, u64)>,
>(
    score: F,
    oracle: O,
    before: TreeNode,
    game: Game,
    after: TreeNode,
    rewards: (u64, u64),
    end: Game,
) -> bool
    decreases before,
{
    let reward = reward_of(game.state.spec_active_player(), rewards);
    match before.children {
        None => if game.state.spec_game_over() {
            after == before && end == game && rewards == final_rewards(game)
        } else {
            after.rewards_visits == before.rewards_visits && after.prior == before.prior
                && guided_leaf(oracle, game, after, rewards, end)
        },
        Some(children) => {
            &&& after.counted_from(before)
            &&& if children@.len() == 0 {
                end == game && after.kids() == children@ && rewards == final_rewards(game)
            } else {
                exists|i: int, mid: TreeNode|
                    #![trigger children@[i], mid.with_reward(reward)]
                    0 <= i < children@.len() && best_scored(
                        score,
                        children@,
                        before.rewards_visits.visits,
                        i,
                    ) && played_nn(
                        score,
                        oracle,
                        children@[i].1,
                        game.after(children@[i].0),
                        mid,
                        rewards,
                        end,
                    ) && after.kids() == children@.update(
                        i,
                        (children@[i].0, mid.with_reward(reward)),
                    )
            }
        },
    }
}

impl TreeNode {
    /// One playout from this node with a predictor: chooses moves by their
    /// scores down to a leaf, asks the predictor for a policy and a value
    /// of the leaf's position, gives the leaf its children with the
    /// weights of the policy, and on the way back adds to each child passed
    /// the reward of the player who moved to it. A leaf whose game is over
    /// gives the rewards of the game as it stands. Where the predictor
    /// fails, the leaf gets its children without weights and the game is
    /// played to its end at random.
    pub fn playout_nn<F: Fn(u32, u64, u32, u32) -> u64, O: Fn(GameState, usize) -> Option<
        (Vec<u32>, u64),
    >>(
        &mut self,
        game: &mut Game,
        oracle: &O,
        score: &F,
        rng: &mut StdRng,
        node_count: &mut usize,
    ) -> (rewards: (u64, u64))
        requires
            old(self).fits(*old(game)),
            old(self).ordered(),
            old(game).wf(),
            old(self).rewards_visits.visits < u32::MAX,
            *old(node_count) <= usize::MAX - MAX_MOVES,
            forall|a: u32, b: u64, c: u32, d: u32| call_requires(*score, (a, b, c, d)),
            forall|g: GameState, p: usize| call_requires(*oracle, (g, p)),
        ensures
            final(self).fits(*old(game)),
            final(self).ordered(),
            final(self).rewards_visits.rewards == old(self).rewards_visits.rewards,
            final(self).prior == old(self).prior,
            final(self).rewards_visits.visits == old(self).rewards_visits.visits + if old(self).children is None {
                0int
            } else {
                1int
            },
            *final(node_count) + old(self).size() == *old(node_count) + final(self).size(),
            *final(node_count) <= *old(node_count) + MAX_MOVES,
            old(self).size() <= final(self).size(),
            old(self).children is Some ==> final(self).kids().len() == old(self).kids().len(),
            old(self).children is None && !old(game).state.spec_game_over() ==> final(self).children is Some,
            old(self).children is None && old(game).state.spec_game_over() ==> *final(self)
                == *old(self) && rewards == final_rewards(*old(game)) && *final(game) == *old(game),
            old(self).children is None && !old(game).state.spec_game_over() ==> guided_leaf(
                *oracle,
                *old(game),
                *final(self),
                rewards,
                *final(game),
            ),
            old(self).children is Some && old(self).kids().len() > 0 ==> exists|i: int|
                #![trigger final(self).kids()[i]]
                best_scored(*score, old(self).kids(), old(self).rewards_visits.visits, i)
                    && rewarded(
                    old(self).kids(),
                    final(self).kids(),
                    i,
                    reward_of(old(game).state.spec_active_player(), rewards),
                ),
            old(self).children is Some && old(self).kids().len() == 0 ==> *final(game) == *old(game) && rewards == final_rewards(*old(game)),
            final(game).wf(),
            rewards.0 <= REWARD_WIN && rewards.1 <= REWARD_WIN,
            played_nn(
                *score,
                *oracle,
                *old(self),
                *old(game),
                *final(self),
                rewards,
                *final(game),
            ),
        decreases 60 - old(game).state.board.occupied().len(),
    {
        let ghost start_game = *game;
        let ghost start = *self;
        if self.is_leaf() {
            if game.state.game_over() {
                return (get_reward(&game.state, 0), get_reward(&game.state, 1));
            }
            let current_player = game.current_player().id;
            match oracle(game.state, current_player) {
                Some((policy, value)) => {
                    self.expand_with_priors(game, policy.as_slice(), current_player, node_count);
                    proof {
                        assert(call_ensures(
                            *oracle,
                            (start_game.state, current_player),
                            Some((policy, value)),
                        ));
                        assert(self.seeded_with(start_game, policy@, current_player as int));
                    }
                    let v = if value > REWARD_WIN {
                        REWARD_WIN
                    } else {
                        value
                    };
                    if current_player == 0 {
                        (v, REWARD_WIN - v)
                    } else {
                        (REWARD_WIN - v, v)
                    }
                },
                None => {
                    self.expand(game, node_count);
                    rollout(game, rng)
                },
            }
        } else {
            let chosen = self.choose_child(game, score, rng, node_count);
            match chosen {
                None => (get_reward(&game.state, 0), get_reward(&game.state, 1)),
                Some((child_move, idx)) => {
                    proof {
                        assert(edge_moves(self.kids())[idx as int] == child_move);
                        assert(game.legal(child_move));
                        crate::pruning::lemma_occupied_bound(game.state.board);
                    }
                    let mover = game.current_player();
                    game.make_move(child_move);
                    let ghost below = *game;
                    let ghost mut mid = start;
                    let rewards = match &mut self.children {
                        Some(children) => {
                            let ghost edges = children@;
                            let entry = &mut children[idx];
                            let child = &mut entry.1;
                            let ghost child_before = *child;
                            proof {
                                assert(child_before == edges[idx as int].1);
                                assert(child_before.fits(below));
                                lemma_forest_member(edges, idx as int);
                            }
                            let rewards = child.playout_nn(game, oracle, score, rng, node_count);
                            proof {
                                mid = *child;
                            }
                            child.rewards_visits.add_reward(
                                if mover.id == 0 {
                                    rewards.0
                                } else {
                                    rewards.1
                                },
                            );
                            proof {
                                lemma_forest_update(edges, idx as int, (child_move, *child));
                                assert(children@ =~= edges.update(
                                    idx as int,
                                    (child_move, *child),
                                ));
                                assert(edge_moves(children@) =~= edge_moves(edges));
                                assert((*child).fits(below)) by {
                                    reveal_with_fuel(TreeNode::fits, 1);
                                }
                                assert((*child).ordered()) by {
                                    reveal_with_fuel(TreeNode::ordered, 1);
                                }
                                assert(children@[idx as int].1 == *child);
                                assert(*child == mid.with_reward(
                                    reward_of(start_game.state.spec_active_player(), rewards),
                                ));
                                assert(rewarded(
                                    edges,
                                    children@,
                                    idx as int,
                                    reward_of(start_game.state.spec_active_player(), rewards),
                                ));
                            }
                            rewards
                        },
                        None => vstd::pervasive::unreached(),
                    };
                    proof {
                        let reward = reward_of(start_game.state.spec_active_player(), rewards);
                        let edges = start.kids();
                        assert(self.kids() =~= edges.update(
                            idx as int,
                            (child_move, mid.with_reward(reward)),
                        ));
                        assert(played_nn(
                            *score,
                            *oracle,
                            edges[idx as int].1,
                            start_game.after(edges[idx as int].0),
                            mid,
                            rewards,
                            *game,
                        ));
                    }
                    rewards
                },
            }
        }
    }

    /// The child for the move `game_move`, which must be a move of one of
    /// the children.
    pub fn get_child(&self, game_move: Move) -> (child: &TreeNode)
        requires
            edge_moves(self.kids()).contains(game_move),
        ensures
            exists|i: int|
                #![trigger self.kids()[i]]
                first_with_move(self.kids(), game_move, i) && *child == self.kids()[i].1,
    {
        match &self.children {
            Some(children) => {
                let mut i: usize = 0;
                loop
                    invariant
                        i < children.len(),
                        self.children == Some(*children),
                        edge_moves(children@).contains(game_move),
                        forall|j: int| 0 <= j < i ==> (#[trigger] children@[j]).0 != game_move,
                    decreases children.len() - i,
                {
                    if children[i].0.same(&game_move) {
                        proof {
                            assert(first_with_move(self.kids(), game_move, i as int));
                            assert(children@[i as int].1 == self.kids()[i as int].1);
                        }
                        return &children[i].1;
                    }
                    proof {
                        let at = choose|at: int|
                            0 <= at < edge_moves(children@).len() && edge_moves(children@)[at]
                                == game_move;
                        assert(children@[at].0 == game_move);
                        assert(at > i);
                    }
                    i += 1;
                }
            },
            None => {
                proof {
                    assert(edge_moves(self.kids()).len() == 0);
                }
                self
            },
        }
    }
}

impl TreeNode {
    /// The child for the move `game_move`, which must be a move of one of
    /// the children, to be changed in place.
    pub fn get_child_mut(&mut self, game_move: Move) -> (child: &mut TreeNode)
        requires
            edge_moves(old(self).kids()).contains(game_move),
        ensures
            exists|i: int|
                #![trigger old(self).kids()[i]]
                first_with_move(old(self).kids(), game_move, i) && *child == old(self).kids()[i].1
                    && final(self).kids() == old(self).kids().update(
                    i,
                    (game_move, *final(child)),
                ),
            final(self).rewards_visits == old(self).rewards_visits,
            final(self).prior == old(self).prior,
            final(self).children is Some,
    {
        let ghost kids = self.kids();
        let mut at: usize = 0;
        match &self.children {
            Some(children) => {
                while at + 1 < children.len() && !children[at].0.same(&game_move)
                    invariant
                        at < children.len(),
                        children@ == kids,
                        edge_moves(kids).contains(game_move),
                        forall|j: int| 0 <= j < at ==> (#[trigger] kids[j]).0 != game_move,
                    decreases children.len() - at,
                {
                    at += 1;
                }
                proof {
                    let here = choose|here: int|
                        0 <= here < edge_moves(kids).len() && edge_moves(kids)[here] == game_move;
                    assert(kids[here].0 == game_move);
                    assert(first_with_move(kids, game_move, at as int));
                }
            },
            None => {
                proof {
                    assert(edge_moves(kids).len() == 0);
                }
            },
        }
        match &mut self.children {
            Some(children) => {
                let entry = &mut children[at];
                &mut entry.1
            },
            None => vstd::pervasive::unreached(),
        }
    }
}

/// The sizes of a tree before and after an update.
#[derive(Clone, Copy, Debug)]
pub struct UpdateStats {
    pub old_size: usize,
    pub old_capacity: usize,
    pub new_size: usize,
    pub new_capacity: usize,
}

/// A bot that searches the game tree by Monte-Carlo playouts.
pub struct MCTSBot {
    pub root: TreeNode,
    pub root_game: Game,
    pub me: Player,
    pub num_nodes: usize,
}

impl MCTSBot {
    /// The tree is a tree of searches from the root game, no child in it
    /// has more visits than its parent, and the node count is the number of
    /// its nodes.
    pub open spec fn wf(self) -> bool {
        &&& self.root_game.wf()
        &&& self.root.fits(self.root_game)
        &&& self.root.ordered()
        &&& self.num_nodes == self.root.size()
    }

    /// A bot for player `me` with a tree of one node at `game`.
    pub open spec fn spec_new(game: GameState, me: Player) -> MCTSBot {
        MCTSBot { root: TreeNode::spec_new(), root_game: Game { state: game }, me, num_nodes: 1 }
    }

    /// Some move that may be made at the root leads to the state `target`.
    pub open spec fn leads(self, target: GameState) -> bool {
        exists|m: Move| self.root_game.legal(m) && self.root_game.after(m).state == target
    }

    /// A bot for player `me` with a tree of one node at `game`.
    #[verifier::when_used_as_spec(spec_new)]
    pub fn new(game: GameState, me: Player) -> (bot: MCTSBot)
        requires
            (Game { state: game }).wf(),
        ensures
            bot == MCTSBot::spec_new(game, me),
            bot.wf(),
            bot.root.is_fresh(),
            bot.root_game.state == game,
            bot.me == me,
            bot.num_nodes == 1,
    {
        MCTSBot { root: TreeNode::new(), root_game: Game { state: game }, me, num_nodes: 1 }
    }

    /// The number of nodes of the tree.
    pub fn tree_size(&self) -> (n: usize)
        ensures
            n == self.num_nodes,
            self.wf() ==> n == self.root.size(),
    {
        self.num_nodes
    }

    /// The number of nodes of the tree, counted.
    pub fn calculate_tree_size(&self) -> (n: usize)
        requires
            self.root.size() <= usize::MAX,
        ensures
            n == self.root.size(),
    {
        self.root.count_nodes()
    }

    /// One playout from the root.
    pub fn playout<F: Fn(u32, u64, u32, u32) -> u64>(&mut self, score: &F, rng: &mut StdRng)
        requires
            old(self).wf(),
            old(self).root.rewards_visits.visits < u32::MAX,
            old(self).num_nodes <= usize::MAX - MAX_MOVES,
            forall|a: u32, b: u64, c: u32, d: u32| call_requires(*score, (a, b, c, d)),
        ensures
            final(self).wf(),
            final(self).root_game == old(self).root_game,
            final(self).me == old(self).me,
            final(self).root.rewards_visits.rewards == old(self).root.rewards_visits.rewards,
            final(self).root.prior == old(self).root.prior,
            final(self).root.rewards_visits.visits == old(self).root.rewards_visits.visits + if old(self).root.children is None && old(self).root_game.state.spec_game_over() {
                0int
            } else {
                1int
            },
            old(self).num_nodes <= final(self).num_nodes <= old(self).num_nodes + MAX_MOVES,
            !(old(self).root.children is None && old(self).root_game.state.spec_game_over())
                ==> final(self).root.children is Some,
            old(self).root.children is None ==> forall|i: int|
                0 <= i < final(self).root.kids().len() ==> (
                #[trigger] final(self).root.kids()[i]).1.rewards_visits.visits == 0,
            old(self).root.children is Some && old(self).root.kids().len() == 1 ==> final(self).root.kids().len() == 1 && final(self).root.kids()[0].1.rewards_visits.visits == old(self).root.kids()[0].1.rewards_visits.visits + if old(self).root.kids()[0].1.children is None
                && old(self).root_game.after(old(self).root.kids()[0].0).state.spec_game_over() {
                0int
            } else {
                1int
            },
            old(self).root.children is Some && old(self).root.kids().len() > 0 ==> exists|
                i: int,
                reward: u64,
            |
                #![trigger rewarded(old(self).root.kids(), final(self).root.kids(), i, reward)]
                best_scored(
                    *score,
                    old(self).root.kids(),
                    old(self).root.rewards_visits.visits,
                    i,
                ) && rewarded(old(self).root.kids(), final(self).root.kids(), i, reward) && reward
                    <= REWARD_WIN,
            exists|rewards: (u64, u64), end: Game|
                #[trigger] played(
                    *score,
                    old(self).root,
                    old(self).root_game,
                    final(self).root,
                    rewards,
                    end,
                ),
    {
        let mut game = self.root_game;
        let ghost before = *self;
        let rewards = self.root.playout(&mut game, score, rng, &mut self.num_nodes);
        proof {
            assert(played(*score, before.root, before.root_game, self.root, rewards, game));
        }
        proof {
            if before.root.children is Some && before.root.kids().len() > 0 {
                let i = choose|i: int|
                    #![trigger self.root.kids()[i]]
                    best_scored(*score, before.root.kids(), before.root.rewards_visits.visits, i)
                        && rewarded(
                        before.root.kids(),
                        self.root.kids(),
                        i,
                        reward_of(before.root_game.state.spec_active_player(), rewards),
                    );
                assert(rewarded(
                    before.root.kids(),
                    self.root.kids(),
                    i,
                    reward_of(before.root_game.state.spec_active_player(), rewards),
                ));
            }
        }
    }

    /// Tells the bot the new state of the game. Where a move from the root
    /// leads to that state, the tree below that move is kept and is the
    /// new tree: the first such move in the order of the children. Where
    /// none does, the new tree is one node.
    pub fn update(&mut self, game_state: &GameState)
        requires
            old(self).wf(),
            (Game { state: *game_state }).wf(),
        ensures
            final(self).wf(),
            old(self).updated_to(*game_state, *final(self)),
    {
        let _ = self.reroot(game_state);
    }

    /// What `update` makes of the bot: see there.
    pub open spec fn updated_to(self, game_state: GameState, after: MCTSBot) -> bool {
        &&& after.root_game.state == game_state
        &&& after.me == self.me
        &&& after.num_nodes == after.root.size()
        &&& self.root.children is None ==> after.root == TreeNode::spec_new()
        &&& !self.leads(game_state) ==> after == MCTSBot::spec_new(game_state, self.me)
        &&& forall|i: int|
            #![trigger self.root.kids()[i]]
            first_leading(self.root_game, self.root.kids(), game_state, i) ==> after.root
                == self.root.kids()[i].1
        &&& (forall|i: int|
            #![trigger self.root.kids()[i]]
            !first_leading(self.root_game, self.root.kids(), game_state, i))
            ==> after.root.is_fresh() && after.num_nodes == 1
    }

    /// Does what `update` does, and says whether a part of the tree was
    /// kept.
    fn reroot(&mut self, game_state: &GameState) -> (reused: bool)
        requires
            old(self).wf(),
            (Game { state: *game_state }).wf(),
        ensures
            final(self).wf(),
            old(self).updated_to(*game_state, *final(self)),
            reused == old(self).leads(*game_state),
            !reused ==> *final(self) == MCTSBot::spec_new(*game_state, old(self).me),
    {
        let new_game = Game { state: *game_state };
        let ghost before = *self;
        let mut count: usize = 0;
        if self.root.children.is_none() {
            self.root.expand(&self.root_game, &mut count);
        }
        let ghost edges = self.root.kids();
        let taken = self.root.children.take();
        let mut children = match taken {
            Some(children) => children,
            None => Vec::new(),
        };
        let mut found: Option<usize> = None;
        let mut i: usize = 0;
        while i < children.len() && found.is_none()
            invariant
                i <= children.len(),
                children@ == edges,
                self.root_game == before.root_game,
                self.root_game.wf(),
                new_game.state == *game_state,
                self.root_game.lists_moves(edge_moves(edges)),
                forall|j: int|
                    0 <= j < i && found is None ==> self.root_game.after(
                        (#[trigger] edges[j]).0,
                    ).state != *game_state,
                found matches Some(at) ==> first_leading(
                    self.root_game,
                    edges,
                    *game_state,
                    at as int,
                ),
            decreases
                    children.len() - i,
                    if found is None {
                        1int
                    } else {
                        0int
                    },
        {
            let child_move = children[i].0;
            let mut test_game = self.root_game;
            proof {
                assert(edge_moves(edges)[i as int] == child_move);
            }
            test_game.make_move(child_move);
            if test_game.same(&new_game) {
                found = Some(i);
            } else {
                i += 1;
            }
        }
        match found {
            Some(at) => {
                proof {
                    lemma_forest_member(edges, at as int);
                    if before.root.children is None {
                        assert(edges[at as int].1 == TreeNode::spec_new());
                    }
                    assert(edge_moves(edges)[at as int] == edges[at as int].0);
                    assert(before.root_game.legal(edges[at as int].0));
                    assert(before.leads(*game_state));
                }
                let (_, chosen_child) = children.swap_remove(at);
                proof {
                    assert(chosen_child == edges[at as int].1);
                    assert(chosen_child.fits(new_game)) by {
                        assert(self.root_game.after(edges[at as int].0) == new_game);
                    }
                }
                self.root = chosen_child;
                self.root_game = new_game;
                self.num_nodes = self.calculate_tree_size();
                true
            },
            None => {
                // the new state was not found in the tree: start afresh
                proof {
                    assert forall|m: Move| before.root_game.legal(m) implies before.root_game.after(
                        m,
                    ).state != *game_state by {
                        assert(edge_moves(edges).contains(m));
                        let j = choose|j: int|
                            0 <= j < edge_moves(edges).len() && edge_moves(edges)[j] == m;
                        assert(edges[j].0 == m);
                    }
                }
                self.root = TreeNode::new();
                self.root_game = new_game;
                self.num_nodes = self.calculate_tree_size();
                false
            },
        }
    }

    /// A bot for player `me` whose search a predictor guides: the root has
    /// its children at once, with the weights of the predictor's policy
    /// for `game`, unless the game is over or the predictor fails.
    pub fn with_neural_net<O: Fn(GameState, usize) -> Option<(Vec<u32>, u64)>>(
        game: GameState,
        me: Player,
        oracle: &O,
    ) -> (bot: MCTSBot)
        requires
            (Game { state: game }).wf(),
            forall|g: GameState, p: usize| call_requires(*oracle, (g, p)),
        ensures
            bot.wf(),
            bot.root_game.state == game,
            bot.me == me,
            bot.root.rewards_visits.visits == 0 && bot.root.rewards_visits.rewards == 0,
            game.spec_game_over() ==> bot == MCTSBot::spec_new(game, me),
            !game.spec_game_over() ==> MCTSBot::spec_new(game, me).seeded_by(*oracle, bot),
    {
        let mut bot = MCTSBot {
            root: TreeNode::new(),
            root_game: Game { state: game },
            me,
            num_nodes: 1,
        };
        bot.seed_root(oracle);
        bot
    }

    /// Gives a root that is a leaf its children with the weights of the
    /// predictor's policy, unless the game is over or the predictor fails.
    fn seed_root<O: Fn(GameState, usize) -> Option<(Vec<u32>, u64)>>(&mut self, oracle: &O)
        requires
            old(self).wf(),
            old(self).num_nodes <= usize::MAX - MAX_MOVES,
            forall|g: GameState, p: usize| call_requires(*oracle, (g, p)),
        ensures
            final(self).wf(),
            final(self).root_game == old(self).root_game,
            final(self).me == old(self).me,
            final(self).root.rewards_visits == old(self).root.rewards_visits,
            final(self).root.prior == old(self).root.prior,
            old(self).root.children is Some || old(self).root_game.state.spec_game_over()
                ==> *final(self) == *old(self),
            old(self).root.children is None && !old(self).root_game.state.spec_game_over()
                ==> old(self).seeded_by(*oracle, *final(self)),
    {
        if !self.root.is_leaf() {
            return ;
        }
        match self.root_game.state.active_player() {
            Some(p) => {
                match oracle(self.root_game.state, p.id) {
                    Some((policy, value)) => {
                        let ghost before = *self;
                        self.root.expand_with_priors(
                            &self.root_game,
                            policy.as_slice(),
                            p.id,
                            &mut self.num_nodes,
                        );
                        proof {
                            assert(call_ensures(
                                *oracle,
                                (before.root_game.state, p.id),
                                Some((policy, value)),
                            ));
                            assert(self.root.seeded_with(before.root_game, policy@, p.id as int));
                        }
                    },
                    None => {},
                }
            },
            None => {},
        }
    }

    /// What the predictor makes of a bot whose root is a leaf in a game that
    /// goes on. The predictor is asked about the root's game and the player
    /// to act. Where it fails, `after` is the bot as it was. Where it gives
    /// a policy, the root of `after` has the children that the policy
    /// seeds, the node count has grown by their number, and nothing else
    /// has changed.
    pub open spec fn seeded_by<O: Fn(GameState, usize) -> Option<(Vec<u32>, u64)>>(
        self,
        oracle: O,
        after: MCTSBot,
    ) -> bool {
        let state = self.root_game.state;
        let p = state.spec_active_player().unwrap().id;
        ||| call_ensures(oracle, (state, p), None::<(Vec<u32>, u64)>) && after == self
        ||| exists|policy: Vec<u32>, value: u64|
            #[trigger] call_ensures(oracle, (state, p), Some((policy, value)))
                && after.root.seeded_with(self.root_game, policy@, p as int) && after.num_nodes
                == self.num_nodes + after.root.kids().len() && after.root_game == self.root_game
                && after.me == self.me && after.root.rewards_visits == self.root.rewards_visits
                && after.root.prior == self.root.prior
    }

    /// Tells a bot with a predictor the new state of the game: as `update`
    /// does, and where the new tree is one node, the root gets its children
    /// with the weights of the predictor's policy.
    pub fn update_nn<O: Fn(GameState, usize) -> Option<(Vec<u32>, u64)>>(
        &mut self,
        game_state: &GameState,
        oracle: &O,
    )
        requires
            old(self).wf(),
            (Game { state: *game_state }).wf(),
            forall|g: GameState, p: usize| call_requires(*oracle, (g, p)),
        ensures
            final(self).wf(),
            final(self).root_game.state == *game_state,
            final(self).me == old(self).me,
            old(self).leads(*game_state) ==> old(self).updated_to(*game_state, *final(self)),
            !old(self).leads(*game_state) && game_state.spec_game_over() ==> *final(self)
                == MCTSBot::spec_new(*game_state, old(self).me),
            !old(self).leads(*game_state) && !game_state.spec_game_over() ==> MCTSBot::spec_new(
                *game_state,
                old(self).me,
            ).seeded_by(*oracle, *final(self)),
    {
        let reused = self.reroot(game_state);
        if !reused {
            self.seed_root(oracle);
        }
    }

    /// One playout from the root with a predictor.
    pub fn playout_nn<F: Fn(u32, u64, u32, u32) -> u64, O: Fn(GameState, usize) -> Option<
        (Vec<u32>, u64),
    >>(&mut self, oracle: &O, score: &F, rng: &mut StdRng)
        requires
            old(self).wf(),
            old(self).root.rewards_visits.visits < u32::MAX,
            old(self).num_nodes <= usize::MAX - MAX_MOVES,
            forall|a: u32, b: u64, c: u32, d: u32| call_requires(*score, (a, b, c, d)),
            forall|g: GameState, p: usize| call_requires(*oracle, (g, p)),
        ensures
            final(self).wf(),
            final(self).root_game == old(self).root_game,
            final(self).me == old(self).me,
            final(self).root.rewards_visits.rewards == old(self).root.rewards_visits.rewards,
            final(self).root.prior == old(self).root.prior,
            final(self).root.rewards_visits.visits == old(self).root.rewards_visits.visits + if old(self).root.children is None {
                0int
            } else {
                1int
            },
            old(self).num_nodes <= final(self).num_nodes <= old(self).num_nodes + MAX_MOVES,
            old(self).root.children is None && !old(self).root_game.state.spec_game_over()
                ==> final(self).root.children is Some && exists|rewards: (u64, u64), end: Game|
                #[trigger] guided_leaf(
                    *oracle,
                    old(self).root_game,
                    final(self).root,
                    rewards,
                    end,
                ),
            old(self).root.children is None && old(self).root_game.state.spec_game_over()
                ==> final(self).root == old(self).root,
            old(self).root.children is Some && old(self).root.kids().len() > 0 ==> exists|
                i: int,
                reward: u64,
            |
                #![trigger rewarded(old(self).root.kids(), final(self).root.kids(), i, reward)]
                best_scored(
                    *score,
                    old(self).root.kids(),
                    old(self).root.rewards_visits.visits,
                    i,
                ) && rewarded(old(self).root.kids(), final(self).root.kids(), i, reward) && reward
                    <= REWARD_WIN,
            exists|rewards: (u64, u64), end: Game|
                #[trigger] played_nn(
                    *score,
                    *oracle,
                    old(self).root,
                    old(self).root_game,
                    final(self).root,
                    rewards,
                    end,
                ),
    {
        let mut game = self.root_game;
        let ghost before = *self;
        let rewards = self.root.playout_nn(&mut game, oracle, score, rng, &mut self.num_nodes);
        proof {
            assert(played_nn(
                *score,
                *oracle,
                before.root,
                before.root_game,
                self.root,
                rewards,
                game,
            ));
        }
        proof {
            if before.root.children is Some && before.root.kids().len() > 0 {
                let i = choose|i: int|
                    #![trigger self.root.kids()[i]]
                    best_scored(*score, before.root.kids(), before.root.rewards_visits.visits, i)
                        && rewarded(
                        before.root.kids(),
                        self.root.kids(),
                        i,
                        reward_of(before.root_game.state.spec_active_player(), rewards),
                    );
                assert(rewarded(
                    before.root.kids(),
                    self.root.kids(),
                    i,
                    reward_of(before.root_game.state.spec_active_player(), rewards),
                ));
            }
        }
    }

    /// The move to make, picked at random by the visits of the children of
    /// the root: after one more playout, each child gets the weight that
    /// `weigh` gives to its visits, and the chance of a child is its share
    /// of all the weights. Where no child has any weight, each child has
    /// the same chance. It must be this bot's turn, and there must be a
    /// move to make.
    pub fn take_action_with_temperature<W: Fn(u32) -> u64, F: Fn(u32, u64, u32, u32) -> u64>(
        &mut self,
        weigh: &W,
        score: &F,
        rng: &mut StdRng,
    ) -> (action: Action)
        requires
            old(self).wf(),
            old(self).root_game.state.spec_active_player() == Some(old(self).me),
            exists|m: Move| old(self).root_game.legal(m),
            old(self).root.rewards_visits.visits < u32::MAX,
            old(self).num_nodes <= usize::MAX - MAX_MOVES,
            forall|a: u32, b: u64, c: u32, d: u32| call_requires(*score, (a, b, c, d)),
            forall|v: u32| call_requires(*weigh, (v,)),
        ensures
            final(self).wf(),
            final(self).root_game == old(self).root_game,
            final(self).me == old(self).me,
            exists|i: int|
                #![trigger final(self).root.kids()[i]]
                sampled(*weigh, final(self).root.kids(), i) && action == final(self).root.kids()[i].0.into_action(),
            final(self).root_game.legal(Move::from_action(&action).unwrap()),
    {
        self.playout(score, rng);
        match &self.root.children {
            Some(children) => {
                proof {
                    let m = choose|m: Move| self.root_game.legal(m);
                    assert(edge_moves(children@).contains(m));
                }
                let mut weights: Vec<u64> = Vec::new();
                let mut moves: Vec<Move> = Vec::new();
                let mut total: u128 = 0;
                let mut i: usize = 0;
                while i < children.len()
                    invariant
                        i <= children.len(),
                        children@.len() <= MAX_MOVES,
                        forall|v: u32| call_requires(*weigh, (v,)),
                        weights@.len() == i,
                        moves@.len() == i,
                        forall|j: int| 0 <= j < i ==> #[trigger] moves@[j] == children@[j].0,
                        forall|j: int|
                            0 <= j < i ==> call_ensures(
                                *weigh,
                                (children@[j].1.rewards_visits.visits,),
                                #[trigger] weights@[j],
                            ),
                        total == weight_sum(weights@, i as int),
                        total <= i * 0xffff_ffff_ffff_ffff,
                    decreases children.len() - i,
                {
                    let (_, visits) = children[i].1.rewards_visits.get();
                    let weight = weigh(visits);
                    let ghost before = weights@;
                    weights.push(weight);
                    moves.push(children[i].0);
                    proof {
                        lemma_weight_sum_prefix(before, weights@, i as int);
                        assert((i + 1) * 0xffff_ffff_ffff_ffff == i * 0xffff_ffff_ffff_ffff
                            + 0xffff_ffff_ffff_ffff) by (nonlinear_arith);
                        assert(i * 0xffff_ffff_ffff_ffff <= 3600 * 0xffff_ffff_ffff_ffff)
                            by (nonlinear_arith)
                            requires
                                i <= 3600,
                        ;
                    }
                    total = total + weight as u128;
                    i += 1;
                }
                let chosen: usize = if total == 0 {
                    let picked = choose_item(&moves, rng);
                    proof {
                        lemma_weight_sum_zero(weights@, weights@.len() as int);
                    }
                    match picked {
                        Some(m) => {
                            let mut at: usize = 0;
                            while at + 1 < moves.len() && !moves[at].same(&m)
                                invariant
                                    at < moves.len(),
                                decreases moves.len() - at,
                            {
                                at += 1;
                            }
                            at
                        },
                        None => vstd::pervasive::unreached(),
                    }
                } else {
                    let r = random_below(rng, total);
                    let mut at: usize = 0;
                    let mut cumsum: u128 = weights[0] as u128;
                    proof {
                        reveal_with_fuel(weight_sum, 2);
                        lemma_weight_sum_grows(weights@, 1, weights@.len() as int);
                    }
                    while r >= cumsum
                        invariant
                            at < weights.len(),
                            r < total,
                            total == weight_sum(weights@, weights@.len() as int),
                            cumsum == weight_sum(weights@, at as int + 1),
                            weight_sum(weights@, at as int) <= r,
                        decreases weights.len() - at,
                    {
                        proof {
                            if at + 2 <= weights@.len() {
                                lemma_weight_sum_grows(
                                    weights@,
                                    at as int + 2,
                                    weights@.len() as int,
                                );
                            }
                        }
                        at += 1;
                        cumsum = cumsum + weights[at] as u128;
                    }
                    assert(weights@[at as int] > 0);
                    at
                };
                let best_move = children[chosen].0;
                proof {
                    assert(sampled(*weigh, self.root.kids(), chosen as int));
                    assert(edge_moves(children@)[chosen as int] == best_move);
                }
                best_move.into_action()
            },
            None => vstd::pervasive::unreached(),
        }
    }

    /// The move to make: after one more playout, the child of the root
    /// with the most visits, and of several such the last. It must be this
    /// bot's turn, and there must be a move to make.
    pub fn take_action<F: Fn(u32, u64, u32, u32) -> u64>(
        &mut self,
        score: &F,
        rng: &mut StdRng,
    ) -> (action: Action)
        requires
            old(self).wf(),
            old(self).root_game.state.spec_active_player() == Some(old(self).me),
            exists|m: Move| old(self).root_game.legal(m),
            old(self).root.rewards_visits.visits < u32::MAX,
            old(self).num_nodes <= usize::MAX - MAX_MOVES,
            forall|a: u32, b: u64, c: u32, d: u32| call_requires(*score, (a, b, c, d)),
        ensures
            final(self).wf(),
            final(self).root_game == old(self).root_game,
            final(self).me == old(self).me,
            exists|i: int|
                #![trigger final(self).root.kids()[i]]
                most_visited(final(self).root.kids(), i) && action == final(self).root.kids()[i].0.into_action(),
            final(self).root_game.legal(Move::from_action(&action).unwrap()),
    {
        self.playout(score, rng);
        match &self.root.children {
            Some(children) => {
                proof {
                    let m = choose|m: Move| self.root_game.legal(m);
                    assert(edge_moves(children@).contains(m));
                }
                let mut best: usize = 0;
                let mut i: usize = 1;
                while i < children.len()
                    invariant
                        1 <= i <= children.len(),
                        best < i,
                        forall|j: int|
                            0 <= j < i ==> (#[trigger] children@[j]).1.rewards_visits.visits
                                <= children@[best as int].1.rewards_visits.visits,
                        forall|j: int|
                            best < j < i ==> (#[trigger] children@[j]).1.rewards_visits.visits
                                < children@[best as int].1.rewards_visits.visits,
                    decreases children.len() - i,
                {
                    let (_, visits) = children[i].1.rewards_visits.get();
                    let (_, most) = children[best].1.rewards_visits.get();
                    if visits >= most {
                        best = i;
                    }
                    i += 1;
                }
                let best_move = children[best].0;
                proof {
                    assert(most_visited(self.root.kids(), best as int));
                    assert(edge_moves(children@)[best as int] == best_move);
                }
                best_move.into_action()
            },
            None => vstd::pervasive::unreached(),
        }
    }
}

/// The first `n` of `weights`, added up.
pub open spec fn weight_sum(weights: Seq<u64>, n: int) -> int
    decreases n,
{
    if n <= 0 {
        0
    } else {
        weight_sum(weights, n - 1) + weights[n - 1]
    }
}

proof fn lemma_weight_sum_prefix(a: Seq<u64>, b: Seq<u64>, n: int)
    requires
        0 <= n <= a.len() <= b.len(),
        forall|j: int| 0 <= j < n ==> a[j] == b[j],
    ensures
        weight_sum(a, n) == weight_sum(b, n),
    decreases n,
{
    if n > 0 {
        lemma_weight_sum_prefix(a, b, n - 1);
    }
}

proof fn lemma_weight_sum_grows(weights: Seq<u64>, n: int, m: int)
    requires
        0 <= n <= m,
    ensures
        0 <= weight_sum(weights, n) <= weight_sum(weights, m),
    decreases m,
{
    if n < m {
        lemma_weight_sum_grows(weights, n, m - 1);
    } else if n > 0 {
        lemma_weight_sum_grows(weights, n - 1, n - 1);
    }
}

proof fn lemma_weight_sum_zero(weights: Seq<u64>, n: int)
    requires
        0 <= n <= weights.len(),
        weight_sum(weights, n) == 0,
    ensures
        forall|j: int| 0 <= j < n ==> weights[j] == 0,
    decreases n,
{
    if n > 0 {
        lemma_weight_sum_grows(weights, n - 1, n - 1);
        lemma_weight_sum_zero(weights, n - 1);
    }
}

/// Child `i` can come out of the draw: the weighing function gave each
/// child a weight from its visits, and this child got some, or no child got
/// any.
pub open spec fn sampled<W: Fn(u32) -> u64>(weigh: W, kids: Seq<(Move, TreeNode)>, i: int) -> bool {
    exists|weights: Seq<u64>|
        #![trigger weights.len()]
        weights.len() == kids.len() && 0 <= i < kids.len() && (forall|j: int|
            0 <= j < kids.len() ==> call_ensures(
                weigh,
                (kids[j].1.rewards_visits.visits,),
                #[trigger] weights[j],
            )) && (weights[i] > 0 || forall|j: int| 0 <= j < kids.len() ==> #[trigger] weights[j] == 0)
}

/// The move of edge `i` is the first of the moves of `kids` that leads
/// from `game` to the state `target`.
pub open spec fn first_leading(
    game: Game,
    kids: Seq<(Move, TreeNode)>,
    target: GameState,
    i: int,
) -> bool {
    &&& 0 <= i < kids.len()
    &&& game.after(kids[i].0).state == target
    &&& forall|j: int| 0 <= j < i ==> game.after((#[trigger] kids[j]).0).state != target
}

/// Child `i` has the most visits of the children, and is the last of
/// those that have as many.
pub open spec fn most_visited(kids: Seq<(Move, TreeNode)>, i: int) -> bool {
    &&& 0 <= i < kids.len()
    &&& forall|j: int|
        0 <= j < kids.len() ==> (#[trigger] kids[j]).1.rewards_visits.visits
            <= kids[i].1.rewards_visits.visits
    &&& forall|j: int|
        i < j < kids.len() ==> (#[trigger] kids[j]).1.rewards_visits.visits
            < kids[i].1.rewards_visits.visits
}

} // verus!
