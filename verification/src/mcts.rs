//! The tree of a neural-guided search.
//!
//! A search is a number of simulations. Each one descends from the root through positions that
//! are known, by the actions that score best, until it meets the end of the game or a position
//! that is new; what that position is worth is then backed up along the path. The tree keeps,
//! under the key of each position, what the search statistics need: whether the game has ended
//! there, which actions are legal, how often the position and each action were visited, and the
//! estimates that the caller gives it: the priors of the actions and the mean value of each
//! action. The estimates are of a type `T` of which the tree knows nothing: the caller computes
//! them, the tree keeps them in their places and says which step is due.
use vstd::prelude::*;
use vstd::hash_map::StringHashMap;
use crate::chance::pick;
use crate::game::Game;
use crate::vecs::{copied, filled, with_item};

verus! {

/// The mask of the actions that are legal for player `1` on `board`.
pub open spec fn mask<G: Game>(game: G, board: Seq<i8>) -> Seq<u8> {
    Seq::new(
        game.action_count() as nat,
        |a: int|
            if game.legal(board, 1, a) {
                1u8
            } else {
                0u8
            },
    )
}

/// A count one higher, as far as the machine counts.
pub open spec fn bumped(n: usize) -> usize {
    if n < usize::MAX {
        (n + 1) as usize
    } else {
        n
    }
}

/// The sum of `counts`.
pub open spec fn total(counts: Seq<usize>) -> int
    decreases counts.len(),
{
    if counts.len() == 0 {
        0
    } else {
        total(counts.drop_last()) + counts.last()
    }
}

/// The sum of nothing but zeros is zero.
proof fn lemma_total_zeros(len: nat)
    ensures
        total(Seq::new(len, |a: int| 0usize)) == 0,
    decreases len,
{
    if len > 0 {
        lemma_total_zeros((len - 1) as nat);
        assert(Seq::new(len, |a: int| 0usize).drop_last() =~= Seq::new(
            (len - 1) as nat,
            |a: int| 0usize,
        ));
    }
}

/// The sum after one of the counts has changed; and no count is more than the sum.
proof fn lemma_total_update(counts: Seq<usize>, a: int, count: usize)
    requires
        0 <= a < counts.len(),
    ensures
        total(counts.update(a, count)) == total(counts) - counts[a] + count,
        counts[a] <= total(counts),
    decreases counts.len(),
{
    let rest = counts.drop_last();
    lemma_total_nonnegative(rest);
    if a == counts.len() - 1 {
        assert(counts.update(a, count).drop_last() =~= rest);
    } else {
        lemma_total_update(rest, a, count);
        assert(counts.update(a, count).drop_last() =~= rest.update(a, count));
    }
}

/// A sum of counts is not negative.
proof fn lemma_total_nonnegative(counts: Seq<usize>)
    ensures
        total(counts) >= 0,
    decreases counts.len(),
{
    if counts.len() > 0 {
        lemma_total_nonnegative(counts.drop_last());
    }
}

/// What the tree keeps of a position.
pub struct Node<T> {
    /// The mask of the legal actions.
    pub valids: Vec<u8>,
    /// The priors of the actions, once the position has been expanded.
    pub priors: Option<Vec<T>>,
    /// How often a simulation has gone on from the position.
    pub visits: usize,
    /// How often each action has been taken from the position.
    pub action_visits: Vec<usize>,
    /// The mean of the values backed up through each action that has been taken.
    pub values: Vec<Option<T>>,
}

/// A [`Node`] as specifications see it.
pub struct NodeView<T> {
    pub valids: Seq<u8>,
    pub priors: Option<Seq<T>>,
    pub visits: usize,
    pub action_visits: Seq<usize>,
    pub values: Seq<Option<T>>,
}

impl<T> View for Node<T> {
    type V = NodeView<T>;

    open spec fn view(&self) -> NodeView<T> {
        NodeView {
            valids: self.valids@,
            priors: match self.priors {
                Some(p) => Some(p@),
                None => None,
            },
            visits: self.visits,
            action_visits: self.action_visits@,
            values: self.values@,
        }
    }
}

impl<T> NodeView<T> {
    /// The node of a position that has just been met: no priors, no visits, no values.
    pub open spec fn fresh(valids: Seq<u8>) -> NodeView<T> {
        NodeView {
            valids,
            priors: None,
            visits: 0,
            action_visits: Seq::new(valids.len(), |a: int| 0usize),
            values: Seq::new(valids.len(), |a: int| None),
        }
    }

    /// The node with its priors.
    pub open spec fn expanded(self, priors: Seq<T>) -> NodeView<T> {
        NodeView { priors: Some(priors), ..self }
    }

    /// The node after a value has been backed up through `action`: the position and the action
    /// have one visit more, and `value` is the mean value of the action.
    pub open spec fn backed_up(self, action: int, value: T) -> NodeView<T> {
        NodeView {
            visits: bumped(self.visits),
            action_visits: self.action_visits.update(action, bumped(self.action_visits[action])),
            values: self.values.update(action, Some(value)),
            ..self
        }
    }

    /// The node is a later state of the node `earlier`: the mask is the same, priors that were
    /// given are the same, and no count is lower.
    pub open spec fn extends(self, earlier: NodeView<T>) -> bool {
        &&& self.valids == earlier.valids
        &&& earlier.priors is Some ==> self.priors == earlier.priors
        &&& self.visits >= earlier.visits
        &&& self.action_visits.len() == earlier.action_visits.len()
        &&& forall|a: int|
            0 <= a < self.action_visits.len() ==> #[trigger] self.action_visits[a]
                >= earlier.action_visits[a]
    }

    /// The vectors of the node are over `count` actions; the position has been visited as often
    /// as its actions have been taken, unless the machine has stopped counting; an action that
    /// has been taken is legal and has a value, and the position has priors then; an action that
    /// has a value has been taken.
    pub open spec fn shaped(self, count: int) -> bool {
        &&& self.valids.len() == count
        &&& self.action_visits.len() == count
        &&& self.values.len() == count
        &&& self.priors matches Some(p) ==> p.len() == count
        &&& self.visits == usize::MAX || self.visits == total(self.action_visits)
        &&& forall|a: int|
            #![trigger self.action_visits[a]]
            0 <= a < count && self.action_visits[a] > 0 ==> self.valids[a] == 1
                && self.values[a] is Some && self.priors is Some
        &&& forall|a: int|
            #![trigger self.values[a]]
            0 <= a < count && self.values[a] is Some ==> self.action_visits[a] > 0
    }
}

/// What is kept of a position is written once, and its counts only grow: a node with priors is
/// a later state of the node without, and a node through which a value has been backed up is a
/// later state of the node before.
pub proof fn lemma_node_extends<T>(node: NodeView<T>, priors: Seq<T>, action: int, value: T)
    requires
        0 <= action < node.action_visits.len(),
    ensures
        node.priors is None ==> node.expanded(priors).extends(node),
        node.backed_up(action, value).extends(node),
        node.backed_up(action, value).action_visits[action] > 0,
        node.action_visits[action] < usize::MAX ==> node.backed_up(
            action,
            value,
        ).action_visits[action] == node.action_visits[action] + 1,
        node.visits < usize::MAX ==> node.backed_up(action, value).visits == node.visits + 1,
{
}

/// What a simulation finds at the position that it has reached.
pub enum Probe {
    /// The game has ended there; the value is how it stands for the player to move.
    Terminal(i8),
    /// The position has no priors yet. The mask of its legal actions comes with it.
    Leaf(Vec<u8>),
    /// The position has been expanded: its node says how to go on.
    Inner,
}

/// The step of a path that is backed up next: the action that was taken, how often it had been
/// taken before, its mean value until now, and how often the position had been visited.
pub struct Frame<T> {
    pub action: usize,
    pub action_visits: usize,
    pub value: Option<T>,
    pub visits: usize,
}

/// What a search gives for a position: at temperature `0` the action that gets all the weight,
/// one of those taken most often; at any other temperature the number of times that each action
/// was taken, which the temperature then shapes.
pub enum Weights {
    Pick(usize),
    Counts(Vec<usize>),
}

/// `a` is one of the actions that were taken most often.
pub open spec fn is_best(counts: Seq<usize>, a: int) -> bool {
    0 <= a < counts.len() && forall|b: int| 0 <= b < counts.len() ==> counts[b] <= counts[a]
}

/// The actions that were taken most often, in ascending order.
pub fn best_actions(counts: &Vec<usize>) -> (best: Vec<usize>)
    ensures
        forall|a: usize| #![trigger best@.contains(a)] best@.contains(a) <==> is_best(
            counts@,
            a as int,
        ),
        forall|i: int, j: int| 0 <= i < j < best.len() ==> best@[i] < best@[j],
        counts.len() > 0 ==> best.len() > 0,
{
    let mut max: usize = 0;
    let mut i: usize = 0;
    while i < counts.len()
        invariant
            i <= counts.len(),
            forall|b: int| 0 <= b < i ==> counts@[b] <= max,
            i > 0 ==> exists|b: int| 0 <= b < i && counts@[b] == max,
            i == 0 ==> max == 0,
        decreases counts.len() - i,
    {
        if counts[i] > max {
            max = counts[i];
        }
        proof {
            if counts@[i as int] != max {
                let b = choose|b: int| 0 <= b < i && counts@[b] == max;
                assert(0 <= b < i + 1 && counts@[b] == max);
            }
        }
        i += 1;
    }
    let mut best_as: Vec<usize> = Vec::new();
    let mut i: usize = 0;
    while i < counts.len()
        invariant
            i <= counts.len(),
            forall|b: int| 0 <= b < counts.len() ==> counts@[b] <= max,
            counts.len() > 0 ==> exists|b: int| 0 <= b < counts.len() && counts@[b] == max,
            forall|a: usize|
                #![trigger best_as@.contains(a)]
                best_as@.contains(a) <==> a < i && counts@[a as int] == max,
            forall|k: int, j: int| 0 <= k < j < best_as.len() ==> best_as@[k] < best_as@[j],
            forall|k: int| 0 <= k < best_as.len() ==> best_as@[k] < i,
        decreases counts.len() - i,
    {
        if counts[i] == max {
            let ghost before = best_as@;
            best_as.push(i);
            assert forall|a: usize|
                #![trigger best_as@.contains(a)]
                best_as@.contains(a) <==> a < i + 1 && counts@[a as int] == max by {
                assert(best_as@.last() == i);
                assert(forall|k: int| 0 <= k < before.len() ==> best_as@[k] == before[k]);
                if best_as@.contains(a) {
                    let k = choose|k: int| 0 <= k < best_as@.len() && best_as@[k] == a;
                    if k < before.len() {
                        assert(before[k] == a);
                        assert(before.contains(a));
                    }
                }
                if a < i && counts@[a as int] == max {
                    assert(before.contains(a));
                    let k = choose|k: int| 0 <= k < before.len() && before[k] == a;
                    assert(best_as@[k] == a);
                }
            }
        }
        i += 1;
    }
    proof {
        assert forall|a: usize| #![trigger best_as@.contains(a)] best_as@.contains(a) <==> is_best(
            counts@,
            a as int,
        ) by {
            if is_best(counts@, a as int) {
                let b = choose|b: int| 0 <= b < counts.len() && counts@[b] == max;
                assert(counts@[b] <= counts@[a as int]);
            }
        }
        if counts.len() > 0 {
            let b = choose|b: int| 0 <= b < counts.len() && counts@[b] == max;
            assert(best_as@.contains(b as usize));
        }
    }
    best_as
}

/// The tree of a search over the positions of `game`.
#[verifier::reject_recursive_types(T)]
pub struct MCTS<G: Game, T: Copy> {
    game: G,
    es: StringHashMap<i8>,
    nodes: StringHashMap<Node<T>>,
    path: Vec<(String, usize)>,
    cursor: Vec<i8>,
}

impl<G: Game, T: Copy> MCTS<G, T> {
    /// The game.
    pub closed spec fn game(&self) -> G {
        self.game
    }

    /// For the keys of the positions that a simulation has reached: how the game stands there
    /// for the player to move, `0` while it goes on.
    pub closed spec fn ended(&self) -> Map<Seq<char>, i8> {
        self.es@
    }

    /// The nodes, under the keys of their positions.
    pub closed spec fn nodes(&self) -> Map<Seq<char>, NodeView<T>> {
        Map::new(|k: Seq<char>| self.nodes@.contains_key(k), |k: Seq<char>| self.nodes@[k]@)
    }

    /// The path of the simulation: the key of each position that it has left, with the action
    /// by which it left.
    pub closed spec fn trail(&self) -> Seq<(Seq<char>, usize)> {
        Seq::new(self.path@.len(), |i: int| (self.path@[i].0@, self.path@[i].1))
    }

    /// The position that the simulation has reached, as the player to move sees it.
    pub closed spec fn tip(&self) -> Seq<i8> {
        self.cursor@
    }

    /// How often each action has been taken from `board`.
    pub open spec fn visit_counts(&self, board: Seq<i8>) -> Seq<usize> {
        if self.nodes().contains_key(self.game().key(board)) {
            self.nodes()[self.game().key(board)].action_visits
        } else {
            Seq::new(self.game().action_count() as nat, |a: int| 0usize)
        }
    }

    /// The key of the position that the simulation has reached.
    pub open spec fn tip_key(&self) -> Seq<char> {
        self.game().key(self.tip())
    }

    /// The tree is in order: what it keeps under a key is true of the position with that key,
    /// every node is shaped, and the path goes through expanded positions by legal actions.
    pub closed spec fn wf(&self) -> bool {
        &&& self.game.inv()
        &&& self.game.is_board(self.cursor@)
        &&& forall|board: Seq<i8>|
            #![trigger self.game.key(board)]
            self.game.is_board(board) && self.es@.contains_key(self.game.key(board))
                ==> self.es@[self.game.key(board)] == self.game.outcome(board, 1)
        &&& forall|board: Seq<i8>|
            #![trigger self.game.key(board)]
            self.game.is_board(board) && self.nodes@.contains_key(self.game.key(board))
                ==> self.game.outcome(board, 1) == 0 && self.nodes@[self.game.key(board)].valids@
                == mask(self.game, board)
        &&& forall|k: Seq<char>|
            #![trigger self.nodes@[k]]
            self.nodes@.contains_key(k) ==> self.nodes@[k]@.shaped(self.game.action_count())
        &&& forall|i: int|
            #![trigger self.path@[i]]
            0 <= i < self.path@.len() ==> self.nodes@.contains_key(self.path@[i].0@)
                && self.path@[i].1 < self.game.action_count()
                && self.nodes@[self.path@[i].0@].valids@[self.path@[i].1 as int] == 1
                && self.nodes@[self.path@[i].0@].priors is Some
    }

    /// What being in order means for those who see the tree from outside.
    pub proof fn lemma_wf(&self)
        requires
            self.wf(),
        ensures
            self.game().inv(),
            self.game().is_board(self.tip()),
            self.ended().contains_key(self.tip_key()) ==> self.ended()[self.tip_key()]
                == self.game().outcome(self.tip(), 1),
            self.nodes().contains_key(self.tip_key()) ==> self.game().outcome(self.tip(), 1) == 0
                && self.nodes()[self.tip_key()].valids == mask(self.game(), self.tip()),
            forall|k: Seq<char>|
                #![trigger self.nodes()[k]]
                self.nodes().contains_key(k) ==> self.nodes()[k].shaped(
                    self.game().action_count(),
                ),
            forall|i: int|
                #![trigger self.trail()[i]]
                0 <= i < self.trail().len() ==> self.nodes().contains_key(self.trail()[i].0)
                    && self.trail()[i].1 < self.game().action_count()
                    && self.nodes()[self.trail()[i].0].valids[self.trail()[i].1 as int] == 1
                    && self.nodes()[self.trail()[i].0].priors is Some,
    {
        assert forall|i: int|
            #![trigger self.trail()[i]]
            0 <= i < self.trail().len() implies self.nodes().contains_key(self.trail()[i].0)
            && self.trail()[i].1 < self.game().action_count()
            && self.nodes()[self.trail()[i].0].valids[self.trail()[i].1 as int] == 1
            && self.nodes()[self.trail()[i].0].priors is Some by {
            let f = self.path@[i];
            assert(self.nodes@.contains_key(f.0@));
        }
    }

    /// An empty tree for `game`, with a simulation at the starting position.
    pub fn new(game: G) -> (tree: Self)
        requires
            game.inv(),
        ensures
            tree.wf(),
            tree.game() == game,
            tree.ended() == Map::<Seq<char>, i8>::empty(),
            tree.nodes() == Map::<Seq<char>, NodeView<T>>::empty(),
            tree.trail() == Seq::<(Seq<char>, usize)>::empty(),
            tree.tip() == game.start(),
    {
        let cursor = copied(game.get_init_board());
        let tree = MCTS {
            game,
            es: StringHashMap::new(),
            nodes: StringHashMap::new(),
            path: Vec::new(),
            cursor,
        };
        assert(tree.nodes() =~= Map::<Seq<char>, NodeView<T>>::empty());
        assert(tree.trail() =~= Seq::<(Seq<char>, usize)>::empty());
        tree
    }

    /// Starts a simulation at `canonical_board`. What the tree has learnt stays.
    pub fn begin(&mut self, canonical_board: &Vec<i8>)
        requires
            old(self).wf(),
            old(self).game().is_board(canonical_board@),
        ensures
            final(self).wf(),
            final(self).game() == old(self).game(),
            final(self).ended() == old(self).ended(),
            final(self).nodes() == old(self).nodes(),
            final(self).trail() == Seq::<(Seq<char>, usize)>::empty(),
            final(self).tip() == canonical_board@,
    {
        self.path = Vec::new();
        self.cursor = copied(canonical_board);
        assert(self.trail() =~= Seq::<(Seq<char>, usize)>::empty());
    }

    /// Looks at the position that the simulation has reached. Whether the game has ended there
    /// is remembered under the key of the position. A position at which the game goes on and
    /// which is met for the first time gets a node, with the mask of its legal actions.
    pub fn probe(&mut self) -> (r: Probe)
        requires
            old(self).wf(),
        ensures
            final(self).wf(),
            final(self).game() == old(self).game(),
            final(self).trail() == old(self).trail(),
            final(self).tip() == old(self).tip(),
            final(self).ended() == old(self).ended().insert(
                old(self).tip_key(),
                old(self).game().outcome(old(self).tip(), 1) as i8,
            ),
            match r {
                Probe::Terminal(v) => v != 0 && v == old(self).game().outcome(old(self).tip(), 1)
                    && final(self).nodes() == old(self).nodes(),
                Probe::Leaf(valids) => old(self).game().outcome(old(self).tip(), 1) == 0
                    && valids@ == mask(old(self).game(), old(self).tip()) && (old(
                    self,
                ).nodes().contains_key(old(self).tip_key()) ==> old(self).nodes()[old(
                    self,
                ).tip_key()].priors is None) && final(self).nodes() == old(self).nodes().insert(
                    old(self).tip_key(),
                    if old(self).nodes().contains_key(old(self).tip_key()) {
                        old(self).nodes()[old(self).tip_key()]
                    } else {
                        NodeView::fresh(mask(old(self).game(), old(self).tip()))
                    },
                ),
                Probe::Inner => old(self).game().outcome(old(self).tip(), 1) == 0 && old(
                    self,
                ).nodes().contains_key(old(self).tip_key()) && old(self).nodes()[old(
                    self,
                ).tip_key()].priors is Some && final(self).nodes() == old(self).nodes(),
            },
    {
        let ghost tip = self.cursor@;
        let s = self.game.string_representation(&self.cursor);
        let known = match self.es.get(s.as_str()) {
            Some(e) => Some(*e),
            None => None,
        };
        let ended = match known {
            Some(e) => {
                assert(self.ended() =~= old(self).ended().insert(s@, e));
                e
            },
            None => {
                let e = self.game.get_game_ended(&self.cursor, 1);
                self.es.insert(s.clone(), e);
                assert forall|board: Seq<i8>|
                    #![trigger self.game.key(board)]
                    self.game.is_board(board) && self.es@.contains_key(
                        self.game.key(board),
                    ) implies self.es@[self.game.key(board)] == self.game.outcome(board, 1) by {
                    if self.game.key(board) == s@ {
                        self.game.lemma_key(board, tip);
                    }
                }
                e
            },
        };
        if ended != 0 {
            assert(self.nodes() =~= old(self).nodes());
            return Probe::Terminal(ended);
        }
        let known = match self.nodes.get(s.as_str()) {
            Some(node) => Some((node.priors.is_some(), copied(&node.valids))),
            None => None,
        };
        match known {
            Some((expanded, valids)) => {
                if expanded {
                    assert(self.nodes() =~= old(self).nodes());
                    Probe::Inner
                } else {
                    assert(self.nodes() =~= old(self).nodes().insert(s@, old(self).nodes()[s@]));
                    Probe::Leaf(valids)
                }
            },
            None => {
                let valids = self.game.get_valid_moves(&self.cursor, 1);
                let size = valids.len();
                let node = Node {
                    valids: copied(&valids),
                    priors: None,
                    visits: 0,
                    action_visits: filled(size, 0),
                    values: filled(size, None),
                };
                assert(valids@ =~= mask(self.game, tip));
                assert(node@ == NodeView::<T>::fresh(mask(self.game, tip)));
                proof {
                    lemma_total_zeros(size as nat);
                }
                self.nodes.insert(s, node);
                assert forall|board: Seq<i8>|
                    #![trigger self.game.key(board)]
                    self.game.is_board(board) && self.nodes@.contains_key(
                        self.game.key(board),
                    ) implies self.game.outcome(board, 1) == 0 && self.nodes@[self.game.key(
                    board,
                )].valids@ == mask(self.game, board) by {
                    if self.game.key(board) == self.game.key(tip) {
                        self.game.lemma_key(board, tip);
                    }
                }
                assert(self.nodes() =~= old(self).nodes().insert(
                    old(self).tip_key(),
                    NodeView::<T>::fresh(mask(self.game, tip)),
                ));
                Probe::Leaf(valids)
            },
        }
    }

    /// Gives the position that the simulation has reached its priors. That is done once for a
    /// position, after [`MCTS::probe`] has found it a leaf: the answer is `false`, and nothing
    /// changes, where the position has no node, where it has priors already, and where `priors`
    /// is not a vector over the actions.
    pub fn expand(&mut self, priors: Vec<T>) -> (done: bool)
        requires
            old(self).wf(),
        ensures
            final(self).wf(),
            final(self).game() == old(self).game(),
            final(self).trail() == old(self).trail(),
            final(self).tip() == old(self).tip(),
            final(self).ended() == old(self).ended(),
            done == (old(self).nodes().contains_key(old(self).tip_key()) && old(self).nodes()[old(
                self,
            ).tip_key()].priors is None && priors.len() == old(self).game().action_count()),
            final(self).nodes() == if done {
                old(self).nodes().insert(
                    old(self).tip_key(),
                    old(self).nodes()[old(self).tip_key()].expanded(priors@),
                )
            } else {
                old(self).nodes()
            },
    {
        let ghost tip = self.cursor@;
        let s = self.game.string_representation(&self.cursor);
        let size = self.game.get_action_size();
        let found = match self.nodes.get(s.as_str()) {
            Some(node) => if node.priors.is_none() && priors.len() == size {
                Some(
                    (
                        copied(&node.valids),
                        node.visits,
                        copied(&node.action_visits),
                        copied(&node.values),
                    ),
                )
            } else {
                None
            },
            None => None,
        };
        match found {
            Some((valids, visits, action_visits, values)) => {
                let ghost before = self.nodes@[s@];
                let node = Node { valids, priors: Some(priors), visits, action_visits, values };
                assert(node@ == before@.expanded(priors@));
                self.nodes.insert(s, node);
                assert forall|board: Seq<i8>|
                    #![trigger self.game.key(board)]
                    self.game.is_board(board) && self.nodes@.contains_key(
                        self.game.key(board),
                    ) implies self.game.outcome(board, 1) == 0 && self.nodes@[self.game.key(
                    board,
                )].valids@ == mask(self.game, board) by {
                    assert(old(self).nodes@.contains_key(self.game.key(board)));
                }
                assert(self.nodes() =~= old(self).nodes().insert(
                    old(self).tip_key(),
                    old(self).nodes()[old(self).tip_key()].expanded(priors@),
                ));
                true
            },
            None => {
                assert(self.nodes() =~= old(self).nodes());
                false
            },
        }
    }

    /// The position that the simulation has reached, as the player to move sees it.
    pub fn board(&self) -> (board: &Vec<i8>)
        ensures
            board@ == self.tip(),
    {
        &self.cursor
    }

    /// The node of the position that the simulation has reached, where it has one.
    pub fn node(&self) -> (r: Option<&Node<T>>)
        requires
            self.wf(),
        ensures
            match r {
                Some(node) => self.nodes().contains_key(self.tip_key()) && node@
                    == self.nodes()[self.tip_key()],
                None => !self.nodes().contains_key(self.tip_key()),
            },
    {
        let s = self.game.string_representation(&self.cursor);
        self.nodes.get(s.as_str())
    }

    /// Goes on by `action` from the position that the simulation has reached, to the position
    /// that follows as the next player sees it. The answer is `false`, and nothing changes,
    /// where the position has not been expanded and where `action` is not legal there. Each
    /// step brings the end of the game nearer: a simulation does not go on for ever.
    pub fn follow(&mut self, action: usize) -> (done: bool)
        requires
            old(self).wf(),
        ensures
            final(self).wf(),
            done ==> old(self).game().turns_left(final(self).tip(), 1) < old(
                self,
            ).game().turns_left(old(self).tip(), 1),
            final(self).game() == old(self).game(),
            final(self).ended() == old(self).ended(),
            final(self).nodes() == old(self).nodes(),
            done == (old(self).nodes().contains_key(old(self).tip_key()) && old(self).nodes()[old(
                self,
            ).tip_key()].priors is Some && old(self).game().legal(
                old(self).tip(),
                1,
                action as int,
            )),
            final(self).trail() == if done {
                old(self).trail().push((old(self).tip_key(), action))
            } else {
                old(self).trail()
            },
            final(self).tip() == if done {
                old(self).game().canonical(
                    old(self).game().next(old(self).tip(), 1, action as int),
                    -1,
                )
            } else {
                old(self).tip()
            },
    {
        let ghost tip = self.cursor@;
        let s = self.game.string_representation(&self.cursor);
        let size = self.game.get_action_size();
        let open = match self.nodes.get(s.as_str()) {
            Some(node) => node.priors.is_some() && action < size && node.valids[action] != 0,
            None => false,
        };
        proof {
            if self.game.legal(tip, 1, action as int) {
                self.game.lemma_turn(tip, 1, action as int);
            }
        }
        if !open {
            return false;
        }
        let next_state = self.game.get_next_state(&self.cursor, 1, action as u8);
        proof {
            self.game.lemma_canonical(next_state.0@, -1);
        }
        let next_s = self.game.get_canonical_form(&next_state.0, next_state.1);
        self.path.push((s, action));
        self.cursor = next_s;
        assert(self.trail() =~= old(self).trail().push((old(self).tip_key(), action)));
        assert(self.nodes() =~= old(self).nodes());
        true
    }

    /// The step that is backed up next: the last one of the path. `None` where the path is
    /// empty.
    pub fn pending(&self) -> (r: Option<Frame<T>>)
        requires
            self.wf(),
        ensures
            match r {
                Some(frame) => self.trail().len() > 0 && {
                    let (key, action) = self.trail().last();
                    &&& self.nodes().contains_key(key)
                    &&& frame.action == action
                    &&& action < self.nodes()[key].action_visits.len()
                    &&& frame.action_visits == self.nodes()[key].action_visits[action as int]
                    &&& frame.value == self.nodes()[key].values[action as int]
                    &&& frame.visits == self.nodes()[key].visits
                },
                None => self.trail().len() == 0,
            },
    {
        let len = self.path.len();
        if len == 0 {
            return None;
        }
        let action = self.path[len - 1].1;
        assert(self.trail().last() == (self.path@[len - 1].0@, action));
        match self.nodes.get(self.path[len - 1].0.as_str()) {
            Some(node) => Some(
                Frame {
                    action,
                    action_visits: node.action_visits[action],
                    value: node.values[action],
                    visits: node.visits,
                },
            ),
            None => None,
        }
    }

    /// How often each action has been taken from `canonical_board`: nothing but zeros for a
    /// position that no simulation has reached.
    pub fn counts(&self, canonical_board: &Vec<i8>) -> (counts: Vec<usize>)
        requires
            self.wf(),
            self.game().is_board(canonical_board@),
        ensures
            counts@ == self.visit_counts(canonical_board@),
            counts.len() == self.game().action_count(),
    {
        let s = self.game.string_representation(canonical_board);
        let size = self.game.get_action_size();
        match self.nodes.get(s.as_str()) {
            Some(node) => copied(&node.action_visits),
            None => filled(size, 0),
        }
    }

    /// What the search gives for `canonical_board` at temperature `temp`: at `0` one of the
    /// actions that were taken most often, picked at random among them; at any other temperature
    /// the number of times that each action was taken.
    pub fn get_action_prob(&self, canonical_board: &Vec<i8>, temp: u8) -> (weights: Weights)
        requires
            self.wf(),
            self.game().is_board(canonical_board@),
        ensures
            match weights {
                Weights::Pick(a) => temp == 0 && is_best(
                    self.visit_counts(canonical_board@),
                    a as int,
                ),
                Weights::Counts(counts) => temp != 0 && counts@ == self.visit_counts(
                    canonical_board@,
                ),
            },
    {
        let counts = self.counts(canonical_board);
        if temp == 0 {
            proof {
                self.game.lemma_some_action(canonical_board@, 1);
            }
            let best_as = best_actions(&counts);
            assert(best_as@.contains(best_as@[0]));
            let best_a = match pick(&best_as) {
                Some(a) => a,
                None => best_as[0],
            };
            return Weights::Pick(best_a);
        }
        Weights::Counts(counts)
    }

    /// Backs a value up through the last step of the path: `value` becomes the mean value of
    /// the step's action, the action and its position have one visit more, and the step leaves
    /// the path. The answer is `false`, and nothing changes, where the path is empty.
    pub fn backup(&mut self, value: T) -> (done: bool)
        requires
            old(self).wf(),
        ensures
            final(self).wf(),
            final(self).game() == old(self).game(),
            final(self).ended() == old(self).ended(),
            final(self).tip() == old(self).tip(),
            done == (old(self).trail().len() > 0),
            final(self).trail() == if done {
                old(self).trail().drop_last()
            } else {
                old(self).trail()
            },
            final(self).nodes() == if done {
                old(self).nodes().insert(
                    old(self).trail().last().0,
                    old(self).nodes()[old(self).trail().last().0].backed_up(
                        old(self).trail().last().1 as int,
                        value,
                    ),
                )
            } else {
                old(self).nodes()
            },
    {
        let len = self.path.len();
        if len == 0 {
            assert(self.nodes() =~= old(self).nodes());
            return false;
        }
        let ghost last = self.path@[len - 1];
        assert(old(self).trail().last() == (last.0@, last.1));
        let action = self.path[len - 1].1;
        let updated = match self.nodes.get(self.path[len - 1].0.as_str()) {
            Some(node) => {
                let count = node.action_visits[action];
                Some(
                    Node {
                        valids: copied(&node.valids),
                        priors: match &node.priors {
                            Some(p) => Some(copied(p)),
                            None => None,
                        },
                        visits: if node.visits < usize::MAX {
                            node.visits + 1
                        } else {
                            node.visits
                        },
                        action_visits: with_item(
                            &node.action_visits,
                            action,
                            if count < usize::MAX {
                                count + 1
                            } else {
                                count
                            },
                        ),
                        values: with_item(&node.values, action, Some(value)),
                    },
                )
            },
            None => None,
        };
        match updated {
            Some(node) => {
                let ghost before = self.nodes@[last.0@];
                assert(node@ == before@.backed_up(action as int, value));
                proof {
                    lemma_total_update(
                        before@.action_visits,
                        action as int,
                        bumped(before@.action_visits[action as int]),
                    );
                }
                assert(node@.shaped(self.game.action_count()));
                match self.path.pop() {
                    Some(frame) => {
                        self.nodes.insert(frame.0, node);
                    },
                    None => {},
                }
                assert forall|board: Seq<i8>|
                    #![trigger self.game.key(board)]
                    self.game.is_board(board) && self.nodes@.contains_key(
                        self.game.key(board),
                    ) implies self.game.outcome(board, 1) == 0 && self.nodes@[self.game.key(
                    board,
                )].valids@ == mask(self.game, board) by {
                    assert(old(self).nodes@.contains_key(self.game.key(board)));
                }
                assert forall|i: int|
                    #![trigger self.path@[i]]
                    0 <= i < self.path@.len() implies self.nodes@.contains_key(self.path@[i].0@)
                    && self.path@[i].1 < self.game.action_count()
                    && self.nodes@[self.path@[i].0@].valids@[self.path@[i].1 as int] == 1
                    && self.nodes@[self.path@[i].0@].priors is Some by {
                    assert(self.path@[i] == old(self).path@[i]);
                }
                assert(self.trail() =~= old(self).trail().drop_last());
                assert(self.nodes() =~= old(self).nodes().insert(
                    old(self).trail().last().0,
                    old(self).nodes()[old(self).trail().last().0].backed_up(
                        old(self).trail().last().1 as int,
                        value,
                    ),
                ));
                true
            },
            None => {
                assert(false);
                false
            },
        }
    }
}

} // verus!
