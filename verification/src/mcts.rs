//! Information-set Monte Carlo tree search: one tree per player, grown by playouts
//! on random determinizations of the hidden information.
use crate::deck::{std_rng_below, std_rng_from_entropy};
use rand::rngs::StdRng;
use rand_xorshift::XorShiftRng;
use vstd::prelude::*;

verus! {

/// A game the search can play.
pub trait GameState: Sized {
    type Move;
    type Player: Copy;
    type Knowledge;

    /// The player to move.
    fn current_player(&self) -> Self::Player;

    /// The number of a player, below four.
    fn player_index(player: Self::Player) -> usize;

    /// The player of a number below four.
    fn player_from_index(i: usize) -> Self::Player;

    /// The moves the player to move may make.
    fn legal_moves(&self) -> Vec<Self::Move>;

    /// Plays a move.
    fn make_move(&mut self, mv: &Self::Move);

    /// Draws the information `observer` cannot see anew, consistent with `knowledge`.
    fn randomize_determination(&mut self, observer: Self::Player, knowledge: &Self::Knowledge);

    /// Brings `knowledge` up to date with a move about to be played.
    fn update_knowledge(&self, mv: &Self::Move, knowledge: &mut Self::Knowledge);

    /// What `observer` knows at the start of a game.
    fn new_knowledge(&self, observer: Self::Player) -> Self::Knowledge;

    /// What `observer` knows of this state.
    fn knowledge_from_state(&self, observer: Self::Player) -> Self::Knowledge;

    /// A copy of the state.
    fn duplicate(&self) -> Self;

    /// A copy of a move.
    fn copy_move(mv: &Self::Move) -> (r: Self::Move)
        ensures
            r == *mv,
    ;

    /// Both moves are the same.
    fn same_move(a: &Self::Move, b: &Self::Move) -> (r: bool)
        ensures
            r == (*a == *b),
    ;
}

/// How a state is scored.
pub trait Evaluator<S: GameState> {
    type StateEval;

    /// The score of a new state.
    fn eval_new(&self, state: &S) -> Self::StateEval;

    /// The score of a state already scored before.
    fn eval_existing(&self, state: &S, existing: &Self::StateEval) -> Self::StateEval;

    /// The score from the point of view of `player`.
    fn make_relative(&self, eval: &Self::StateEval, player: S::Player) -> i64;
}

/// How the search picks among moves that were all tried before.
pub trait Policy {
    type ThreadLocalData;

    /// Fresh data for one searching thread.
    fn new_thread_data() -> Self::ThreadLocalData;

    /// The index of the chosen candidate; each candidate is given by its visits,
    /// availability and sum of rewards.
    fn choose_move(&self, candidates: &Vec<(u64, u64, i64)>, data: &mut Self::ThreadLocalData) -> usize;
}

/// The settings of a search and the game it plays.
pub trait MCTS: Sized {
    type State: GameState;
    type Eval: Evaluator<Self::State>;
    type Select: Policy;

    /// Score taken off a move while a playout goes through it.
    fn virtual_loss(&self) -> (r: i64)
        default_ensures
            r == 0,
    {
        0
    }

    /// Most nodes the trees may hold.
    fn node_limit(&self) -> (r: usize)
        default_ensures
            r == usize::MAX,
    {
        usize::MAX
    }

    /// Visits a node needs before it is expanded.
    fn visits_before_expansion(&self) -> (r: u64)
        default_ensures
            r == 1,
    {
        1
    }

    /// Longest playout.
    fn max_playout_length(&self) -> (r: usize)
        default_ensures
            r == 1_000,
    {
        1_000
    }
}

/// The per-thread data of a search.
pub struct ThreadData<M: MCTS> {
    pub policy_data: <M::Select as Policy>::ThreadLocalData,
}

impl<M: MCTS> ThreadData<M> {
    pub fn new() -> Self {
        Self { policy_data: M::Select::new_thread_data() }
    }
}

/// Counters of a move or node: visits, how often the move was available, and the sum
/// of the rewards seen through it. They wrap around like the machine integers.
#[derive(Clone, Copy)]
pub struct Stats {
    visits: u64,
    availability_count: u64,
    sum_evaluations: i64,
}

impl Stats {
    pub closed spec fn visits_spec(&self) -> u64 {
        self.visits
    }

    pub closed spec fn availability_spec(&self) -> u64 {
        self.availability_count
    }

    pub closed spec fn sum_spec(&self) -> i64 {
        self.sum_evaluations
    }

    /// All counters at zero.
    pub fn new() -> (r: Self)
        ensures
            r.visits_spec() == 0,
            r.availability_spec() == 0,
            r.sum_spec() == 0,
    {
        Self { visits: 0, availability_count: 0, sum_evaluations: 0 }
    }

    pub fn visits(&self) -> (r: u64)
        ensures
            r == self.visits_spec(),
    {
        self.visits
    }

    pub fn availability(&self) -> (r: u64)
        ensures
            r == self.availability_spec(),
    {
        self.availability_count
    }

    pub fn sum_rewards(&self) -> (r: i64)
        ensures
            r == self.sum_spec(),
    {
        self.sum_evaluations
    }

    /// The move was available once more.
    pub fn increment_available(&mut self)
        ensures
            final(self).availability_spec() == vstd::wrapping::u64_specs::wrapping_add(old(self).availability_spec(), 1),
            final(self).visits_spec() == old(self).visits_spec(),
            final(self).sum_spec() == old(self).sum_spec(),
    {
        self.availability_count = self.availability_count.wrapping_add(1);
    }

    /// A playout goes down through this move: one visit more, and the virtual loss
    /// taken off the rewards until the playout comes back.
    pub fn down(&mut self, virtual_loss: i64)
        ensures
            final(self).visits_spec() == vstd::wrapping::u64_specs::wrapping_add(old(self).visits_spec(), 1),
            final(self).sum_spec() == vstd::wrapping::i64_specs::wrapping_sub(old(self).sum_spec(), virtual_loss),
            final(self).availability_spec() == old(self).availability_spec(),
    {
        self.sum_evaluations = self.sum_evaluations.wrapping_sub(virtual_loss);
        self.visits = self.visits.wrapping_add(1);
    }

    /// A playout comes back with reward `eval`: the reward is added and the virtual
    /// loss given back.
    pub fn up(&mut self, virtual_loss: i64, eval: i64)
        ensures
            final(self).sum_spec() == vstd::wrapping::i64_specs::wrapping_add(
                old(self).sum_spec(),
                vstd::wrapping::i64_specs::wrapping_add(eval, virtual_loss),
            ),
            final(self).visits_spec() == old(self).visits_spec(),
            final(self).availability_spec() == old(self).availability_spec(),
    {
        let delta = eval.wrapping_add(virtual_loss);
        self.sum_evaluations = self.sum_evaluations.wrapping_add(delta);
    }

    /// Takes over the visits and the rewards of `other`, keeping the availability.
    pub fn replace(&mut self, other: &Stats)
        ensures
            final(self).visits_spec() == other.visits_spec(),
            final(self).sum_spec() == other.sum_spec(),
            final(self).availability_spec() == old(self).availability_spec(),
    {
        self.visits = other.visits;
        self.sum_evaluations = other.sum_evaluations;
    }
}

impl Default for Stats {
    /// All counters at zero.
    fn default() -> (r: Self)
        ensures
            r.visits_spec() == 0,
            r.availability_spec() == 0,
            r.sum_spec() == 0,
    {
        Self::new()
    }
}

/// A playout that goes down through a move with a virtual loss and comes back with a
/// reward adds just the reward to the move's sum: the virtual loss is given back.
pub proof fn law_virtual_loss_returned(sum: i64, virtual_loss: i64, eval: i64)
    ensures
        vstd::wrapping::i64_specs::wrapping_add(
            vstd::wrapping::i64_specs::wrapping_sub(sum, virtual_loss),
            vstd::wrapping::i64_specs::wrapping_add(eval, virtual_loss),
        ) == vstd::wrapping::i64_specs::wrapping_add(sum, eval),
{
}

/// The move of a search.
pub type Move<M> = <<M as MCTS>::State as GameState>::Move;

/// The player of a search.
pub type Player<M> = <<M as MCTS>::State as GameState>::Player;

/// What a player of a search knows.
pub type Knowledge<M> = <<M as MCTS>::State as GameState>::Knowledge;

/// The score of a state in a search.
pub type StateEval<M> = <<M as MCTS>::Eval as Evaluator<<M as MCTS>::State>>::StateEval;

/// A move out of a node: the move, the node it leads to once expanded (by its
/// number in the tree) and its counters.
pub struct MoveInfo<M: MCTS> {
    pub mv: Move<M>,
    pub child: Option<usize>,
    pub stats: Stats,
}

impl<M: MCTS> MoveInfo<M> {
    /// A move not expanded yet, with its counters at zero.
    pub fn new(mv: Move<M>) -> (r: Self)
        ensures
            r.mv == mv,
            r.child is None,
            r.stats.visits_spec() == 0,
            r.stats.availability_spec() == 0,
            r.stats.sum_spec() == 0,
    {
        Self { mv, child: None, stats: Stats::new() }
    }

    pub fn get_move(&self) -> (r: &Move<M>)
        ensures
            *r == self.mv,
    {
        &self.mv
    }

    pub fn visits(&self) -> (r: u64)
        ensures
            r == self.stats.visits_spec(),
    {
        self.stats.visits()
    }

    pub fn availability(&self) -> (r: u64)
        ensures
            r == self.stats.availability_spec(),
    {
        self.stats.availability()
    }

    pub fn sum_rewards(&self) -> (r: i64)
        ensures
            r == self.stats.sum_spec(),
    {
        self.stats.sum_rewards()
    }

    /// The number of the node the move leads to, once expanded.
    pub fn child(&self) -> (r: Option<usize>)
        ensures
            r == self.child,
    {
        self.child
    }
}

/// A node of a tree: the moves tried from it, its score and its counters.
pub struct Node<M: MCTS> {
    pub moves: Vec<MoveInfo<M>>,
    pub eval: StateEval<M>,
    pub stats: Stats,
}

impl<M: MCTS> Node<M> {
    /// A node with no move tried yet, scored by `eval`.
    pub fn new(eval: &M::Eval, state: &M::State) -> (r: Node<M>)
        ensures
            r.moves@.len() == 0,
            r.stats.visits_spec() == 0,
            r.stats.availability_spec() == 0,
            r.stats.sum_spec() == 0,
    {
        Self { moves: Vec::new(), eval: eval.eval_new(state), stats: Stats::new() }
    }
}

/// A view of one node.
pub struct NodeHandle<'a, M: MCTS> {
    pub node: &'a Node<M>,
}

impl<'a, M: MCTS> NodeHandle<'a, M> {
    /// Copies of the moves tried from the node, in the order they were first tried.
    pub fn moves(&self) -> (r: Vec<Move<M>>)
        ensures
            r@.len() == self.node.moves@.len(),
            forall|i: int| 0 <= i < r@.len() ==> #[trigger] r@[i] == self.node.moves@[i].mv,
    {
        let mut r: Vec<Move<M>> = Vec::new();
        let mut i: usize = 0;
        while i < self.node.moves.len()
            invariant
                i <= self.node.moves@.len(),
                r@.len() == i,
                forall|k: int| 0 <= k < i ==> #[trigger] r@[k] == self.node.moves@[k].mv,
            decreases self.node.moves@.len() - i,
        {
            r.push(M::State::copy_move(&self.node.moves[i].mv));
            i = i + 1;
        }
        r
    }
}

/// The last of the most visited allowed moves, given each move's visits and whether
/// it is allowed; none when no move is allowed.
pub fn most_visited(visits: &Vec<u64>, allowed: &Vec<bool>) -> (r: Option<usize>)
    requires
        visits@.len() == allowed@.len(),
    ensures
        r is None <==> forall|j: int| 0 <= j < allowed@.len() ==> !allowed@[j],
        r matches Some(b) ==> {
            &&& b < allowed@.len()
            &&& allowed@[b as int]
            &&& forall|j: int| 0 <= j < allowed@.len() && allowed@[j] ==> visits@[j] <= visits@[b as int]
            &&& forall|j: int| b < j < allowed@.len() && allowed@[j] ==> visits@[j] < visits@[b as int]
        },
{
    let mut best: Option<usize> = None;
    let mut best_visits: u64 = 0;
    let mut j: usize = 0;
    while j < visits.len()
        invariant
            j <= visits@.len(),
            visits@.len() == allowed@.len(),
            best is None <==> forall|i: int| 0 <= i < j ==> !allowed@[i],
            best matches Some(b) ==> {
                &&& b < j
                &&& allowed@[b as int]
                &&& best_visits == visits@[b as int]
                &&& forall|i: int| 0 <= i < j && allowed@[i] ==> visits@[i] <= visits@[b as int]
                &&& forall|i: int| b < i < j && allowed@[i] ==> visits@[i] < visits@[b as int]
            },
        decreases visits@.len() - j,
    {
        if allowed[j] {
            let v = visits[j];
            if best.is_none() || v >= best_visits {
                best = Some(j);
                best_visits = v;
            }
        }
        j = j + 1;
    }
    best
}

/// The number of the first move of `node` that is `mv`; none when no move is.
pub open spec fn first_move_of<M: MCTS>(node: Node<M>, mv: Move<M>) -> Option<usize> {
    if exists|j: int| 0 <= j < node.moves@.len() && (#[trigger] node.moves@[j]).mv == mv {
        Some(
            (choose|j: int|
                0 <= j < node.moves@.len() && (#[trigger] node.moves@[j]).mv == mv && forall|i: int|
                    0 <= i < j ==> (#[trigger] node.moves@[i]).mv != mv) as usize,
        )
    } else {
        None
    }
}

/// Move `j` of `node` is the first that is `mv`.
proof fn lemma_first_move<M: MCTS>(node: Node<M>, mv: Move<M>, j: int)
    requires
        0 <= j < node.moves@.len(),
        node.moves@[j].mv == mv,
        forall|i: int| 0 <= i < j ==> (#[trigger] node.moves@[i]).mv != mv,
    ensures
        first_move_of(node, mv) == Some(j as usize),
{
    assert(0 <= j < node.moves@.len() && (node.moves@[j]).mv == mv && forall|i: int| 0 <= i < j ==> (#[trigger] node.moves@[i]).mv != mv);
    let c = choose|c: int|
        0 <= c < node.moves@.len() && (#[trigger] node.moves@[c]).mv == mv && forall|i: int|
            0 <= i < c ==> (#[trigger] node.moves@[i]).mv != mv;
    if c < j {
        assert(node.moves@[c].mv != mv);
    }
    if c > j {
        assert(node.moves@[j].mv != mv);
    }
}

/// The tree of `player`: its number, where that is below four, else the first.
fn slot_of<M: MCTS>(player: Player<M>) -> (r: usize)
    ensures
        r < 4,
{
    let i = <M::State as GameState>::player_index(player);
    if i < 4 {
        i
    } else {
        0
    }
}

/// Every move of every node leads, once expanded, to a node of the arena made after it.
pub open spec fn children_ok<M: MCTS>(nodes: Seq<Node<M>>) -> bool {
    forall|n: int, j: int|
        0 <= n < nodes.len() && 0 <= j < nodes[n].moves@.len() ==> match (#[trigger] nodes[n].moves@[j]).child {
            Some(c) => n < c < nodes.len(),
            None => true,
        }
}

/// The visits counted on the move a path step follows.
pub open spec fn slot_visits<M: MCTS>(nodes: Seq<Node<M>>, e: (usize, usize, usize)) -> u64 {
    nodes[e.0 as int].moves@[e.2 as int].stats.visits_spec()
}

/// The move of step `j` holds the visits that node `path[k].1` had in `before`, for
/// some step `k` from `lo` to `j` that follows the same move.
pub open spec fn took_over<M: MCTS>(now: Seq<Node<M>>, before: Seq<Node<M>>, path: Seq<(usize, usize, usize)>, j: int, lo: int) -> bool {
    exists|k: int|
        #![trigger path[k]]
        lo <= k <= j && path[k].0 == path[j].0 && path[k].2 == path[j].2 && slot_visits(now, path[j])
            == before[path[k].1 as int].stats.visits_spec()
}

/// The arena `b` holds every node of `a`, each with at least its moves.
pub open spec fn grows<M: MCTS>(a: Seq<Node<M>>, b: Seq<Node<M>>) -> bool {
    &&& a.len() <= b.len()
    &&& forall|n: int| 0 <= n < a.len() ==> a[n].moves@.len() <= #[trigger] b[n].moves@.len()
}

/// A step of a path names a node of the arena, one of its moves, and the node the
/// move leads to.
pub open spec fn step_ok<M: MCTS>(nodes: Seq<Node<M>>, e: (usize, usize, usize)) -> bool {
    &&& e.0 < nodes.len()
    &&& e.1 < nodes.len()
    &&& e.2 < nodes[e.0 as int].moves@.len()
}

/// Every step of every path is a step of the arena.
pub open spec fn paths_ok<M: MCTS>(nodes: Seq<Node<M>>, paths: Seq<Vec<(usize, usize, usize)>>) -> bool {
    forall|k: int, j: int| 0 <= k < paths.len() && 0 <= j < paths[k]@.len() ==> #[trigger] step_ok(nodes, paths[k]@[j])
}

/// The steps of the paths stay steps of an arena that grows.
proof fn lemma_paths_grow<M: MCTS>(a: Seq<Node<M>>, b: Seq<Node<M>>, paths: Seq<Vec<(usize, usize, usize)>>)
    requires
        paths_ok(a, paths),
        grows(a, b),
    ensures
        paths_ok(b, paths),
{
    assert forall|k: int, j: int| 0 <= k < paths.len() && 0 <= j < paths[k]@.len() implies #[trigger] step_ok(b, paths[k]@[j]) by {
        assert(step_ok(a, paths[k]@[j]));
    }
}

/// The arena `b` holds every node and move of `a`, and every move of `a` expanded
/// into a node still leads to it.
pub open spec fn keeps<M: MCTS>(a: Seq<Node<M>>, b: Seq<Node<M>>) -> bool {
    &&& grows(a, b)
    &&& forall|n: int, j: int|
        0 <= n < a.len() && 0 <= j < a[n].moves@.len() && (#[trigger] a[n].moves@[j]).child is Some ==> b[n].moves@[j].child
            == a[n].moves@[j].child
}

/// A step of a path follows an expanded move: move `e.2` of node `e.0` leads to node `e.1`.
pub open spec fn step_linked<M: MCTS>(nodes: Seq<Node<M>>, e: (usize, usize, usize)) -> bool {
    &&& step_ok(nodes, e)
    &&& nodes[e.0 as int].moves@[e.2 as int].child == Some(e.1)
}

/// The steps of `path` go down from `root`, each from the node the one before reached,
/// along an expanded move.
pub open spec fn path_from<M: MCTS>(nodes: Seq<Node<M>>, root: usize, path: Seq<(usize, usize, usize)>) -> bool {
    &&& path.len() > 0 ==> path[0].0 == root
    &&& forall|j: int| 0 <= j < path.len() ==> #[trigger] step_linked(nodes, path[j])
    &&& forall|j: int| 1 <= j < path.len() ==> (#[trigger] path[j]).0 == path[j - 1].1
}

/// The node a path from `root` ends at.
pub open spec fn path_end(root: usize, path: Seq<(usize, usize, usize)>) -> usize {
    if path.len() == 0 {
        root
    } else {
        path.last().1
    }
}

/// Node `n` is the root of one of the four trees.
pub open spec fn is_root(roots: [usize; 4], n: int) -> bool {
    roots[0] == n || roots[1] == n || roots[2] == n || roots[3] == n
}

/// Node `n` is a node one of the paths goes from or to.
pub open spec fn on_paths(paths: Seq<Seq<(usize, usize, usize)>>, n: int) -> bool {
    exists|k: int, j: int| 0 <= k < paths.len() && 0 <= j < paths[k].len() && ((#[trigger] paths[k][j]).0 == n || paths[k][j].1 == n)
}

/// How often a step of `path` reaches node `n`.
pub open spec fn times_reached(path: Seq<(usize, usize, usize)>, n: int) -> nat
    decreases path.len(),
{
    if path.len() == 0 {
        0
    } else {
        times_reached(path.drop_last(), n) + if path.last().1 == n {
            1nat
        } else {
            0nat
        }
    }
}

/// How often a step of one of the four paths reaches node `n`.
pub open spec fn reached(paths: Seq<Seq<(usize, usize, usize)>>, n: int) -> nat {
    times_reached(paths[0], n) + times_reached(paths[1], n) + times_reached(paths[2], n) + times_reached(paths[3], n)
}

/// The paths as sequences.
pub open spec fn path_seqs(paths: Seq<Vec<(usize, usize, usize)>>) -> Seq<Seq<(usize, usize, usize)>> {
    Seq::new(paths.len(), |k: int| paths[k]@)
}

/// Each node of `after` has the visits it had in `before` (none if it is new), one
/// more for each time a step of the paths reached it, wrapping around as a `u64` does.
pub open spec fn visits_along<M: MCTS>(before: Seq<Node<M>>, after: Seq<Node<M>>, paths: Seq<Seq<(usize, usize, usize)>>) -> bool {
    forall|n: int|
        0 <= n < after.len() ==> (#[trigger] after[n]).stats.visits_spec() == ((if n < before.len() {
            before[n].stats.visits_spec() as int
        } else {
            0
        }) + reached(paths, n)) % 0x1_0000_0000_0000_0000
}

/// Each node of `before` that is neither a root nor on the paths is as it was.
pub open spec fn off_paths_kept<M: MCTS>(before: Seq<Node<M>>, after: Seq<Node<M>>, roots: [usize; 4], paths: Seq<Seq<(usize, usize, usize)>>) -> bool {
    forall|n: int| 0 <= n < before.len() && !on_paths(paths, n) && !is_root(roots, n) ==> #[trigger] after[n] == before[n]
}

/// `after` is `before` after one playout along `paths`: each of the four trees went
/// down from its root along its path, all of the same length, each step along an
/// expanded move; each node counts one more visit for each step that reached it, and
/// every node that is neither a root nor on the paths is unchanged.
pub open spec fn played_along<M: MCTS>(before: Seq<Node<M>>, after: Seq<Node<M>>, roots: [usize; 4], paths: Seq<Seq<(usize, usize, usize)>>) -> bool {
    &&& paths.len() == 4
    &&& forall|k: int| 0 <= k < 4 ==> (#[trigger] paths[k]).len() == paths[0].len()
    &&& forall|k: int| 0 <= k < 4 ==> #[trigger] path_from(after, roots[k], paths[k])
    &&& off_paths_kept(before, after, roots, paths)
    &&& visits_along(before, after, paths)
}

/// One more step at the end of a path reaches its node once more.
proof fn lemma_times_push(path: Seq<(usize, usize, usize)>, e: (usize, usize, usize), n: int)
    ensures
        times_reached(path.push(e), n) == times_reached(path, n) + if e.1 == n {
            1nat
        } else {
            0nat
        },
{
    assert(path.push(e).drop_last() =~= path);
}

/// No step of a path of the arena reaches a node beyond it.
proof fn lemma_times_beyond<M: MCTS>(nodes: Seq<Node<M>>, path: Seq<(usize, usize, usize)>, n: int)
    requires
        forall|j: int| 0 <= j < path.len() ==> #[trigger] step_ok(nodes, path[j]),
        n >= nodes.len(),
    ensures
        times_reached(path, n) == 0,
    decreases path.len(),
{
    if path.len() > 0 {
        assert(step_ok(nodes, path[path.len() - 1]));
        lemma_times_beyond(nodes, path.drop_last(), n);
    }
}

/// The paths stay paths of an arena that keeps every expanded move.
proof fn lemma_paths_keep<M: MCTS>(a: Seq<Node<M>>, b: Seq<Node<M>>, roots: [usize; 4], paths: Seq<Vec<(usize, usize, usize)>>)
    requires
        keeps(a, b),
        paths.len() == 4,
        forall|k: int| 0 <= k < 4 ==> #[trigger] path_from(a, roots[k], paths[k]@),
    ensures
        forall|k: int| 0 <= k < 4 ==> #[trigger] path_from(b, roots[k], paths[k]@),
{
    assert forall|k: int| 0 <= k < 4 implies #[trigger] path_from(b, roots[k], paths[k]@) by {
        assert(path_from(a, roots[k], paths[k]@));
        assert forall|j: int| 0 <= j < paths[k]@.len() implies #[trigger] step_linked(b, paths[k]@[j]) by {
            let e = paths[k]@[j];
            assert(step_linked(a, e));
            assert(a[e.0 as int].moves@[e.2 as int].child is Some);
        }
    }
}

/// A change to node `x` alone, a root or a node on the paths, or beyond `before`, keeps
/// every other node as it was.
proof fn lemma_touch<M: MCTS>(before: Seq<Node<M>>, a: Seq<Node<M>>, b: Seq<Node<M>>, roots: [usize; 4], paths: Seq<Seq<(usize, usize, usize)>>, x: int)
    requires
        off_paths_kept(before, a, roots, paths),
        a.len() <= b.len(),
        before.len() <= a.len(),
        forall|y: int| 0 <= y < a.len() && y != x ==> #[trigger] b[y] == a[y],
        on_paths(paths, x) || is_root(roots, x) || x >= before.len(),
    ensures
        off_paths_kept(before, b, roots, paths),
{
    assert forall|n: int| 0 <= n < before.len() && !on_paths(paths, n) && !is_root(roots, n) implies #[trigger] b[n] == before[n] by {
        assert(b[n] == a[n]);
    }
}

/// The end of the path of tree `k` is its root or a node on the paths.
proof fn lemma_end_on_paths(roots: [usize; 4], paths: Seq<Vec<(usize, usize, usize)>>, k: int)
    requires
        0 <= k < paths.len(),
        paths.len() == 4,
    ensures
        on_paths(path_seqs(paths), path_end(roots[k], paths[k]@) as int) || is_root(roots, path_end(roots[k], paths[k]@) as int),
{
    let ps = path_seqs(paths);
    if paths[k]@.len() > 0 {
        let j = paths[k]@.len() - 1;
        assert(ps[k][j] == paths[k]@[j]);
        assert(ps[k][j].1 == path_end(roots[k], paths[k]@));
        assert(on_paths(ps, path_end(roots[k], paths[k]@) as int));
    } else {
        if k == 0 {
        } else if k == 1 {
        } else if k == 2 {
        } else {
        }
    }
}

/// Visits are as counted while no node's visits change.
proof fn lemma_visits_same<M: MCTS>(before: Seq<Node<M>>, a: Seq<Node<M>>, b: Seq<Node<M>>, paths: Seq<Seq<(usize, usize, usize)>>)
    requires
        visits_along(before, a, paths),
        a.len() == b.len(),
        forall|y: int| 0 <= y < a.len() ==> #[trigger] b[y].stats.visits_spec() == a[y].stats.visits_spec(),
    ensures
        visits_along(before, b, paths),
{
    assert forall|n: int| 0 <= n < b.len() implies (#[trigger] b[n]).stats.visits_spec() == ((if n < before.len() {
        before[n].stats.visits_spec() as int
    } else {
        0
    }) + reached(paths, n)) % 0x1_0000_0000_0000_0000 by {
        assert(b[n].stats.visits_spec() == a[n].stats.visits_spec());
    }
}

/// Along a path down a tree each step goes to a node made after the one it leaves, so
/// the nodes it reaches come one after the other in the arena.
proof fn lemma_path_increasing<M: MCTS>(nodes: Seq<Node<M>>, root: usize, path: Seq<(usize, usize, usize)>)
    requires
        children_ok(nodes),
        path_from(nodes, root, path),
    ensures
        forall|j: int| 0 <= j < path.len() ==> (#[trigger] path[j]).0 < path[j].1,
        forall|j1: int, j2: int| 0 <= j1 < j2 < path.len() ==> (#[trigger] path[j1]).1 < (#[trigger] path[j2]).1,
    decreases path.len(),
{
    assert forall|j: int| 0 <= j < path.len() implies (#[trigger] path[j]).0 < path[j].1 by {
        let e = path[j];
        assert(step_linked(nodes, e));
        assert(match nodes[e.0 as int].moves@[e.2 as int].child {
            Some(c) => e.0 < c < nodes.len(),
            None => true,
        });
    }
    if path.len() > 0 {
        let q = path.drop_last();
        assert(path_from(nodes, root, q)) by {
            assert forall|j: int| 0 <= j < q.len() implies #[trigger] step_linked(nodes, q[j]) by {
                assert(q[j] == path[j]);
            }
            assert forall|j: int| 1 <= j < q.len() implies (#[trigger] q[j]).0 == q[j - 1].1 by {
                assert(q[j] == path[j]);
                assert(q[j - 1] == path[j - 1]);
            }
        }
        lemma_path_increasing(nodes, root, q);
        let l = path.len() - 1;
        assert forall|j1: int, j2: int| 0 <= j1 < j2 < path.len() implies (#[trigger] path[j1]).1 < (#[trigger] path[j2]).1 by {
            if j2 < l {
                assert(q[j1] == path[j1] && q[j2] == path[j2]);
            } else {
                assert(path[l].0 == path[l - 1].1);
                assert(path[l].0 < path[l].1);
                if j1 < l - 1 {
                    assert(q[j1] == path[j1] && q[l - 1] == path[l - 1]);
                }
            }
        }
    }
}

/// A node's rewards went from `before` to `after` by one reward that `ev` can give
/// `eval` as `player` sees it, with the virtual loss `vl` given back.
pub open spec fn rewarded<M: MCTS>(ev: &M::Eval, eval: &StateEval<M>, player: Player<M>, vl: i64, before: i64, after: i64) -> bool {
    exists|rw: i64|
        #[trigger] call_ensures(<M::Eval as Evaluator<M::State>>::make_relative, (ev, eval, player), rw) && after
            == vstd::wrapping::i64_specs::wrapping_add(before, vstd::wrapping::i64_specs::wrapping_add(rw, vl))
}

/// A playout so far: from `before` to `now` the trees went down along `paths`, as
/// `played_along` says.
pub open spec fn descent_ok<M: MCTS>(before: Seq<Node<M>>, now: Seq<Node<M>>, roots: [usize; 4], paths: Seq<Vec<(usize, usize, usize)>>) -> bool {
    &&& paths.len() == 4
    &&& before.len() <= now.len()
    &&& forall|k: int| 0 <= k < 4 ==> #[trigger] path_from(now, roots[k], paths[k]@)
    &&& off_paths_kept(before, now, roots, path_seqs(paths))
    &&& visits_along(before, now, path_seqs(paths))
}

/// A change to the root or the node a path ends at, and new nodes not visited yet,
/// keep a playout as it was.
proof fn lemma_descent_touch<M: MCTS>(
    before: Seq<Node<M>>,
    a: Seq<Node<M>>,
    b: Seq<Node<M>>,
    roots: [usize; 4],
    paths: Seq<Vec<(usize, usize, usize)>>,
    x: int,
)
    requires
        descent_ok(before, a, roots, paths),
        keeps(a, b),
        0 <= x < a.len(),
        forall|y: int| 0 <= y < a.len() && y != x ==> #[trigger] b[y] == a[y],
        b[x].stats == a[x].stats,
        forall|y: int| a.len() <= y < b.len() ==> (#[trigger] b[y]).stats.visits_spec() == 0,
        on_paths(path_seqs(paths), x) || is_root(roots, x),
    ensures
        descent_ok(before, b, roots, paths),
{
    let ps = path_seqs(paths);
    lemma_paths_keep(a, b, roots, paths);
    lemma_touch(before, a, b, roots, ps, x);
    assert forall|n: int| 0 <= n < b.len() implies (#[trigger] b[n]).stats.visits_spec() == ((if n < before.len() {
        before[n].stats.visits_spec() as int
    } else {
        0
    }) + reached(ps, n)) % 0x1_0000_0000_0000_0000 by {
        if n < a.len() {
            assert(a[n].stats.visits_spec() == b[n].stats.visits_spec());
        } else {
            assert forall|k: int| 0 <= k < 4 implies times_reached(#[trigger] ps[k], n) == 0 by {
                assert(path_from(a, roots[k], paths[k]@));
                assert(ps[k] == paths[k]@);
                assert forall|j: int| 0 <= j < ps[k].len() implies #[trigger] step_ok(a, ps[k][j]) by {
                    assert(step_linked(a, paths[k]@[j]));
                }
                lemma_times_beyond(a, ps[k], n);
            }
            assert(times_reached(ps[0], n) == 0);
            assert(times_reached(ps[1], n) == 0);
            assert(times_reached(ps[2], n) == 0);
            assert(times_reached(ps[3], n) == 0);
        }
    }
}

/// Tree `k` goes one step further, along `e` from the node its path ended at, and the
/// node reached counts one more visit.
proof fn lemma_descent_step<M: MCTS>(
    before: Seq<Node<M>>,
    a: Seq<Node<M>>,
    b: Seq<Node<M>>,
    roots: [usize; 4],
    p0: Seq<Vec<(usize, usize, usize)>>,
    p1: Seq<Vec<(usize, usize, usize)>>,
    k: int,
    e: (usize, usize, usize),
)
    requires
        descent_ok(before, a, roots, p0),
        0 <= k < 4,
        p1.len() == 4,
        p1[k]@ == p0[k]@.push(e),
        forall|q: int| 0 <= q < 4 && q != k ==> #[trigger] p1[q]@ == p0[q]@,
        step_linked(a, e),
        e.0 == path_end(roots[k], p0[k]@),
        keeps(a, b),
        a.len() == b.len(),
        forall|y: int| 0 <= y < a.len() && y != e.1 ==> #[trigger] b[y] == a[y],
        b[e.1 as int].stats.visits_spec() == vstd::wrapping::u64_specs::wrapping_add(a[e.1 as int].stats.visits_spec(), 1),
    ensures
        descent_ok(before, b, roots, p1),
{
    let s0 = path_seqs(p0);
    let s1 = path_seqs(p1);
    assert forall|q: int| 0 <= q < 4 implies #[trigger] path_from(a, roots[q], p1[q]@) by {
        assert(path_from(a, roots[q], p0[q]@));
        if q == k {
            let old_p = p0[k]@;
            let new_p = p1[k]@;
            assert forall|j: int| 0 <= j < new_p.len() implies #[trigger] step_linked(a, new_p[j]) by {
                if j < old_p.len() {
                    assert(new_p[j] == old_p[j]);
                }
            }
            assert forall|j: int| 1 <= j < new_p.len() implies (#[trigger] new_p[j]).0 == new_p[j - 1].1 by {
                if j < old_p.len() {
                    assert(new_p[j] == old_p[j]);
                    assert(new_p[j - 1] == old_p[j - 1]);
                } else {
                    assert(new_p[j - 1] == old_p.last());
                }
            }
        }
    }
    lemma_paths_keep(a, b, roots, p1);
    assert forall|q: int| 0 <= q < 4 implies #[trigger] s1[q] == if q == k {
        s0[q].push(e)
    } else {
        s0[q]
    } by {}
    assert forall|n: int| on_paths(s0, n) implies on_paths(s1, n) by {
        let (q, j) = choose|q: int, j: int| 0 <= q < s0.len() && 0 <= j < s0[q].len() && ((#[trigger] s0[q][j]).0 == n || s0[q][j].1 == n);
        if q == k {
            assert(s1[q][j] == s0[q][j]);
        } else {
            assert(s1[q] == s0[q]);
        }
        assert(s1[q][j] == s0[q][j]);
    }
    assert(s1[k][s0[k].len() as int] == e);
    assert(on_paths(s1, e.1 as int));
    assert forall|n: int| 0 <= n < before.len() && !on_paths(s1, n) && !is_root(roots, n) implies #[trigger] b[n] == before[n] by {
        assert(!on_paths(s0, n));
        assert(a[n] == before[n]);
        assert(n != e.1);
    }
    assert forall|n: int| 0 <= n < b.len() implies (#[trigger] b[n]).stats.visits_spec() == ((if n < before.len() {
        before[n].stats.visits_spec() as int
    } else {
        0
    }) + reached(s1, n)) % 0x1_0000_0000_0000_0000 by {
        lemma_times_push(s0[k], e, n);
        assert(reached(s1, n) == reached(s0, n) + if e.1 == n {
            1nat
        } else {
            0nat
        }) by {
            if k == 0 {
            } else if k == 1 {
            } else if k == 2 {
            } else {
            }
        }
        let base: int = if n < before.len() {
            before[n].stats.visits_spec() as int
        } else {
            0
        };
        assert(a[n].stats.visits_spec() == (base + reached(s0, n)) % 0x1_0000_0000_0000_0000);
        if n == e.1 {
            vstd::arithmetic::div_mod::lemma_add_mod_noop(base + reached(s0, n), 1, 0x1_0000_0000_0000_0000);
        } else {
            assert(b[n] == a[n]);
        }
    }
}

/// The steps back along path `k` keep a playout as it was, the visits of every node
/// unchanged.
proof fn lemma_descent_back<M: MCTS>(
    before: Seq<Node<M>>,
    a: Seq<Node<M>>,
    b: Seq<Node<M>>,
    roots: [usize; 4],
    paths: Seq<Vec<(usize, usize, usize)>>,
    k: int,
)
    requires
        descent_ok(before, a, roots, paths),
        0 <= k < 4,
        keeps(a, b),
        a.len() == b.len(),
        forall|y: int|
            0 <= y < a.len() && (forall|j: int| 0 <= j < paths[k]@.len() ==> (#[trigger] paths[k]@[j]).0 != y && paths[k]@[j].1 != y)
                ==> #[trigger] b[y] == a[y],
        forall|y: int| 0 <= y < a.len() ==> #[trigger] b[y].stats.visits_spec() == a[y].stats.visits_spec(),
    ensures
        descent_ok(before, b, roots, paths),
{
    let ps = path_seqs(paths);
    lemma_paths_keep(a, b, roots, paths);
    assert forall|n: int| 0 <= n < before.len() && !on_paths(ps, n) && !is_root(roots, n) implies #[trigger] b[n] == before[n] by {
        assert forall|j: int| 0 <= j < paths[k]@.len() implies (#[trigger] paths[k]@[j]).0 != n && paths[k]@[j].1 != n by {
            assert(ps[k][j] == paths[k]@[j]);
        }
        assert(b[n] == a[n]);
    }
    lemma_visits_same(before, a, b, ps);
}

/// The arena `after` is `before`, or `before` after one playout from `roots`.
pub open spec fn one_playout<M: MCTS>(before: Seq<Node<M>>, after: Seq<Node<M>>, roots: [usize; 4]) -> bool {
    after == before || exists|paths: Seq<Seq<(usize, usize, usize)>>| #[trigger] played_along(before, after, roots, paths)
}

/// The arenas `arenas` follow one another by playouts from `roots`.
pub open spec fn playouts<M: MCTS>(arenas: Seq<Seq<Node<M>>>, roots: [usize; 4]) -> bool {
    forall|i: int| 0 <= i && i + 1 < arenas.len() ==> #[trigger] one_playout(arenas[i], arenas[i + 1], roots)
}

/// `b` is the last of the most visited moves of `node` that are among `legal`.
pub open spec fn best_of<M: MCTS>(node: Node<M>, legal: Seq<Move<M>>, b: int) -> bool {
    &&& 0 <= b < node.moves@.len()
    &&& legal.contains(node.moves@[b].mv)
    &&& forall|j: int|
        0 <= j < node.moves@.len() && legal.contains((#[trigger] node.moves@[j]).mv) ==> node.moves@[j].stats.visits_spec()
            <= node.moves@[b].stats.visits_spec()
    &&& forall|j: int|
        b < j < node.moves@.len() && legal.contains((#[trigger] node.moves@[j]).mv) ==> node.moves@[j].stats.visits_spec()
            < node.moves@[b].stats.visits_spec()
}

/// The first move of node `n` that is `mv` has been expanded into node `m`.
pub open spec fn follows_one<M: MCTS>(nodes: Seq<Node<M>>, n: usize, mv: Move<M>, m: usize) -> bool {
    &&& n < nodes.len()
    &&& first_move_of(nodes[n as int], mv) matches Some(c) && c < nodes[n as int].moves@.len() && nodes[n as int].moves@[c as int].child
        == Some(m)
}

/// Each of the four trees goes by `mv` from its node in `cur` to its node in `next`.
pub open spec fn follows<M: MCTS>(nodes: Seq<Node<M>>, cur: [usize; 4], mv: Move<M>, next: [usize; 4]) -> bool {
    forall|q: int| 0 <= q < 4 ==> #[trigger] follows_one(nodes, cur[q], mv, next[q])
}

/// A step of a principal variation: standing at the nodes `cur` of the four trees,
/// `mv` is move `pick.1` of node `pick.0`, one of them, and the last of its most
/// visited moves that are among the legal moves `legal` there.
pub open spec fn pick_ok<M: MCTS>(nodes: Seq<Node<M>>, mv: Move<M>, pick: (usize, usize), legal: Seq<Move<M>>, cur: [usize; 4]) -> bool {
    &&& exists|q: int| 0 <= q < 4 && cur[q] == pick.0
    &&& pick.0 < nodes.len()
    &&& best_of(nodes[pick.0 as int], legal, pick.1 as int)
    &&& mv == nodes[pick.0 as int].moves@[pick.1 as int].mv
}

/// The moves `r` are a principal variation from `roots`: step `i` stands at the nodes
/// `curs[i]` of the four trees, the roots first, and plays the move `picks[i]` of the
/// player to move, the most visited of those legal there (`legals[i]`); every tree
/// then goes on by that move to the nodes of the next step.
pub open spec fn pv_ok<M: MCTS>(
    nodes: Seq<Node<M>>,
    roots: [usize; 4],
    r: Seq<Move<M>>,
    picks: Seq<(usize, usize)>,
    legals: Seq<Seq<Move<M>>>,
    curs: Seq<[usize; 4]>,
) -> bool {
    &&& picks.len() == r.len()
    &&& legals.len() == r.len()
    &&& curs.len() == r.len()
    &&& r.len() > 0 ==> curs[0] == roots
    &&& forall|i: int| 0 <= i < r.len() ==> #[trigger] pick_ok(nodes, r[i], picks[i], legals[i], curs[i])
    &&& forall|i: int| 0 <= i && i + 1 < r.len() ==> #[trigger] follows(nodes, curs[i], r[i], curs[i + 1])
}

/// The numbers below `j` of the moves of `legal` that `node` has not tried yet, in order.
pub open spec fn untried_of<M: MCTS>(node: Node<M>, legal: Seq<Move<M>>, j: int) -> Seq<usize>
    decreases j,
{
    if j <= 0 {
        Seq::empty()
    } else if first_move_of(node, legal[j - 1]) is None {
        untried_of(node, legal, j - 1).push((j - 1) as usize)
    } else {
        untried_of(node, legal, j - 1)
    }
}

/// For each of the first `j` moves of `legal` that `node` has tried, the number of
/// its move there, in order.
pub open spec fn candidates_of<M: MCTS>(node: Node<M>, legal: Seq<Move<M>>, j: int) -> Seq<usize>
    decreases j,
{
    if j <= 0 {
        Seq::empty()
    } else {
        match first_move_of(node, legal[j - 1]) {
            Some(c) => candidates_of(node, legal, j - 1).push(c),
            None => candidates_of(node, legal, j - 1),
        }
    }
}

/// The move a playout follows when every legal move was tried before: the one the
/// policy picked among the candidates, or the first where the pick is out of range.
pub fn pick_candidate(candidates: &Vec<usize>, picked: usize) -> (r: usize)
    requires
        candidates@.len() > 0,
    ensures
        r == if picked < candidates@.len() {
            candidates@[picked as int]
        } else {
            candidates@[0]
        },
{
    if picked < candidates.len() {
        candidates[picked]
    } else {
        candidates[0]
    }
}

/// The one value `o` holds, or none.
pub open spec fn seq_of<T>(o: Option<T>) -> Seq<T> {
    match o {
        Some(x) => seq![x],
        None => Seq::empty(),
    }
}

/// The trees of a search, one per player, their nodes held in one arena and
/// referred to by number.
pub struct Tree<M: MCTS> {
    nodes: Vec<Node<M>>,
    roots: [usize; 4],
    root_state: M::State,
    knowledge: Vec<Knowledge<M>>,
    policy: M::Select,
    eval: M::Eval,
    manager: M,
    num_nodes: usize,
}

impl<M: MCTS> Tree<M> {
    /// Every root and every expanded move is a node of the arena, and there is
    /// knowledge for each of the four players.
    pub closed spec fn wf(&self) -> bool {
        &&& forall|i: int| 0 <= i < 4 ==> self.roots[i] < self.nodes@.len()
        &&& self.knowledge@.len() == 4
        &&& children_ok(self.nodes@)
        &&& self.num_nodes <= self.nodes@.len()
    }

    /// Nodes in the arena.
    pub closed spec fn arena_len(&self) -> nat {
        self.nodes@.len()
    }

    /// The count of nodes the search keeps against its limit.
    pub closed spec fn num_nodes_spec(&self) -> usize {
        self.num_nodes
    }

    /// The state at the roots, the roots and what each player knows there.
    pub closed spec fn root_spec(&self) -> (M::State, [usize; 4], Seq<Knowledge<M>>) {
        (self.root_state, self.roots, self.knowledge@)
    }

    /// How the search scores states.
    pub closed spec fn evaluator_spec(&self) -> M::Eval {
        self.eval
    }

    /// The settings of the search.
    pub closed spec fn manager_spec(&self) -> M {
        self.manager
    }

    /// The nodes of the arena.
    pub closed spec fn arena(&self) -> Seq<Node<M>> {
        self.nodes@
    }

    /// Node `n` of the arena.
    pub closed spec fn node_spec(&self, n: int) -> Node<M> {
        self.nodes@[n]
    }

    /// A search from `state`: each player's tree is a single node, and each player
    /// knows what it sees of `state`.
    pub fn new(state: M::State, manager: M, policy: M::Select, eval: M::Eval) -> (r: Self)
        ensures
            r.wf(),
            r.num_nodes_spec() == 1,
            r.arena_len() == 4,
    {
        let mut knowledge: Vec<Knowledge<M>> = Vec::new();
        let mut nodes: Vec<Node<M>> = Vec::new();
        let mut i: usize = 0;
        while i < 4
            invariant
                i <= 4,
                knowledge@.len() == i,
                nodes@.len() == i,
                forall|n: int| 0 <= n < i ==> (#[trigger] nodes@[n]).moves@.len() == 0,
            decreases 4 - i,
        {
            knowledge.push(state.knowledge_from_state(M::State::player_from_index(i)));
            nodes.push(Node::new(&eval, &state));
            i = i + 1;
        }
        Self {
            nodes,
            roots: [0, 1, 2, 3],
            root_state: state,
            knowledge,
            policy,
            eval,
            manager,
            num_nodes: 1,
        }
    }

    /// The count of nodes the search keeps against its limit.
    pub fn num_nodes(&self) -> (r: usize)
        ensures
            r == self.num_nodes_spec(),
    {
        self.num_nodes
    }

    /// The state at the roots.
    pub fn root_state(&self) -> (r: &M::State)
        ensures
            *r == self.root_spec().0,
    {
        &self.root_state
    }

    /// What player `i` knows at the roots.
    pub fn knowledge(&self, i: usize) -> (r: &Knowledge<M>)
        requires
            self.wf(),
            i < 4,
        ensures
            *r == self.root_spec().2[i as int],
    {
        &self.knowledge[i]
    }

    /// The settings of the search.
    pub fn spec(&self) -> (r: &M)
        ensures
            *r == self.manager_spec(),
    {
        &self.manager
    }

    /// The root of the tree of the player to move.
    pub fn root(&self) -> (r: NodeHandle<'_, M>)
        requires
            self.wf(),
        ensures
            exists|i: int| 0 <= i < 4 && *r.node == self.node_spec(self.root_spec().1[i] as int),
    {
        let p = slot_of::<M>(self.root_state.current_player());
        let r = NodeHandle { node: &self.nodes[self.roots[p]] };
        assert(*r.node == self.node_spec(self.root_spec().1[p as int] as int));
        r
    }

    /// The number of the first move of node `n` that is the same as `mv`.
    fn find_child(&self, n: usize, mv: &Move<M>) -> (r: Option<usize>)
        requires
            n < self.nodes@.len(),
        ensures
            r == first_move_of(self.nodes@[n as int], *mv),
            r matches Some(j) ==> j < self.nodes@[n as int].moves@.len(),
    {
        let moves = &self.nodes[n].moves;
        let mut j: usize = 0;
        while j < moves.len()
            invariant
                j <= moves@.len(),
                n < self.nodes@.len(),
                moves@ == self.nodes@[n as int].moves@,
                forall|i: int| 0 <= i < j ==> (#[trigger] moves@[i]).mv != *mv,
            decreases moves@.len() - j,
        {
            if M::State::same_move(&moves[j].mv, mv) {
                proof {
                    lemma_first_move(self.nodes@[n as int], *mv, j as int);
                }
                return Some(j);
            }
            j = j + 1;
        }
        None
    }

    /// Adds `mv`, not expanded yet, to the moves of node `n`.
    fn add_move(&mut self, n: usize, mv: Move<M>)
        requires
            old(self).wf(),
            n < old(self).nodes@.len(),
        ensures
            final(self).wf(),
            final(self).root_spec() == old(self).root_spec(),
            grows(old(self).nodes@, final(self).nodes@),
            final(self).nodes@.len() == old(self).nodes@.len(),
            final(self).nodes@[n as int].moves@.len() == old(self).nodes@[n as int].moves@.len() + 1,
            final(self).num_nodes == old(self).num_nodes,
            forall|y: int| 0 <= y < old(self).nodes@.len() && y != n ==> #[trigger] final(self).nodes@[y] == old(self).nodes@[y],
            keeps(old(self).nodes@, final(self).nodes@),
            final(self).nodes@[n as int].stats == old(self).nodes@[n as int].stats,
            final(self).nodes@[n as int].moves@.last().mv == mv,
            final(self).nodes@[n as int].moves@.drop_last() == old(self).nodes@[n as int].moves@,
    {
        self.nodes[n].moves.push(MoveInfo::new(mv));
        proof {
            assert(self.nodes@[n as int].moves@.drop_last() =~= old(self).nodes@[n as int].moves@);
        }
    }

    /// Puts a new node into the arena; its number is returned.
    fn push_node(&mut self, node: Node<M>) -> (r: usize)
        requires
            old(self).wf(),
            node.moves@.len() == 0,
        ensures
            final(self).wf(),
            final(self).root_spec() == old(self).root_spec(),
            grows(old(self).nodes@, final(self).nodes@),
            r == old(self).nodes@.len(),
            final(self).nodes@.len() == old(self).nodes@.len() + 1,
            forall|n: int| 0 <= n < old(self).nodes@.len() ==> #[trigger] final(self).nodes@[n].moves@.len() == old(self).nodes@[n].moves@.len(),
            final(self).num_nodes == old(self).num_nodes,
            forall|y: int| 0 <= y < old(self).nodes@.len() ==> #[trigger] final(self).nodes@[y] == old(self).nodes@[y],
            final(self).nodes@[r as int] == node,
            keeps(old(self).nodes@, final(self).nodes@),
    {
        let r = self.nodes.len();
        self.nodes.push(node);
        r
    }

    /// Follows `choice` out of node `n`, expanding it into a new node of `state` if it
    /// was not expanded yet: the node reached, whether it is new, and the number of
    /// the move followed.
    fn descend(&mut self, state: &M::State, choice: &Move<M>, n: usize) -> (r: (usize, bool, usize))
        requires
            old(self).wf(),
            n < old(self).nodes@.len(),
        ensures
            final(self).wf(),
            final(self).root_spec() == old(self).root_spec(),
            grows(old(self).nodes@, final(self).nodes@),
            final(self).nodes@.len() >= old(self).nodes@.len(),
            r.0 < final(self).nodes@.len(),
            r.2 < final(self).nodes@[n as int].moves@.len(),
            final(self).num_nodes == old(self).num_nodes + (final(self).nodes@.len() - old(self).nodes@.len()),
            forall|y: int| 0 <= y < old(self).nodes@.len() && y != n ==> #[trigger] final(self).nodes@[y] == old(self).nodes@[y],
            keeps(old(self).nodes@, final(self).nodes@),
            final(self).nodes@[n as int].stats == old(self).nodes@[n as int].stats,
            forall|y: int| old(self).nodes@.len() <= y < final(self).nodes@.len() ==> (#[trigger] final(self).nodes@[y]).stats.visits_spec() == 0,
            step_linked(final(self).nodes@, (n, r.0, r.2)),
    {
        let idx = match self.find_child(n, choice) {
            Some(j) => j,
            None => {
                self.add_move(n, M::State::copy_move(choice));
                self.nodes[n].moves.len() - 1
            },
        };
        if let Some(c) = self.nodes[n].moves[idx].child {
            return (c, false, idx);
        }
        let created = Node::new(&self.eval, state);
        let ghost mid0 = self.nodes@;
        let c = self.push_node(created);
        let ghost mid = self.nodes@;
        self.nodes[n].moves[idx].child = Some(c);
        proof {
            assert forall|a: int, j: int|
                0 <= a < old(self).nodes@.len() && 0 <= j < old(self).nodes@[a].moves@.len() && (#[trigger] old(self).nodes@[a].moves@[j]).child
                    is Some implies self.nodes@[a].moves@[j].child == old(self).nodes@[a].moves@[j].child by {
                assert(mid0[a].moves@[j].child == old(self).nodes@[a].moves@[j].child);
                assert(mid[a] == mid0[a]);
                if a == n && j == idx {
                    assert(mid[a].moves@[j].child is None);
                }
            }
        }
        let total = self.nodes.len();
        assert(self.num_nodes < total);
        self.num_nodes = self.num_nodes + 1;
        (c, true, idx)
    }

    /// Plays up to `rollout_length` random moves from `state` and scores the result.
    fn rollout(state: &mut M::State, eval: &M::Eval, rollout_length: usize, rng: &mut StdRng) -> StateEval<M> {
        let mut i: usize = 0;
        while i < rollout_length
            invariant
                i <= rollout_length,
            decreases rollout_length - i,
        {
            let legal = state.legal_moves();
            if legal.len() > 0 {
                let k = std_rng_below(rng, legal.len());
                state.make_move(&legal[k]);
            }
            i = i + 1;
        }
        eval.eval_new(state)
    }

    /// Hands the reward of a playout back up one tree: step `i` of `path` went from
    /// node `path[i].0` by its move `path[i].2` to node `path[i].1` and was chosen by
    /// `players[i]`; from the last step back to the first, the node reached gets the
    /// reward as that player sees it, and the move followed takes over its counters.
    fn backpropagation(&mut self, path: &Vec<(usize, usize, usize)>, players: &Vec<Player<M>>, eval: &StateEval<M>)
        requires
            old(self).wf(),
            forall|j: int| 0 <= j < path@.len() ==> #[trigger] step_ok(old(self).nodes@, path@[j]),
            forall|j: int| 0 <= j < path@.len() ==> (#[trigger] path@[j]).0 < path@[j].1,
            forall|j1: int, j2: int| 0 <= j1 < j2 < path@.len() ==> (#[trigger] path@[j1]).1 < (#[trigger] path@[j2]).1,
        ensures
            final(self).wf(),
            final(self).root_spec() == old(self).root_spec(),
            final(self).manager == old(self).manager,
            final(self).eval == old(self).eval,
            exists|vl: i64|
                #[trigger] call_ensures(M::virtual_loss, (&old(self).manager,), vl) && forall|j: int|
                    #![trigger path@[j]]
                    0 <= j < path@.len() && j < players@.len() ==> #[trigger] rewarded::<M>(
                        &old(self).eval,
                        eval,
                        players@[j],
                        vl,
                        old(self).nodes@[path@[j].1 as int].stats.sum_spec(),
                        final(self).nodes@[path@[j].1 as int].stats.sum_spec(),
                    ),
            final(self).nodes@.len() == old(self).nodes@.len(),
            forall|n: int| 0 <= n < old(self).nodes@.len() ==> #[trigger] final(self).nodes@[n].moves@.len() == old(self).nodes@[n].moves@.len(),
            final(self).num_nodes == old(self).num_nodes,
            forall|n: int| 0 <= n < old(self).nodes@.len() ==> #[trigger] final(self).nodes@[n].stats.visits_spec() == old(self).nodes@[n].stats.visits_spec(),
            forall|j: int| 0 <= j < path@.len() && j < players@.len() ==> #[trigger] took_over(final(self).nodes@, old(self).nodes@, path@, j, 0),
            keeps(old(self).nodes@, final(self).nodes@),
            forall|y: int|
                0 <= y < old(self).nodes@.len() && (forall|j: int| 0 <= j < path@.len() ==> (#[trigger] path@[j]).0 != y && path@[j].1 != y)
                    ==> #[trigger] final(self).nodes@[y] == old(self).nodes@[y],
    {
        let steps = if path.len() < players.len() { path.len() } else { players.len() };
        let vl = self.manager.virtual_loss();
        let mut i: usize = steps;
        while i > 0
            invariant
                i <= steps,
                self.wf(),
                self.root_spec() == old(self).root_spec(),
                self.nodes@.len() == old(self).nodes@.len(),
                forall|n: int| 0 <= n < old(self).nodes@.len() ==> #[trigger] self.nodes@[n].moves@.len() == old(self).nodes@[n].moves@.len(),
                self.num_nodes == old(self).num_nodes,
                steps <= path@.len(),
                steps <= players@.len(),
                forall|j: int| 0 <= j < path@.len() ==> #[trigger] step_ok(self.nodes@, path@[j]),
                forall|n: int| 0 <= n < old(self).nodes@.len() ==> #[trigger] self.nodes@[n].stats.visits_spec() == old(self).nodes@[n].stats.visits_spec(),
                forall|j: int| i <= j < steps ==> #[trigger] took_over(self.nodes@, old(self).nodes@, path@, j, i as int),
                keeps(old(self).nodes@, self.nodes@),
                forall|y: int|
                    0 <= y < old(self).nodes@.len() && (forall|j: int| 0 <= j < path@.len() ==> (#[trigger] path@[j]).0 != y && path@[j].1 != y)
                        ==> #[trigger] self.nodes@[y] == old(self).nodes@[y],
                self.manager == old(self).manager,
                self.eval == old(self).eval,
                call_ensures(M::virtual_loss, (&old(self).manager,), vl),
                forall|j: int| 0 <= j < path@.len() ==> (#[trigger] path@[j]).0 < path@[j].1,
                forall|j1: int, j2: int| 0 <= j1 < j2 < path@.len() ==> (#[trigger] path@[j1]).1 < (#[trigger] path@[j2]).1,
                forall|j: int| 0 <= j < i ==> #[trigger] self.nodes@[path@[j].1 as int].stats.sum_spec() == old(self).nodes@[path@[j].1 as int].stats.sum_spec(),
                forall|j: int|
                    #![trigger path@[j]]
                    i <= j < steps ==> #[trigger] rewarded::<M>(
                        &old(self).eval,
                        eval,
                        players@[j],
                        vl,
                        old(self).nodes@[path@[j].1 as int].stats.sum_spec(),
                        self.nodes@[path@[j].1 as int].stats.sum_spec(),
                    ),
            decreases i,
        {
            i = i - 1;
            let ghost before = self.nodes@;
            let ghost before_manager = self.manager;
            let ghost before_eval = self.eval;
            let (parent, child, move_idx) = path[i];
            proof {
                assert(step_ok(self.nodes@, path@[i as int]));
            }
            let eval_value = self.eval.make_relative(eval, players[i]);
            self.back_up((parent, child, move_idx), vl, eval_value);
            proof {
                assert(self.manager == before_manager && self.eval == before_eval);
                let e = path@[i as int];
                assert forall|j: int| 0 <= j < i implies #[trigger] self.nodes@[path@[j].1 as int].stats.sum_spec()
                    == old(self).nodes@[path@[j].1 as int].stats.sum_spec() by {
                    assert(path@[j].1 < e.1);
                    assert(step_ok(before, path@[j]));
                    assert(before[path@[j].1 as int].stats.sum_spec() == old(self).nodes@[path@[j].1 as int].stats.sum_spec());
                    if path@[j].1 == e.0 {
                        assert(self.nodes@[e.0 as int].stats == before[e.0 as int].stats);
                    } else {
                        assert(self.nodes@[path@[j].1 as int] == before[path@[j].1 as int]);
                    }
                }
                assert forall|j: int| i <= j < steps implies #[trigger] rewarded::<M>(
                    &old(self).eval,
                    eval,
                    players@[j],
                    vl,
                    old(self).nodes@[path@[j].1 as int].stats.sum_spec(),
                    self.nodes@[path@[j].1 as int].stats.sum_spec(),
                ) by {
                    if j == i {
                        assert(before[e.1 as int].stats.sum_spec() == old(self).nodes@[e.1 as int].stats.sum_spec());
                        assert(call_ensures(<M::Eval as Evaluator<M::State>>::make_relative, (&old(self).eval, eval, players@[j]), eval_value));
                    } else {
                        assert(e.0 < e.1 && e.1 < path@[j].1);
                        assert(step_ok(before, path@[j]));
                        assert(self.arena()[path@[j].1 as int] == before[path@[j].1 as int]);
                        assert(rewarded::<M>(
                            &old(self).eval,
                            eval,
                            players@[j],
                            vl,
                            old(self).nodes@[path@[j].1 as int].stats.sum_spec(),
                            before[path@[j].1 as int].stats.sum_spec(),
                        ));
                    }
                }
                assert forall|a: int, j: int|
                    0 <= a < old(self).nodes@.len() && 0 <= j < old(self).nodes@[a].moves@.len() && (#[trigger] old(self).nodes@[a].moves@[j]).child
                        is Some implies self.nodes@[a].moves@[j].child == old(self).nodes@[a].moves@[j].child by {
                    assert(before[a].moves@[j].child == old(self).nodes@[a].moves@[j].child);
                }

                assert forall|y: int|
                    0 <= y < old(self).nodes@.len() && (forall|j: int| 0 <= j < path@.len() ==> (#[trigger] path@[j]).0 != y && path@[j].1 != y)
                        implies #[trigger] self.nodes@[y] == old(self).nodes@[y] by {
                    assert(path@[i as int].0 != y && path@[i as int].1 != y);
                    assert(self.nodes@[y] == before[y]);
                }
                assert forall|j: int| 0 <= j < path@.len() implies #[trigger] step_ok(self.nodes@, path@[j]) by {
                    assert(step_ok(before, path@[j]));
                }
                assert forall|n: int| 0 <= n < old(self).nodes@.len() implies #[trigger] self.nodes@[n].stats.visits_spec() == old(self).nodes@[n].stats.visits_spec() by {
                    assert(before[n].stats.visits_spec() == old(self).nodes@[n].stats.visits_spec());
                }
                assert forall|j: int| i <= j < steps implies #[trigger] took_over(self.nodes@, old(self).nodes@, path@, j, i as int) by {
                    assert(step_ok(before, path@[j]));
                    if path@[j].0 == parent && path@[j].2 == move_idx {
                        assert(slot_visits(self.nodes@, path@[j]) == old(self).nodes@[path@[i as int].1 as int].stats.visits_spec());
                    } else {
                        assert(slot_visits(self.nodes@, path@[j]) == slot_visits(before, path@[j]));
                        assert(took_over(before, old(self).nodes@, path@, j, i + 1));
                        let k = choose|k: int|
                            #![trigger path@[k]]
                            i + 1 <= k <= j && path@[k].0 == path@[j].0 && path@[k].2 == path@[j].2 && slot_visits(before, path@[j])
                                == old(self).nodes@[path@[k].1 as int].stats.visits_spec();
                        assert(slot_visits(self.nodes@, path@[j]) == old(self).nodes@[path@[k].1 as int].stats.visits_spec());
                    }
                }
            }
        }
    }

    /// One step back of a playout along `step`, which went from node `step.0` by its
    /// move `step.2` to node `step.1`: that node gets `reward` and its virtual loss
    /// back, and the move takes over its visits and rewards; nothing else changes.
    pub fn back_up(&mut self, step: (usize, usize, usize), virtual_loss: i64, reward: i64)
        requires
            old(self).wf(),
            step_ok(old(self).arena(), step),
        ensures
            final(self).wf(),
            final(self).root_spec() == old(self).root_spec(),
            final(self).manager_spec() == old(self).manager_spec(),
            final(self).evaluator_spec() == old(self).evaluator_spec(),
            final(self).arena().len() == old(self).arena().len(),
            final(self).num_nodes_spec() == old(self).num_nodes_spec(),
            keeps(old(self).arena(), final(self).arena()),
            forall|y: int|
                0 <= y < old(self).arena().len() && y != step.0 && y != step.1 ==> #[trigger] final(self).arena()[y] == old(self).arena()[y],
            final(self).arena()[step.1 as int].stats.sum_spec() == vstd::wrapping::i64_specs::wrapping_add(
                old(self).arena()[step.1 as int].stats.sum_spec(),
                vstd::wrapping::i64_specs::wrapping_add(reward, virtual_loss),
            ),
            final(self).arena()[step.1 as int].stats.visits_spec() == old(self).arena()[step.1 as int].stats.visits_spec(),
            final(self).arena()[step.1 as int].stats.availability_spec() == old(self).arena()[step.1 as int].stats.availability_spec(),
            step.0 != step.1 ==> final(self).arena()[step.0 as int].stats == old(self).arena()[step.0 as int].stats,
            step.0 != step.1 ==> final(self).arena()[step.1 as int].moves == old(self).arena()[step.1 as int].moves,
            final(self).arena()[step.0 as int].moves@.len() == old(self).arena()[step.0 as int].moves@.len(),
            forall|j: int|
                0 <= j < old(self).arena()[step.0 as int].moves@.len() && j != step.2 ==> #[trigger] final(self).arena()[step.0 as int].moves@[j]
                    == old(self).arena()[step.0 as int].moves@[j],
            final(self).arena()[step.0 as int].moves@[step.2 as int].mv == old(self).arena()[step.0 as int].moves@[step.2 as int].mv,
            final(self).arena()[step.0 as int].moves@[step.2 as int].child == old(self).arena()[step.0 as int].moves@[step.2 as int].child,
            final(self).arena()[step.0 as int].moves@[step.2 as int].stats.visits_spec() == final(self).arena()[step.1 as int].stats.visits_spec(),
            final(self).arena()[step.0 as int].moves@[step.2 as int].stats.sum_spec() == final(self).arena()[step.1 as int].stats.sum_spec(),
            final(self).arena()[step.0 as int].moves@[step.2 as int].stats.availability_spec() == old(self).arena()[step.0 as int].moves@[
                step.2 as int
            ].stats.availability_spec(),
    {
        let (parent, child, move_idx) = step;
        self.nodes[child].stats.up(virtual_loss, reward);
        let child_stats = self.nodes[child].stats;
        self.nodes[parent].moves[move_idx].stats.replace(&child_stats);
        proof {
            assert forall|a: int, j: int|
                0 <= a < old(self).nodes@.len() && 0 <= j < old(self).nodes@[a].moves@.len() && (#[trigger] old(self).nodes@[a].moves@[j]).child
                    is Some implies self.nodes@[a].moves@[j].child == old(self).nodes@[a].moves@[j].child by {}
        }
    }

    /// One playout, as `playout_within` with the node limit of the search's settings.
    pub fn playout(&mut self, tld: &mut ThreadData<M>) -> (r: bool)
        requires
            old(self).wf(),
        ensures
            final(self).wf(),
            final(self).arena_len() >= old(self).arena_len(),
            !r ==> *final(self) == *old(self),
            final(self).root_spec() == old(self).root_spec(),
            final(self).num_nodes_spec() == old(self).num_nodes_spec() + (final(self).arena_len() - old(self).arena_len()),
            forall|n: int|
                0 <= n < old(self).arena_len() ==> old(self).node_spec(n).moves@.len() <= #[trigger] final(self).node_spec(n).moves@.len(),
            r ==> exists|paths: Seq<Seq<(usize, usize, usize)>>|
                #[trigger] played_along(old(self).arena(), final(self).arena(), old(self).root_spec().1, paths),
    {
        let limit = self.manager.node_limit();
        self.playout_within(tld, limit)
    }

    /// One playout: on a random determinization of the root state, the four trees
    /// are followed down together, the player to move choosing by its own tree, a
    /// move never tried before by preference; the first such move, or a playout of
    /// the longest length, ends the descent. A short random rollout scores the state
    /// reached, and each tree gets the reward back along its path. Returns false, and
    /// does nothing, exactly when the trees hold `limit` nodes or more.
    #[verifier::rlimit(80)]
    #[verifier::spinoff_prover]
    pub fn playout_within(&mut self, tld: &mut ThreadData<M>, limit: usize) -> (r: bool)
        requires
            old(self).wf(),
        ensures
            r == (old(self).num_nodes_spec() < limit),
            final(self).wf(),
            final(self).arena_len() >= old(self).arena_len(),
            !r ==> *final(self) == *old(self),
            final(self).root_spec() == old(self).root_spec(),
            final(self).num_nodes_spec() == old(self).num_nodes_spec() + (final(self).arena_len() - old(self).arena_len()),
            forall|n: int|
                0 <= n < old(self).arena_len() ==> old(self).node_spec(n).moves@.len() <= #[trigger] final(self).node_spec(n).moves@.len(),
            r ==> exists|paths: Seq<Seq<(usize, usize, usize)>>|
                #[trigger] played_along(old(self).arena(), final(self).arena(), old(self).root_spec().1, paths),
    {
        if self.num_nodes >= limit {
            return false;
        }
        let vl = self.manager.virtual_loss();
        let max_len = self.manager.max_playout_length();
        let mut rng = std_rng_from_entropy();
        let mut state = self.root_state.duplicate();
        let observer = state.current_player();
        let oi = slot_of::<M>(observer);
        state.randomize_determination(observer, &self.knowledge[oi]);
        let mut paths: Vec<Vec<(usize, usize, usize)>> = vec![Vec::new(), Vec::new(), Vec::new(), Vec::new()];
        let mut players: Vec<Player<M>> = Vec::new();
        let mut nodes: [usize; 4] = self.roots;
        let mut knowledges: Vec<Knowledge<M>> = Vec::new();
        let mut i: usize = 0;
        while i < 4
            invariant
                i <= 4,
            decreases 4 - i,
        {
            knowledges.push(state.new_knowledge(M::State::player_from_index(i)));
            i = i + 1;
        }
        let ghost len0 = self.nodes@.len();
        proof {
            assert forall|q: int| 0 <= q < 4 implies (#[trigger] paths@[q]@).len() == 0 by {}
            let ps = path_seqs(paths@);
            assert forall|q: int| 0 <= q < 4 implies (#[trigger] ps[q]).len() == 0 by {
                assert(ps[q] == paths@[q]@);
            }
            assert forall|n: int| 0 <= n < self.nodes@.len() implies (#[trigger] self.nodes@[n]).stats.visits_spec() == ((if n
                < old(self).nodes@.len() {
                old(self).nodes@[n].stats.visits_spec() as int
            } else {
                0
            }) + reached(ps, n)) % 0x1_0000_0000_0000_0000 by {
                assert(times_reached(ps[0], n) == 0);
                assert(times_reached(ps[1], n) == 0);
                assert(times_reached(ps[2], n) == 0);
                assert(times_reached(ps[3], n) == 0);
            }
            assert forall|q: int| 0 <= q < 4 implies #[trigger] path_from(self.nodes@, old(self).roots[q], paths@[q]@) by {}
            assert(descent_ok(old(self).nodes@, self.nodes@, old(self).roots, paths@));
        }
        while players.len() < max_len
            invariant
                self.wf(),
                self.root_spec() == old(self).root_spec(),
                self.nodes@.len() >= len0,
                    self.num_nodes == old(self).num_nodes + (self.nodes@.len() - len0),
                    len0 == old(self).nodes@.len(),
                    grows(old(self).nodes@, self.nodes@),
                paths@.len() == 4,
                paths_ok(self.nodes@, paths@),
                forall|k: int| 0 <= k < 4 ==> #[trigger] nodes[k] < self.nodes@.len(),
                self.roots == old(self).roots,
                descent_ok(old(self).nodes@, self.nodes@, old(self).roots, paths@),
                forall|q: int| 0 <= q < 4 ==> #[trigger] nodes[q] == path_end(old(self).roots[q], paths@[q]@),
                forall|q: int| 0 <= q < 4 ==> (#[trigger] paths@[q]@).len() == players@.len(),
            decreases max_len - players.len(),
        {
            let legal = state.legal_moves();
            if legal.len() == 0 {
                break;
            }
            let to_move = state.current_player();
            let slot = slot_of::<M>(to_move);
            let target = nodes[slot];
            let untried = self.untried_moves(target, &legal);
            let any_untried = untried.len() > 0;
            if any_untried {
                let k = std_rng_below(&mut rng, untried.len());
                let ghost before = self.nodes@;
                self.add_move(target, M::State::copy_move(&legal[untried[k]]));
                proof {
                    lemma_paths_grow(before, self.nodes@, paths@);
                    lemma_end_on_paths(old(self).roots, paths@, slot as int);
                    lemma_descent_touch(old(self).nodes@, before, self.nodes@, old(self).roots, paths@, target as int);
                }
            }
            let choice_idx: usize = if any_untried {
                self.nodes[target].moves.len() - 1
            } else {
                let (candidates, stats) = self.candidate_moves(target, &legal);
                if candidates.len() == 0 {
                    break;
                }
                let picked = self.policy.choose_move(&stats, &mut tld.policy_data);
                pick_candidate(&candidates, picked)
            };
            let ghost before = self.nodes@;
            self.nodes[target].moves[choice_idx].stats.down(vl);
            proof {
                assert(grows(before, self.nodes@));
                lemma_paths_grow(before, self.nodes@, paths@);
                assert forall|a: int, j: int|
                    0 <= a < before.len() && 0 <= j < before[a].moves@.len() && (#[trigger] before[a].moves@[j]).child is Some implies self.nodes@[a].moves@[j].child
                        == before[a].moves@[j].child by {}
                lemma_end_on_paths(old(self).roots, paths@, slot as int);
                lemma_descent_touch(old(self).nodes@, before, self.nodes@, old(self).roots, paths@, target as int);
            }
            let choice_mv = M::State::copy_move(&self.nodes[target].moves[choice_idx].mv);
            let mut k: usize = 0;
            while k < 4
                invariant
                    k <= 4,
                    self.wf(),
                    self.root_spec() == old(self).root_spec(),
                    self.nodes@.len() >= len0,
                    self.num_nodes == old(self).num_nodes + (self.nodes@.len() - len0),
                    len0 == old(self).nodes@.len(),
                    grows(old(self).nodes@, self.nodes@),
                    paths_ok(self.nodes@, paths@),
                    forall|q: int| 0 <= q < 4 ==> #[trigger] nodes[q] < self.nodes@.len(),
                    paths@.len() == 4,
                    self.roots == old(self).roots,
                    descent_ok(old(self).nodes@, self.nodes@, old(self).roots, paths@),
                    forall|q: int| 0 <= q < 4 ==> #[trigger] nodes[q] == path_end(old(self).roots[q], paths@[q]@),
                    forall|q: int| 0 <= q < 4 ==> (#[trigger] paths@[q]@).len() == players@.len(),
                decreases 4 - k,
            {
                if self.find_child(nodes[k], &choice_mv).is_none() {
                    let ghost before = self.nodes@;
                    self.add_move(nodes[k], M::State::copy_move(&choice_mv));
                    proof {
                        lemma_paths_grow(before, self.nodes@, paths@);
                        lemma_end_on_paths(old(self).roots, paths@, k as int);
                        lemma_descent_touch(old(self).nodes@, before, self.nodes@, old(self).roots, paths@, nodes[k as int] as int);
                    }
                }
                k = k + 1;
            }
            players.push(to_move);
            let mut k: usize = 0;
            while k < knowledges.len()
                invariant
                    k <= knowledges@.len(),
                decreases knowledges@.len() - k,
            {
                state.update_knowledge(&choice_mv, &mut knowledges[k]);
                k = k + 1;
            }
            state.make_move(&choice_mv);
            let mut new_nodes: [usize; 4] = nodes;
            let mut k: usize = 0;
            while k < 4
                invariant
                    k <= 4,
                    self.wf(),
                    self.root_spec() == old(self).root_spec(),
                    self.nodes@.len() >= len0,
                    self.num_nodes == old(self).num_nodes + (self.nodes@.len() - len0),
                    len0 == old(self).nodes@.len(),
                    grows(old(self).nodes@, self.nodes@),
                    paths@.len() == 4,
                    paths_ok(self.nodes@, paths@),
                    forall|q: int| 0 <= q < 4 ==> #[trigger] nodes[q] < self.nodes@.len(),
                    forall|q: int| 0 <= q < 4 ==> #[trigger] new_nodes[q] < self.nodes@.len(),
                    self.roots == old(self).roots,
                    descent_ok(old(self).nodes@, self.nodes@, old(self).roots, paths@),
                    forall|q: int| 0 <= q < 4 ==> #[trigger] new_nodes[q] == path_end(old(self).roots[q], paths@[q]@),
                    forall|q: int| k <= q < 4 ==> #[trigger] nodes[q] == new_nodes[q],
                    forall|q: int| 0 <= q < k ==> (#[trigger] paths@[q]@).len() == players@.len(),
                    forall|q: int| k <= q < 4 ==> (#[trigger] paths@[q]@).len() + 1 == players@.len(),
                decreases 4 - k,
            {
                let node = nodes[k];
                // Each legal move of this determinization was available once more.
                let mut j: usize = 0;
                while j < legal.len()
                    invariant
                        j <= legal@.len(),
                        self.wf(),
                        self.root_spec() == old(self).root_spec(),
                        node < self.nodes@.len(),
                        self.nodes@.len() >= len0,
                    self.num_nodes == old(self).num_nodes + (self.nodes@.len() - len0),
                    len0 == old(self).nodes@.len(),
                    grows(old(self).nodes@, self.nodes@),
                        paths_ok(self.nodes@, paths@),
                        forall|q: int| 0 <= q < 4 ==> #[trigger] nodes[q] < self.nodes@.len(),
                        forall|q: int| 0 <= q < 4 ==> #[trigger] new_nodes[q] < self.nodes@.len(),
                        paths@.len() == 4,
                        k < 4,
                        self.roots == old(self).roots,
                        descent_ok(old(self).nodes@, self.nodes@, old(self).roots, paths@),
                        node == path_end(old(self).roots[k as int], paths@[k as int]@),
                    decreases legal@.len() - j,
                {
                    if let Some(c) = self.find_child(node, &legal[j]) {
                        let ghost before = self.nodes@;
                        self.nodes[node].moves[c].stats.increment_available();
                        proof {
                            assert(grows(before, self.nodes@));
                            lemma_paths_grow(before, self.nodes@, paths@);
                            assert forall|a: int, j2: int|
                                0 <= a < before.len() && 0 <= j2 < before[a].moves@.len() && (#[trigger] before[a].moves@[j2]).child is Some implies self.nodes@[a].moves@[j2].child
                                    == before[a].moves@[j2].child by {}
                            lemma_end_on_paths(old(self).roots, paths@, k as int);
                            lemma_descent_touch(old(self).nodes@, before, self.nodes@, old(self).roots, paths@, node as int);
                        }
                    }
                    j = j + 1;
                }
                let ghost before = self.nodes@;
                let (new_node, _, ci) = self.descend(&state, &choice_mv, node);
                proof {
                    lemma_paths_grow(before, self.nodes@, paths@);
                    lemma_end_on_paths(old(self).roots, paths@, k as int);
                    lemma_descent_touch(old(self).nodes@, before, self.nodes@, old(self).roots, paths@, node as int);
                }
                let ghost paths0 = paths@;
                let ghost mid = self.nodes@;
                paths[k].push((node, new_node, ci));
                proof {
                    assert forall|a: int, c: int| 0 <= a < paths@.len() && 0 <= c < paths@[a]@.len() implies #[trigger] step_ok(self.nodes@, paths@[a]@[c]) by {
                        if a != k || c < paths0[a]@.len() {
                            assert(step_ok(self.nodes@, paths0[a]@[c]));
                        }
                    }
                }
                let ghost before = self.nodes@;
                self.nodes[new_node].stats.down(vl);
                proof {
                    assert(grows(before, self.nodes@));
                    lemma_paths_grow(before, self.nodes@, paths@);
                    assert forall|a: int, j2: int|
                        0 <= a < before.len() && 0 <= j2 < before[a].moves@.len() && (#[trigger] before[a].moves@[j2]).child is Some implies self.nodes@[a].moves@[j2].child
                            == before[a].moves@[j2].child by {}
                    assert forall|q: int| 0 <= q < 4 && q != k implies #[trigger] paths@[q]@ == paths0[q]@ by {}
                    lemma_descent_step(old(self).nodes@, mid, self.nodes@, old(self).roots, paths0, paths@, k as int, (node, new_node, ci));
                }
                new_nodes[k] = new_node;
                k = k + 1;
            }
            nodes = new_nodes;
            if any_untried {
                break;
            }
        }
        let rollout_eval = Self::rollout(&mut state, &self.eval, 4, &mut rng);
        let mut k: usize = 0;
        while k < 4
            invariant
                k <= 4,
                self.wf(),
                self.root_spec() == old(self).root_spec(),
                self.nodes@.len() >= len0,
                    self.num_nodes == old(self).num_nodes + (self.nodes@.len() - len0),
                    len0 == old(self).nodes@.len(),
                    grows(old(self).nodes@, self.nodes@),
                paths@.len() == 4,
                paths_ok(self.nodes@, paths@),
                self.roots == old(self).roots,
                descent_ok(old(self).nodes@, self.nodes@, old(self).roots, paths@),
                forall|q: int| 0 <= q < 4 ==> (#[trigger] paths@[q]@).len() == players@.len(),
            decreases 4 - k,
        {
            proof {
                assert forall|j: int| 0 <= j < paths@[k as int]@.len() implies #[trigger] step_ok(self.nodes@, paths@[k as int]@[j]) by {
                    assert(step_ok(self.nodes@, paths@[k as int]@[j]));
                }
            }
            proof {
                assert(path_from(self.nodes@, old(self).roots[k as int], paths@[k as int]@));
                lemma_path_increasing(self.nodes@, old(self).roots[k as int], paths@[k as int]@);
            }
            let ghost before = self.nodes@;
            self.backpropagation(&paths[k], &players, &rollout_eval);
            proof {
                assert(grows(before, self.nodes@));
                lemma_paths_grow(before, self.nodes@, paths@);
                lemma_descent_back(old(self).nodes@, before, self.nodes@, old(self).roots, paths@, k as int);
            }
            k = k + 1;
        }
        proof {
            let ps = path_seqs(paths@);
            assert forall|q: int| 0 <= q < 4 implies (#[trigger] ps[q]).len() == ps[0].len() by {
                assert(ps[q] == paths@[q]@);
                assert(ps[0] == paths@[0]@);
            }
            assert forall|q: int| 0 <= q < 4 implies #[trigger] path_from(self.nodes@, old(self).roots[q], ps[q]) by {
                assert(ps[q] == paths@[q]@);
                assert(path_from(self.nodes@, old(self).roots[q], paths@[q]@));
            }
            assert(old(self).arena() == old(self).nodes@);
            assert(self.arena() == self.nodes@);
            assert(played_along(old(self).arena(), self.arena(), old(self).root_spec().1, ps));
        }
        true
    }

    /// The numbers of the moves of `legal` that node `node` has not tried yet, in order.
    pub fn untried_moves(&self, node: usize, legal: &Vec<Move<M>>) -> (r: Vec<usize>)
        requires
            node < self.arena_len(),
        ensures
            r@ == untried_of(self.node_spec(node as int), legal@, legal@.len() as int),
            forall|k: int| 0 <= k < r@.len() ==> #[trigger] r@[k] < legal@.len(),
    {
        let mut untried: Vec<usize> = Vec::new();
        let mut j: usize = 0;
        while j < legal.len()
            invariant
                j <= legal@.len(),
                node < self.nodes@.len(),
                untried@ == untried_of(self.nodes@[node as int], legal@, j as int),
                forall|k: int| 0 <= k < untried@.len() ==> #[trigger] untried@[k] < j,
            decreases legal@.len() - j,
        {
            if self.find_child(node, &legal[j]).is_none() {
                untried.push(j);
            }
            j = j + 1;
        }
        untried
    }

    /// The moves of node `node` that are among `legal`, one for each legal move in
    /// order, with their visits, availability and sum of rewards.
    pub fn candidate_moves(&self, node: usize, legal: &Vec<Move<M>>) -> (r: (Vec<usize>, Vec<(u64, u64, i64)>))
        requires
            node < self.arena_len(),
        ensures
            r.0@ == candidates_of(self.node_spec(node as int), legal@, legal@.len() as int),
            r.1@.len() == r.0@.len(),
            forall|k: int| 0 <= k < r.0@.len() ==> #[trigger] r.0@[k] < self.node_spec(node as int).moves@.len(),
            forall|k: int|
                0 <= k < r.1@.len() ==> #[trigger] r.1@[k] == (
                    self.node_spec(node as int).moves@[r.0@[k] as int].stats.visits_spec(),
                    self.node_spec(node as int).moves@[r.0@[k] as int].stats.availability_spec(),
                    self.node_spec(node as int).moves@[r.0@[k] as int].stats.sum_spec(),
                ),
    {
        let mut candidates: Vec<usize> = Vec::new();
        let mut stats: Vec<(u64, u64, i64)> = Vec::new();
        let mut j: usize = 0;
        while j < legal.len()
            invariant
                j <= legal@.len(),
                node < self.nodes@.len(),
                candidates@ == candidates_of(self.nodes@[node as int], legal@, j as int),
                candidates@.len() == stats@.len(),
                forall|k: int| 0 <= k < candidates@.len() ==> #[trigger] candidates@[k] < self.nodes@[node as int].moves@.len(),
                forall|k: int|
                    0 <= k < stats@.len() ==> #[trigger] stats@[k] == (
                        self.nodes@[node as int].moves@[candidates@[k] as int].stats.visits_spec(),
                        self.nodes@[node as int].moves@[candidates@[k] as int].stats.availability_spec(),
                        self.nodes@[node as int].moves@[candidates@[k] as int].stats.sum_spec(),
                    ),
            decreases legal@.len() - j,
        {
            if let Some(c) = self.find_child(node, &legal[j]) {
                let mi = &self.nodes[node].moves[c];
                candidates.push(c);
                stats.push((mi.visits(), mi.availability(), mi.sum_rewards()));
            }
            j = j + 1;
        }
        (candidates, stats)
    }

    /// A legal move of `legal` is the same as `mv`.
    fn is_among(legal: &Vec<Move<M>>, mv: &Move<M>) -> (r: bool)
        ensures
            r == legal@.contains(*mv),
    {
        let mut j: usize = 0;
        while j < legal.len()
            invariant
                j <= legal@.len(),
                forall|i: int| 0 <= i < j ==> legal@[i] != *mv,
            decreases legal@.len() - j,
        {
            if M::State::same_move(&legal[j], mv) {
                return true;
            }
            j = j + 1;
        }
        false
    }

    /// Makes `mv` the move played at the roots: the root state and every player's
    /// knowledge move on by it, and each tree keeps only what lies below `mv`, its
    /// node becoming the new root (a fresh node where `mv` was never expanded).
    #[verifier::rlimit(50)]
    #[verifier::spinoff_prover]
    pub fn advance(&mut self, mv: &Move<M>)
        requires
            old(self).wf(),
        ensures
            final(self).wf(),
            final(self).arena_len() >= old(self).arena_len(),
            forall|i: int| 0 <= i < 4 ==> #[trigger] final(self).root_spec().1[i] > old(self).root_spec().1[i],
            forall|i: int| 0 <= i < 4 ==> (#[trigger] final(self).node_spec(old(self).root_spec().1[i] as int)).moves@.len() == 0,
    {
        let mut new_state = self.root_state.duplicate();
        let mut k: usize = 0;
        while k < 4
            invariant
                k <= 4,
                self.wf(),
                self.roots == old(self).roots,
                self.nodes@ == old(self).nodes@,
            decreases 4 - k,
        {
            new_state.update_knowledge(mv, &mut self.knowledge[k]);
            k = k + 1;
        }
        new_state.make_move(mv);
        self.root_state = new_state;
        let mut r: usize = 0;
        while r < 4
            invariant
                r <= 4,
                self.wf(),
                self.nodes@.len() >= old(self).nodes@.len(),
                forall|i: int| 0 <= i < 4 ==> #[trigger] old(self).roots[i] < old(self).nodes@.len(),
                forall|i: int| 0 <= i < r ==> #[trigger] self.roots[i] > old(self).roots[i],
                forall|i: int| r <= i < 4 ==> #[trigger] self.roots[i] == old(self).roots[i],
                forall|i: int| 0 <= i < r ==> (#[trigger] self.nodes@[old(self).roots[i] as int]).moves@.len() == 0,
            decreases 4 - r,
        {
            let ghost before = self.nodes@;
            let root = self.roots[r];
            let new_root = match self.find_child(root, mv) {
                Some(idx) => {
                    let info = self.nodes[root].moves.remove(idx);
                    proof {
                        assert forall|x: int| 0 <= x < before.len() && x != root implies #[trigger] self.nodes@[x].moves@.len() == before[x].moves@.len() by {}
                    }
                    match info.child {
                        Some(c) => c,
                        None => {
                            let fresh = Node::new(&self.eval, &self.root_state);
                            self.push_node(fresh)
                        },
                    }
                },
                None => {
                    let fresh = Node::new(&self.eval, &self.root_state);
                    self.push_node(fresh)
                },
            };
            proof {
                assert forall|x: int| 0 <= x < before.len() && x != root implies #[trigger] self.nodes@[x].moves@.len() == before[x].moves@.len() by {}
            }
            let ghost mid = self.nodes@;
            self.nodes[root].moves.clear();
            proof {
                assert forall|x: int| 0 <= x < mid.len() && x != root implies #[trigger] self.nodes@[x] == mid[x] by {}
            }
            self.roots[r] = new_root;
            proof {
                assert forall|i: int| 0 <= i < r implies (#[trigger] self.nodes@[old(self).roots[i] as int]).moves@.len() == 0 by {
                    if old(self).roots[i] != root {
                        assert(before[old(self).roots[i] as int].moves@.len() == 0);
                        assert(old(self).roots[i] < old(self).nodes@.len());
                        assert(before.len() >= old(self).nodes@.len());
                        assert(mid.len() >= before.len());
                        assert(self.nodes@[old(self).roots[i] as int] == mid[old(self).roots[i] as int]);
                        assert(mid[old(self).roots[i] as int].moves@.len() == before[old(self).roots[i] as int].moves@.len());
                    }
                }
            }
            r = r + 1;
        }
    }

    /// The last of the most visited moves of node `node` that are among `legal`; none
    /// when no move of the node is.
    pub fn best_child(&self, node: usize, legal: &Vec<Move<M>>) -> (r: Option<usize>)
        requires
            self.wf(),
            node < self.arena_len(),
        ensures
            r is None <==> forall|j: int|
                0 <= j < self.node_spec(node as int).moves@.len() ==> !legal@.contains(
                    (#[trigger] self.node_spec(node as int).moves@[j]).mv,
                ),
            r matches Some(b) ==> best_of(self.node_spec(node as int), legal@, b as int),
    {
        let mut visits: Vec<u64> = Vec::new();
        let mut allowed: Vec<bool> = Vec::new();
        let mut j: usize = 0;
        while j < self.nodes[node].moves.len()
            invariant
                j <= self.nodes@[node as int].moves@.len(),
                node < self.nodes@.len(),
                visits@.len() == j,
                allowed@.len() == j,
                forall|i: int| 0 <= i < j ==> #[trigger] visits@[i] == self.nodes@[node as int].moves@[i].stats.visits_spec(),
                forall|i: int| 0 <= i < j ==> #[trigger] allowed@[i] == legal@.contains(self.nodes@[node as int].moves@[i].mv),
            decreases self.nodes@[node as int].moves@.len() - j,
        {
            let mi = &self.nodes[node].moves[j];
            allowed.push(Self::is_among(legal, &mi.mv));
            visits.push(mi.visits());
            j = j + 1;
        }
        let r = most_visited(&visits, &allowed);
        proof {
            let ms = self.nodes@[node as int].moves@;
            if r is None {
                assert forall|j: int| 0 <= j < ms.len() implies !legal@.contains((#[trigger] ms[j]).mv) by {
                    assert(!allowed@[j]);
                }
            } else {
                let b = r->0 as int;
                assert forall|j: int| 0 <= j < ms.len() && legal@.contains((#[trigger] ms[j]).mv) implies ms[j].stats.visits_spec()
                    <= ms[b].stats.visits_spec() by {
                    assert(allowed@[j]);
                }
                assert forall|j: int| b < j < ms.len() && legal@.contains((#[trigger] ms[j]).mv) implies ms[j].stats.visits_spec()
                    < ms[b].stats.visits_spec() by {
                    assert(allowed@[j]);
                }
                assert(allowed@[b]);
            }
        }
        r
    }

    /// The principal variation: from the roots, up to `num_moves` moves, each the
    /// most visited legal move of the tree of the player to move (the last of several
    /// equally visited), as long as every tree has expanded it.
    pub fn pv(&self, num_moves: usize) -> (r: Vec<Move<M>>)
        requires
            self.wf(),
        ensures
            r@.len() <= num_moves,
            exists|picks: Seq<(usize, usize)>, legals: Seq<Seq<Move<M>>>, curs: Seq<[usize; 4]>|
                #[trigger] pv_ok(self.arena(), self.root_spec().1, r@, picks, legals, curs),
    {
        let mut res: Vec<Move<M>> = Vec::new();
        let mut curr_player = slot_of::<M>(self.root_state.current_player());
        let mut curr: [usize; 4] = self.roots;
        let mut curr_state = self.root_state.duplicate();
        let ghost mut picks: Seq<(usize, usize)> = Seq::empty();
        let ghost mut legals: Seq<Seq<Move<M>>> = Seq::empty();
        let ghost mut curs: Seq<[usize; 4]> = Seq::empty();
        while res.len() < num_moves
            invariant_except_break
                res@.len() == 0 ==> curr == self.roots,
                res@.len() > 0 ==> follows(self.nodes@, curs.last(), res@.last(), curr),
            invariant
                self.wf(),
                curr_player < 4,
                forall|q: int| 0 <= q < 4 ==> #[trigger] curr[q] < self.nodes@.len(),
                res@.len() <= num_moves,
                pv_ok(self.nodes@, self.roots, res@, picks, legals, curs),
            decreases num_moves - res@.len(),
        {
            let legal = curr_state.legal_moves();
            if legal.len() == 0 {
                break;
            }
            let node = curr[curr_player];
            let b = match self.best_child(node, &legal) {
                Some(b) => b,
                None => {
                    break;
                },
            };
            let choice = M::State::copy_move(&self.nodes[node].moves[b].mv);
            let ghost old_res = res@;
            res.push(M::State::copy_move(&choice));
            proof {
                let q0 = curr_player as int;
                assert(node == curr[q0]);
                let pk = picks.push((node, b));
                let lg = legals.push(legal@);
                let cs = curs.push(curr);
                assert(res@ == old_res.push(choice));
                assert forall|i: int| 0 <= i < res@.len() implies #[trigger] pick_ok(self.nodes@, res@[i], pk[i], lg[i], cs[i]) by {
                    if i < old_res.len() {
                        assert(pick_ok(self.nodes@, old_res[i], picks[i], legals[i], curs[i]));
                        assert(res@[i] == old_res[i]);
                    } else {
                        assert(cs[i][q0] == node);
                    }
                }
                assert forall|i: int| 0 <= i && i + 1 < res@.len() implies #[trigger] follows(self.nodes@, cs[i], res@[i], cs[i + 1]) by {
                    if i + 1 < old_res.len() {
                        assert(follows(self.nodes@, curs[i], old_res[i], curs[i + 1]));
                        assert(res@[i] == old_res[i]);
                    } else {
                        assert(i + 1 == old_res.len());
                        assert(cs[i + 1] == curr);
                        assert(res@[i] == old_res.last());
                    }
                }
                picks = pk;
                legals = lg;
                curs = cs;
                assert(pv_ok(self.nodes@, self.roots, res@, picks, legals, curs));
            }
            curr_state.make_move(&choice);
            curr_player = slot_of::<M>(curr_state.current_player());
            let mut next: [usize; 4] = curr;
            let mut all = true;
            let mut q: usize = 0;
            while q < 4
                invariant
                    q <= 4,
                    self.wf(),
                    forall|i: int| 0 <= i < 4 ==> #[trigger] next[i] < self.nodes@.len(),
                    forall|i: int| 0 <= i < 4 ==> #[trigger] curr[i] < self.nodes@.len(),
                    all ==> forall|i: int| 0 <= i < q ==> #[trigger] follows_one(self.nodes@, curr[i], choice, next[i]),
                decreases 4 - q,
            {
                match self.find_child(curr[q], &choice) {
                    Some(c) => match self.nodes[curr[q]].moves[c].child {
                        Some(n) => {
                            proof {
                                assert(children_ok(self.nodes@));
                                assert(match self.nodes@[curr[q as int] as int].moves@[c as int].child {
                                    Some(x) => curr[q as int] < x < self.nodes@.len(),
                                    None => true,
                                });
                            }
                            next[q] = n;
                        },
                        None => {
                            all = false;
                        },
                    },
                    None => {
                        all = false;
                    },
                }
                q = q + 1;
            }
            if !all {
                break;
            }
            proof {
                assert(follows(self.nodes@, curs.last(), res@.last(), next));
            }
            curr = next;
        }
        proof {
            assert(self.arena() == self.nodes@);
            assert(pv_ok(self.arena(), self.root_spec().1, res@, picks, legals, curs));
        }
        res
    }
}

#[verifier::external_type_specification]
#[verifier::external_body]
pub struct ExXorShiftRng(XorShiftRng);

/// Calls `SeedableRng::seed_from_u64` for `XorShiftRng`. Nothing is stated of the
/// generator.
#[verifier::external_body]
fn xorshift_from_seed(seed: u64) -> XorShiftRng {
    <XorShiftRng as rand::SeedableRng>::seed_from_u64(seed)
}

/// Calls `IteratorRandom::choose` on the numbers `0..n`: none exactly when `n` is
/// zero, else some number below `n`. Which one is left open.
#[verifier::external_body]
fn xorshift_choose_below(rng: &mut XorShiftRng, n: usize) -> (r: Option<usize>)
    ensures
        r is None <==> n == 0,
        r matches Some(i) ==> i < n,
{
    rand::seq::IteratorRandom::choose(0..n, rng)
}

/// The random numbers of one searching thread.
pub struct PolicyRng {
    rng: XorShiftRng,
}

impl PolicyRng {
    /// A generator with the fixed seed 1337.
    pub fn new() -> Self {
        Self { rng: xorshift_from_seed(1337) }
    }

    /// The index of one of `n` elements, drawn at random; none when there is none.
    pub fn select_random(&mut self, n: usize) -> (r: Option<usize>)
        ensures
            r is None <==> n == 0,
            r matches Some(i) ==> i < n,
    {
        xorshift_choose_below(&mut self.rng, n)
    }
}

/// A policy that picks uniformly at random among the moves tried before.
#[derive(Debug, Clone)]
pub struct UCBPolicy;

impl Policy for UCBPolicy {
    type ThreadLocalData = PolicyRng;

    fn new_thread_data() -> PolicyRng {
        PolicyRng::new()
    }

    fn choose_move(&self, candidates: &Vec<(u64, u64, i64)>, data: &mut PolicyRng) -> (r: usize)
        ensures
            candidates@.len() > 0 ==> r < candidates@.len(),
            candidates@.len() == 0 ==> r == 0,
    {
        match data.select_random(candidates.len()) {
            Some(i) => i,
            None => 0,
        }
    }
}

/// A search and the data of the thread that runs it.
pub struct Manager<M: MCTS> {
    search_tree: Tree<M>,
    tld: Option<ThreadData<M>>,
}

impl<M: MCTS> Manager<M> {
    pub closed spec fn wf(&self) -> bool {
        self.search_tree.wf()
    }

    /// The state at the roots, the roots and what each player knows there.
    pub closed spec fn root_spec(&self) -> (M::State, [usize; 4], Seq<Knowledge<M>>) {
        self.search_tree.root_spec()
    }

    /// The search.
    pub closed spec fn tree_spec(&self) -> Tree<M> {
        self.search_tree
    }

    /// A search from `state`.
    pub fn new(state: M::State, manager: M, policy: M::Select, eval: M::Eval) -> (r: Self)
        ensures
            r.wf(),
    {
        Self { search_tree: Tree::new(state, manager, policy, eval), tld: None }
    }

    /// One playout, with the thread data made on first use.
    pub fn playout(&mut self)
        requires
            old(self).wf(),
        ensures
            final(self).wf(),
            final(self).root_spec() == old(self).root_spec(),
            final(self).tree_spec().arena_len() >= old(self).tree_spec().arena_len(),
            final(self).tree_spec().num_nodes_spec() == old(self).tree_spec().num_nodes_spec() + (final(self).tree_spec().arena_len()
                - old(self).tree_spec().arena_len()),
            one_playout(old(self).tree_spec().arena(), final(self).tree_spec().arena(), old(self).root_spec().1),
    {
        if self.tld.is_none() {
            self.tld = Some(ThreadData::new());
        }
        let ghost a0 = self.search_tree.arena();
        match &mut self.tld {
            Some(tld) => {
                let _ = self.search_tree.playout(tld);
            },
            None => {},
        }
        proof {
            if self.search_tree.arena() != a0 {
                let w = choose|paths: Seq<Seq<(usize, usize, usize)>>| #[trigger] played_along(a0, self.search_tree.arena(), old(self).root_spec().1, paths);
                assert(played_along(a0, self.search_tree.arena(), old(self).root_spec().1, w));
            }
        }
    }

    /// `n` playouts, one after the other.
    pub fn playout_n(&mut self, n: u64)
        requires
            old(self).wf(),
        ensures
            final(self).wf(),
            final(self).root_spec() == old(self).root_spec(),
            final(self).tree_spec().arena_len() >= old(self).tree_spec().arena_len(),
            final(self).tree_spec().num_nodes_spec() == old(self).tree_spec().num_nodes_spec() + (final(self).tree_spec().arena_len()
                - old(self).tree_spec().arena_len()),
            exists|arenas: Seq<Seq<Node<M>>>|
                #[trigger] playouts(arenas, old(self).root_spec().1) && arenas.len() == n + 1 && arenas[0] == old(self).tree_spec().arena()
                    && arenas.last() == final(self).tree_spec().arena(),
    {
        let mut i: u64 = 0;
        let ghost mut arenas: Seq<Seq<Node<M>>> = seq![self.tree_spec().arena()];
        while i < n
            invariant
                i <= n,
                self.wf(),
                self.root_spec() == old(self).root_spec(),
                self.tree_spec().arena_len() >= old(self).tree_spec().arena_len(),
                self.tree_spec().num_nodes_spec() == old(self).tree_spec().num_nodes_spec() + (self.tree_spec().arena_len()
                    - old(self).tree_spec().arena_len()),
                playouts(arenas, old(self).root_spec().1),
                arenas.len() == i + 1,
                arenas[0] == old(self).tree_spec().arena(),
                arenas.last() == self.tree_spec().arena(),
            decreases n - i,
        {
            let ghost a0 = arenas;
            self.playout();
            proof {
                arenas = a0.push(self.tree_spec().arena());
                assert forall|j: int| 0 <= j && j + 1 < arenas.len() implies #[trigger] one_playout(arenas[j], arenas[j + 1], old(self).root_spec().1) by {
                    if j + 1 < a0.len() {
                        assert(arenas[j] == a0[j]);
                        assert(arenas[j + 1] == a0[j + 1]);
                        assert(one_playout(a0[j], a0[j + 1], old(self).root_spec().1));
                    } else {
                        assert(arenas[j] == a0.last());
                    }
                }
            }
            i = i + 1;
        }
    }

    /// The search.
    pub fn tree(&self) -> (r: &Tree<M>)
        ensures
            self.wf() ==> r.wf(),
            *r == self.tree_spec(),
    {
        &self.search_tree
    }

    /// The principal variation, of up to `num_moves` moves.
    pub fn pv(&self, num_moves: usize) -> (r: Vec<Move<M>>)
        requires
            self.wf(),
        ensures
            r@.len() <= num_moves,
            exists|picks: Seq<(usize, usize)>, legals: Seq<Seq<Move<M>>>, curs: Seq<[usize; 4]>|
                #[trigger] pv_ok(self.tree_spec().arena(), self.root_spec().1, r@, picks, legals, curs),
    {
        let r = self.search_tree.pv(num_moves);
        proof {
            let w = choose|picks: Seq<(usize, usize)>, legals: Seq<Seq<Move<M>>>, curs: Seq<[usize; 4]>|
                #[trigger] pv_ok(self.search_tree.arena(), self.search_tree.root_spec().1, r@, picks, legals, curs);
            assert(pv_ok(self.tree_spec().arena(), self.root_spec().1, r@, w.0, w.1, w.2));
        }
        r
    }

    /// The states along the principal variation of up to `num_moves` moves, from the
    /// root state on, each with the move played from it (none for the last).
    pub fn pv_states(&self, num_moves: usize) -> (r: Vec<(Option<Move<M>>, M::State)>)
        requires
            self.wf(),
        ensures
            r@.len() >= 1,
            r@.len() <= num_moves + 1,
            r@[r@.len() - 1].0 is None,
            exists|pv: Seq<Move<M>>, picks: Seq<(usize, usize)>, legals: Seq<Seq<Move<M>>>, curs: Seq<[usize; 4]>|
                #[trigger] pv_ok(self.tree_spec().arena(), self.root_spec().1, pv, picks, legals, curs) && pv.len() + 1
                    == r@.len() && forall|i: int| 0 <= i < pv.len() ==> (#[trigger] r@[i]).0 == Some(pv[i]),
    {
        let moves = self.pv(num_moves);
        let mut states: Vec<(Option<Move<M>>, M::State)> = Vec::new();
        states.push((None, self.search_tree.root_state().duplicate()));
        let mut i: usize = 0;
        while i < moves.len()
            invariant
                i <= moves@.len(),
                moves@.len() <= num_moves,
                states@.len() == i + 1,
                states@[states@.len() - 1].0 is None,
                forall|k: int| 0 <= k < states@.len() - 1 ==> (#[trigger] states@[k]).0 == Some(moves@[k]),
            decreases moves@.len() - i,
        {
            let last = states.len() - 1;
            let mut state = states[last].1.duplicate();
            state.make_move(&moves[i]);
            let (_, prev) = states.pop().unwrap();
            states.push((Some(M::State::copy_move(&moves[i])), prev));
            states.push((None, state));
            i = i + 1;
        }
        proof {
            let w = choose|picks: Seq<(usize, usize)>, legals: Seq<Seq<Move<M>>>, curs: Seq<[usize; 4]>|
                #[trigger] pv_ok(self.tree_spec().arena(), self.root_spec().1, moves@, picks, legals, curs);
            assert(pv_ok(self.tree_spec().arena(), self.root_spec().1, moves@, w.0, w.1, w.2));
        }
        states
    }

    /// Makes `mv` the move played at the roots.
    pub fn advance(&mut self, mv: &Move<M>)
        requires
            old(self).wf(),
        ensures
            final(self).wf(),
            final(self).tree_spec().arena_len() >= old(self).tree_spec().arena_len(),
            forall|i: int| 0 <= i < 4 ==> #[trigger] final(self).root_spec().1[i] > old(self).root_spec().1[i],
            forall|i: int|
                0 <= i < 4 ==> (#[trigger] final(self).tree_spec().node_spec(old(self).root_spec().1[i] as int)).moves@.len() == 0,
    {
        self.search_tree.advance(mv);
    }

    /// The first move of the principal variation, if any.
    pub fn best_move(&self) -> (r: Option<Move<M>>)
        requires
            self.wf(),
        ensures
            exists|picks: Seq<(usize, usize)>, legals: Seq<Seq<Move<M>>>, curs: Seq<[usize; 4]>|
                #[trigger] pv_ok(
                    self.tree_spec().arena(),
                    self.root_spec().1,
                    seq_of(r),
                    picks,
                    legals,
                    curs,
                ),
    {
        let mut pv = self.pv(1);
        let ghost s = pv@;
        let r = if pv.len() > 0 {
            Some(pv.remove(0))
        } else {
            None
        };
        proof {
            assert(seq_of(r) =~= s);
        }
        r
    }

    /// The moves tried from the root of the player to move.
    pub fn moves(&self) -> (r: Vec<Move<M>>)
        requires
            self.wf(),
        ensures
            exists|i: int|
                0 <= i < 4 && r@.len() == self.tree_spec().node_spec(self.tree_spec().root_spec().1[i] as int).moves@.len()
                    && forall|j: int|
                    0 <= j < r@.len() ==> #[trigger] r@[j] == self.tree_spec().node_spec(self.tree_spec().root_spec().1[i] as int).moves@[j].mv,
    {
        let root = self.search_tree.root();
        let r = root.moves();
        proof {
            let i = choose|i: int| 0 <= i < 4 && *root.node == self.search_tree.node_spec(self.search_tree.root_spec().1[i] as int);
            assert(r@.len() == self.tree_spec().node_spec(self.tree_spec().root_spec().1[i] as int).moves@.len());
            assert(forall|j: int|
                0 <= j < r@.len() ==> #[trigger] r@[j] == self.tree_spec().node_spec(self.tree_spec().root_spec().1[i] as int).moves@[j].mv);
        }
        r
    }

    /// The legal moves at the root state.
    pub fn legal_moves(&self) -> Vec<Move<M>> {
        self.search_tree.root_state().legal_moves()
    }
}

} // verus!
