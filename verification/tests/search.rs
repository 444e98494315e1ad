use robotac::mcts::{most_visited, pick_candidate, Evaluator, GameState, Manager, MoveInfo, Stats, ThreadData, Tree, UCBPolicy, MCTS};
use robotac::transposition::ApproxQuadraticProbingHashTable;

#[derive(Clone, Debug)]
struct CountingGame {
    state: i64,
    goal: i64,
}

#[derive(Clone, Debug, PartialEq, Eq)]
enum Move {
    Add(i64),
    Sub(i64),
    Mul(i64),
    Div(i64),
}

impl GameState for CountingGame {
    type Move = Move;
    type Player = u8;
    type Knowledge = ();

    fn current_player(&self) -> u8 {
        0
    }

    fn player_index(player: u8) -> usize {
        player as usize
    }

    fn player_from_index(i: usize) -> u8 {
        i as u8
    }

    fn legal_moves(&self) -> Vec<Move> {
        if self.state == self.goal {
            vec![]
        } else {
            vec![
                Move::Add(1),
                Move::Add(3),
                Move::Sub(2),
                Move::Sub(4),
                Move::Mul(-3),
                Move::Mul(7),
                Move::Div(-4),
                Move::Div(8),
            ]
        }
    }

    fn make_move(&mut self, mv: &Move) {
        match *mv {
            Move::Add(x) => self.state = self.state.saturating_add(x),
            Move::Sub(x) => self.state = self.state.saturating_sub(x),
            Move::Mul(x) => self.state = self.state.saturating_mul(x),
            Move::Div(x) => self.state /= x,
        }
    }

    fn randomize_determination(&mut self, _observer: u8, _knowledge: &()) {}

    fn update_knowledge(&self, _mv: &Move, _knowledge: &mut ()) {}

    fn new_knowledge(&self, _observer: u8) {}

    fn knowledge_from_state(&self, _observer: u8) {}

    fn duplicate(&self) -> Self {
        self.clone()
    }

    fn copy_move(mv: &Move) -> Move {
        mv.clone()
    }

    fn same_move(a: &Move, b: &Move) -> bool {
        a == b
    }
}

struct Distance;

impl Evaluator<CountingGame> for Distance {
    type StateEval = i64;

    fn eval_new(&self, state: &CountingGame) -> i64 {
        -(state.state.saturating_sub(state.goal)).saturating_abs()
    }

    fn eval_existing(&self, _state: &CountingGame, existing: &i64) -> i64 {
        *existing
    }

    fn make_relative(&self, eval: &i64, _player: u8) -> i64 {
        *eval
    }
}

struct Counting;

impl MCTS for Counting {
    type State = CountingGame;
    type Eval = Distance;
    type Select = UCBPolicy;
}

struct Small;

impl MCTS for Small {
    type State = CountingGame;
    type Eval = Distance;
    type Select = UCBPolicy;

    fn node_limit(&self) -> usize {
        5
    }
}

fn game() -> CountingGame {
    CountingGame { state: 0, goal: 100 }
}

#[test]
fn search_grows_and_gives_a_line() {
    let mut manager = Manager::new(game(), Counting, UCBPolicy, Distance);
    manager.playout_n(500);
    // Playouts leave the game at the roots as it was.
    assert_eq!(manager.tree().root_state().state, 0);
    assert!(manager.tree().num_nodes() > 1);
    let pv = manager.pv(10);
    assert!(!pv.is_empty());
    assert!(pv.len() <= 10);
    let states = manager.pv_states(10);
    assert_eq!(states.len(), pv.len() + 1);
    assert!(states.last().unwrap().0.is_none());
    for (i, (mv, _)) in states.iter().take(pv.len()).enumerate() {
        assert_eq!(mv.as_ref(), Some(&pv[i]));
    }
    assert_eq!(manager.best_move(), Some(pv[0].clone()));
    assert_eq!(manager.legal_moves().len(), 8);
    assert_eq!(manager.moves().len(), 8);
}

#[test]
fn search_stops_at_node_limit() {
    let mut tree = Tree::new(game(), Small, UCBPolicy, Distance);
    let mut tld = ThreadData::<Small>::new();
    let mut refused = 0;
    for _ in 0..50 {
        if !tree.playout(&mut tld) {
            refused += 1;
        }
    }
    assert!(refused > 0);
    assert_eq!(tree.num_nodes(), 5);
}

#[test]
fn advance_moves_the_root() {
    let mut manager = Manager::new(game(), Counting, UCBPolicy, Distance);
    manager.playout_n(100);
    manager.advance(&Move::Add(3));
    assert_eq!(manager.tree().root_state().state, 3);
    manager.playout_n(100);
    assert!(manager.pv(5).len() <= 5);
    manager.advance(&Move::Mul(7));
    assert_eq!(manager.tree().root_state().state, 21);
}

#[test]
fn stats_count_and_wrap() {
    let mut s = Stats::new();
    assert_eq!((s.visits(), s.availability(), s.sum_rewards()), (0, 0, 0));
    s.down(3);
    assert_eq!((s.visits(), s.sum_rewards()), (1, -3));
    s.up(3, 10);
    assert_eq!((s.visits(), s.sum_rewards()), (1, 10));
    s.increment_available();
    assert_eq!(s.availability(), 1);
    let mut t = Stats::new();
    t.increment_available();
    t.increment_available();
    t.replace(&s);
    assert_eq!((t.visits(), t.availability(), t.sum_rewards()), (1, 2, 10));
    let mut w = Stats::new();
    w.up(0, i64::MAX);
    w.up(0, 1);
    assert_eq!(w.sum_rewards(), i64::MIN);
}

#[test]
fn move_info_starts_empty() {
    let info: MoveInfo<Counting> = MoveInfo::new(Move::Sub(2));
    assert_eq!(info.get_move(), &Move::Sub(2));
    assert_eq!((info.visits(), info.availability(), info.sum_rewards()), (0, 0, 0));
    assert_eq!(info.child(), None);
}

#[test]
fn table_gives_back_what_it_stored() {
    let mut table: ApproxQuadraticProbingHashTable<u64, u32> = ApproxQuadraticProbingHashTable::new(8);
    assert_eq!(table.lookup(&5u64), None);
    assert_eq!(table.insert(&5u64, 50), None);
    assert_eq!(table.lookup(&5u64), Some(50));
    // A key already there keeps its value.
    assert_eq!(table.insert(&5u64, 70), Some(50));
    assert_eq!(table.lookup(&5u64), Some(50));
    // Colliding keys probe further.
    assert_eq!(table.insert(&13u64, 130), None);
    assert_eq!(table.lookup(&13u64), Some(130));
    assert_eq!(table.lookup(&5u64), Some(50));
    // A hash of zero stores nothing.
    assert_eq!(table.insert(&0u64, 1), None);
    assert_eq!(table.lookup(&0u64), None);
}

#[test]
fn table_stops_storing_at_two_thirds() {
    let mut table: ApproxQuadraticProbingHashTable<u64, u64> = ApproxQuadraticProbingHashTable::enough_to_hold(10);
    for k in 1..=20u64 {
        table.insert(&k, k * 10);
    }
    let stored = (1..=20u64).filter(|k| table.lookup(k) == Some(k * 10)).count();
    assert_eq!(stored, 11);
}

#[test]
fn table_sizes() {
    // One slot holds nothing at two thirds; two hold one.
    let mut one: ApproxQuadraticProbingHashTable<u64, u8> = ApproxQuadraticProbingHashTable::enough_to_hold(0);
    assert_eq!(one.insert(&1u64, 1), None);
    assert_eq!(one.lookup(&1u64), Some(1));
    assert_eq!(one.insert(&2u64, 2), None);
    assert_eq!(one.lookup(&2u64), None);
}

#[test]
fn most_visited_takes_the_last_of_the_most_visited_allowed() {
    assert_eq!(most_visited(&vec![3, 5, 5, 1], &vec![true, true, true, false]), Some(2));
    assert_eq!(most_visited(&vec![3, 5, 5, 9], &vec![true, false, true, false]), Some(2));
    assert_eq!(most_visited(&vec![3, 5], &vec![false, false]), None);
    assert_eq!(most_visited(&vec![], &vec![]), None);
}

#[test]
fn pick_candidate_takes_the_pick_or_the_first() {
    assert_eq!(pick_candidate(&vec![4, 7, 9], 1), 7);
    assert_eq!(pick_candidate(&vec![4, 7, 9], 2), 9);
    assert_eq!(pick_candidate(&vec![4, 7, 9], 3), 4);
}

#[test]
fn a_playout_tries_one_new_move_at_the_root() {
    let mut tree = Tree::new(game(), Counting, UCBPolicy, Distance);
    let legal = game().legal_moves();
    assert_eq!(tree.untried_moves(0, &legal), (0..8).collect::<Vec<usize>>());
    let (cands, stats) = tree.candidate_moves(0, &legal);
    assert!(cands.is_empty() && stats.is_empty());
    let mut tld = ThreadData::<Counting>::new();
    assert!(tree.playout(&mut tld));
    assert_eq!(tree.untried_moves(0, &legal).len(), 7);
    let (cands, stats) = tree.candidate_moves(0, &legal);
    assert_eq!(cands, vec![0]);
    // The move was followed once and was available once.
    assert_eq!((stats[0].0, stats[0].1), (1, 1));
    // Each of the four trees expanded one node.
    assert_eq!(tree.num_nodes(), 5);
}

#[test]
fn pv_follows_the_most_visited_moves() {
    let mut manager = Manager::new(game(), Counting, UCBPolicy, Distance);
    manager.playout_n(300);
    let pv = manager.pv(3);
    assert!(!pv.is_empty());
    let root = manager.tree().root();
    let mut best = 0;
    for (j, mi) in root.node.moves.iter().enumerate() {
        if mi.visits() >= root.node.moves[best].visits() {
            best = j;
        }
    }
    assert_eq!(pv[0], root.node.moves[best].get_move().clone());
    let legal = game().legal_moves();
    assert_eq!(manager.tree().best_child(0, &legal), Some(best));
}

#[test]
fn back_up_hands_the_reward_to_the_node_and_its_move() {
    let mut tree = Tree::new(game(), Counting, UCBPolicy, Distance);
    let mut tld = ThreadData::<Counting>::new();
    assert!(tree.playout(&mut tld));
    let (child, visits, sum) = {
        let root = tree.root();
        let mi = &root.node.moves[0];
        (mi.child().unwrap(), mi.visits(), mi.sum_rewards())
    };
    assert_eq!(visits, 1);
    tree.back_up((0, child, 0), 2, 10);
    let root = tree.root();
    let mi = &root.node.moves[0];
    assert_eq!((mi.visits(), mi.sum_rewards()), (1, sum + 12));
}
