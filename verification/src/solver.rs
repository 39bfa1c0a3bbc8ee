use std::collections::HashMap;
use vstd::prelude::*;

use crate::game::{
    names3, perm3, sorted_names, text_le, GameState, Move, MoveView, Outcome, SideToMove,
    SolveResult, SolveView,
};
use crate::text::{lemma_text_lt_order, text_lt};
use crate::graph::Graph;
use crate::minimax::{
    chosen, favours, finished, lemma_distance_bound, lemma_filtered_in, lemma_scan_facts, lemma_side_steps_fit,
    lemma_step_child, ply_budget, scan, solve_spec, step_fits, Verdict,
};
use crate::rules::{
    apply_step, apply_step_to, bear_may_enter, bear_step_to, hunter_may_enter, hunter_step_to, bear_steps, bear_steps_in, holds_state, hunter_steps, hunter_steps_in,
    hunter_steps_of, hunters_in, hunters_on_board, locate_loose, loose_position, locate_state, moved_hunters, name_step, name_steps, position_in, position_of, side_steps, sort3,
    step_in, step_view, Position, Step,
};

verus! {

broadcast use vstd::std_specs::hash::group_hash_axioms;

/// The solver's answer for a position, in node positions.
pub struct Solved {
    pub outcome: Outcome,
    pub distance: u32,
    pub best: Option<Step>,
    pub line: Vec<Step>,
}

impl View for Solved {
    type V = Verdict;

    open spec fn view(&self) -> Verdict {
        Verdict {
            outcome: self.outcome,
            distance: self.distance as nat,
            best: self.best,
            line: self.line@,
        }
    }
}

impl Solved {
    fn duplicate(&self) -> (r: Solved)
        ensures
            r@ == self@,
    {
        let mut line: Vec<Step> = Vec::new();
        let mut k: usize = 0;
        while k < self.line.len()
            invariant
                k <= self.line@.len(),
                line@ == self.line@.take(k as int),
            decreases self.line.len() - k,
        {
            line.push(self.line[k]);
            assert(line@ =~= self.line@.take(k + 1));
            k = k + 1;
        }
        assert(self.line@.take(self.line@.len() as int) =~= self.line@);
        Solved { outcome: self.outcome, distance: self.distance, best: self.best, line }
    }
}

/// A position whose node places fit in 16 bits each, so that it has a memo key.
pub open spec fn keyable(p: Position) -> bool {
    p.bear < 0x10000 && p.hunters[0] < 0x10000 && p.hunters[1] < 0x10000 && p.hunters[2]
        < 0x10000
}

pub open spec fn side_bit(s: SideToMove) -> int {
    match s {
        SideToMove::Hunters => 0,
        SideToMove::Bear => 1,
    }
}

/// The memo key of a position: its fields as digits of one number.
pub open spec fn position_key(p: Position) -> u128 {
    (((((p.turns * 2 + side_bit(p.side)) * 0x10000 + p.bear) * 0x10000 + p.hunters[0]) * 0x10000
        + p.hunters[1]) * 0x10000 + p.hunters[2]) as u128
}

proof fn lemma_digit(a: int, b: int, c: int, d: int)
    by (nonlinear_arith)
    requires
        0 <= b < 0x10000,
        0 <= d < 0x10000,
        a * 0x10000 + b == c * 0x10000 + d,
    ensures
        a == c,
        b == d,
{
}

pub proof fn lemma_key_value(p: Position)
    requires
        keyable(p),
    ensures
        position_key(p) as int == ((((p.turns * 2 + side_bit(p.side)) * 0x10000 + p.bear)
            * 0x10000 + p.hunters[0]) * 0x10000 + p.hunters[1]) * 0x10000 + p.hunters[2],
        (position_key(p) as int) < 0x2_0000_0000 * 0x10000 * 0x10000 * 0x10000 * 0x10000,
{
    let t = p.turns * 2 + side_bit(p.side);
    assert(0 <= t < 0x2_0000_0000);
    let a = t * 0x10000 + p.bear;
    assert(0 <= a < 0x2_0000_0000 * 0x10000) by (nonlinear_arith)
        requires
            0 <= t < 0x2_0000_0000,
            0 <= p.bear < 0x10000,
            a == t * 0x10000 + p.bear,
    ;
    let b = a * 0x10000 + p.hunters[0];
    assert(0 <= b < 0x2_0000_0000 * 0x10000 * 0x10000) by (nonlinear_arith)
        requires
            0 <= a < 0x2_0000_0000 * 0x10000,
            0 <= p.hunters[0] < 0x10000,
            b == a * 0x10000 + p.hunters[0],
    ;
    let c = b * 0x10000 + p.hunters[1];
    assert(0 <= c < 0x2_0000_0000 * 0x10000 * 0x10000 * 0x10000) by (nonlinear_arith)
        requires
            0 <= b < 0x2_0000_0000 * 0x10000 * 0x10000,
            0 <= p.hunters[1] < 0x10000,
            c == b * 0x10000 + p.hunters[1],
    ;
    let d = c * 0x10000 + p.hunters[2];
    assert(0 <= d < 0x2_0000_0000 * 0x10000 * 0x10000 * 0x10000 * 0x10000) by (nonlinear_arith)
        requires
            0 <= c < 0x2_0000_0000 * 0x10000 * 0x10000 * 0x10000,
            0 <= p.hunters[2] < 0x10000,
            d == c * 0x10000 + p.hunters[2],
    ;
}

/// Two positions with the same key are the same position.
pub proof fn lemma_key_injective(p: Position, q: Position)
    requires
        keyable(p),
        keyable(q),
        position_key(p) == position_key(q),
    ensures
        p == q,
{
    lemma_key_value(p);
    lemma_key_value(q);
    let tp = p.turns * 2 + side_bit(p.side);
    let tq = q.turns * 2 + side_bit(q.side);
    lemma_digit(
        ((tp * 0x10000 + p.bear) * 0x10000 + p.hunters[0]) * 0x10000 + p.hunters[1],
        p.hunters[2] as int,
        ((tq * 0x10000 + q.bear) * 0x10000 + q.hunters[0]) * 0x10000 + q.hunters[1],
        q.hunters[2] as int,
    );
    lemma_digit(
        (tp * 0x10000 + p.bear) * 0x10000 + p.hunters[0],
        p.hunters[1] as int,
        (tq * 0x10000 + q.bear) * 0x10000 + q.hunters[0],
        q.hunters[1] as int,
    );
    lemma_digit(
        tp * 0x10000 + p.bear,
        p.hunters[0] as int,
        tq * 0x10000 + q.bear,
        q.hunters[0] as int,
    );
    lemma_digit(tp, p.bear as int, tq, q.bear as int);
    assert(p.turns == q.turns);
    assert(p.side == q.side);
    assert(p.hunters =~= q.hunters);
}

/// The memo key of a position, where it has one.
pub fn key_of(p: &Position) -> (r: Option<u128>)
    ensures
        r is Some <==> keyable(*p),
        r matches Some(k) ==> k == position_key(*p),
{
    if p.bear < 0x10000 && p.hunters[0] < 0x10000 && p.hunters[1] < 0x10000 && p.hunters[2]
        < 0x10000 {
        proof {
            lemma_key_value(*p);
        }
        let side: u128 = match p.side {
            SideToMove::Hunters => 0,
            SideToMove::Bear => 1,
        };
        let t = p.turns as u128 * 2 + side;
        let a = t * 0x10000 + p.bear as u128;
        let b = a * 0x10000 + p.hunters[0] as u128;
        let c = b * 0x10000 + p.hunters[1] as u128;
        let d = c * 0x10000 + p.hunters[2] as u128;
        Some(d)
    } else {
        None
    }
}

/// Whether `o` is the outcome that `side` plays for.
fn is_favourable(side: SideToMove, o: Outcome) -> (r: bool)
    ensures
        r == favours(side, o),
{
    match side {
        SideToMove::Hunters => match o {
            Outcome::HuntersWin => true,
            Outcome::BearWin => false,
        },
        SideToMove::Bear => match o {
            Outcome::HuntersWin => false,
            Outcome::BearWin => true,
        },
    }
}

fn finished_result(o: Outcome) -> (r: Solved)
    ensures
        r@ == finished(o),
{
    Solved { outcome: o, distance: 0, best: None, line: Vec::new() }
}

/// The answer for a position whose chosen move is `mv`, leading to `child`.
fn assemble_result(mv: Step, child: Solved) -> (r: Solved)
    requires
        child.distance < u32::MAX,
    ensures
        r@ == (Verdict {
            outcome: child@.outcome,
            distance: child@.distance + 1,
            best: Some(mv),
            line: seq![mv] + child@.line,
        }),
{
    let mut line: Vec<Step> = Vec::new();
    line.push(mv);
    let mut k: usize = 0;
    while k < child.line.len()
        invariant
            k <= child.line@.len(),
            line@ == seq![mv] + child.line@.take(k as int),
        decreases child.line.len() - k,
    {
        line.push(child.line[k]);
        assert(line@ =~= seq![mv] + child.line@.take(k + 1));
        k = k + 1;
    }
    assert(child.line@.take(child.line@.len() as int) =~= child.line@);
    Solved { outcome: child.outcome, distance: child.distance + 1, best: Some(mv), line }
}

/// The candidate held for the loop over moves, as `scan` records it.
pub open spec fn entry_view(e: Option<(usize, Solved)>) -> Option<(int, nat)> {
    match e {
        Some(x) => Some((x.0 as int, x.1.distance as nat)),
        None => None,
    }
}

/// A position's value, with the moves that keep the side to move winning.
#[derive(Debug, Clone)]
pub struct StateEval {
    pub outcome: Outcome,
    pub distance: u32,
    /// On the hunters' turn: the hunter moves after which the hunters win,
    /// quickest win first; empty on the bear's turn.
    pub winning_hunter_moves: Vec<Move>,
    /// On the bear's turn: the bear moves after which the bear wins,
    /// quickest first; empty on the hunters' turn.
    pub refuting_bear_moves: Vec<Move>,
}

/// The move leads to a position that the side to move wins.
pub open spec fn good_for_mover(adj: Seq<Seq<usize>>, limit: u32, p: Position) -> spec_fn(Step) -> bool {
    |s: Step| favours(p.side, solve_spec(adj, limit, apply_step(p, s)).outcome)
}

/// A move with the distance of the position it leads to.
pub open spec fn with_distance(adj: Seq<Seq<usize>>, limit: u32, p: Position) -> spec_fn(Step) -> (
    Step,
    nat,
) {
    |s: Step| (s, solve_spec(adj, limit, apply_step(p, s)).distance)
}

pub open spec fn at_distance(d: nat) -> spec_fn((Step, nat)) -> bool {
    |e: (Step, nat)| e.1 == d
}

pub open spec fn step_of() -> spec_fn((Step, nat)) -> Step {
    |e: (Step, nat)| e.0
}

/// The moves of `c` with distance below `d`: those with distance 0 first,
/// then 1, and so on; in their order in `c` within one distance.
pub open spec fn by_distance(c: Seq<(Step, nat)>, d: nat) -> Seq<Step>
    decreases d,
{
    if d == 0 {
        Seq::empty()
    } else {
        by_distance(c, (d - 1) as nat) + c.filter(at_distance((d - 1) as nat)).map_values(step_of())
    }
}

/// The moves of the side to move that keep it winning, quickest first.
pub open spec fn winning_steps(adj: Seq<Seq<usize>>, limit: u32, p: Position) -> Seq<Step> {
    if p.turns >= limit {
        Seq::empty()
    } else {
        by_distance(
            side_steps(adj, p).filter(good_for_mover(adj, limit, p)).map_values(
                with_distance(adj, limit, p),
            ),
            ply_budget(limit, p),
        )
    }
}

/// The view of a state evaluation.
pub struct EvalView {
    pub outcome: Outcome,
    pub distance: nat,
    pub winning_hunter_moves: Seq<MoveView>,
    pub refuting_bear_moves: Seq<MoveView>,
}

impl View for StateEval {
    type V = EvalView;

    open spec fn view(&self) -> EvalView {
        EvalView {
            outcome: self.outcome,
            distance: self.distance as nat,
            winning_hunter_moves: self.winning_hunter_moves@.map_values(|m: Move| m@),
            refuting_bear_moves: self.refuting_bear_moves@.map_values(|m: Move| m@),
        }
    }
}

/// The evaluation of a state of the graph.
pub open spec fn evaluation(g: &Graph, s: GameState) -> EvalView {
    position_evaluation(g, position_of(g, s@))
}

/// The evaluation of a position of the graph.
pub open spec fn position_evaluation(g: &Graph, p: Position) -> EvalView {
    let v = solve_spec(g.adj(), g.turn_limit, p);
    let moves = named_steps(g, winning_steps(g.adj(), g.turn_limit, p));
    EvalView {
        outcome: v.outcome,
        distance: v.distance,
        winning_hunter_moves: if p.side == SideToMove::Hunters {
            moves
        } else {
            Seq::empty()
        },
        refuting_bear_moves: if p.side == SideToMove::Bear {
            moves
        } else {
            Seq::empty()
        },
    }
}

/// Every move of `r` is the move of some entry of `c`.
pub open spec fn moves_of(r: Seq<Step>, c: Seq<(Step, nat)>) -> bool {
    forall|t: int| 0 <= t < r.len() ==> c.map_values(step_of()).contains(#[trigger] r[t])
}

/// Every move of `by_distance(c, d)` is the move of an entry of `c`.
proof fn lemma_by_distance_from(c: Seq<(Step, nat)>, d: nat)
    ensures
        moves_of(by_distance(c, d), c),
    decreases d,
{
    let cm = c.map_values(step_of());
    if d > 0 {
        lemma_by_distance_from(c, (d - 1) as nat);
        let prev = by_distance(c, (d - 1) as nat);
        let f = c.filter(at_distance((d - 1) as nat));
        let part = f.map_values(step_of());
        let r = by_distance(c, d);
        assert forall|k: int| 0 <= k < r.len() implies cm.contains(#[trigger] r[k]) by {
            if k < prev.len() {
                assert(r[k] == prev[k]);
            } else {
                let m = k - prev.len();
                assert(r[k] == part[m]);
                lemma_filtered_in(c, at_distance((d - 1) as nat), m);
                let i = choose|i: int| 0 <= i < c.len() && c[i] == f[m];
                assert(cm[i] == r[k]);
            }
        }
    }
}

/// The moves that keep the side to move winning are legal moves.
pub proof fn lemma_winning_steps_legal(g: &Graph, p: Position)
    requires
        g.wf(),
        position_in(p, g.node_count()),
    ensures
        forall|k: int|
            0 <= k < winning_steps(g.adj(), g.turn_limit, p).len() ==> step_fits(
                p,
                #[trigger] winning_steps(g.adj(), g.turn_limit, p)[k],
                g.node_count(),
            ),
{
    let adj = g.adj();
    let limit = g.turn_limit;
    let steps = side_steps(adj, p);
    lemma_side_steps_fit(g, p);
    if p.turns < limit {
        let fs = steps.filter(good_for_mover(adj, limit, p));
        let c = fs.map_values(with_distance(adj, limit, p));
        lemma_by_distance_from(c, ply_budget(limit, p));
        assert forall|k: int| 0 <= k < winning_steps(adj, limit, p).len() implies step_fits(
            p,
            #[trigger] winning_steps(adj, limit, p)[k],
            g.node_count(),
        ) by {
            let w = winning_steps(adj, limit, p);
            assert(w == by_distance(c, ply_budget(limit, p)));
            assert(c.map_values(step_of()).contains(w[k]));
            let i = choose|i: int| 0 <= i < c.len() && c.map_values(step_of())[i] == w[k];
            lemma_filtered_in(steps, good_for_mover(adj, limit, p), i);
            let j = choose|j: int| 0 <= j < steps.len() && steps[j] == fs[i];
            assert(step_fits(p, steps[j], g.node_count()));
        }
    }
}

/// Groups without members add nothing.
proof fn lemma_by_distance_stable(c: Seq<(Step, nat)>, d1: nat, d2: nat)
    requires
        d1 <= d2,
        forall|k: int| 0 <= k < c.len() ==> (#[trigger] c[k]).1 < d1,
    ensures
        by_distance(c, d2) == by_distance(c, d1),
    decreases d2,
{
    if d2 > d1 {
        lemma_by_distance_stable(c, d1, (d2 - 1) as nat);
        let pred = at_distance((d2 - 1) as nat);
        assert(c.all(|x: (Step, nat)| !pred(x)));
        c.lemma_all_neg_filter_empty(pred);
        assert(c.filter(pred).map_values(step_of()) =~= Seq::<Step>::empty());
        assert(by_distance(c, d2) =~= by_distance(c, d1));
    }
}

/// Every move of `r` is the move of some entry of `c`.
pub open spec fn drawn_from(r: Seq<Step>, c: Seq<(Step, u32)>) -> bool {
    forall|t: int| 0 <= t < r.len() ==> exists|j: int| 0 <= j < c.len() && c[j].0 == #[trigger] r[t]
}

/// The moves of `c`, grouped by distance as `by_distance` groups them.
fn group_by_distance(c: &Vec<(Step, u32)>, max: u32) -> (r: Vec<Step>)
    requires
        forall|k: int| 0 <= k < c@.len() ==> (#[trigger] c@[k]).1 <= max,
        max < u32::MAX,
    ensures
        r@ == by_distance(c@.map_values(|e: (Step, u32)| (e.0, e.1 as nat)), (max + 1) as nat),
        drawn_from(r@, c@),
{
    let ghost cv = c@.map_values(|e: (Step, u32)| (e.0, e.1 as nat));
    let mut r: Vec<Step> = Vec::new();
    let mut d: u32 = 0;
    while d <= max
        invariant
            cv == c@.map_values(|e: (Step, u32)| (e.0, e.1 as nat)),
            max < u32::MAX,
            d <= max + 1,
            r@ == by_distance(cv, d as nat),
            drawn_from(r@, c@),
        decreases max + 1 - d,
    {
        let ghost base = r@;
        let ghost pred = at_distance(d as nat);
        let ghost f = step_of();
        let mut k: usize = 0;
        assert(cv.take(0) =~= Seq::<(Step, nat)>::empty());
        assert(base =~= base + cv.take(0).filter(pred).map_values(f));
        while k < c.len()
            invariant
                cv == c@.map_values(|e: (Step, u32)| (e.0, e.1 as nat)),
                pred == at_distance(d as nat),
                f == step_of(),
                k <= c@.len(),
                r@ == base + cv.take(k as int).filter(pred).map_values(f),
                drawn_from(r@, c@),
            decreases c@.len() - k,
        {
            let e = c[k];
            proof {
                assert(cv.take(k + 1) =~= cv.take(k as int).push(cv[k as int]));
                cv.take(k as int).lemma_filter_push(cv[k as int], pred);
                cv.take(k as int).filter(pred).lemma_push_map_commute(f, cv[k as int]);
            }
            if e.1 == d {
                let ghost old_r = r@;
                r.push(e.0);
                proof {
                    assert forall|t: int| 0 <= t < r@.len() implies exists|j: int|
                        0 <= j < c@.len() && c@[j].0 == #[trigger] r@[t] by {
                        if t < old_r.len() {
                            assert(r@[t] == old_r[t]);
                        } else {
                            assert(c@[k as int].0 == r@[t]);
                        }
                    }
                }
            }
            assert(r@ =~= base + cv.take(k + 1).filter(pred).map_values(f));
            k = k + 1;
        }
        assert(cv.take(cv.len() as int) =~= cv);
        d = d + 1;
    }
    r
}

/// A solver that remembers every position it has solved.
pub struct Solver<'a> {
    graph: &'a Graph,
    memo: HashMap<u128, Solved>,
}

/// The answer in terms of node ids.
pub open spec fn named_verdict(g: &Graph, v: Verdict) -> SolveView {
    SolveView {
        outcome: v.outcome,
        distance: v.distance,
        best_move: match v.best {
            Some(s) => Some(step_view(g, s)),
            None => None,
        },
        principal_variation: v.line.map_values(|s: Step| step_view(g, s)),
    }
}

/// The perfect-play answer for a state of the graph.
pub open spec fn solution(g: &Graph, s: GameState) -> Verdict {
    solve_spec(g.adj(), g.turn_limit, position_of(g, s@))
}

/// Every position of a line of play stays on the board.
pub open spec fn line_in(v: Verdict, n: nat) -> bool {
    &&& forall|k: int| 0 <= k < v.line.len() ==> step_in(#[trigger] v.line[k], n)
    &&& v.best matches Some(s) ==> step_in(s, n)
}

impl<'a> Solver<'a> {
    /// The graph that the solver plays on.
    pub closed spec fn graph(&self) -> Graph {
        *self.graph
    }

    /// Every remembered answer is the perfect-play answer for its position.
    pub closed spec fn inv(&self) -> bool {
        forall|p: Position|
            keyable(p) && #[trigger] self.memo@.contains_key(position_key(p)) ==> self.memo@[position_key(
                p,
            )]@ == solve_spec(self.graph.adj(), self.graph.turn_limit, p)
    }

    /// A solver with nothing remembered yet.
    pub fn new(graph: &'a Graph) -> (r: Self)
        ensures
            r.graph() == *graph,
            r.inv(),
    {
        Solver { graph, memo: HashMap::new() }
    }

    /// Solves a state under perfect play of both sides.
    pub fn solve(&mut self, start: GameState) -> (r: SolveResult)
        requires
            old(self).inv(),
            old(self).graph().wf(),
            old(self).graph().turn_limit < 0x8000_0000,
            holds_state(&old(self).graph(), start@) || start.hunter_turns_used
                >= old(self).graph().turn_limit,
        ensures
            final(self).inv(),
            final(self).graph() == old(self).graph(),
            r@ == named_verdict(&old(self).graph(), solution(&old(self).graph(), start)),
            start.hunter_turns_used >= old(self).graph().turn_limit ==> r.outcome == Outcome::BearWin
                && r.distance == 0 && r.best_move is None && r.principal_variation@.len() == 0,
    {
        if start.hunter_turns_used >= self.graph.turn_limit {
            let r = SolveResult {
                outcome: Outcome::BearWin,
                distance: 0,
                best_move: None,
                principal_variation: Vec::new(),
            };
            proof {
                let p = position_of(self.graph, start@);
                assert(p.turns >= self.graph.turn_limit);
                assert(solve_spec(self.graph.adj(), self.graph.turn_limit, p) == finished(
                    Outcome::BearWin,
                ));
                let v = named_verdict(self.graph, solution(self.graph, start));
                assert(r@.principal_variation =~= v.principal_variation);
                assert(r@ == v);
            }
            return r;
        }
        let p = locate_state(self.graph, &start);
        let s = self.solve_state(p);
        self.to_result(&s)
    }

    /// Evaluates a state: its value, and on the side to move's turn the moves
    /// that keep that side winning, quickest first.
    pub fn evaluate_state(&mut self, state: GameState) -> (r: StateEval)
        requires
            old(self).inv(),
            old(self).graph().wf(),
            old(self).graph().turn_limit < 0x8000_0000,
            holds_state(&old(self).graph(), state@) || state.hunter_turns_used
                >= old(self).graph().turn_limit,
        ensures
            final(self).inv(),
            final(self).graph() == old(self).graph(),
            r@ == evaluation(&old(self).graph(), state),
    {
        if state.hunter_turns_used >= self.graph.turn_limit {
            let r = StateEval {
                outcome: Outcome::BearWin,
                distance: 0,
                winning_hunter_moves: Vec::new(),
                refuting_bear_moves: Vec::new(),
            };
            proof {
                let p = position_of(self.graph, state@);
                assert(p.turns >= self.graph.turn_limit);
                assert(solve_spec(self.graph.adj(), self.graph.turn_limit, p) == finished(
                    Outcome::BearWin,
                ));
                assert(winning_steps(self.graph.adj(), self.graph.turn_limit, p) =~= Seq::<Step>::empty());
                let e = evaluation(self.graph, state);
                assert(r@.winning_hunter_moves =~= e.winning_hunter_moves);
                assert(r@.refuting_bear_moves =~= e.refuting_bear_moves);
                assert(r@ == e);
            }
            return r;
        }
        let ghost g0 = self.graph;
        let ghost adj = self.graph.adj();
        let ghost limit = self.graph.turn_limit;
        let ghost n = self.graph.node_count();
        let p = locate_state(self.graph, &state);
        let value = self.solve_state(p);
        let mut cands: Vec<(Step, u32)> = Vec::new();
        let mut max: u32 = 0;
        let ghost good = good_for_mover(adj, limit, p);
        let ghost wd = with_distance(adj, limit, p);
        let ghost steps = side_steps(adj, p);
        if p.turns < self.graph.turn_limit {
            let moves = match p.side {
                SideToMove::Hunters => hunter_steps_in(self.graph, &p),
                SideToMove::Bear => bear_steps_in(self.graph, &p),
            };
            proof {
                lemma_side_steps_fit(self.graph, p);
            }
            let mut i: usize = 0;
            assert(steps.take(0) =~= Seq::<Step>::empty());
            while i < moves.len()
                invariant
                    self.inv(),
                    self.graph == g0,
                    g0 == old(self).graph,
                    g0.wf(),
                    adj == g0.adj(),
                    limit == g0.turn_limit,
                    n == g0.node_count(),
                    limit < 0x8000_0000,
                    position_in(p, n),
                    p.turns < limit,
                    good == good_for_mover(adj, limit, p),
                    wd == with_distance(adj, limit, p),
                    steps == side_steps(adj, p),
                    moves@ == steps,
                    forall|j: int| 0 <= j < moves@.len() ==> step_fits(p, #[trigger] moves@[j], n),
                    i <= moves@.len(),
                    cands@.map_values(|e: (Step, u32)| (e.0, e.1 as nat)) == steps.take(
                        i as int,
                    ).filter(good).map_values(wd),
                    forall|k: int| 0 <= k < cands@.len() ==> (#[trigger] cands@[k]).1 <= max,
                    forall|k: int| 0 <= k < cands@.len() ==> step_in((#[trigger] cands@[k]).0, n),
                    max as int + 1 <= ply_budget(limit, p),
                decreases moves@.len() - i,
            {
                let mv = moves[i];
                proof {
                    assert(step_fits(p, moves@[i as int], n));
                    lemma_step_child(p, mv, n, limit);
                    lemma_distance_bound(adj, limit, apply_step(p, mv));
                    assert(steps.take(i + 1) =~= steps.take(i as int).push(mv));
                    steps.take(i as int).lemma_filter_push(mv, good);
                    steps.take(i as int).filter(good).lemma_push_map_commute(wd, mv);
                }
                let next = apply_step_to(&p, &mv);
                let child = self.solve_state(next);
                let ghost before = cands@;
                if is_favourable(p.side, child.outcome) {
                    cands.push((mv, child.distance));
                    if child.distance > max {
                        max = child.distance;
                    }
                }
                assert(cands@.map_values(|e: (Step, u32)| (e.0, e.1 as nat)) =~= steps.take(
                    i + 1,
                ).filter(good).map_values(wd));
                i = i + 1;
            }
            assert(steps.take(steps.len() as int) =~= steps);
        }
        let grouped = group_by_distance(&cands, max);
        proof {
            let cv = cands@.map_values(|e: (Step, u32)| (e.0, e.1 as nat));
            assert forall|k: int| 0 <= k < cv.len() implies (#[trigger] cv[k]).1 < max + 1 by {
                assert(cands@[k].1 <= max);
            }
            if p.turns < limit {
                lemma_by_distance_stable(cv, (max + 1) as nat, ply_budget(limit, p));
            } else {
                assert(cv.len() == 0);
                lemma_by_distance_stable(cv, 0, (max + 1) as nat);
            }
            lemma_solution_in(self.graph, p);
            assert forall|k: int| 0 <= k < grouped@.len() implies step_in(#[trigger] grouped@[k], n) by {
                let j = choose|j: int| 0 <= j < cands@.len() && cands@[j].0 == #[trigger] grouped@[k];
            }
        }
        let moves = name_steps(self.graph, &grouped);
        let none: Vec<Move> = Vec::new();
        assert(move_views(none@) =~= Seq::<MoveView>::empty());
        let (winning_hunter_moves, refuting_bear_moves) = match p.side {
            SideToMove::Hunters => (moves, none),
            SideToMove::Bear => (none, moves),
        };
        StateEval { outcome: value.outcome, distance: value.distance, winning_hunter_moves, refuting_bear_moves }
    }

    /// The legal moves of the side to move, each with the outcome and
    /// distance of the position it leads to.
    pub fn child_outcomes(&mut self, state: &GameState) -> (r: Vec<(Move, Outcome, u32)>)
        requires
            old(self).inv(),
            old(self).graph().wf(),
            old(self).graph().turn_limit < 0x8000_0000,
            holds_state(&old(self).graph(), state@),
            state.side_to_move == SideToMove::Hunters ==> state.hunter_turns_used < u32::MAX,
        ensures
            final(self).inv(),
            final(self).graph() == old(self).graph(),
            ({
                let g = old(self).graph();
                let p = position_of(&g, state@);
                let steps = side_steps(g.adj(), p);
                &&& r@.len() == steps.len()
                &&& forall|j: int|
                    0 <= j < r@.len() ==> (#[trigger] r@[j]).0@ == step_view(&g, steps[j])
                        && r@[j].1 == solve_spec(g.adj(), g.turn_limit, apply_step(p, steps[j])).outcome
                        && r@[j].2 == solve_spec(g.adj(), g.turn_limit, apply_step(p, steps[j])).distance
            }),
    {
        let ghost g0 = self.graph;
        let ghost n = self.graph.node_count();
        let p = locate_state(self.graph, state);
        let moves = match p.side {
            SideToMove::Hunters => hunter_steps_in(self.graph, &p),
            SideToMove::Bear => bear_steps_in(self.graph, &p),
        };
        proof {
            lemma_side_steps_fit(self.graph, p);
        }
        let mut r: Vec<(Move, Outcome, u32)> = Vec::new();
        let mut i: usize = 0;
        while i < moves.len()
            invariant
                self.inv(),
                self.graph == g0,
                g0 == old(self).graph,
                g0.wf(),
                n == g0.node_count(),
                g0.turn_limit < 0x8000_0000,
                position_in(p, n),
                p.side == SideToMove::Hunters ==> p.turns < u32::MAX,
                p == position_of(g0, state@),
                moves@ == side_steps(g0.adj(), p),
                forall|j: int| 0 <= j < moves@.len() ==> step_fits(p, #[trigger] moves@[j], n),
                i <= moves@.len(),
                r@.len() == i,
                forall|j: int|
                    0 <= j < i ==> (#[trigger] r@[j]).0@ == step_view(g0, moves@[j]) && r@[j].1
                        == solve_spec(g0.adj(), g0.turn_limit, apply_step(p, moves@[j])).outcome
                        && r@[j].2 == solve_spec(
                        g0.adj(),
                        g0.turn_limit,
                        apply_step(p, moves@[j]),
                    ).distance,
            decreases moves@.len() - i,
        {
            let mv = moves[i];
            proof {
                assert(step_fits(p, moves@[i as int], n));
            }
            let next = apply_step_to(&p, &mv);
            assert(position_in(next, n));
            let child = self.solve_state(next);
            let named = name_step(self.graph, mv);
            r.push((named, child.outcome, child.distance));
            i = i + 1;
        }
        r
    }

    fn to_result(&self, s: &Solved) -> (r: SolveResult)
        requires
            self.graph.wf(),
            line_in(s@, self.graph.node_count()),
        ensures
            r@ == named_verdict(self.graph, s@),
    {
        let best_move = match s.best {
            Some(b) => Some(name_step(self.graph, b)),
            None => None,
        };
        let principal_variation = name_steps(self.graph, &s.line);
        SolveResult { outcome: s.outcome, distance: s.distance, best_move, principal_variation }
    }

    fn solve_state(&mut self, p: Position) -> (r: Solved)
        requires
            old(self).inv(),
            old(self).graph.wf(),
            old(self).graph.turn_limit < 0x8000_0000,
            position_in(p, old(self).graph.node_count()),
        ensures
            final(self).inv(),
            final(self).graph == old(self).graph,
            r@ == solve_spec(old(self).graph.adj(), old(self).graph.turn_limit, p),
            line_in(r@, old(self).graph.node_count()),
        decreases ply_budget(old(self).graph.turn_limit, p), 2nat,
    {
        let key = key_of(&p);
        if let Some(k) = key {
            if let Some(c) = self.memo.get(&k) {
                let r = c.duplicate();
                proof {
                    assert(self.memo@.contains_key(position_key(p)));
                    lemma_solution_in(self.graph, p);
                }
                return r;
            }
        }
        if p.turns >= self.graph.turn_limit {
            return finished_result(Outcome::BearWin);
        }
        let bear_moves = bear_steps_in(self.graph, &p);
        if bear_moves.len() == 0 {
            return finished_result(Outcome::HuntersWin);
        }
        let result = match p.side {
            SideToMove::Hunters => self.solve_hunters_turn(p),
            SideToMove::Bear => self.solve_bear_turn(p),
        };
        if let Some(k) = key {
            let stored = result.duplicate();
            let ghost before = self.memo@;
            self.memo.insert(k, stored);
            proof {
                assert forall|q: Position|
                    keyable(q) && #[trigger] self.memo@.contains_key(position_key(q)) implies self.memo@[position_key(
                    q,
                )]@ == solve_spec(self.graph.adj(), self.graph.turn_limit, q) by {
                    if position_key(q) == k {
                        lemma_key_injective(p, q);
                    } else {
                        assert(before.contains_key(position_key(q)));
                    }
                }
            }
        }
        result
    }

    fn solve_hunters_turn(&mut self, p: Position) -> (r: Solved)
        requires
            old(self).inv(),
            old(self).graph.wf(),
            old(self).graph.turn_limit < 0x8000_0000,
            position_in(p, old(self).graph.node_count()),
            p.side == SideToMove::Hunters,
            p.turns < old(self).graph.turn_limit,
            bear_steps(old(self).graph.adj(), p).len() > 0,
        ensures
            final(self).inv(),
            final(self).graph == old(self).graph,
            r@ == solve_spec(old(self).graph.adj(), old(self).graph.turn_limit, p),
            line_in(r@, old(self).graph.node_count()),
        decreases ply_budget(old(self).graph.turn_limit, p), 1nat,
    {
        let moves = hunter_steps_in(self.graph, &p);
        if moves.len() == 0 {
            return finished_result(Outcome::BearWin);
        }
        self.best_of(p, moves)
    }

    fn solve_bear_turn(&mut self, p: Position) -> (r: Solved)
        requires
            old(self).inv(),
            old(self).graph.wf(),
            old(self).graph.turn_limit < 0x8000_0000,
            position_in(p, old(self).graph.node_count()),
            p.side == SideToMove::Bear,
            p.turns < old(self).graph.turn_limit,
        ensures
            final(self).inv(),
            final(self).graph == old(self).graph,
            r@ == solve_spec(old(self).graph.adj(), old(self).graph.turn_limit, p),
            line_in(r@, old(self).graph.node_count()),
        decreases ply_budget(old(self).graph.turn_limit, p), 1nat,
    {
        let moves = bear_steps_in(self.graph, &p);
        if moves.len() == 0 {
            return finished_result(Outcome::HuntersWin);
        }
        self.best_of(p, moves)
    }

    /// Looks at every legal move and keeps the best for the side to move.
    fn best_of(&mut self, p: Position, moves: Vec<Step>) -> (r: Solved)
        requires
            old(self).inv(),
            old(self).graph.wf(),
            old(self).graph.turn_limit < 0x8000_0000,
            position_in(p, old(self).graph.node_count()),
            p.turns < old(self).graph.turn_limit,
            bear_steps(old(self).graph.adj(), p).len() > 0,
            moves@ == side_steps(old(self).graph.adj(), p),
            moves@.len() > 0,
        ensures
            final(self).inv(),
            final(self).graph == old(self).graph,
            r@ == solve_spec(old(self).graph.adj(), old(self).graph.turn_limit, p),
            line_in(r@, old(self).graph.node_count()),
        decreases ply_budget(old(self).graph.turn_limit, p), 0nat,
    {
        let ghost g0 = self.graph;
        let ghost adj = self.graph.adj();
        let ghost limit = self.graph.turn_limit;
        let ghost n = self.graph.node_count();
        proof {
            lemma_side_steps_fit(self.graph, p);
        }
        let mut fav: Option<(usize, Solved)> = None;
        let mut unfav: Option<(usize, Solved)> = None;
        let mut i: usize = 0;
        while i < moves.len()
            invariant
                self.inv(),
                self.graph == g0,
                g0 == old(self).graph,
                g0.wf(),
                adj == g0.adj(),
                limit == g0.turn_limit,
                n == g0.node_count(),
                limit < 0x8000_0000,
                position_in(p, n),
                p.turns < limit,
                moves@ == side_steps(adj, p),
                forall|j: int| 0 <= j < moves@.len() ==> step_fits(p, #[trigger] moves@[j], n),
                i <= moves@.len(),
                entry_view(fav) == scan(adj, limit, p, i as nat).0,
                entry_view(unfav) == scan(adj, limit, p, i as nat).1,
                fav matches Some(e) ==> e.1@ == solve_spec(
                    adj,
                    limit,
                    apply_step(p, moves@[e.0 as int]),
                ) && line_in(e.1@, n) && e.0 < moves@.len(),
                unfav matches Some(e) ==> e.1@ == solve_spec(
                    adj,
                    limit,
                    apply_step(p, moves@[e.0 as int]),
                ) && line_in(e.1@, n) && e.0 < moves@.len(),
                i > 0 ==> fav is Some || unfav is Some,
            decreases moves@.len() - i,
        {
            let mv = moves[i];
            proof {
                assert(step_fits(p, moves@[i as int], n));
                lemma_step_child(p, mv, n, limit);
            }
            let next = apply_step_to(&p, &mv);
            assert(ply_budget(self.graph.turn_limit, next) < ply_budget(old(self).graph.turn_limit, p));
            let child = self.solve_state(next);
            if is_favourable(p.side, child.outcome) {
                let replace = match &fav {
                    Some(b) => child.distance < b.1.distance,
                    None => true,
                };
                if replace {
                    fav = Some((i, child));
                }
            } else {
                let replace = match &unfav {
                    Some(b) => child.distance > b.1.distance,
                    None => true,
                };
                if replace {
                    unfav = Some((i, child));
                }
            }
            i = i + 1;
        }
        let pick = if fav.is_some() {
            fav
        } else {
            unfav
        };
        let (k, child) = pick.unwrap();
        proof {
            assert(chosen(adj, limit, p) == entry_view(pick));
            let c = apply_step(p, moves@[k as int]);
            assert(step_fits(p, moves@[k as int], n));
            lemma_step_child(p, moves@[k as int], n, limit);
            lemma_distance_bound(adj, limit, c);
        }
        let r = assemble_result(moves[k], child);
        proof {
            assert(step_fits(p, moves@[k as int], n));
            assert forall|j: int| 0 <= j < r@.line.len() implies step_in(#[trigger] r@.line[j], n) by {
                if j > 0 {
                    assert(r@.line[j] == child@.line[j - 1]);
                }
            }
        }
        r
    }
}

/// Moves with their nodes named by their ids.
pub open spec fn named_steps(g: &Graph, steps: Seq<Step>) -> Seq<MoveView> {
    steps.map_values(|s: Step| step_view(g, s))
}

/// The views of a list of moves.
pub open spec fn move_views(v: Seq<Move>) -> Seq<MoveView> {
    v.map_values(|m: Move| m@)
}

/// The moves of either side stay on the board.
pub proof fn lemma_steps_in(g: &Graph, p: Position)
    requires
        g.wf(),
        position_in(p, g.node_count()),
    ensures
        forall|k: int|
            0 <= k < hunter_steps(g.adj(), p).len() ==> step_in(
                #[trigger] hunter_steps(g.adj(), p)[k],
                g.node_count(),
            ),
        forall|k: int|
            0 <= k < bear_steps(g.adj(), p).len() ==> step_in(
                #[trigger] bear_steps(g.adj(), p)[k],
                g.node_count(),
            ),
{
    let ph = Position { side: SideToMove::Hunters, ..p };
    let pb = Position { side: SideToMove::Bear, ..p };
    lemma_side_steps_fit(g, ph);
    lemma_side_steps_fit(g, pb);
    assert(hunter_may_enter(p) =~= hunter_may_enter(ph));
    assert(hunter_step_to(p, 0) =~= hunter_step_to(ph, 0));
    assert(hunter_step_to(p, 1) =~= hunter_step_to(ph, 1));
    assert(hunter_step_to(p, 2) =~= hunter_step_to(ph, 2));
    assert(bear_may_enter(p) =~= bear_may_enter(pb));
    assert(bear_step_to(p) =~= bear_step_to(pb));
    assert(hunter_steps(g.adj(), p) == side_steps(g.adj(), ph));
    assert(bear_steps(g.adj(), p) == side_steps(g.adj(), pb));
    assert forall|k: int| 0 <= k < hunter_steps(g.adj(), p).len() implies step_in(
        #[trigger] hunter_steps(g.adj(), p)[k],
        g.node_count(),
    ) by {
        assert(step_fits(ph, side_steps(g.adj(), ph)[k], g.node_count()));
    }
    assert forall|k: int| 0 <= k < bear_steps(g.adj(), p).len() implies step_in(
        #[trigger] bear_steps(g.adj(), p)[k],
        g.node_count(),
    ) by {
        assert(step_fits(pb, side_steps(g.adj(), pb)[k], g.node_count()));
    }
}

/// The hunters' moves stay on the board when the hunters do.
proof fn lemma_hunter_steps_in_range(g: &Graph, p: Position)
    requires
        g.wf(),
        hunters_in(p, g.node_count()),
    ensures
        forall|k: int|
            0 <= k < hunter_steps(g.adj(), p).len() ==> step_in(
                #[trigger] hunter_steps(g.adj(), p)[k],
                g.node_count(),
            ),
{
    let n = g.node_count();
    let a = hunter_steps_of(g.adj(), p, 0);
    let b = hunter_steps_of(g.adj(), p, 1);
    let c = hunter_steps_of(g.adj(), p, 2);
    lemma_hunter_steps_of_in_range(g, p, 0);
    lemma_hunter_steps_of_in_range(g, p, 1);
    lemma_hunter_steps_of_in_range(g, p, 2);
    assert forall|k: int| 0 <= k < hunter_steps(g.adj(), p).len() implies step_in(
        #[trigger] hunter_steps(g.adj(), p)[k],
        n,
    ) by {
        if k < a.len() {
            assert(hunter_steps(g.adj(), p)[k] == a[k]);
        } else if k < a.len() + b.len() {
            assert(hunter_steps(g.adj(), p)[k] == b[k - a.len()]);
        } else {
            assert(hunter_steps(g.adj(), p)[k] == c[k - a.len() - b.len()]);
        }
    }
}

/// The moves of hunter `j` stay on the board when that hunter does.
proof fn lemma_hunter_steps_of_in_range(g: &Graph, p: Position, j: int)
    requires
        g.wf(),
        0 <= j < 3,
        p.hunters[j] < g.node_count(),
    ensures
        forall|k: int|
            0 <= k < hunter_steps_of(g.adj(), p, j).len() ==> step_in(
                #[trigger] hunter_steps_of(g.adj(), p, j)[k],
                g.node_count(),
            ),
{
    let v = p.hunters[j] as int;
    let nb = g.adj()[v];
    assert(nb == g.neighbor_indices@[v]@);
    assert(crate::graph::well_formed_links(g.neighbor_indices@[v]@, v, g.node_count() as int));
    assert forall|k: int| 0 <= k < hunter_steps_of(g.adj(), p, j).len() implies step_in(
        #[trigger] hunter_steps_of(g.adj(), p, j)[k],
        g.node_count(),
    ) by {
        lemma_filtered_in(nb, hunter_may_enter(p), k);
        let to = nb.filter(hunter_may_enter(p))[k];
        let i = choose|i: int| 0 <= i < nb.len() && nb[i] == to;
    }
}

/// The bear's moves stay on the board when the bear does.
proof fn lemma_bear_steps_in_range(g: &Graph, p: Position)
    requires
        g.wf(),
        p.bear < g.node_count(),
    ensures
        forall|k: int|
            0 <= k < bear_steps(g.adj(), p).len() ==> step_in(
                #[trigger] bear_steps(g.adj(), p)[k],
                g.node_count(),
            ),
{
    let v = p.bear as int;
    let nb = g.adj()[v];
    assert(nb == g.neighbor_indices@[v]@);
    assert(crate::graph::well_formed_links(g.neighbor_indices@[v]@, v, g.node_count() as int));
    assert forall|k: int| 0 <= k < bear_steps(g.adj(), p).len() implies step_in(
        #[trigger] bear_steps(g.adj(), p)[k],
        g.node_count(),
    ) by {
        lemma_filtered_in(nb, bear_may_enter(p), k);
        let to = nb.filter(bear_may_enter(p))[k];
        let i = choose|i: int| 0 <= i < nb.len() && nb[i] == to;
    }
}

/// The hunters' legal moves: each hunter in turn, to each neighbour that
/// holds neither the bear nor a hunter. Only the hunters need stand on the
/// board; a bear off the board blocks no node.
pub fn legal_hunter_moves(graph: &Graph, state: &GameState) -> (r: Vec<Move>)
    requires
        graph.wf(),
        hunters_on_board(graph, state@),
    ensures
        move_views(r@) == named_steps(graph, hunter_steps(graph.adj(), loose_position(graph, state@))),
        holds_state(graph, state@) ==> loose_position(graph, state@) == position_of(graph, state@),
{
    let p = locate_loose(graph, state);
    proof {
        graph.lemma_has_id(state@.hunters[0]);
        graph.lemma_has_id(state@.hunters[1]);
        graph.lemma_has_id(state@.hunters[2]);
        lemma_hunter_steps_in_range(graph, p);
    }
    let steps = hunter_steps_in(graph, &p);
    name_steps(graph, &steps)
}

/// The bear's legal moves: to each neighbour that holds no hunter. Only the
/// bear need stand on the board; a hunter off the board blocks no node.
pub fn legal_bear_moves(graph: &Graph, state: &GameState) -> (r: Vec<Move>)
    requires
        graph.wf(),
        graph.has_id(state@.bear),
    ensures
        move_views(r@) == named_steps(graph, bear_steps(graph.adj(), loose_position(graph, state@))),
        holds_state(graph, state@) ==> loose_position(graph, state@) == position_of(graph, state@),
{
    let p = locate_loose(graph, state);
    proof {
        graph.lemma_has_id(state@.bear);
        lemma_bear_steps_in_range(graph, p);
    }
    let steps = bear_steps_in(graph, &p);
    name_steps(graph, &steps)
}

/// `next` is the state after `mv` from `state`.
pub open spec fn move_applied(state: GameState, mv: Move, next: GameState) -> bool {
    match mv {
        Move::Hunter { hunter_index, to, .. } => {
            &&& next.bear == state.bear
            &&& perm3(state.hunters@.update(hunter_index as int, to), next.hunters@)
            &&& sorted_names(names3(next.hunters))
            &&& next.side_to_move == SideToMove::Bear
            &&& next.hunter_turns_used == state.hunter_turns_used + 1
        },
        Move::Bear { to, .. } => next == GameState {
            bear: to,
            side_to_move: SideToMove::Hunters,
            ..state
        },
    }
}

/// Three sorted numbers that are an ordering of `a`, `b`, `c` are `sort3(a, b, c)`.
pub proof fn lemma_sort3_unique(a: usize, b: usize, c: usize, r: [usize; 3])
    requires
        perm3(seq![a, b, c], r@),
        r[0] <= r[1] <= r[2],
    ensures
        r == sort3(a, b, c),
{
    assert(r@ =~= seq![r[0], r[1], r[2]]);
    assert(r =~= sort3(a, b, c));
}

/// Named nodes in text order have their places in the same order.
pub proof fn lemma_index_order(g: &Graph, x: Seq<char>, y: Seq<char>)
    requires
        g.wf(),
        g.has_id(x),
        g.has_id(y),
        text_le(x, y),
    ensures
        g.index_of_id(x) <= g.index_of_id(y),
{
    let i = g.index_of_id(x);
    let j = g.index_of_id(y);
    g.lemma_has_id(x);
    g.lemma_has_id(y);
    if j < i {
        assert(text_lt(g.nodes@[j as int].id@, g.nodes@[i as int].id@));
        lemma_text_lt_order(x, y, x);
    }
}

/// Playing a move with `apply_move` agrees with the graph's model of the
/// game: the new state holds only graph nodes, and is the position that the
/// model reaches with the same move.
pub proof fn law_apply_move_agrees(g: &Graph, state: GameState, s: Step, mv: Move, next: GameState)
    requires
        g.wf(),
        holds_state(g, state@),
        step_in(s, g.node_count()),
        mv@ == step_view(g, s),
        s is Hunter ==> s->hunter_index < 3 && state.hunter_turns_used < u32::MAX,
        move_applied(state, mv, next),
    ensures
        holds_state(g, next@),
        position_of(g, next@) == apply_step(position_of(g, state@), s),
{
    let p = position_of(g, state@);
    match s {
        Step::Hunter { hunter_index, from, to } => {
            g.lemma_index_of_id(to);
            let toid = mv->Hunter_to;
            let u = state.hunters@.update(hunter_index as int, toid);
            let un = seq![u[0]@, u[1]@, u[2]@];
            let nn = names3(next.hunters);
            assert(perm3(un, nn)) by {
                assert(next.hunters@ =~= seq![next.hunters[0], next.hunters[1], next.hunters[2]]);
            }
            assert(g.has_id(un[0]) && g.has_id(un[1]) && g.has_id(un[2]));
            assert(g.has_id(nn[0]) && g.has_id(nn[1]) && g.has_id(nn[2]));
            let r = [g.index_of_id(nn[0]), g.index_of_id(nn[1]), g.index_of_id(nn[2])];
            let ui = seq![g.index_of_id(un[0]), g.index_of_id(un[1]), g.index_of_id(un[2])];
            assert(perm3(ui, r@)) by {
                assert(r@ =~= seq![r[0], r[1], r[2]]);
            }
            lemma_index_order(g, nn[0], nn[1]);
            lemma_index_order(g, nn[1], nn[2]);
            lemma_sort3_unique(ui[0], ui[1], ui[2], r);
            assert(r == moved_hunters(p.hunters, hunter_index as int, to));
            assert(position_of(g, next@) =~= apply_step(p, s));
        },
        Step::Bear { from, to } => {
            g.lemma_index_of_id(to);
            assert(position_of(g, next@) =~= apply_step(p, s));
        },
    }
}

/// The state after a move. A hunter move puts the hunter on its target,
/// sorts the hunters, passes the turn to the bear and uses up a hunter turn;
/// a bear move puts the bear on its target and passes the turn to the hunters.
pub fn apply_move(state: &GameState, mv: &Move) -> (next: GameState)
    requires
        mv is Hunter ==> mv->hunter_index < 3 && state.hunter_turns_used < u32::MAX,
    ensures
        move_applied(*state, *mv, next),
{
    match *mv {
        Move::Hunter { hunter_index, to, .. } => {
            let h = state.hunters;
            let moved = if hunter_index == 0 {
                [to, h[1], h[2]]
            } else if hunter_index == 1 {
                [h[0], to, h[2]]
            } else {
                [h[0], h[1], to]
            };
            assert(moved@ =~= state.hunters@.update(hunter_index as int, to));
            let mut next = GameState {
                bear: state.bear,
                hunters: moved,
                side_to_move: SideToMove::Bear,
                hunter_turns_used: state.hunter_turns_used + 1,
            };
            next.canonicalize_hunters();
            next
        },
        Move::Bear { to, .. } => GameState {
            bear: to,
            hunters: state.hunters,
            side_to_move: SideToMove::Hunters,
            hunter_turns_used: state.hunter_turns_used,
        },
    }
}

/// Every move of a perfect-play line stays on the board.
pub proof fn lemma_solution_in(g: &Graph, p: Position)
    requires
        g.wf(),
        position_in(p, g.node_count()),
    ensures
        line_in(solve_spec(g.adj(), g.turn_limit, p), g.node_count()),
    decreases ply_budget(g.turn_limit, p),
{
    let adj = g.adj();
    let limit = g.turn_limit;
    let n = g.node_count();
    if p.turns < limit && bear_steps(adj, p).len() != 0 && side_steps(adj, p).len() != 0 {
        lemma_scan_facts(adj, limit, p, side_steps(adj, p).len());
        lemma_side_steps_fit(g, p);
        if let Some(pick) = chosen(adj, limit, p) {
            let s = side_steps(adj, p)[pick.0];
            assert(step_fits(p, s, n));
            lemma_step_child(p, s, n, limit);
            let child = apply_step(p, s);
            lemma_solution_in(g, child);
            let v = solve_spec(adj, limit, p);
            let cv = solve_spec(adj, limit, child);
            assert forall|j: int| 0 <= j < v.line.len() implies step_in(#[trigger] v.line[j], n) by {
                if j > 0 {
                    assert(v.line[j] == cv.line[j - 1]);
                }
            }
        }
    }
}

} // verus!
