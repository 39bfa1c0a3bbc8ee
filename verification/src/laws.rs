use vstd::prelude::*;

use crate::game::SideToMove;
use crate::graph::Graph;
use crate::minimax::{
    best_choice, child_verdict, favours, law_perfect_play, lemma_distance_bound, lemma_filtered_in,
    lemma_side_steps_fit, lemma_step_child, ply_budget, solve_spec,
};
use crate::graph::{built_from, joined};
use crate::game::BoardDefinition;
use crate::rules::{
    step_in, step_view,
    apply_step, bear_may_enter, bear_step_to, bear_steps, holds_state, hunter_may_enter,
    hunter_step_to, hunter_steps_of, position_in, position_of, side_steps, Position, Step,
};
use crate::solver::{
    at_distance, by_distance, evaluation, good_for_mover, named_verdict, solution, step_of,
    winning_steps, with_distance,
};
use crate::game::{names3, perm3, sorted_names, GameState, Move, MoveView, SolveView, StateView};
use crate::api::{lemma_view_of_position, legal_as, state_view_of};
use crate::minimax::{has_winning_move, step_fits};
use crate::play::{
    named_option,
    is_longest, last_index_of_max, lemma_longest_exists, lemma_longest_unique, line_choice,
    longest_step, pv_chosen, recommendation,
};
use crate::api::recommended_view;
use crate::solver::{EvalView, StateEval};
use crate::game::{move_option_view, Outcome};
use crate::solver::{law_apply_move_agrees, move_applied, named_steps};

verus! {

/// Filtering a sequence, mapping it, filtering the result and mapping back
/// is one filter, when the first map keeps each element in its first part.
proof fn lemma_filter_map_filter(
    s: Seq<Step>,
    keep: spec_fn(Step) -> bool,
    w: spec_fn(Step) -> (Step, nat),
    q: spec_fn((Step, nat)) -> bool,
    both: spec_fn(Step) -> bool,
)
    requires
        forall|x: Step| (#[trigger] w(x)).0 == x,
        forall|x: Step| #[trigger] both(x) == (keep(x) && q(w(x))),
    ensures
        s.filter(keep).map_values(w).filter(q).map_values(step_of()) == s.filter(both),
    decreases s.len(),
{
    if s.len() == 0 {
        reveal(Seq::filter);
        assert(s.filter(keep).map_values(w).filter(q).map_values(step_of()) =~= s.filter(both));
    } else {
        let t = s.drop_last();
        let x = s.last();
        assert(s =~= t.push(x));
        lemma_filter_map_filter(t, keep, w, q, both);
        t.lemma_filter_push(x, keep);
        t.lemma_filter_push(x, both);
        let m = t.filter(keep).map_values(w);
        if keep(x) {
            t.filter(keep).lemma_push_map_commute(w, x);
            m.lemma_filter_push(w(x), q);
            if q(w(x)) {
                m.filter(q).lemma_push_map_commute(step_of(), w(x));
                assert(s.filter(keep).map_values(w).filter(q).map_values(step_of()) =~= t.filter(
                    both,
                ).push(x));
            } else {
                assert(s.filter(keep).map_values(w).filter(q).map_values(step_of()) =~= t.filter(
                    both,
                ));
            }
        } else {
            assert(s.filter(keep).map_values(w).filter(q).map_values(step_of()) =~= t.filter(both));
        }
    }
}

/// The first element kept by a filter is the first element that the
/// predicate holds of.
proof fn lemma_first_in_filter<A>(s: Seq<A>, pred: spec_fn(A) -> bool, k: int)
    requires
        0 <= k < s.len(),
        pred(s[k]),
        forall|j: int| 0 <= j < k ==> !pred(#[trigger] s[j]),
    ensures
        s.filter(pred).len() > 0,
        s.filter(pred)[0] == s[k],
    decreases s.len(),
{
    let t = s.drop_last();
    let x = s.last();
    assert(s =~= t.push(x));
    t.lemma_filter_push(x, pred);
    if k == s.len() - 1 {
        assert forall|j: int| 0 <= j < t.len() implies !pred(#[trigger] t[j]) by {
            assert(t[j] == s[j]);
        }
        assert(t.all(|y: A| !pred(y)));
        t.lemma_all_neg_filter_empty(pred);
    } else {
        assert forall|j: int| 0 <= j < k implies !pred(#[trigger] t[j]) by {
            assert(t[j] == s[j]);
        }
        lemma_first_in_filter(t, pred, k);
    }
}

/// The groups below a distance that no entry is under are empty.
proof fn lemma_by_distance_below(c: Seq<(Step, nat)>, d: nat)
    requires
        forall|k: int| 0 <= k < c.len() ==> (#[trigger] c[k]).1 >= d,
    ensures
        by_distance(c, d).len() == 0,
    decreases d,
{
    if d > 0 {
        lemma_by_distance_below(c, (d - 1) as nat);
        let pred = at_distance((d - 1) as nat);
        assert(c.all(|x: (Step, nat)| !pred(x)));
        c.lemma_all_neg_filter_empty(pred);
    }
}

/// Grouping up to a smaller distance gives a prefix.
proof fn lemma_by_distance_prefix(c: Seq<(Step, nat)>, d1: nat, d2: nat)
    requires
        d1 <= d2,
    ensures
        by_distance(c, d2).len() >= by_distance(c, d1).len(),
        forall|i: int| 0 <= i < by_distance(c, d1).len() ==> by_distance(c, d2)[i] == by_distance(c, d1)[i],
    decreases d2,
{
    if d2 > d1 {
        lemma_by_distance_prefix(c, d1, (d2 - 1) as nat);
    }
}

/// Where the side to move wins and the game goes on, the first move that
/// the evaluation lists is the move that perfect play picks.
proof fn lemma_best_listed_first(g: &Graph, p: Position)
    requires
        g.wf(),
        position_in(p, g.node_count()),
        solve_spec(g.adj(), g.turn_limit, p).distance > 0,
        favours(p.side, solve_spec(g.adj(), g.turn_limit, p).outcome),
    ensures
        winning_steps(g.adj(), g.turn_limit, p).len() > 0,
        solve_spec(g.adj(), g.turn_limit, p).best == Some(winning_steps(g.adj(), g.turn_limit, p)[0]),
{
    let adj = g.adj();
    let limit = g.turn_limit;
    let n = g.node_count();
    let v = solve_spec(adj, limit, p);
    let steps = side_steps(adj, p);
    assert(p.turns < limit && bear_steps(adj, p).len() > 0 && steps.len() > 0);
    law_perfect_play(g, p);
    let k = choose|k: int| best_choice(adj, limit, p, v, k);
    let ck = child_verdict(adj, limit, p, k);
    let ds = ck.distance;
    let good = good_for_mover(adj, limit, p);
    let wd = with_distance(adj, limit, p);
    let fs = steps.filter(good);
    let c = fs.map_values(wd);
    let near = at_distance(ds);
    let both = |s: Step| good(s) && near(wd(s));
    lemma_filter_map_filter(steps, good, wd, near, both);
    assert forall|j: int| 0 <= j < k implies !both(#[trigger] steps[j]) by {
        if good(steps[j]) {
            assert(favours(p.side, child_verdict(adj, limit, p, j).outcome));
        }
    }
    assert(both(steps[k]));
    lemma_first_in_filter(steps, both, k);
    assert forall|i: int| 0 <= i < c.len() implies (#[trigger] c[i]).1 >= ds by {
        lemma_filtered_in(steps, good, i);
        let j = choose|j: int| 0 <= j < steps.len() && steps[j] == fs[i];
        assert(favours(p.side, child_verdict(adj, limit, p, j).outcome));
    }
    lemma_by_distance_below(c, ds);
    lemma_side_steps_fit(g, p);
    lemma_step_child(p, steps[k], n, limit);
    lemma_distance_bound(adj, limit, apply_step(p, steps[k]));
    lemma_by_distance_prefix(c, ds + 1, ply_budget(limit, p));
    let first = by_distance(c, (ds + 1) as nat);
    assert(first =~= by_distance(c, ds) + c.filter(near).map_values(step_of()));
    assert(first[0] == steps[k]);
}

/// Where the side to move wins a state and the game goes on, the
/// evaluation lists at least one move that keeps it winning, and the first
/// it lists is the solver's best move.
pub proof fn law_best_move_listed_first(g: &Graph, s: GameState)
    requires
        g.wf(),
        holds_state(g, s@),
        solution(g, s).distance > 0,
        favours(s.side_to_move, solution(g, s).outcome),
    ensures
        ({
            let e = evaluation(g, s);
            let listed = match s.side_to_move {
                SideToMove::Hunters => e.winning_hunter_moves,
                SideToMove::Bear => e.refuting_bear_moves,
            };
            &&& listed.len() > 0
            &&& named_verdict(g, solution(g, s)).best_move == Some(listed[0])
        }),
{
    let p = position_of(g, s@);
    g.lemma_has_id(s@.bear);
    g.lemma_has_id(s@.hunters[0]);
    g.lemma_has_id(s@.hunters[1]);
    g.lemma_has_id(s@.hunters[2]);
    lemma_best_listed_first(g, p);
}

/// The two ends of a move.
pub open spec fn step_ends(s: Step) -> (usize, usize) {
    match s {
        Step::Hunter { from, to, .. } => (from, to),
        Step::Bear { from, to } => (from, to),
    }
}

/// A move from `v` to a neighbour of `v`, the neighbours filtered by
/// `pred` and each made a move by `f`, goes along an edge of the board.
proof fn lemma_step_along_edge(
    board: BoardDefinition,
    g: Graph,
    v: usize,
    pred: spec_fn(usize) -> bool,
    f: spec_fn(usize) -> Step,
    j: int,
)
    requires
        built_from(g, board),
        v < g.node_count(),
        forall|to: usize| #[trigger] step_ends(f(to)) == (v, to),
        0 <= j < g.adj()[v as int].filter(pred).len(),
    ensures
        ({
            let s = g.adj()[v as int].filter(pred).map_values(f)[j];
            joined(board.edges@, g.nodes@[step_ends(s).0 as int].id@, g.nodes@[step_ends(s).1 as int].id@)
        }),
{
    let nb = g.adj()[v as int];
    lemma_filtered_in(nb, pred, j);
    let to = nb.filter(pred)[j];
    let i = choose|i: int| 0 <= i < nb.len() && nb[i] == to;
    assert(crate::graph::well_formed_links(g.neighbor_indices@[v as int]@, v as int, g.node_count() as int));
    assert(nb == g.neighbor_indices@[v as int]@);
    assert(to < g.node_count());
    assert(g.adj()[v as int].contains(to));
}

/// Every legal move goes along an edge of the board that the graph was
/// built from: movement follows the listed edges and nothing else.
pub proof fn law_moves_follow_edges(board: BoardDefinition, g: Graph, p: Position, j: int)
    requires
        built_from(g, board),
        position_in(p, g.node_count()),
        0 <= j < side_steps(g.adj(), p).len(),
    ensures
        ({
            let ends = step_ends(side_steps(g.adj(), p)[j]);
            joined(board.edges@, g.nodes@[ends.0 as int].id@, g.nodes@[ends.1 as int].id@)
        }),
{
    let adj = g.adj();
    match p.side {
        SideToMove::Bear => {
            lemma_step_along_edge(board, g, p.bear, bear_may_enter(p), bear_step_to(p), j);
        },
        SideToMove::Hunters => {
            let a = hunter_steps_of(adj, p, 0);
            let b = hunter_steps_of(adj, p, 1);
            let c = hunter_steps_of(adj, p, 2);
            if j < a.len() {
                assert(side_steps(adj, p)[j] == a[j]);
                lemma_step_along_edge(board, g, p.hunters[0], hunter_may_enter(p), hunter_step_to(p, 0), j);
            } else if j < a.len() + b.len() {
                assert(side_steps(adj, p)[j] == b[j - a.len()]);
                lemma_step_along_edge(
                    board,
                    g,
                    p.hunters[1],
                    hunter_may_enter(p),
                    hunter_step_to(p, 1),
                    j - a.len(),
                );
            } else {
                assert(side_steps(adj, p)[j] == c[j - a.len() - b.len()]);
                lemma_step_along_edge(
                    board,
                    g,
                    p.hunters[2],
                    hunter_may_enter(p),
                    hunter_step_to(p, 2),
                    j - a.len() - b.len(),
                );
            }
        },
    }
}

} // verus!

verus! {

/// A move from `v`, to a neighbour of `v` that `pred` keeps, made a move by
/// `f`, leaves `v` for one of its neighbours.
proof fn lemma_step_adjacent_of(
    g: &Graph,
    v: usize,
    pred: spec_fn(usize) -> bool,
    f: spec_fn(usize) -> Step,
    j: int,
)
    requires
        g.wf(),
        v < g.node_count(),
        forall|to: usize| #[trigger] step_ends(f(to)) == (v, to),
        0 <= j < g.adj()[v as int].filter(pred).len(),
    ensures
        ({
            let s = g.adj()[v as int].filter(pred).map_values(f)[j];
            &&& step_ends(s).0 == v
            &&& g.adj()[v as int].contains(step_ends(s).1)
            &&& step_ends(s).1 < g.node_count()
        }),
{
    let nb = g.adj()[v as int];
    lemma_filtered_in(nb, pred, j);
    let to = nb.filter(pred)[j];
    let i = choose|i: int| 0 <= i < nb.len() && nb[i] == to;
    assert(crate::graph::well_formed_links(g.neighbor_indices@[v as int]@, v as int, g.node_count() as int));
    assert(nb == g.neighbor_indices@[v as int]@);
}

/// Every legal move leaves its node for a neighbour.
proof fn lemma_side_step_adjacent(g: &Graph, p: Position, j: int)
    requires
        g.wf(),
        position_in(p, g.node_count()),
        0 <= j < side_steps(g.adj(), p).len(),
    ensures
        ({
            let ends = step_ends(side_steps(g.adj(), p)[j]);
            g.adj()[ends.0 as int].contains(ends.1)
        }),
{
    let adj = g.adj();
    match p.side {
        SideToMove::Bear => {
            lemma_step_adjacent_of(g, p.bear, bear_may_enter(p), bear_step_to(p), j);
        },
        SideToMove::Hunters => {
            let a = hunter_steps_of(adj, p, 0);
            let b = hunter_steps_of(adj, p, 1);
            let c = hunter_steps_of(adj, p, 2);
            if j < a.len() {
                assert(side_steps(adj, p)[j] == a[j]);
                lemma_step_adjacent_of(g, p.hunters[0], hunter_may_enter(p), hunter_step_to(p, 0), j);
            } else if j < a.len() + b.len() {
                assert(side_steps(adj, p)[j] == b[j - a.len()]);
                lemma_step_adjacent_of(
                    g,
                    p.hunters[1],
                    hunter_may_enter(p),
                    hunter_step_to(p, 1),
                    j - a.len(),
                );
            } else {
                assert(side_steps(adj, p)[j] == c[j - a.len() - b.len()]);
                lemma_step_adjacent_of(
                    g,
                    p.hunters[2],
                    hunter_may_enter(p),
                    hunter_step_to(p, 2),
                    j - a.len() - b.len(),
                );
            }
        },
    }
}

/// A state the game can be in: every piece on a node of the graph, the
/// hunters on three different nodes in increasing order of name, and the
/// bear on none of theirs.
pub open spec fn valid_state(g: &Graph, s: StateView) -> bool {
    &&& holds_state(g, s)
    &&& s.hunters[0] != s.hunters[1]
    &&& s.hunters[0] != s.hunters[2]
    &&& s.hunters[1] != s.hunters[2]
    &&& sorted_names(s.hunters)
    &&& s.bear != s.hunters[0]
    &&& s.bear != s.hunters[1]
    &&& s.bear != s.hunters[2]
}

/// The state after legal move `j` of the side to move.
#[verifier::opaque]
pub open spec fn state_after(g: &Graph, s: StateView, j: int) -> StateView {
    let p = position_of(g, s);
    state_view_of(g, apply_step(p, side_steps(g.adj(), p)[j]))
}

/// The legal moves of the side to move, named.
pub open spec fn legal_moves_of(g: &Graph, s: StateView) -> Seq<MoveView> {
    named_steps(g, side_steps(g.adj(), position_of(g, s)))
}

/// The value under perfect play of a state, named.
#[verifier::opaque]
pub open spec fn view_value(g: &Graph, s: StateView) -> SolveView {
    named_verdict(g, solve_spec(g.adj(), g.turn_limit, position_of(g, s)))
}

/// A position of the graph reads back from its named state.
proof fn lemma_view_position(g: &Graph, q: Position)
    requires
        g.wf(),
        position_in(q, g.node_count()),
    ensures
        position_of(g, state_view_of(g, q)) == q,
{
    g.lemma_index_of_id(q.bear);
    g.lemma_index_of_id(q.hunters[0]);
    g.lemma_index_of_id(q.hunters[1]);
    g.lemma_index_of_id(q.hunters[2]);
    assert(position_of(g, state_view_of(g, q)).hunters =~= q.hunters);
}

/// Playing a legal move with `apply_move` keeps a valid state valid and
/// passes the turn: exactly one piece moves, from its node to a neighbour;
/// a hunter move uses up a hunter turn and a bear move does not. The state
/// reached is the state after that legal move.
pub proof fn law_apply_move_keeps_valid(g: &Graph, state: GameState, j: int, mv: Move, next: GameState)
    requires
        g.wf(),
        valid_state(g, state@),
        legal_as(g, position_of(g, state@), mv@, j),
        mv is Hunter ==> state.hunter_turns_used < u32::MAX,
        move_applied(state, mv, next),
    ensures
        valid_state(g, next@),
        next@ == state_after(g, state@, j),
        next.side_to_move != state.side_to_move,
        match mv {
            Move::Hunter { hunter_index, from, to } => {
                &&& hunter_index < 3
                &&& from@ == state@.hunters[hunter_index as int]
                &&& next.bear == state.bear
                &&& perm3(state.hunters@.update(hunter_index as int, to), next.hunters@)
                &&& next.hunter_turns_used == state.hunter_turns_used + 1
                &&& g.adj()[g.index_of_id(from@) as int].contains(g.index_of_id(to@))
            },
            Move::Bear { from, to } => {
                &&& from@ == state@.bear
                &&& next.bear == to
                &&& next.hunters == state.hunters
                &&& next.hunter_turns_used == state.hunter_turns_used
                &&& g.adj()[g.index_of_id(from@) as int].contains(g.index_of_id(to@))
            },
        },
{
    let p = position_of(g, state@);
    let n = g.node_count();
    let steps = side_steps(g.adj(), p);
    let st = steps[j];
    g.lemma_has_id(state@.bear);
    g.lemma_has_id(state@.hunters[0]);
    g.lemma_has_id(state@.hunters[1]);
    g.lemma_has_id(state@.hunters[2]);
    assert(position_in(p, n));
    lemma_side_steps_fit(g, p);
    assert(step_fits(p, st, n));
    lemma_side_step_adjacent(g, p, j);
    law_apply_move_agrees(g, state, st, mv, next);
    lemma_view_of_position(g, next);
    reveal(state_after);
    match st {
        Step::Hunter { hunter_index: k, from, to } => {
            g.lemma_index_of_id(to);
            g.lemma_index_of_id(from);
            let u = state.hunters@.update(k as int, mv->Hunter_to);
            assert(u[k as int]@ == g.nodes@[to as int].id@);
            assert(next.hunters@ =~= seq![next.hunters[0], next.hunters[1], next.hunters[2]]);
            assert(names3(next.hunters) == next@.hunters);
        },
        Step::Bear { from, to } => {
            g.lemma_index_of_id(to);
            g.lemma_index_of_id(from);
        },
    }
}

/// The named value of a state is the solver's answer for it.
pub proof fn lemma_view_value_is_solution(g: &Graph, s: GameState)
    ensures
        view_value(g, s@) == named_verdict(g, solution(g, s)),
{
    reveal(view_value);
}

/// Perfect play over states and moves (values are those `Solver::solve`
/// returns, `view_value` of a state being its solution, named): where the hunters still have turns,
/// the bear can move and the side to move has legal moves, the side to move
/// wins exactly when one of its legal moves leads to a state it wins. It
/// plays the first legal move, in move order, of the quickest such win, or
/// else of the slowest loss; the value's distance is one more than that of
/// the state the move leads to, and its line continues with that state's
/// line.
pub proof fn law_solver_perfect_play(g: &Graph, s: GameState)
    requires
        g.wf(),
        holds_state(g, s@),
        s.hunter_turns_used < g.turn_limit,
        bear_steps(g.adj(), position_of(g, s@)).len() > 0,
        legal_moves_of(g, s@).len() > 0,
    ensures
        ({
            let v = view_value(g, s@);
            let ms = legal_moves_of(g, s@);
            let wins = favours(s.side_to_move, v.outcome);
            &&& v == named_verdict(g, solution(g, s))
            &&& wins <==> exists|j: int|
                0 <= j < ms.len() && favours(
                    s.side_to_move,
                    #[trigger] view_value(g, state_after(g, s@, j)).outcome,
                )
            &&& exists|k: int|
                #![trigger state_after(g, s@, k)]
                {
                    let ck = view_value(g, state_after(g, s@, k));
                    &&& 0 <= k < ms.len()
                    &&& v.best_move == Some(ms[k])
                    &&& v.outcome == ck.outcome
                    &&& v.distance == ck.distance + 1
                    &&& v.principal_variation == seq![ms[k]] + ck.principal_variation
                    &&& forall|j: int|
                        0 <= j < ms.len() && favours(
                            s.side_to_move,
                            #[trigger] view_value(g, state_after(g, s@, j)).outcome,
                        ) == wins ==> if wins {
                            ck.distance <= view_value(g, state_after(g, s@, j)).distance && (j < k
                                ==> ck.distance < view_value(g, state_after(g, s@, j)).distance)
                        } else {
                            ck.distance >= view_value(g, state_after(g, s@, j)).distance && (j < k
                                ==> ck.distance > view_value(g, state_after(g, s@, j)).distance)
                        }
                }
        }),
{
    let adj = g.adj();
    let limit = g.turn_limit;
    let p = position_of(g, s@);
    let steps = side_steps(adj, p);
    lemma_child_values(g, s);
    lemma_named_wins(g, s);
    lemma_named_best(g, s);
    lemma_view_value_is_solution(g, s);
}

/// Perfect play picks a legal move, named as the choice of perfect play.
#[verifier::spinoff_prover]
#[verifier::rlimit(30)]
proof fn lemma_named_best(g: &Graph, s: GameState)
    requires
        g.wf(),
        holds_state(g, s@),
        position_in(position_of(g, s@), g.node_count()),
        s.hunter_turns_used < g.turn_limit,
        bear_steps(g.adj(), position_of(g, s@)).len() > 0,
        side_steps(g.adj(), position_of(g, s@)).len() > 0,
        children_named(g, s),
    ensures
        exists|k: int|
            #![trigger state_after(g, s@, k)]
            {
                let v = view_value(g, s@);
                let ms = legal_moves_of(g, s@);
                let wins = favours(s.side_to_move, v.outcome);
                let ck = view_value(g, state_after(g, s@, k));
                &&& 0 <= k < ms.len()
                &&& v.best_move == Some(ms[k])
                &&& v.outcome == ck.outcome
                &&& v.distance == ck.distance + 1
                &&& v.principal_variation == seq![ms[k]] + ck.principal_variation
                &&& forall|j: int|
                    0 <= j < ms.len() && favours(
                        s.side_to_move,
                        #[trigger] view_value(g, state_after(g, s@, j)).outcome,
                    ) == wins ==> if wins {
                        ck.distance <= view_value(g, state_after(g, s@, j)).distance && (j < k
                            ==> ck.distance < view_value(g, state_after(g, s@, j)).distance)
                    } else {
                        ck.distance >= view_value(g, state_after(g, s@, j)).distance && (j < k
                            ==> ck.distance > view_value(g, state_after(g, s@, j)).distance)
                    }
            },
{
    let adj = g.adj();
    let limit = g.turn_limit;
    let p = position_of(g, s@);
    law_perfect_play(g, p);
    let k = choose|k: int| best_choice(adj, limit, p, solve_spec(adj, limit, p), k);
    lemma_named_choice(g, s, k);
    assert(view_value(g, s@) == named_verdict(g, solve_spec(adj, limit, p))) by {
        reveal(view_value);
    }
}

/// The side to move wins exactly when a legal move leads to a state it wins.
proof fn lemma_named_wins(g: &Graph, s: GameState)
    requires
        g.wf(),
        holds_state(g, s@),
        children_named(g, s),
        position_in(position_of(g, s@), g.node_count()),
        s.hunter_turns_used < g.turn_limit,
        bear_steps(g.adj(), position_of(g, s@)).len() > 0,
        side_steps(g.adj(), position_of(g, s@)).len() > 0,
    ensures
        favours(s.side_to_move, view_value(g, s@).outcome) <==> exists|j: int|
            0 <= j < legal_moves_of(g, s@).len() && favours(
                s.side_to_move,
                #[trigger] view_value(g, state_after(g, s@, j)).outcome,
            ),
{
    let adj = g.adj();
    let limit = g.turn_limit;
    let p = position_of(g, s@);
    let steps = side_steps(adj, p);
    reveal(children_named);
    law_perfect_play(g, p);
    assert(view_value(g, s@) == named_verdict(g, solve_spec(adj, limit, p))) by {
        reveal(view_value);
    }
    let wins = favours(s.side_to_move, solve_spec(adj, limit, p).outcome);
    if wins {
        let j = choose|j: int|
            0 <= j < steps.len() && favours(p.side, #[trigger] child_verdict(adj, limit, p, j).outcome);
        assert(view_value(g, state_after(g, s@, j)) == named_verdict(g, child_verdict(adj, limit, p, j)));
        assert(favours(s.side_to_move, view_value(g, state_after(g, s@, j)).outcome));
    }
    assert forall|j: int| 0 <= j < legal_moves_of(g, s@).len() && favours(
        s.side_to_move,
        #[trigger] view_value(g, state_after(g, s@, j)).outcome,
    ) implies wins by {
        assert(view_value(g, state_after(g, s@, j)) == named_verdict(g, child_verdict(adj, limit, p, j)));
        assert(favours(p.side, child_verdict(adj, limit, p, j).outcome));
    }
}

/// The value of the state after each legal move is the value of the
/// position that move reaches.
#[verifier::opaque]
pub open spec fn children_named(g: &Graph, s: GameState) -> bool {
    forall|j: int|
        0 <= j < side_steps(g.adj(), position_of(g, s@)).len() ==> #[trigger] view_value(
            g,
            state_after(g, s@, j),
        ) == named_verdict(g, child_verdict(g.adj(), g.turn_limit, position_of(g, s@), j))
}

/// The value of the state after each legal move is the value of the
/// position that move reaches.
proof fn lemma_child_values(g: &Graph, s: GameState)
    requires
        g.wf(),
        holds_state(g, s@),
        s.hunter_turns_used < g.turn_limit,
    ensures
        position_in(position_of(g, s@), g.node_count()),
        children_named(g, s),
{
    let adj = g.adj();
    let limit = g.turn_limit;
    let n = g.node_count();
    let p = position_of(g, s@);
    let steps = side_steps(adj, p);
    g.lemma_has_id(s@.bear);
    g.lemma_has_id(s@.hunters[0]);
    g.lemma_has_id(s@.hunters[1]);
    g.lemma_has_id(s@.hunters[2]);
    lemma_side_steps_fit(g, p);
    reveal(view_value);
    reveal(state_after);
    reveal(children_named);
    assert forall|j: int| 0 <= j < steps.len() implies #[trigger] view_value(g, state_after(g, s@, j))
        == named_verdict(g, child_verdict(adj, limit, p, j)) by {
        assert(step_fits(p, steps[j], n));
        lemma_step_child(p, steps[j], n, limit);
        lemma_view_position(g, apply_step(p, steps[j]));
    }
}

/// The choice of perfect play, named.
proof fn lemma_named_choice(g: &Graph, s: GameState, k: int)
    requires
        g.wf(),
        holds_state(g, s@),
        children_named(g, s),
        best_choice(
            g.adj(),
            g.turn_limit,
            position_of(g, s@),
            solve_spec(g.adj(), g.turn_limit, position_of(g, s@)),
            k,
        ),
    ensures
        ({
            let v = view_value(g, s@);
            let ms = legal_moves_of(g, s@);
            let wins = favours(s.side_to_move, v.outcome);
            let ck = view_value(g, state_after(g, s@, k));
            &&& 0 <= k < ms.len()
            &&& v.best_move == Some(ms[k])
            &&& v.outcome == ck.outcome
            &&& v.distance == ck.distance + 1
            &&& v.principal_variation == seq![ms[k]] + ck.principal_variation
            &&& forall|j: int|
                0 <= j < ms.len() && favours(
                    s.side_to_move,
                    #[trigger] view_value(g, state_after(g, s@, j)).outcome,
                ) == wins ==> if wins {
                    ck.distance <= view_value(g, state_after(g, s@, j)).distance && (j < k
                        ==> ck.distance < view_value(g, state_after(g, s@, j)).distance)
                } else {
                    ck.distance >= view_value(g, state_after(g, s@, j)).distance && (j < k
                        ==> ck.distance > view_value(g, state_after(g, s@, j)).distance)
                }
        }),
{
    let adj = g.adj();
    let limit = g.turn_limit;
    let p = position_of(g, s@);
    let sv = solve_spec(adj, limit, p);
    let v = named_verdict(g, sv);
    reveal(children_named);
    assert(view_value(g, s@) == v) by {
        reveal(view_value);
    }
    let ms = legal_moves_of(g, s@);
    let wins = favours(s.side_to_move, v.outcome);
    let ck = view_value(g, state_after(g, s@, k));
    assert(ck == named_verdict(g, child_verdict(adj, limit, p, k)));
    assert(v.principal_variation =~= seq![ms[k]] + ck.principal_variation);
    assert forall|j: int|
        0 <= j < ms.len() && favours(
            s.side_to_move,
            #[trigger] view_value(g, state_after(g, s@, j)).outcome,
        ) == wins implies if wins {
        ck.distance <= view_value(g, state_after(g, s@, j)).distance && (j < k ==> ck.distance
            < view_value(g, state_after(g, s@, j)).distance)
    } else {
        ck.distance >= view_value(g, state_after(g, s@, j)).distance && (j < k ==> ck.distance
            > view_value(g, state_after(g, s@, j)).distance)
    } by {
        assert(view_value(g, state_after(g, s@, j)) == named_verdict(g, child_verdict(adj, limit, p, j)));
        assert(favours(p.side, child_verdict(adj, limit, p, j).outcome) == favours(p.side, sv.outcome));
    }
}

} // verus!

verus! {

/// A move is grouped below distance `d` exactly when some entry gives it
/// with a distance below `d`.
proof fn lemma_by_distance_contains(c: Seq<(Step, nat)>, d: nat, x: Step)
    ensures
        by_distance(c, d).contains(x) <==> exists|i: int|
            0 <= i < c.len() && #[trigger] c[i].0 == x && c[i].1 < d,
    decreases d,
{
    if d > 0 {
        lemma_by_distance_contains(c, (d - 1) as nat, x);
        let a = by_distance(c, (d - 1) as nat);
        let pred = at_distance((d - 1) as nat);
        let f = c.filter(pred);
        let b = f.map_values(step_of());
        let all = by_distance(c, d);
        assert(all == a + b);
        if all.contains(x) {
            let m = choose|m: int| 0 <= m < all.len() && all[m] == x;
            if m >= a.len() {
                let q = m - a.len();
                assert(b[q] == x);
                lemma_filtered_in(c, pred, q);
                let i = choose|i: int| 0 <= i < c.len() && c[i] == f[q];
                assert(c[i].0 == x && c[i].1 < d);
            } else {
                assert(a[m] == x);
                assert(a.contains(x));
            }
        }
        if exists|i: int| 0 <= i < c.len() && #[trigger] c[i].0 == x && c[i].1 < d {
            let i = choose|i: int| 0 <= i < c.len() && #[trigger] c[i].0 == x && c[i].1 < d;
            if c[i].1 == d - 1 {
                c.lemma_filter_contains(pred, i);
                let q = choose|q: int| 0 <= q < f.len() && f[q] == c[i];
                assert(b[q] == x);
                assert(all[a.len() + q] == x);
            } else {
                assert(a.contains(x));
                let m = choose|m: int| 0 <= m < a.len() && a[m] == x;
                assert(all[m] == x);
            }
        }
    }
}

/// Where the hunters still have turns, the moves that keep the side to
/// move winning are exactly its legal moves after which it wins: every
/// such move is listed, and every listed move is one.
#[verifier::spinoff_prover]
pub proof fn law_winning_steps_complete(g: &Graph, p: Position)
    requires
        g.wf(),
        position_in(p, g.node_count()),
        p.turns < g.turn_limit,
    ensures
        forall|j: int|
            0 <= j < side_steps(g.adj(), p).len() ==> (winning_steps(g.adj(), g.turn_limit, p).contains(
                side_steps(g.adj(), p)[j],
            ) <==> favours(p.side, #[trigger] child_verdict(g.adj(), g.turn_limit, p, j).outcome)),
        forall|t: int|
            #![trigger winning_steps(g.adj(), g.turn_limit, p)[t]]
            0 <= t < winning_steps(g.adj(), g.turn_limit, p).len() ==> side_steps(g.adj(), p).contains(
                winning_steps(g.adj(), g.turn_limit, p)[t],
            ) && exists|j: int|
                #![trigger child_verdict(g.adj(), g.turn_limit, p, j)]
                0 <= j < side_steps(g.adj(), p).len() && side_steps(g.adj(), p)[j]
                    == winning_steps(g.adj(), g.turn_limit, p)[t] && favours(
                    p.side,
                    child_verdict(g.adj(), g.turn_limit, p, j).outcome,
                ),
{
    let adj = g.adj();
    let limit = g.turn_limit;
    let n = g.node_count();
    let steps = side_steps(adj, p);
    let good = good_for_mover(adj, limit, p);
    let wd = with_distance(adj, limit, p);
    let fs = steps.filter(good);
    let c = fs.map_values(wd);
    let budget = ply_budget(limit, p);
    let w = winning_steps(adj, limit, p);
    assert(w == by_distance(c, budget));
    lemma_side_steps_fit(g, p);
    assert forall|i: int| 0 <= i < c.len() implies (#[trigger] c[i]).1 < budget && c[i].0 == fs[i]
        && steps.contains(fs[i]) && good(fs[i]) by {
        lemma_filtered_in(steps, good, i);
        let j = choose|j: int| 0 <= j < steps.len() && steps[j] == fs[i];
        assert(step_fits(p, steps[j], n));
        lemma_step_child(p, steps[j], n, limit);
        lemma_distance_bound(adj, limit, apply_step(p, steps[j]));
    }
    assert forall|j: int| 0 <= j < steps.len() implies (w.contains(steps[j]) <==> favours(
        p.side,
        #[trigger] child_verdict(adj, limit, p, j).outcome,
    )) by {
        lemma_by_distance_contains(c, budget, steps[j]);
        if w.contains(steps[j]) {
            let i = choose|i: int| 0 <= i < c.len() && #[trigger] c[i].0 == steps[j] && c[i].1 < budget;
            assert(good(fs[i]));
        }
        if favours(p.side, child_verdict(adj, limit, p, j).outcome) {
            assert(good(steps[j]));
            steps.lemma_filter_contains(good, j);
            let i = choose|i: int| 0 <= i < fs.len() && fs[i] == steps[j];
            assert(c[i].0 == steps[j] && c[i].1 < budget);
        }
    }
    assert forall|t: int| #![trigger w[t]] 0 <= t < w.len() implies steps.contains(w[t]) && exists|j: int|
        #![trigger child_verdict(adj, limit, p, j)]
        0 <= j < steps.len() && steps[j] == w[t] && favours(
            p.side,
            child_verdict(adj, limit, p, j).outcome,
        ) by {
        lemma_by_distance_contains(c, budget, w[t]);
        assert(w.contains(w[t]));
        let i = choose|i: int| 0 <= i < c.len() && #[trigger] c[i].0 == w[t] && c[i].1 < budget;
        assert(steps.contains(fs[i]));
        let j = choose|j: int| 0 <= j < steps.len() && steps[j] == fs[i];
        assert(good(steps[j]));
        assert(favours(p.side, child_verdict(adj, limit, p, j).outcome));
    }
}

/// Grouping by distance lists moves in order of distance, every one below
/// the bound, where each entry's distance is `h` of its move.
proof fn lemma_by_distance_sorted(c: Seq<(Step, nat)>, d: nat, h: spec_fn(Step) -> nat)
    requires
        forall|i: int| 0 <= i < c.len() ==> (#[trigger] c[i]).1 == h(c[i].0),
    ensures
        forall|t: int| 0 <= t < by_distance(c, d).len() ==> h(#[trigger] by_distance(c, d)[t]) < d,
        forall|t1: int, t2: int|
            0 <= t1 < t2 < by_distance(c, d).len() ==> h(#[trigger] by_distance(c, d)[t1]) <= h(
                #[trigger] by_distance(c, d)[t2],
            ),
    decreases d,
{
    if d > 0 {
        lemma_by_distance_sorted(c, (d - 1) as nat, h);
        let a = by_distance(c, (d - 1) as nat);
        let pred = at_distance((d - 1) as nat);
        let f = c.filter(pred);
        let b = f.map_values(step_of());
        let all = by_distance(c, d);
        assert(all == a + b);
        assert forall|q: int| 0 <= q < b.len() implies h(#[trigger] b[q]) == d - 1 by {
            lemma_filtered_in(c, pred, q);
            let i = choose|i: int| 0 <= i < c.len() && c[i] == f[q];
        }
        assert forall|t: int| 0 <= t < all.len() implies h(#[trigger] all[t]) < d by {
            if t < a.len() {
                assert(all[t] == a[t]);
            } else {
                assert(all[t] == b[t - a.len()]);
            }
        }
        assert forall|t1: int, t2: int| 0 <= t1 < t2 < all.len() implies h(#[trigger] all[t1]) <= h(
            #[trigger] all[t2],
        ) by {
            if t1 < a.len() {
                assert(all[t1] == a[t1]);
            } else {
                assert(all[t1] == b[t1 - a.len()]);
            }
            if t2 < a.len() {
                assert(all[t2] == a[t2]);
            } else {
                assert(all[t2] == b[t2 - a.len()]);
            }
        }
    }
}

/// The distance of the position that a move leads to.
pub open spec fn step_distance(adj: Seq<Seq<usize>>, limit: u32, p: Position) -> spec_fn(Step) -> nat {
    |s: Step| solve_spec(adj, limit, apply_step(p, s)).distance
}

/// The moves that keep the side to move winning come quickest first: the
/// game lasts no longer after a move than after any move listed later.
pub proof fn law_winning_steps_quickest_first(g: &Graph, p: Position)
    requires
        g.wf(),
        position_in(p, g.node_count()),
        p.turns < g.turn_limit,
    ensures
        forall|t1: int, t2: int|
            0 <= t1 < t2 < winning_steps(g.adj(), g.turn_limit, p).len() ==> solve_spec(
                g.adj(),
                g.turn_limit,
                apply_step(p, #[trigger] winning_steps(g.adj(), g.turn_limit, p)[t1]),
            ).distance <= solve_spec(
                g.adj(),
                g.turn_limit,
                apply_step(p, #[trigger] winning_steps(g.adj(), g.turn_limit, p)[t2]),
            ).distance,
{
    let adj = g.adj();
    let limit = g.turn_limit;
    let steps = side_steps(adj, p);
    let good = good_for_mover(adj, limit, p);
    let wd = with_distance(adj, limit, p);
    let c = steps.filter(good).map_values(wd);
    let h = step_distance(adj, limit, p);
    let w = winning_steps(adj, limit, p);
    assert(w == by_distance(c, ply_budget(limit, p)));
    lemma_by_distance_sorted(c, ply_budget(limit, p), h);
    assert forall|t1: int, t2: int| 0 <= t1 < t2 < w.len() implies solve_spec(
        adj,
        limit,
        apply_step(p, #[trigger] w[t1]),
    ).distance <= solve_spec(adj, limit, apply_step(p, #[trigger] w[t2])).distance by {
        assert(h(w[t1]) <= h(w[t2]));
    }
}

/// Two moves on the board with the same names are the same move.
proof fn lemma_step_view_injective(g: &Graph, a: Step, b: Step)
    requires
        g.wf(),
        step_in(a, g.node_count()),
        step_in(b, g.node_count()),
        step_view(g, a) == step_view(g, b),
    ensures
        a == b,
{
    g.lemma_ids_distinct();
}

/// Where the hunters still have turns, a state's evaluation lists, for the
/// side to move, exactly the legal moves after which that side wins (and
/// nothing for the other side): a legal move is listed if and only if the
/// state it leads to is won by the side to move.
pub proof fn law_evaluation_lists_every_winning_move(g: &Graph, s: GameState)
    requires
        g.wf(),
        holds_state(g, s@),
        s.hunter_turns_used < g.turn_limit,
    ensures
        ({
            let p = position_of(g, s@);
            let e = evaluation(g, s);
            let listed = match s.side_to_move {
                SideToMove::Hunters => e.winning_hunter_moves,
                SideToMove::Bear => e.refuting_bear_moves,
            };
            let other = match s.side_to_move {
                SideToMove::Hunters => e.refuting_bear_moves,
                SideToMove::Bear => e.winning_hunter_moves,
            };
            &&& other.len() == 0
            &&& forall|j: int|
                0 <= j < side_steps(g.adj(), p).len() ==> (listed.contains(
                    step_view(g, side_steps(g.adj(), p)[j]),
                ) <==> favours(
                    s.side_to_move,
                    #[trigger] child_verdict(g.adj(), g.turn_limit, p, j).outcome,
                ))
        }),
{
    let adj = g.adj();
    let limit = g.turn_limit;
    let n = g.node_count();
    let p = position_of(g, s@);
    let steps = side_steps(adj, p);
    let w = winning_steps(adj, limit, p);
    let named = named_steps(g, w);
    g.lemma_has_id(s@.bear);
    g.lemma_has_id(s@.hunters[0]);
    g.lemma_has_id(s@.hunters[1]);
    g.lemma_has_id(s@.hunters[2]);
    law_winning_steps_complete(g, p);
    lemma_side_steps_fit(g, p);
    assert forall|j: int| 0 <= j < steps.len() implies (named.contains(step_view(g, steps[j]))
        <==> favours(s.side_to_move, #[trigger] child_verdict(adj, limit, p, j).outcome)) by {
        assert(step_fits(p, steps[j], n));
        if favours(s.side_to_move, child_verdict(adj, limit, p, j).outcome) {
            assert(w.contains(steps[j]));
            let t = choose|t: int| 0 <= t < w.len() && w[t] == steps[j];
            assert(named[t] == step_view(g, steps[j]));
        }
        if named.contains(step_view(g, steps[j])) {
            let t = choose|t: int| 0 <= t < named.len() && named[t] == step_view(g, steps[j]);
            assert(named[t] == step_view(g, w[t]));
            assert(steps.contains(w[t]));
            let i = choose|i: int| 0 <= i < steps.len() && steps[i] == w[t];
            assert(step_fits(p, steps[i], n));
            lemma_step_view_injective(g, steps[i], steps[j]);
            assert(w.contains(steps[j]));
        }
    }
}

} // verus!

verus! {

/// The last longest move is a legal move after which the game lasts at
/// least as long as after any other legal move.
proof fn lemma_longest_is_max(adj: Seq<Seq<usize>>, limit: u32, p: Position)
    requires
        side_steps(adj, p).len() > 0,
    ensures
        exists|k: int|
            #![trigger side_steps(adj, p)[k]]
            0 <= k < side_steps(adj, p).len() && longest_step(adj, limit, p) == Some(
                side_steps(adj, p)[k],
            ) && forall|j: int|
                0 <= j < side_steps(adj, p).len() ==> #[trigger] child_verdict(adj, limit, p, j).distance
                    <= child_verdict(adj, limit, p, k).distance,
{
    let n = side_steps(adj, p).len();
    lemma_longest_exists(adj, limit, p, n);
    let m = last_index_of_max(adj, limit, p, n);
    assert(is_longest(adj, limit, p, m));
    lemma_longest_unique(adj, limit, p, m);
    assert(side_steps(adj, p)[m] == side_steps(adj, p)[m]);
}

/// A line of play goes on, where the bear is to move and loses, with a bear
/// move after which the game lasts longest: the game lasts as long after it
/// as after any legal bear move, and the position's distance is one more.
pub proof fn law_line_bear_delays(g: &Graph, p: Position)
    requires
        g.wf(),
        position_in(p, g.node_count()),
        p.side == SideToMove::Bear,
        solve_spec(g.adj(), g.turn_limit, p).outcome == Outcome::HuntersWin,
        side_steps(g.adj(), p).len() > 0,
    ensures
        exists|k: int|
            #![trigger side_steps(g.adj(), p)[k]]
            0 <= k < side_steps(g.adj(), p).len() && line_choice(g, p) == Some(side_steps(g.adj(), p)[k])
                && solve_spec(g.adj(), g.turn_limit, p).distance == child_verdict(
                g.adj(),
                g.turn_limit,
                p,
                k,
            ).distance + 1 && forall|j: int|
                0 <= j < side_steps(g.adj(), p).len() ==> #[trigger] child_verdict(
                    g.adj(),
                    g.turn_limit,
                    p,
                    j,
                ).distance <= child_verdict(g.adj(), g.turn_limit, p, k).distance,
{
    let adj = g.adj();
    let limit = g.turn_limit;
    let v = solve_spec(adj, limit, p);
    lemma_longest_is_max(adj, limit, p);
    let k = choose|k: int|
        #![trigger side_steps(adj, p)[k]]
        0 <= k < side_steps(adj, p).len() && longest_step(adj, limit, p) == Some(side_steps(adj, p)[k])
            && forall|j: int|
            0 <= j < side_steps(adj, p).len() ==> #[trigger] child_verdict(adj, limit, p, j).distance
                <= child_verdict(adj, limit, p, k).distance;
    assert(p.turns < limit);
    law_perfect_play(g, p);
    let b = choose|b: int| best_choice(adj, limit, p, v, b);
    assert(!favours(p.side, v.outcome));
    assert forall|j: int| 0 <= j < side_steps(adj, p).len() implies !favours(
        p.side,
        #[trigger] child_verdict(adj, limit, p, j).outcome,
    ) by {
        if favours(p.side, child_verdict(adj, limit, p, j).outcome) {
            assert(has_winning_move(adj, limit, p));
        }
    }
    assert(!favours(p.side, child_verdict(adj, limit, p, k).outcome));
    assert(child_verdict(adj, limit, p, k).distance <= child_verdict(adj, limit, p, b).distance);
    assert(child_verdict(adj, limit, p, b).distance <= child_verdict(adj, limit, p, k).distance);
    assert(line_choice(g, p) == longest_step(adj, limit, p));
}

/// The move a line of play takes, where the bear is to move and its
/// evaluation says it loses, is a legal bear move after which the game
/// lasts at least as long as after any other.
pub proof fn law_pv_bear_delays(g: &Graph, st: GameState, ev: StateEval, r: Option<Move>)
    requires
        st.side_to_move == SideToMove::Bear,
        ev.outcome == Outcome::HuntersWin,
        side_steps(g.adj(), position_of(g, st@)).len() > 0,
        pv_chosen(g, st, ev, r),
    ensures
        ({
            let p = position_of(g, st@);
            exists|k: int|
                #![trigger side_steps(g.adj(), p)[k]]
                0 <= k < side_steps(g.adj(), p).len() && r is Some && r->0@ == step_view(
                    g,
                    side_steps(g.adj(), p)[k],
                ) && forall|j: int|
                    0 <= j < side_steps(g.adj(), p).len() ==> #[trigger] child_verdict(
                        g.adj(),
                        g.turn_limit,
                        p,
                        j,
                    ).distance <= child_verdict(g.adj(), g.turn_limit, p, k).distance
        }),
{
    let p = position_of(g, st@);
    let adj = g.adj();
    let limit = g.turn_limit;
    lemma_longest_is_max(adj, limit, p);
    let k = choose|k: int|
        #![trigger side_steps(adj, p)[k]]
        0 <= k < side_steps(adj, p).len() && longest_step(adj, limit, p) == Some(side_steps(adj, p)[k])
            && forall|j: int|
            0 <= j < side_steps(adj, p).len() ==> #[trigger] child_verdict(adj, limit, p, j).distance
                <= child_verdict(adj, limit, p, k).distance;
    assert(move_option_view(r) == named_option(g, Some(side_steps(adj, p)[k])));
    assert(r is Some && r->0@ == step_view(g, side_steps(adj, p)[k]));
}

/// The move recommended where the bear is to move and has no move that
/// keeps it winning is a legal bear move after which the game lasts at
/// least as long as after any other.
pub proof fn law_recommendation_bear_delays(g: &Graph, gs: GameState, eval: StateEval, r: Option<Move>)
    requires
        gs.side_to_move == SideToMove::Bear,
        eval.refuting_bear_moves@.len() == 0,
        side_steps(g.adj(), position_of(g, gs@)).len() > 0,
        recommendation(g, gs, eval, r),
    ensures
        ({
            let p = position_of(g, gs@);
            exists|k: int|
                #![trigger side_steps(g.adj(), p)[k]]
                0 <= k < side_steps(g.adj(), p).len() && r is Some && r->0@ == step_view(
                    g,
                    side_steps(g.adj(), p)[k],
                ) && forall|j: int|
                    0 <= j < side_steps(g.adj(), p).len() ==> #[trigger] child_verdict(
                        g.adj(),
                        g.turn_limit,
                        p,
                        j,
                    ).distance <= child_verdict(g.adj(), g.turn_limit, p, k).distance
        }),
{
    let p = position_of(g, gs@);
    let adj = g.adj();
    let limit = g.turn_limit;
    lemma_longest_is_max(adj, limit, p);
    let k = choose|k: int|
        #![trigger side_steps(adj, p)[k]]
        0 <= k < side_steps(adj, p).len() && longest_step(adj, limit, p) == Some(side_steps(adj, p)[k])
            && forall|j: int|
            0 <= j < side_steps(adj, p).len() ==> #[trigger] child_verdict(adj, limit, p, j).distance
                <= child_verdict(adj, limit, p, k).distance;
    assert(move_option_view(r) == named_option(g, Some(side_steps(adj, p)[k])));
    assert(r is Some && r->0@ == step_view(g, side_steps(adj, p)[k]));
}

/// The web interface's recommended move, where the bear is to move and has
/// no move that keeps it winning, is a legal bear move after which the game
/// lasts at least as long as after any other.
pub proof fn law_recommended_view_bear_delays(g: &Graph, q: Position, e: EvalView)
    requires
        q.side == SideToMove::Bear,
        e.refuting_bear_moves.len() == 0,
        side_steps(g.adj(), q).len() > 0,
    ensures
        exists|k: int|
            #![trigger side_steps(g.adj(), q)[k]]
            0 <= k < side_steps(g.adj(), q).len() && recommended_view(g, q, e) == Some(
                step_view(g, side_steps(g.adj(), q)[k]),
            ) && forall|j: int|
                0 <= j < side_steps(g.adj(), q).len() ==> #[trigger] child_verdict(
                    g.adj(),
                    g.turn_limit,
                    q,
                    j,
                ).distance <= child_verdict(g.adj(), g.turn_limit, q, k).distance,
{
    let adj = g.adj();
    let limit = g.turn_limit;
    lemma_longest_is_max(adj, limit, q);
    let k = choose|k: int|
        #![trigger side_steps(adj, q)[k]]
        0 <= k < side_steps(adj, q).len() && longest_step(adj, limit, q) == Some(side_steps(adj, q)[k])
            && forall|j: int|
            0 <= j < side_steps(adj, q).len() ==> #[trigger] child_verdict(adj, limit, q, j).distance
                <= child_verdict(adj, limit, q, k).distance;
    assert(recommended_view(g, q, e) == named_option(g, Some(side_steps(adj, q)[k])));
    assert(recommended_view(g, q, e) == Some(step_view(g, side_steps(adj, q)[k])));
}

} // verus!
