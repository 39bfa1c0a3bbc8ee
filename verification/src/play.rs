use vstd::prelude::*;

use crate::game::{move_option_view, move_text, GameState, Move, MoveView, Outcome, SideToMove};
use crate::graph::{first_where, lemma_first_where, texts, Graph};
use crate::minimax::{
    child_verdict, lemma_side_steps_fit, lemma_step_child, law_line_reaches_outcome, ply_budget,
    solve_spec, step_fits,
};
use crate::rules::{apply_step, holds_state, position_in, position_of, side_steps, step_in, step_view, Position, Step};
use crate::solver::{
    apply_move, evaluation, law_apply_move_agrees, lemma_winning_steps_legal, move_views,
    named_steps, winning_steps, Solver, StateEval,
};

verus! {

broadcast use vstd::seq_lib::group_seq_properties;

/// A move of the model, named by node ids, if there is one.
pub open spec fn named_option(g: &Graph, o: Option<Step>) -> Option<MoveView> {
    match o {
        Some(s) => Some(step_view(g, s)),
        None => None,
    }
}

/// The first element of a sequence, if there is one.
pub open spec fn first_of<A>(s: Seq<A>) -> Option<A> {
    if s.len() > 0 {
        Some(s[0])
    } else {
        None
    }
}

/// Legal move `j` leads to a position that the bear wins.
pub open spec fn bear_survives_after(adj: Seq<Seq<usize>>, limit: u32, p: Position) -> spec_fn(int) -> bool {
    |j: int| child_verdict(adj, limit, p, j).outcome == Outcome::BearWin
}

/// The first legal move after which the bear wins.
pub open spec fn first_surviving_step(adj: Seq<Seq<usize>>, limit: u32, p: Position) -> Option<Step> {
    match first_where(bear_survives_after(adj, limit, p), side_steps(adj, p).len()) {
        Some(j) => Some(side_steps(adj, p)[j]),
        None => None,
    }
}

/// Legal move `j` leads to a position of greatest distance, and no later
/// legal move does as well.
pub open spec fn is_longest(adj: Seq<Seq<usize>>, limit: u32, p: Position, j: int) -> bool {
    let n = side_steps(adj, p).len();
    &&& 0 <= j < n
    &&& forall|k: int|
        0 <= k < n ==> #[trigger] child_verdict(adj, limit, p, k).distance <= child_verdict(
            adj,
            limit,
            p,
            j,
        ).distance
    &&& forall|k: int|
        j < k < n ==> #[trigger] child_verdict(adj, limit, p, k).distance < child_verdict(
            adj,
            limit,
            p,
            j,
        ).distance
}

/// The last legal move that plays longest.
pub open spec fn longest_step(adj: Seq<Seq<usize>>, limit: u32, p: Position) -> Option<Step> {
    if side_steps(adj, p).len() == 0 {
        None
    } else {
        Some(side_steps(adj, p)[choose|j: int| is_longest(adj, limit, p, j)])
    }
}

/// Only one move is the last of the longest.
pub proof fn lemma_longest_unique(adj: Seq<Seq<usize>>, limit: u32, p: Position, j: int)
    requires
        is_longest(adj, limit, p, j),
    ensures
        longest_step(adj, limit, p) == Some(side_steps(adj, p)[j]),
{
    let k = choose|k: int| is_longest(adj, limit, p, k);
    assert(is_longest(adj, limit, p, k));
    if k < j {
        assert(child_verdict(adj, limit, p, j).distance < child_verdict(adj, limit, p, k).distance);
    } else if j < k {
        assert(child_verdict(adj, limit, p, k).distance < child_verdict(adj, limit, p, j).distance);
    }
}

/// The move a line of play continues with from `p`: the first winning move
/// when the side to move wins; when the hunters lose, their first move after
/// which the bear still wins; when the bear loses, its last longest move.
pub open spec fn line_choice(g: &Graph, p: Position) -> Option<Step> {
    let adj = g.adj();
    let limit = g.turn_limit;
    let v = solve_spec(adj, limit, p);
    match p.side {
        SideToMove::Hunters => if v.outcome == Outcome::HuntersWin {
            first_of(winning_steps(adj, limit, p))
        } else {
            first_surviving_step(adj, limit, p)
        },
        SideToMove::Bear => if v.outcome == Outcome::BearWin {
            first_of(winning_steps(adj, limit, p))
        } else {
            longest_step(adj, limit, p)
        },
    }
}

/// The moves of a line of play of at most `k` plies from `p`; it stops
/// where the game is over or no move is chosen.
pub open spec fn line_steps(g: &Graph, p: Position, k: nat) -> Seq<Step>
    decreases k,
{
    if k == 0 || solve_spec(g.adj(), g.turn_limit, p).distance == 0 {
        Seq::empty()
    } else {
        match line_choice(g, p) {
            Some(s) => seq![s] + line_steps(g, apply_step(p, s), (k - 1) as nat),
            None => Seq::empty(),
        }
    }
}

/// What a caller may hand to the solver for the state `st`.
pub open spec fn solvable(graph: &Graph, solver: &Solver, st: GameState) -> bool {
    &&& solver.inv()
    &&& solver.graph() == *graph
    &&& graph.wf()
    &&& graph.turn_limit < 0x8000_0000
    &&& holds_state(graph, st@)
}

/// A position with a positive distance is one where the game goes on.
proof fn lemma_moving_distance(adj: Seq<Seq<usize>>, limit: u32, p: Position)
    ensures
        solve_spec(adj, limit, p).distance > 0 ==> p.turns < limit,
{
}

/// The first legal move after which the bear wins, named.
fn first_surviving(graph: &Graph, solver: &mut Solver, st: &GameState) -> (r: Option<Move>)
    requires
        solvable(graph, old(solver), *st),
        st.side_to_move == SideToMove::Hunters ==> st.hunter_turns_used < u32::MAX,
    ensures
        final(solver).inv(),
        final(solver).graph() == old(solver).graph(),
        move_option_view(r) == named_option(
            graph,
            first_surviving_step(graph.adj(), graph.turn_limit, position_of(graph, st@)),
        ),
{
    let ghost p = position_of(graph, st@);
    let ghost adj = graph.adj();
    let ghost limit = graph.turn_limit;
    let ghost pred = bear_survives_after(adj, limit, p);
    let children = solver.child_outcomes(st);
    let mut i: usize = 0;
    proof {
        lemma_first_where(pred, 0);
    }
    while i < children.len()
        invariant
            solver.inv(),
            solver.graph() == old(solver).graph(),
            adj == graph.adj(),
            limit == graph.turn_limit,
            p == position_of(graph, st@),
            children@.len() == side_steps(adj, p).len(),
            forall|j: int|
                0 <= j < children@.len() ==> (#[trigger] children@[j]).0@ == step_view(
                    graph,
                    side_steps(adj, p)[j],
                ) && children@[j].1 == solve_spec(adj, limit, apply_step(p, side_steps(adj, p)[j])).outcome,
            pred == bear_survives_after(adj, limit, p),
            i <= children@.len(),
            first_where(pred, i as nat) is None,
        decreases children@.len() - i,
    {
        proof {
            lemma_first_where(pred, i as nat);
            lemma_first_where(pred, (i + 1) as nat);
            lemma_first_where(pred, children@.len());
        }
        match children[i].1 {
            Outcome::BearWin => {
                assert(pred(i as int));
                assert(first_where(pred, children@.len()) == Some(i as int));
                assert(first_surviving_step(adj, limit, p) == Some(side_steps(adj, p)[i as int]));
                return Some(children[i].0);
            },
            Outcome::HuntersWin => {},
        }
        i = i + 1;
    }
    None
}

/// The last legal move that plays longest, named.
fn last_longest(graph: &Graph, solver: &mut Solver, st: &GameState) -> (r: Option<Move>)
    requires
        solvable(graph, old(solver), *st),
        st.side_to_move == SideToMove::Bear,
    ensures
        final(solver).inv(),
        final(solver).graph() == old(solver).graph(),
        move_option_view(r) == named_option(
            graph,
            longest_step(graph.adj(), graph.turn_limit, position_of(graph, st@)),
        ),
{
    let ghost p = position_of(graph, st@);
    let ghost adj = graph.adj();
    let ghost limit = graph.turn_limit;
    let children = solver.child_outcomes(st);
    if children.len() == 0 {
        return None;
    }
    let mut best: usize = 0;
    let mut i: usize = 1;
    while i < children.len()
        invariant
            children@.len() == side_steps(adj, p).len(),
            forall|j: int|
                0 <= j < children@.len() ==> (#[trigger] children@[j]).0@ == step_view(
                    graph,
                    side_steps(adj, p)[j],
                ) && children@[j].2 == child_verdict(adj, limit, p, j).distance,
            1 <= i <= children@.len(),
            best < i,
            forall|k: int| 0 <= k < i ==> children@[k].2 <= children@[best as int].2,
            forall|k: int| best < k < i ==> children@[k].2 < children@[best as int].2,
        decreases children@.len() - i,
    {
        if children[i].2 >= children[best].2 {
            best = i;
        }
        i = i + 1;
    }
    proof {
        assert forall|k: int| 0 <= k < children@.len() implies #[trigger] child_verdict(
            adj,
            limit,
            p,
            k,
        ).distance <= child_verdict(adj, limit, p, best as int).distance by {
            assert(children@[k].2 == child_verdict(adj, limit, p, k).distance);
            assert(children@[best as int].2 == child_verdict(adj, limit, p, best as int).distance);
        }
        assert forall|k: int| best < k < children@.len() implies #[trigger] child_verdict(
            adj,
            limit,
            p,
            k,
        ).distance < child_verdict(adj, limit, p, best as int).distance by {
            assert(children@[k].2 == child_verdict(adj, limit, p, k).distance);
            assert(children@[best as int].2 == child_verdict(adj, limit, p, best as int).distance);
        }
        lemma_longest_unique(adj, limit, p, best as int);
    }
    Some(children[best].0)
}

/// `r` is the move a line of play continues with from `st`, given `ev`.
pub open spec fn pv_chosen(graph: &Graph, st: GameState, ev: StateEval, r: Option<Move>) -> bool {
    let adj = graph.adj();
    let limit = graph.turn_limit;
    let p = position_of(graph, st@);
    match st.side_to_move {
        SideToMove::Hunters => if ev.outcome == Outcome::HuntersWin {
            r == first_of(ev.winning_hunter_moves@)
        } else {
            move_option_view(r) == named_option(graph, first_surviving_step(adj, limit, p))
        },
        SideToMove::Bear => if ev.outcome == Outcome::BearWin {
            r == first_of(ev.refuting_bear_moves@)
        } else {
            move_option_view(r) == named_option(graph, longest_step(adj, limit, p))
        },
    }
}

/// With the true evaluation, the chosen move is the one `line_choice` names.
proof fn lemma_pv_chosen(graph: &Graph, st: GameState, ev: StateEval, r: Option<Move>)
    requires
        graph.wf(),
        holds_state(graph, st@),
        ev@ == evaluation(graph, st),
        pv_chosen(graph, st, ev, r),
    ensures
        move_option_view(r) == named_option(graph, line_choice(graph, position_of(graph, st@))),
{
    let q = position_of(graph, st@);
    let w = winning_steps(graph.adj(), graph.turn_limit, q);
    if st.side_to_move == SideToMove::Hunters && ev.outcome == Outcome::HuntersWin {
        assert(move_views(ev.winning_hunter_moves@) =~= ev@.winning_hunter_moves);
        if w.len() > 0 {
            assert(move_views(ev.winning_hunter_moves@)[0] == named_steps(graph, w)[0]);
        }
    }
    if st.side_to_move == SideToMove::Bear && ev.outcome == Outcome::BearWin {
        assert(move_views(ev.refuting_bear_moves@) =~= ev@.refuting_bear_moves);
        if w.len() > 0 {
            assert(move_views(ev.refuting_bear_moves@)[0] == named_steps(graph, w)[0]);
        }
    }
}

/// The move a line of play continues with, given the evaluation `ev` of
/// `st`: the first listed winning move when the side to move wins; when the
/// hunters lose, their first move after which the bear still wins; when the
/// bear loses, its last move that plays longest.
pub fn choose_pv_move(graph: &Graph, solver: &mut Solver, st: &GameState, ev: &StateEval) -> (r:
    Option<Move>)
    requires
        solvable(graph, old(solver), *st),
        st.side_to_move == SideToMove::Hunters ==> st.hunter_turns_used < u32::MAX,
    ensures
        final(solver).inv(),
        final(solver).graph() == old(solver).graph(),
        pv_chosen(graph, *st, *ev, r),
{
    match st.side_to_move {
        SideToMove::Hunters => match ev.outcome {
            Outcome::HuntersWin => if ev.winning_hunter_moves.len() > 0 {
                Some(ev.winning_hunter_moves[0])
            } else {
                None
            },
            Outcome::BearWin => first_surviving(graph, solver, st),
        },
        SideToMove::Bear => match ev.outcome {
            Outcome::BearWin => if ev.refuting_bear_moves.len() > 0 {
                Some(ev.refuting_bear_moves[0])
            } else {
                None
            },
            Outcome::HuntersWin => last_longest(graph, solver, st),
        },
    }
}

/// The move chosen by `line_choice` is a legal move.
proof fn lemma_line_choice_legal(g: &Graph, p: Position)
    requires
        g.wf(),
        position_in(p, g.node_count()),
    ensures
        line_choice(g, p) matches Some(s) ==> step_fits(p, s, g.node_count()),
{
    let adj = g.adj();
    let limit = g.turn_limit;
    lemma_side_steps_fit(g, p);
    lemma_winning_steps_legal(g, p);
    lemma_first_where(bear_survives_after(adj, limit, p), side_steps(adj, p).len());
    let n = side_steps(adj, p).len();
    if n > 0 {
        lemma_longest_exists(adj, limit, p, n);
        assert(is_longest(adj, limit, p, last_index_of_max(adj, limit, p, n)));
        let j = choose|j: int| is_longest(adj, limit, p, j);
        assert(step_fits(p, side_steps(adj, p)[j], g.node_count()));
    }
}

/// The last index below `i` of greatest child distance.
pub open spec fn last_index_of_max(adj: Seq<Seq<usize>>, limit: u32, p: Position, i: nat) -> int
    decreases i,
{
    if i <= 1 {
        0
    } else {
        let m = last_index_of_max(adj, limit, p, (i - 1) as nat);
        if child_verdict(adj, limit, p, i - 1).distance >= child_verdict(adj, limit, p, m).distance {
            i - 1
        } else {
            m
        }
    }
}

/// Some move plays longest, when there are moves.
pub proof fn lemma_longest_exists(adj: Seq<Seq<usize>>, limit: u32, p: Position, i: nat)
    requires
        1 <= i <= side_steps(adj, p).len(),
    ensures
        ({
            let m = last_index_of_max(adj, limit, p, i);
            &&& 0 <= m < i
            &&& forall|k: int|
                0 <= k < i ==> #[trigger] child_verdict(adj, limit, p, k).distance
                    <= child_verdict(adj, limit, p, m).distance
            &&& forall|k: int|
                m < k < i ==> #[trigger] child_verdict(adj, limit, p, k).distance
                    < child_verdict(adj, limit, p, m).distance
        }),
    decreases i,
{
    if i > 1 {
        lemma_longest_exists(adj, limit, p, (i - 1) as nat);
    }
}

/// A move of the model as text.
pub open spec fn step_text(g: &Graph) -> spec_fn(Step) -> Seq<char> {
    |s: Step| move_text(step_view(g, s))
}

proof fn lemma_line_steps_unfold(g: &Graph, q: Position, k: nat)
    ensures
        k == 0 || solve_spec(g.adj(), g.turn_limit, q).distance == 0 || line_choice(g, q) is None
            ==> line_steps(g, q, k) == Seq::<Step>::empty(),
        k > 0 && solve_spec(g.adj(), g.turn_limit, q).distance > 0 && line_choice(g, q) is Some
            ==> line_steps(g, q, k) == seq![line_choice(g, q).unwrap()] + line_steps(
            g,
            apply_step(q, line_choice(g, q).unwrap()),
            (k - 1) as nat,
        ),
{
}

/// The line of play from `start`, at most `max_plies` moves, each as text.
#[verifier::rlimit(40)]
pub fn principal_variation(graph: &Graph, solver: &mut Solver, start: GameState, max_plies: usize) -> (r:
    Vec<String>)
    requires
        solvable(graph, old(solver), start),
    ensures
        final(solver).inv(),
        final(solver).graph() == old(solver).graph(),
        texts(r@) == line_steps(graph, position_of(graph, start@), max_plies as nat).map_values(
            step_text(graph),
        ),
{
    let ghost p0 = position_of(graph, start@);
    let ghost n = graph.node_count();
    let ghost adj = graph.adj();
    let ghost limit = graph.turn_limit;
    let ghost mut done: Seq<Step> = Seq::empty();
    let ghost mut q = p0;
    let mut line: Vec<String> = Vec::new();
    let mut st = start;
    let mut i: usize = 0;
    while i < max_plies
        invariant_except_break
            i <= max_plies,
            n == graph.node_count(),
            adj == graph.adj(),
            limit == graph.turn_limit,
            solver.graph() == old(solver).graph(),
            solvable(graph, solver, st),
            q == position_of(graph, st@),
            done + line_steps(graph, q, (max_plies - i) as nat) == line_steps(
                graph,
                p0,
                max_plies as nat,
            ),
            texts(line@) == done.map_values(step_text(graph)),
        ensures
            solvable(graph, solver, st),
            solver.graph() == old(solver).graph(),
            texts(line@) == line_steps(graph, p0, max_plies as nat).map_values(
                step_text(graph),
            ),
        decreases max_plies - i,
    {
        proof {
            assert(position_in(q, n)) by {
                graph.lemma_has_id(st@.bear);
                graph.lemma_has_id(st@.hunters[0]);
                graph.lemma_has_id(st@.hunters[1]);
                graph.lemma_has_id(st@.hunters[2]);
            }
        }
        let ev = solver.evaluate_state(st);
        proof {
            lemma_line_steps_unfold(graph, q, (max_plies - i) as nat);
        }
        if ev.distance == 0 {
            proof {
                assert(done + Seq::<Step>::empty() =~= done);
            }
            break;
        }
        proof {
            lemma_moving_distance(adj, limit, q);
        }
        let chosen = choose_pv_move(graph, solver, &st, &ev);
        proof {
            lemma_line_choice_legal(graph, q);
            lemma_pv_chosen(graph, st, ev, chosen);
        }
        let mv = match chosen {
            Some(m) => m,
            None => {
                proof {
                    assert(done + Seq::<Step>::empty() =~= done);
                }
                break;
            },
        };
        let ghost s = line_choice(graph, q).unwrap();
        proof {
            assert(step_fits(q, s, n));
            assert(q.turns < limit);
        }
        let text = mv.to_text();
        let ghost old_line = line@;
        line.push(text);
        let next = apply_move(&st, &mv);
        proof {
            law_apply_move_agrees(graph, st, s, mv, next);
            assert(done.push(s) + line_steps(graph, apply_step(q, s), (max_plies - i - 1) as nat)
                =~= done + line_steps(graph, q, (max_plies - i) as nat));
            done = done.push(s);
            q = apply_step(q, s);
            assert(texts(line@) =~= texts(old_line).push(text@));
            assert(done.map_values(step_text(graph)) =~= done.drop_last().map_values(step_text(graph)).push(step_text(graph)(s)));
            assert(texts(line@) =~= done.map_values(step_text(graph)));
        }
        st = next;
        i = i + 1;
    }
    line
}

} // verus!

verus! {

/// The legal moves of the side to move after which the game has the given
/// outcome, in move order.
pub open spec fn steps_leading_to(adj: Seq<Seq<usize>>, limit: u32, p: Position, o: Outcome) -> Seq<Step> {
    side_steps(adj, p).filter(|s: Step| solve_spec(adj, limit, apply_step(p, s)).outcome == o)
}

/// The legal moves of the side to move after which the game has outcome `o`.
pub fn moves_leading_to(graph: &Graph, solver: &mut Solver, st: &GameState, o: Outcome) -> (r: Vec<Move>)
    requires
        solvable(graph, old(solver), *st),
        st.side_to_move == SideToMove::Hunters ==> st.hunter_turns_used < u32::MAX,
    ensures
        final(solver).inv(),
        final(solver).graph() == old(solver).graph(),
        move_views(r@) == named_steps(
            graph,
            steps_leading_to(graph.adj(), graph.turn_limit, position_of(graph, st@), o),
        ),
{
    let ghost p = position_of(graph, st@);
    let ghost adj = graph.adj();
    let ghost limit = graph.turn_limit;
    let ghost steps = side_steps(adj, p);
    let ghost pred = |s: Step| solve_spec(adj, limit, apply_step(p, s)).outcome == o;
    let ghost f = |s: Step| step_view(graph, s);
    let children = solver.child_outcomes(st);
    let mut r: Vec<Move> = Vec::new();
    let mut i: usize = 0;
    assert(steps.take(0) =~= Seq::<Step>::empty());
    while i < children.len()
        invariant
            solver.inv(),
            solver.graph() == old(solver).graph(),
            adj == graph.adj(),
            limit == graph.turn_limit,
            p == position_of(graph, st@),
            steps == side_steps(adj, p),
            pred == (|s: Step| solve_spec(adj, limit, apply_step(p, s)).outcome == o),
            f == (|s: Step| step_view(graph, s)),
            children@.len() == steps.len(),
            forall|j: int|
                0 <= j < children@.len() ==> (#[trigger] children@[j]).0@ == step_view(graph, steps[j])
                    && children@[j].1 == solve_spec(adj, limit, apply_step(p, steps[j])).outcome,
            i <= children@.len(),
            move_views(r@) == steps.take(i as int).filter(pred).map_values(f),
        decreases children@.len() - i,
    {
        proof {
            assert(steps.take(i + 1) =~= steps.take(i as int).push(steps[i as int]));
            steps.take(i as int).lemma_filter_push(steps[i as int], pred);
            steps.take(i as int).filter(pred).lemma_push_map_commute(f, steps[i as int]);
        }
        let ghost before = r@;
        let same = match (children[i].1, o) {
            (Outcome::HuntersWin, Outcome::HuntersWin) => true,
            (Outcome::BearWin, Outcome::BearWin) => true,
            _ => false,
        };
        if same {
            r.push(children[i].0);
            assert(move_views(r@) =~= move_views(before).push(children@[i as int].0@));
        }
        i = i + 1;
    }
    assert(steps.take(steps.len() as int) =~= steps);
    assert(steps.filter(pred).map_values(f) =~= named_steps(graph, steps_leading_to(adj, limit, p, o)));
    r
}

/// The move to recommend from `gs`, given its evaluation `eval`: the first
/// listed winning move of the side to move; failing that, the hunters' first
/// legal move, or the bear's last move that plays longest.
pub open spec fn recommendation(graph: &Graph, gs: GameState, eval: StateEval, r: Option<Move>) -> bool {
    let adj = graph.adj();
    let limit = graph.turn_limit;
    let p = position_of(graph, gs@);
    match gs.side_to_move {
        SideToMove::Hunters => if eval.winning_hunter_moves@.len() > 0 {
            r == Some(eval.winning_hunter_moves@[0])
        } else {
            move_option_view(r) == named_option(graph, first_of(side_steps(adj, p)))
        },
        SideToMove::Bear => if eval.refuting_bear_moves@.len() > 0 {
            r == Some(eval.refuting_bear_moves@[0])
        } else {
            move_option_view(r) == named_option(graph, longest_step(adj, limit, p))
        },
    }
}

/// The move to recommend from `gs`, given its evaluation `eval`.
pub fn recommended_move(graph: &Graph, solver: &mut Solver, gs: &GameState, eval: &StateEval) -> (r:
    Option<Move>)
    requires
        solvable(graph, old(solver), *gs),
    ensures
        final(solver).inv(),
        final(solver).graph() == old(solver).graph(),
        recommendation(graph, *gs, *eval, r),
{
    match gs.side_to_move {
        SideToMove::Hunters => {
            if eval.winning_hunter_moves.len() > 0 {
                Some(eval.winning_hunter_moves[0])
            } else {
                let legal = crate::api::moves_for_state(graph, gs);
                let ghost steps = side_steps(graph.adj(), position_of(graph, gs@));
                assert(move_views(legal@).len() == named_steps(graph, steps).len());
                if legal.len() > 0 {
                    proof {
                        assert(move_views(legal@)[0] == legal@[0]@);
                        assert(named_steps(graph, steps)[0] == step_view(graph, steps[0]));
                    }
                    Some(legal[0])
                } else {
                    None
                }
            }
        },
        SideToMove::Bear => {
            if eval.refuting_bear_moves.len() > 0 {
                Some(eval.refuting_bear_moves[0])
            } else {
                last_longest(graph, solver, gs)
            }
        },
    }
}

} // verus!
