use vstd::prelude::*;

use crate::game::{Outcome, SideToMove};
use crate::graph::Graph;
use crate::rules::{
    apply_step, bear_may_enter, bear_steps, hunter_may_enter, hunter_on, hunter_steps,
    hunter_steps_of, position_in, side_steps, Position, Step,
};

verus! {

broadcast use vstd::seq_lib::group_seq_properties;

/// The value of a position under perfect play: who wins, in how many plies,
/// the move that gets there and the line of play that follows it.
pub struct Verdict {
    pub outcome: Outcome,
    pub distance: nat,
    pub best: Option<Step>,
    pub line: Seq<Step>,
}

/// Plies that can still be played before the hunters run out of turns.
/// Every legal move lowers it by one.
pub open spec fn ply_budget(limit: u32, p: Position) -> nat {
    if p.turns >= limit {
        0
    } else {
        (2 * (limit - p.turns) + match p.side {
            SideToMove::Bear => 1int,
            SideToMove::Hunters => 0int,
        }) as nat
    }
}

/// The outcome that `side` plays for.
pub open spec fn favours(side: SideToMove, o: Outcome) -> bool {
    match side {
        SideToMove::Hunters => o == Outcome::HuntersWin,
        SideToMove::Bear => o == Outcome::BearWin,
    }
}

/// A position where the game is over.
pub open spec fn finished(o: Outcome) -> Verdict {
    Verdict { outcome: o, distance: 0, best: None, line: Seq::empty() }
}

/// After looking at the first `i` legal moves: the first move (and its
/// distance) whose result is the quickest win for the side to move, and the
/// first move whose result is the slowest loss.
pub open spec fn scan(adj: Seq<Seq<usize>>, limit: u32, p: Position, i: nat) -> (
    Option<(int, nat)>,
    Option<(int, nat)>,
)
    decreases ply_budget(limit, p), i,
{
    let steps = side_steps(adj, p);
    if i == 0 || i > steps.len() {
        (None, None)
    } else {
        let prev = scan(adj, limit, p, (i - 1) as nat);
        let k = i - 1;
        let child = apply_step(p, steps[k]);
        if ply_budget(limit, child) < ply_budget(limit, p) {
            let c = solve_spec(adj, limit, child);
            if favours(p.side, c.outcome) {
                match prev.0 {
                    Some(b) => if c.distance < b.1 {
                        (Some((k, c.distance)), prev.1)
                    } else {
                        prev
                    },
                    None => (Some((k, c.distance)), prev.1),
                }
            } else {
                match prev.1 {
                    Some(b) => if c.distance > b.1 {
                        (prev.0, Some((k, c.distance)))
                    } else {
                        prev
                    },
                    None => (prev.0, Some((k, c.distance))),
                }
            }
        } else {
            prev
        }
    }
}

/// The move chosen after looking at all legal moves: a win if there is one.
pub open spec fn chosen(adj: Seq<Seq<usize>>, limit: u32, p: Position) -> Option<(int, nat)>
    decreases ply_budget(limit, p), side_steps(adj, p).len() + 1,
{
    let picks = scan(adj, limit, p, side_steps(adj, p).len());
    if picks.0 is Some {
        picks.0
    } else {
        picks.1
    }
}

/// Perfect play from `p`. The bear wins once the hunters have used up their
/// turns; the hunters win when the bear cannot move; the hunters lose when
/// they cannot move. Otherwise the side to move takes the quickest win it
/// has, or else the slowest loss, the first such move in move order; the
/// distance counts plies until the game ends.
pub open spec fn solve_spec(adj: Seq<Seq<usize>>, limit: u32, p: Position) -> Verdict
    decreases ply_budget(limit, p), side_steps(adj, p).len() + 2,
{
    if p.turns >= limit {
        finished(Outcome::BearWin)
    } else if bear_steps(adj, p).len() == 0 {
        finished(Outcome::HuntersWin)
    } else if side_steps(adj, p).len() == 0 {
        finished(Outcome::BearWin)
    } else {
        match chosen(adj, limit, p) {
            Some(pick) => {
                let s = side_steps(adj, p)[pick.0];
                let child = apply_step(p, s);
                if ply_budget(limit, child) < ply_budget(limit, p) {
                    let c = solve_spec(adj, limit, child);
                    Verdict {
                        outcome: c.outcome,
                        distance: c.distance + 1,
                        best: Some(s),
                        line: seq![s] + c.line,
                    }
                } else {
                    finished(Outcome::BearWin)
                }
            },
            None => finished(Outcome::BearWin),
        }
    }
}

/// A legal move of the side to move, as the move generators produce it.
pub open spec fn step_fits(p: Position, s: Step, n: nat) -> bool {
    match s {
        Step::Hunter { hunter_index, from, to } => {
            &&& p.side == SideToMove::Hunters
            &&& hunter_index < 3
            &&& from == p.hunters[hunter_index as int]
            &&& to < n
            &&& to != p.bear
            &&& !hunter_on(p, to)
        },
        Step::Bear { from, to } => {
            &&& p.side == SideToMove::Bear
            &&& from == p.bear
            &&& to < n
            &&& !hunter_on(p, to)
        },
    }
}

pub proof fn lemma_filtered_in<A>(s: Seq<A>, pred: spec_fn(A) -> bool, k: int)
    requires
        0 <= k < s.filter(pred).len(),
    ensures
        s.contains(s.filter(pred)[k]),
        pred(s.filter(pred)[k]),
{
    s.filter(pred).lemma_index_contains(k);
    s.lemma_filter_contains_rev(pred, s.filter(pred)[k]);
    s.lemma_filter_pred(pred, k);
}

proof fn lemma_hunter_steps_of_fit(g: &Graph, p: Position, k: int)
    requires
        g.wf(),
        position_in(p, g.node_count()),
        p.side == SideToMove::Hunters,
        0 <= k < 3,
    ensures
        forall|j: int|
            0 <= j < hunter_steps_of(g.adj(), p, k).len() ==> step_fits(
                p,
                #[trigger] hunter_steps_of(g.adj(), p, k)[j],
                g.node_count(),
            ),
{
    let nb = g.adj()[p.hunters[k] as int];
    assert(nb == g.neighbor_indices@[p.hunters[k] as int]@);
    assert forall|j: int| 0 <= j < hunter_steps_of(g.adj(), p, k).len() implies step_fits(
        p,
        #[trigger] hunter_steps_of(g.adj(), p, k)[j],
        g.node_count(),
    ) by {
        lemma_filtered_in(nb, hunter_may_enter(p), j);
        let to = nb.filter(hunter_may_enter(p))[j];
        let i = choose|i: int| 0 <= i < nb.len() && nb[i] == to;
        lemma_link_in_range(g, p.hunters[k] as int, i);
    }
}

proof fn lemma_link_in_range(g: &Graph, v: int, i: int)
    requires
        g.wf(),
        0 <= v < g.node_count(),
        0 <= i < g.adj()[v].len(),
    ensures
        g.adj()[v][i] < g.node_count(),
        g.adj()[v][i] != v,
{
    assert(crate::graph::well_formed_links(g.neighbor_indices@[v]@, v, g.node_count() as int));
}

/// Every move the generators produce is a legal move of the side to move.
pub proof fn lemma_side_steps_fit(g: &Graph, p: Position)
    requires
        g.wf(),
        position_in(p, g.node_count()),
    ensures
        forall|j: int|
            0 <= j < side_steps(g.adj(), p).len() ==> step_fits(
                p,
                #[trigger] side_steps(g.adj(), p)[j],
                g.node_count(),
            ),
{
    match p.side {
        SideToMove::Hunters => {
            lemma_hunter_steps_of_fit(g, p, 0);
            lemma_hunter_steps_of_fit(g, p, 1);
            lemma_hunter_steps_of_fit(g, p, 2);
            let a = hunter_steps_of(g.adj(), p, 0);
            let b = hunter_steps_of(g.adj(), p, 1);
            let c = hunter_steps_of(g.adj(), p, 2);
            assert forall|j: int| 0 <= j < side_steps(g.adj(), p).len() implies step_fits(
                p,
                #[trigger] side_steps(g.adj(), p)[j],
                g.node_count(),
            ) by {
                if j < a.len() {
                    assert(side_steps(g.adj(), p)[j] == a[j]);
                } else if j < a.len() + b.len() {
                    assert(side_steps(g.adj(), p)[j] == b[j - a.len()]);
                } else {
                    assert(side_steps(g.adj(), p)[j] == c[j - a.len() - b.len()]);
                }
            }
        },
        SideToMove::Bear => {
            let nb = g.adj()[p.bear as int];
            assert forall|j: int| 0 <= j < side_steps(g.adj(), p).len() implies step_fits(
                p,
                #[trigger] side_steps(g.adj(), p)[j],
                g.node_count(),
            ) by {
                lemma_filtered_in(nb, bear_may_enter(p), j);
                let to = nb.filter(bear_may_enter(p))[j];
                let i = choose|i: int| 0 <= i < nb.len() && nb[i] == to;
                lemma_link_in_range(g, p.bear as int, i);
            }
        },
    }
}

/// A legal move keeps the pieces on the board and spends one ply of the budget.
pub proof fn lemma_step_child(p: Position, s: Step, n: nat, limit: u32)
    requires
        step_fits(p, s, n),
        position_in(p, n),
        p.turns < limit,
    ensures
        position_in(apply_step(p, s), n),
        ply_budget(limit, apply_step(p, s)) < ply_budget(limit, p),
{
}

/// The entry of `scan` for the candidate at `k` with distance `d`: a legal
/// child whose value has distance `d`.
pub open spec fn scan_entry(
    adj: Seq<Seq<usize>>,
    limit: u32,
    p: Position,
    k: int,
    d: nat,
    favourable: bool,
) -> bool {
    let child = apply_step(p, side_steps(adj, p)[k]);
    &&& 0 <= k < side_steps(adj, p).len()
    &&& ply_budget(limit, child) < ply_budget(limit, p)
    &&& d == solve_spec(adj, limit, child).distance
    &&& favours(p.side, solve_spec(adj, limit, child).outcome) == favourable
}

pub proof fn lemma_scan_facts(adj: Seq<Seq<usize>>, limit: u32, p: Position, i: nat)
    ensures
        scan(adj, limit, p, i).0 matches Some(e) ==> e.0 < i && scan_entry(
            adj,
            limit,
            p,
            e.0,
            e.1,
            true,
        ),
        scan(adj, limit, p, i).1 matches Some(e) ==> e.0 < i && scan_entry(
            adj,
            limit,
            p,
            e.0,
            e.1,
            false,
        ),
    decreases i,
{
    if i > 0 {
        lemma_scan_facts(adj, limit, p, (i - 1) as nat);
    }
}

/// The distance never exceeds the plies left.
pub proof fn lemma_distance_bound(adj: Seq<Seq<usize>>, limit: u32, p: Position)
    ensures
        solve_spec(adj, limit, p).distance <= ply_budget(limit, p),
    decreases ply_budget(limit, p),
{
    if p.turns < limit && bear_steps(adj, p).len() != 0 && side_steps(adj, p).len() != 0 {
        let n = side_steps(adj, p).len();
        lemma_scan_facts(adj, limit, p, n);
        if let Some(pick) = chosen(adj, limit, p) {
            let child = apply_step(p, side_steps(adj, p)[pick.0]);
            lemma_distance_bound(adj, limit, child);
        }
    }
}

/// The value of the position after the `j`-th legal move.
pub open spec fn child_verdict(adj: Seq<Seq<usize>>, limit: u32, p: Position, j: int) -> Verdict {
    solve_spec(adj, limit, apply_step(p, side_steps(adj, p)[j]))
}

/// Every legal move spends budget.
pub open spec fn moves_spend(adj: Seq<Seq<usize>>, limit: u32, p: Position) -> bool {
    forall|j: int|
        0 <= j < side_steps(adj, p).len() ==> ply_budget(
            limit,
            apply_step(p, #[trigger] side_steps(adj, p)[j]),
        ) < ply_budget(limit, p)
}

proof fn lemma_scan_extremes(adj: Seq<Seq<usize>>, limit: u32, p: Position, i: nat)
    requires
        moves_spend(adj, limit, p),
        i <= side_steps(adj, p).len(),
    ensures
        scan(adj, limit, p, i).0 is Some <==> exists|j: int|
            0 <= j < i && favours(p.side, #[trigger] child_verdict(adj, limit, p, j).outcome),
        scan(adj, limit, p, i).0 matches Some(e) ==> forall|j: int|
            0 <= j < i && favours(p.side, #[trigger] child_verdict(adj, limit, p, j).outcome)
                ==> e.1 <= child_verdict(adj, limit, p, j).distance && (j < e.0 ==> e.1
                < child_verdict(adj, limit, p, j).distance),
        scan(adj, limit, p, i).1 is Some <==> exists|j: int|
            0 <= j < i && !favours(p.side, #[trigger] child_verdict(adj, limit, p, j).outcome),
        scan(adj, limit, p, i).1 matches Some(e) ==> forall|j: int|
            0 <= j < i && !favours(p.side, #[trigger] child_verdict(adj, limit, p, j).outcome)
                ==> e.1 >= child_verdict(adj, limit, p, j).distance && (j < e.0 ==> e.1
                > child_verdict(adj, limit, p, j).distance),
    decreases i,
{
    lemma_scan_facts(adj, limit, p, i);
    if i > 0 {
        lemma_scan_extremes(adj, limit, p, (i - 1) as nat);
        lemma_scan_facts(adj, limit, p, (i - 1) as nat);
        let k = i - 1;
        assert(ply_budget(limit, apply_step(p, side_steps(adj, p)[k])) < ply_budget(limit, p));
        let c = child_verdict(adj, limit, p, k);
        if favours(p.side, c.outcome) {
            assert(exists|j: int| 0 <= j < i && favours(p.side, #[trigger] child_verdict(adj, limit, p, j).outcome));
        } else {
            assert(exists|j: int| 0 <= j < i && !favours(p.side, #[trigger] child_verdict(adj, limit, p, j).outcome));
        }
    }
}

/// Move `k` is the choice of perfect play from `p`, whose value is `v`:
/// `v` follows from the position it leads to, and no other legal move with
/// the same outcome for the mover does better (quicker when winning, slower
/// when losing), nor equally well earlier in move order.
pub open spec fn best_choice(adj: Seq<Seq<usize>>, limit: u32, p: Position, v: Verdict, k: int) -> bool {
    let n = side_steps(adj, p).len();
    let ck = child_verdict(adj, limit, p, k);
    let wins = favours(p.side, v.outcome);
    &&& 0 <= k < n
    &&& v.best == Some(side_steps(adj, p)[k])
    &&& v.outcome == ck.outcome
    &&& v.distance == ck.distance + 1
    &&& v.line == seq![side_steps(adj, p)[k]] + ck.line
    &&& forall|j: int|
        0 <= j < n && favours(p.side, #[trigger] child_verdict(adj, limit, p, j).outcome) == wins
            ==> if wins {
            ck.distance <= child_verdict(adj, limit, p, j).distance && (j < k ==> ck.distance
                < child_verdict(adj, limit, p, j).distance)
        } else {
            ck.distance >= child_verdict(adj, limit, p, j).distance && (j < k ==> ck.distance
                > child_verdict(adj, limit, p, j).distance)
        }
}

/// The side to move can reach a position it wins.
pub open spec fn has_winning_move(adj: Seq<Seq<usize>>, limit: u32, p: Position) -> bool {
    exists|j: int|
        0 <= j < side_steps(adj, p).len() && favours(
            p.side,
            #[trigger] child_verdict(adj, limit, p, j).outcome,
        )
}

/// Perfect play on a turn where the game goes on: the side to move wins
/// exactly when one of its legal moves leads to a position it wins, and then
/// takes the quickest such win, the first in move order; otherwise it loses,
/// and takes the slowest loss, the first in move order. The distance is one
/// more than that of the position the chosen move leads to.
pub proof fn law_perfect_play(g: &Graph, p: Position)
    requires
        g.wf(),
        position_in(p, g.node_count()),
        p.turns < g.turn_limit,
        bear_steps(g.adj(), p).len() > 0,
        side_steps(g.adj(), p).len() > 0,
    ensures
        favours(p.side, solve_spec(g.adj(), g.turn_limit, p).outcome) <==> has_winning_move(
            g.adj(),
            g.turn_limit,
            p,
        ),
        exists|k: int|
            best_choice(g.adj(), g.turn_limit, p, solve_spec(g.adj(), g.turn_limit, p), k),
{
    let adj = g.adj();
    let limit = g.turn_limit;
    let n = side_steps(adj, p).len();
    lemma_side_steps_fit(g, p);
    assert forall|j: int| 0 <= j < n implies ply_budget(
        limit,
        apply_step(p, #[trigger] side_steps(adj, p)[j]),
    ) < ply_budget(limit, p) by {
        lemma_step_child(p, side_steps(adj, p)[j], g.node_count(), limit);
    }
    assert(moves_spend(adj, limit, p));
    lemma_scan_extremes(adj, limit, p, n);
    lemma_scan_facts(adj, limit, p, n);
    let picks = scan(adj, limit, p, n);
    let v = solve_spec(adj, limit, p);
    assert(favours(p.side, child_verdict(adj, limit, p, 0).outcome) || !favours(
        p.side,
        child_verdict(adj, limit, p, 0).outcome,
    ));
    let pick = if picks.0 is Some {
        picks.0.unwrap()
    } else {
        picks.1.unwrap()
    };
    assert(chosen(adj, limit, p) == Some(pick));
    let k = pick.0;
    let ck = child_verdict(adj, limit, p, k);
    assert(scan_entry(adj, limit, p, k, pick.1, picks.0 is Some));
    assert(pick.1 == ck.distance);
    assert(v.outcome == ck.outcome);
    assert(v.distance == ck.distance + 1);
    assert(v.best == Some(side_steps(adj, p)[k]));
    assert(v.line == seq![side_steps(adj, p)[k]] + ck.line);
    assert(favours(p.side, v.outcome) == (picks.0 is Some));
    assert(best_choice(adj, limit, p, v, k));
}

/// The hunters win, at once, when the bear cannot move.
pub proof fn law_stuck_bear_loses(adj: Seq<Seq<usize>>, limit: u32, p: Position)
    requires
        p.turns < limit,
        bear_steps(adj, p).len() == 0,
    ensures
        solve_spec(adj, limit, p) == finished(Outcome::HuntersWin),
{
}

/// The bear wins, at once, when the hunters have used up their turns.
pub proof fn law_turn_limit_bear_wins(adj: Seq<Seq<usize>>, limit: u32, p: Position)
    requires
        p.turns >= limit,
    ensures
        solve_spec(adj, limit, p) == finished(Outcome::BearWin),
{
}

/// The hunters lose, at once, when on their turn they cannot move.
pub proof fn law_stuck_hunters_lose(adj: Seq<Seq<usize>>, limit: u32, p: Position)
    requires
        p.turns < limit,
        bear_steps(adj, p).len() > 0,
        p.side == SideToMove::Hunters,
        hunter_steps(adj, p).len() == 0,
    ensures
        solve_spec(adj, limit, p) == finished(Outcome::BearWin),
{
}

/// The position reached by playing `line` from `p`.
pub open spec fn play(p: Position, line: Seq<Step>) -> Position
    decreases line.len(),
{
    if line.len() == 0 {
        p
    } else {
        play(apply_step(p, line[0]), line.drop_first())
    }
}

/// The game is over at `p`, and this is who has won.
pub open spec fn game_over(adj: Seq<Seq<usize>>, limit: u32, p: Position, o: Outcome) -> bool {
    solve_spec(adj, limit, p) == finished(o)
}

/// The line of play has one move per ply of the distance, starts with the
/// best move, and ends in a position where the game is over with the
/// predicted outcome.
pub proof fn law_line_reaches_outcome(g: &Graph, p: Position)
    requires
        g.wf(),
        position_in(p, g.node_count()),
    ensures
        ({
            let v = solve_spec(g.adj(), g.turn_limit, p);
            &&& v.line.len() == v.distance
            &&& (v.distance == 0 <==> v.best is None)
            &&& v.distance > 0 ==> v.best == Some(v.line[0])
            &&& game_over(g.adj(), g.turn_limit, play(p, v.line), v.outcome)
        }),
    decreases ply_budget(g.turn_limit, p),
{
    let adj = g.adj();
    let limit = g.turn_limit;
    let v = solve_spec(adj, limit, p);
    if p.turns < limit && bear_steps(adj, p).len() != 0 && side_steps(adj, p).len() != 0 {
        law_perfect_play(g, p);
        let k = choose|k: int| best_choice(adj, limit, p, v, k);
        let s = side_steps(adj, p)[k];
        lemma_side_steps_fit(g, p);
        lemma_step_child(p, s, g.node_count(), limit);
        let child = apply_step(p, s);
        law_line_reaches_outcome(g, child);
        assert(v.line.drop_first() =~= child_verdict(adj, limit, p, k).line);
    }
}

} // verus!
