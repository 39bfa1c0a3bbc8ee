use vstd::prelude::*;

use crate::game::{BoardDefinition, MoveView};
use crate::graph::{board_error, edge_is_bad, hunter_problem, lemma_first_where, start_problem};
use crate::minimax::lemma_filtered_in;
use crate::rules::{
    bear_may_enter, bear_step_to, bear_steps, hunter_may_enter, hunter_on, hunter_step_to,
    hunter_steps, hunter_steps_of, Position, Step,
};

verus! {

broadcast use vstd::seq_lib::group_seq_properties;

/// The bear's move from `from` to `to`.
pub open spec fn bear_move(from: usize, to: usize) -> Step {
    Step::Bear { from, to }
}

/// Hunter `k`'s move from `from` to `to`.
pub open spec fn hunter_move(k: int, from: usize, to: usize) -> Step {
    Step::Hunter { hunter_index: k as usize, from, to }
}

/// The moves from `v` to the neighbours of `v` that `pred` keeps, each made
/// a move by `f`, contain the move to every such neighbour, and only those.
proof fn lemma_moves_to_kept_neighbours(
    nb: Seq<usize>,
    pred: spec_fn(usize) -> bool,
    f: spec_fn(usize) -> Step,
)
    ensures
        forall|t: usize| nb.contains(t) && pred(t) ==> #[trigger] nb.filter(pred).map_values(f).contains(f(t)),
        nb.filter(pred).map_values(f).len() == nb.filter(pred).len(),
        forall|k: int|
            0 <= k < nb.filter(pred).len() ==> nb.contains(#[trigger] nb.filter(pred)[k]) && pred(
                nb.filter(pred)[k],
            ) && nb.filter(pred).map_values(f)[k] == f(nb.filter(pred)[k]),
{
    let fl = nb.filter(pred);
    let m = fl.map_values(f);
    assert forall|t: usize| nb.contains(t) && pred(t) implies #[trigger] m.contains(f(t)) by {
        let i = choose|i: int| 0 <= i < nb.len() && nb[i] == t;
        nb.lemma_filter_contains(pred, i);
        let a = choose|a: int| 0 <= a < fl.len() && fl[a] == t;
        assert(m[a] == f(t));
    }
    assert forall|k: int| 0 <= k < fl.len() implies nb.contains(#[trigger] fl[k]) && pred(fl[k])
        && m[k] == f(fl[k]) by {
        lemma_filtered_in(nb, pred, k);
    }
}

/// The bear's legal moves are the moves from its node to each neighbour
/// that holds no hunter: every such move is listed, and nothing else.
pub proof fn law_bear_moves_exact(adj: Seq<Seq<usize>>, p: Position)
    requires
        0 <= p.bear < adj.len(),
    ensures
        forall|t: usize|
            adj[p.bear as int].contains(t) && !hunter_on(p, t) ==> #[trigger] bear_steps(adj, p).contains(
                bear_move(p.bear, t),
            ),
        forall|k: int|
            0 <= k < bear_steps(adj, p).len() ==> exists|t: usize|
                #![trigger bear_move(p.bear, t)]
                adj[p.bear as int].contains(t) && !hunter_on(p, t) && #[trigger] bear_steps(adj, p)[k]
                    == bear_move(p.bear, t),
{
    lemma_moves_to_kept_neighbours(adj[p.bear as int], bear_may_enter(p), bear_step_to(p));
    assert forall|t: usize| adj[p.bear as int].contains(t) && !hunter_on(p, t) implies #[trigger] bear_steps(
        adj,
        p,
    ).contains(bear_move(p.bear, t)) by {
        assert(bear_may_enter(p)(t));
        assert(bear_step_to(p)(t) == bear_move(p.bear, t));
    }
    assert forall|k: int| 0 <= k < bear_steps(adj, p).len() implies exists|t: usize|
        #![trigger bear_move(p.bear, t)]
        adj[p.bear as int].contains(t) && !hunter_on(p, t) && #[trigger] bear_steps(adj, p)[k]
            == bear_move(p.bear, t) by {
        let t = adj[p.bear as int].filter(bear_may_enter(p))[k];
        assert(bear_step_to(p)(t) == bear_move(p.bear, t));
    }
}

/// The legal moves of hunter `k` are the moves from its node to each
/// neighbour that holds neither the bear nor a hunter: every such move is
/// listed, and nothing else.
pub proof fn law_hunter_moves_exact(adj: Seq<Seq<usize>>, p: Position, k: int)
    requires
        0 <= k < 3,
        0 <= p.hunters[k] < adj.len(),
    ensures
        forall|t: usize|
            adj[p.hunters[k] as int].contains(t) && t != p.bear && !hunter_on(p, t) ==> #[trigger] hunter_steps(
                adj,
                p,
            ).contains(hunter_move(k, p.hunters[k], t)),
        forall|i: int|
            0 <= i < hunter_steps_of(adj, p, k).len() ==> exists|t: usize|
                #![trigger hunter_move(k, p.hunters[k], t)]
                adj[p.hunters[k] as int].contains(t) && t != p.bear && !hunter_on(p, t)
                    && #[trigger] hunter_steps_of(adj, p, k)[i] == hunter_move(k, p.hunters[k], t),
{
    let nb = adj[p.hunters[k] as int];
    lemma_moves_to_kept_neighbours(nb, hunter_may_enter(p), hunter_step_to(p, k));
    let a = hunter_steps_of(adj, p, 0);
    let b = hunter_steps_of(adj, p, 1);
    let c = hunter_steps_of(adj, p, 2);
    let all = hunter_steps(adj, p);
    assert(all == a + b + c);
    assert forall|t: usize|
        adj[p.hunters[k] as int].contains(t) && t != p.bear && !hunter_on(p, t) implies #[trigger] hunter_steps(
        adj,
        p,
    ).contains(hunter_move(k, p.hunters[k], t)) by {
        let mv = hunter_move(k, p.hunters[k], t);
        assert(hunter_may_enter(p)(t));
        assert(hunter_step_to(p, k)(t) == mv);
        let own = hunter_steps_of(adj, p, k);
        assert(own.contains(mv));
        let i = choose|i: int| 0 <= i < own.len() && own[i] == mv;
        if k == 0 {
            assert(all[i] == mv);
        } else if k == 1 {
            assert(all[a.len() + i] == mv);
        } else {
            assert(all[a.len() + b.len() + i] == mv);
        }
    }
    assert forall|i: int| 0 <= i < hunter_steps_of(adj, p, k).len() implies exists|t: usize|
        #![trigger hunter_move(k, p.hunters[k], t)]
        adj[p.hunters[k] as int].contains(t) && t != p.bear && !hunter_on(p, t)
            && #[trigger] hunter_steps_of(adj, p, k)[i] == hunter_move(k, p.hunters[k], t) by {
        let t = nb.filter(hunter_may_enter(p))[i];
        assert(hunter_step_to(p, k)(t) == hunter_move(k, p.hunters[k], t));
    }
}

/// A board is accepted only with a valid start: the bear and each hunter
/// stand on a node of the board, the three hunters on different nodes,
/// and none of them on the bear's node.
pub proof fn law_accepted_start(board: BoardDefinition)
    requires
        board_error(board) is None,
    ensures
        ({
            let nodes = board.nodes@;
            let st = board.start;
            &&& exists|i: int| 0 <= i < nodes.len() && #[trigger] nodes[i].id@ == st.bear@
            &&& exists|i: int| 0 <= i < nodes.len() && #[trigger] nodes[i].id@ == st.hunters[0]@
            &&& exists|i: int| 0 <= i < nodes.len() && #[trigger] nodes[i].id@ == st.hunters[1]@
            &&& exists|i: int| 0 <= i < nodes.len() && #[trigger] nodes[i].id@ == st.hunters[2]@
            &&& st.hunters[0]@ != st.hunters[1]@
            &&& st.hunters[0]@ != st.hunters[2]@
            &&& st.hunters[1]@ != st.hunters[2]@
            &&& st.hunters[0]@ != st.bear@
            &&& st.hunters[1]@ != st.bear@
            &&& st.hunters[2]@ != st.bear@
        }),
{
    let nodes = board.nodes@;
    let st = board.start;
    lemma_first_where(edge_is_bad(nodes, board.edges@), board.edges@.len());
    assert(start_problem(nodes, st) is None);
    assert(hunter_problem(nodes, st, 0) is None);
    assert(hunter_problem(nodes, st, 1) is None);
    assert(hunter_problem(nodes, st, 2) is None);
    assert(st.hunters[0]@ != st.hunters[1]@) by {
        if st.hunters[0]@ == st.hunters[1]@ {
            assert(exists|j: int| #![trigger st.hunters[j]] 0 <= j < 1 && st.hunters[j]@ == st.hunters[1]@);
        }
    }
    assert(st.hunters[0]@ != st.hunters[2]@) by {
        if st.hunters[0]@ == st.hunters[2]@ {
            assert(exists|j: int| #![trigger st.hunters[j]] 0 <= j < 2 && st.hunters[j]@ == st.hunters[2]@);
        }
    }
    assert(st.hunters[1]@ != st.hunters[2]@) by {
        if st.hunters[1]@ == st.hunters[2]@ {
            assert(exists|j: int| #![trigger st.hunters[j]] 0 <= j < 2 && st.hunters[j]@ == st.hunters[2]@);
        }
    }
}

} // verus!
