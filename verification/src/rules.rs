use vstd::prelude::*;

use crate::game::{GameState, Move, MoveView, SideToMove, StateView};
use crate::graph::Graph;

verus! {

broadcast use vstd::seq_lib::group_seq_properties;

/// A position with nodes named by their place in the graph's node list.
#[derive(Debug, Clone, Copy, PartialEq, Eq)]
pub struct Position {
    pub bear: usize,
    pub hunters: [usize; 3],
    pub side: SideToMove,
    pub turns: u32,
}

/// A move with nodes named by their place in the graph's node list.
#[derive(Debug, Clone, Copy, PartialEq, Eq)]
pub enum Step {
    Hunter { hunter_index: usize, from: usize, to: usize },
    Bear { from: usize, to: usize },
}

/// A hunter stands on `v`.
pub open spec fn hunter_on(p: Position, v: usize) -> bool {
    p.hunters[0] == v || p.hunters[1] == v || p.hunters[2] == v
}

/// The nodes the bear may enter: those without a hunter.
pub open spec fn bear_may_enter(p: Position) -> spec_fn(usize) -> bool {
    |to: usize| !hunter_on(p, to)
}

/// The nodes a hunter may enter: those without the bear or a hunter.
pub open spec fn hunter_may_enter(p: Position) -> spec_fn(usize) -> bool {
    |to: usize| to != p.bear && !hunter_on(p, to)
}

pub open spec fn bear_step_to(p: Position) -> spec_fn(usize) -> Step {
    |to: usize| Step::Bear { from: p.bear, to }
}

pub open spec fn hunter_step_to(p: Position, k: int) -> spec_fn(usize) -> Step {
    |to: usize| Step::Hunter { hunter_index: k as usize, from: p.hunters[k], to }
}

/// The bear's legal moves: to each neighbour without a hunter, in neighbour order.
pub open spec fn bear_steps(adj: Seq<Seq<usize>>, p: Position) -> Seq<Step> {
    adj[p.bear as int].filter(bear_may_enter(p)).map_values(bear_step_to(p))
}

/// The legal moves of hunter `k`: to each free neighbour, in neighbour order.
pub open spec fn hunter_steps_of(adj: Seq<Seq<usize>>, p: Position, k: int) -> Seq<Step> {
    adj[p.hunters[k] as int].filter(hunter_may_enter(p)).map_values(hunter_step_to(p, k))
}

/// The hunters' legal moves: those of hunter 0, then hunter 1, then hunter 2.
pub open spec fn hunter_steps(adj: Seq<Seq<usize>>, p: Position) -> Seq<Step> {
    hunter_steps_of(adj, p, 0) + hunter_steps_of(adj, p, 1) + hunter_steps_of(adj, p, 2)
}

/// The legal moves of the side to move.
pub open spec fn side_steps(adj: Seq<Seq<usize>>, p: Position) -> Seq<Step> {
    match p.side {
        SideToMove::Hunters => hunter_steps(adj, p),
        SideToMove::Bear => bear_steps(adj, p),
    }
}

/// Three positions in increasing order.
pub open spec fn sort3(a: usize, b: usize, c: usize) -> [usize; 3] {
    if a <= b {
        if b <= c {
            [a, b, c]
        } else if a <= c {
            [a, c, b]
        } else {
            [c, a, b]
        }
    } else {
        if a <= c {
            [b, a, c]
        } else if b <= c {
            [b, c, a]
        } else {
            [c, b, a]
        }
    }
}

/// The hunters after hunter `k` moved to `to`, in increasing order.
pub open spec fn moved_hunters(h: [usize; 3], k: int, to: usize) -> [usize; 3] {
    if k == 0 {
        sort3(to, h[1], h[2])
    } else if k == 1 {
        sort3(h[0], to, h[2])
    } else {
        sort3(h[0], h[1], to)
    }
}

/// The position after a move. A hunter move uses up a hunter turn.
pub open spec fn apply_step(p: Position, s: Step) -> Position {
    match s {
        Step::Hunter { hunter_index, to, .. } => Position {
            bear: p.bear,
            hunters: moved_hunters(p.hunters, hunter_index as int, to),
            side: SideToMove::Bear,
            turns: (p.turns + 1) as u32,
        },
        Step::Bear { to, .. } => Position {
            bear: to,
            hunters: p.hunters,
            side: SideToMove::Hunters,
            turns: p.turns,
        },
    }
}

/// All nodes of the position lie in a graph of `n` nodes.
/// The hunters stand on nodes of the graph.
pub open spec fn hunters_in(p: Position, n: nat) -> bool {
    p.hunters[0] < n && p.hunters[1] < n && p.hunters[2] < n
}

pub open spec fn position_in(p: Position, n: nat) -> bool {
    p.bear < n && p.hunters[0] < n && p.hunters[1] < n && p.hunters[2] < n
}

/// Three positions in increasing order.
pub fn sort_positions(a: usize, b: usize, c: usize) -> (r: [usize; 3])
    ensures
        r == sort3(a, b, c),
{
    if a <= b {
        if b <= c {
            [a, b, c]
        } else if a <= c {
            [a, c, b]
        } else {
            [c, a, b]
        }
    } else {
        if a <= c {
            [b, a, c]
        } else if b <= c {
            [b, c, a]
        } else {
            [c, b, a]
        }
    }
}

/// Whether a hunter stands on `v`.
pub fn has_hunter(p: &Position, v: usize) -> (r: bool)
    ensures
        r == hunter_on(*p, v),
{
    p.hunters[0] == v || p.hunters[1] == v || p.hunters[2] == v
}

/// The bear's legal moves.
pub fn bear_steps_in(g: &Graph, p: &Position) -> (r: Vec<Step>)
    requires
        g.wf(),
        p.bear < g.node_count(),
    ensures
        r@ == bear_steps(g.adj(), *p),
{
    let nb = &g.neighbor_indices[p.bear];
    let ghost s = nb@;
    let ghost pred = bear_may_enter(*p);
    let ghost f = bear_step_to(*p);
    let mut r: Vec<Step> = Vec::new();
    let mut k: usize = 0;
    assert(s.take(0) =~= Seq::<usize>::empty());
    while k < nb.len()
        invariant
            s == nb@,
            pred == bear_may_enter(*p),
            f == bear_step_to(*p),
            k <= s.len(),
            r@ == s.take(k as int).filter(pred).map_values(f),
        decreases nb.len() - k,
    {
        let to = nb[k];
        proof {
            assert(s.take(k + 1) =~= s.take(k as int).push(to));
            s.take(k as int).lemma_filter_push(to, pred);
            s.take(k as int).filter(pred).lemma_push_map_commute(f, to);
        }
        if !has_hunter(p, to) {
            r.push(Step::Bear { from: p.bear, to });
        }
        k = k + 1;
    }
    assert(s.take(s.len() as int) =~= s);
    r
}

/// The legal moves of hunter `k`, appended to `r`.
fn push_hunter_steps(g: &Graph, p: &Position, k: usize, r: &mut Vec<Step>)
    requires
        g.wf(),
        hunters_in(*p, g.node_count()),
        k < 3,
    ensures
        final(r)@ == old(r)@ + hunter_steps_of(g.adj(), *p, k as int),
{
    let nb = &g.neighbor_indices[p.hunters[k]];
    let ghost s = nb@;
    let ghost pred = hunter_may_enter(*p);
    let ghost f = hunter_step_to(*p, k as int);
    let ghost start = r@;
    let mut i: usize = 0;
    assert(s.take(0) =~= Seq::<usize>::empty());
    assert(start =~= start + s.take(0).filter(pred).map_values(f));
    while i < nb.len()
        invariant
            s == nb@,
            pred == hunter_may_enter(*p),
            f == hunter_step_to(*p, k as int),
            k < 3,
            i <= s.len(),
            r@ == start + s.take(i as int).filter(pred).map_values(f),
        decreases nb.len() - i,
    {
        let to = nb[i];
        proof {
            assert(s.take(i + 1) =~= s.take(i as int).push(to));
            s.take(i as int).lemma_filter_push(to, pred);
            s.take(i as int).filter(pred).lemma_push_map_commute(f, to);
        }
        if to != p.bear && !has_hunter(p, to) {
            r.push(Step::Hunter { hunter_index: k, from: p.hunters[k], to });
            assert(r@ =~= start + s.take(i + 1).filter(pred).map_values(f));
        } else {
            assert(r@ =~= start + s.take(i + 1).filter(pred).map_values(f));
        }
        i = i + 1;
    }
    assert(s.take(s.len() as int) =~= s);
}

/// The hunters' legal moves.
pub fn hunter_steps_in(g: &Graph, p: &Position) -> (r: Vec<Step>)
    requires
        g.wf(),
        hunters_in(*p, g.node_count()),
    ensures
        r@ == hunter_steps(g.adj(), *p),
{
    let mut r: Vec<Step> = Vec::new();
    push_hunter_steps(g, p, 0, &mut r);
    push_hunter_steps(g, p, 1, &mut r);
    push_hunter_steps(g, p, 2, &mut r);
    assert(r@ =~= hunter_steps(g.adj(), *p));
    r
}

/// The position after a move.
pub fn apply_step_to(p: &Position, s: &Step) -> (r: Position)
    requires
        s is Hunter ==> s->hunter_index < 3 && p.turns < u32::MAX,
    ensures
        r == apply_step(*p, *s),
{
    match *s {
        Step::Hunter { hunter_index, to, .. } => {
            let h = p.hunters;
            let hunters = if hunter_index == 0 {
                sort_positions(to, h[1], h[2])
            } else if hunter_index == 1 {
                sort_positions(h[0], to, h[2])
            } else {
                sort_positions(h[0], h[1], to)
            };
            Position { bear: p.bear, hunters, side: SideToMove::Bear, turns: p.turns + 1 }
        },
        Step::Bear { to, .. } => Position {
            bear: to,
            hunters: p.hunters,
            side: SideToMove::Hunters,
            turns: p.turns,
        },
    }
}

/// The graph holds every node that the state names.
pub open spec fn holds_state(g: &Graph, s: StateView) -> bool {
    &&& s.hunters.len() == 3
    &&& g.has_id(s.bear)
    &&& g.has_id(s.hunters[0])
    &&& g.has_id(s.hunters[1])
    &&& g.has_id(s.hunters[2])
}

/// The state with its nodes named by their place in the graph.
pub open spec fn position_of(g: &Graph, s: StateView) -> Position {
    Position {
        bear: g.index_of_id(s.bear),
        hunters: [
            g.index_of_id(s.hunters[0]),
            g.index_of_id(s.hunters[1]),
            g.index_of_id(s.hunters[2]),
        ],
        side: s.side,
        turns: s.turns as u32,
    }
}

/// A move with its nodes named by their ids.
pub open spec fn step_view(g: &Graph, st: Step) -> MoveView {
    match st {
        Step::Hunter { hunter_index, from, to } => MoveView::Hunter {
            hunter_index: hunter_index as nat,
            from: g.nodes@[from as int].id@,
            to: g.nodes@[to as int].id@,
        },
        Step::Bear { from, to } => MoveView::Bear {
            from: g.nodes@[from as int].id@,
            to: g.nodes@[to as int].id@,
        },
    }
}

pub open spec fn step_in(st: Step, n: nat) -> bool {
    match st {
        Step::Hunter { from, to, .. } => from < n && to < n,
        Step::Bear { from, to } => from < n && to < n,
    }
}

/// The state as a position of the graph.
pub fn locate_state(g: &Graph, s: &GameState) -> (r: Position)
    requires
        g.wf(),
        holds_state(g, s@),
    ensures
        r == position_of(g, s@),
        position_in(r, g.node_count()),
{
    let bear = g.find_node(s.bear).unwrap();
    let h0 = g.find_node(s.hunters[0]).unwrap();
    let h1 = g.find_node(s.hunters[1]).unwrap();
    let h2 = g.find_node(s.hunters[2]).unwrap();
    Position { bear, hunters: [h0, h1, h2], side: s.side_to_move, turns: s.hunter_turns_used }
}

/// A move with its nodes named by their ids.
pub fn name_step(g: &Graph, st: Step) -> (m: Move)
    requires
        g.wf(),
        step_in(st, g.node_count()),
    ensures
        m@ == step_view(g, st),
{
    match st {
        Step::Hunter { hunter_index, from, to } => Move::Hunter {
            hunter_index,
            from: g.nodes[from].id,
            to: g.nodes[to].id,
        },
        Step::Bear { from, to } => Move::Bear { from: g.nodes[from].id, to: g.nodes[to].id },
    }
}

/// Moves with their nodes named by their ids.
pub fn name_steps(g: &Graph, steps: &Vec<Step>) -> (r: Vec<Move>)
    requires
        g.wf(),
        forall|k: int| 0 <= k < steps@.len() ==> step_in(#[trigger] steps@[k], g.node_count()),
    ensures
        r@.map_values(|m: Move| m@) == steps@.map_values(|st: Step| step_view(g, st)),
{
    let mut r: Vec<Move> = Vec::new();
    let mut k: usize = 0;
    while k < steps.len()
        invariant
            g.wf(),
            forall|k: int| 0 <= k < steps@.len() ==> step_in(#[trigger] steps@[k], g.node_count()),
            k <= steps@.len(),
            r@.len() == k,
            forall|j: int| 0 <= j < k ==> (#[trigger] r@[j])@ == step_view(g, steps@[j]),
        decreases steps.len() - k,
    {
        let m = name_step(g, steps[k]);
        r.push(m);
        k = k + 1;
    }
    assert(r@.map_values(|m: Move| m@) =~= steps@.map_values(|st: Step| step_view(g, st)));
    r
}

/// The place of the node named `id` in the graph's node list; one past
/// the last node when the graph has no node of that name, so that it is
/// the place of no node.
pub open spec fn place_of(g: &Graph, id: Seq<char>) -> usize {
    if g.has_id(id) {
        g.index_of_id(id)
    } else {
        g.nodes@.len() as usize
    }
}

/// The state with its nodes named by their place in the graph, names that
/// the graph lacks at the place of no node.
pub open spec fn loose_position(g: &Graph, s: StateView) -> Position {
    Position {
        bear: place_of(g, s.bear),
        hunters: [place_of(g, s.hunters[0]), place_of(g, s.hunters[1]), place_of(g, s.hunters[2])],
        side: s.side,
        turns: s.turns as u32,
    }
}

/// The three hunters of the state stand on nodes of the graph.
pub open spec fn hunters_on_board(g: &Graph, s: StateView) -> bool {
    &&& s.hunters.len() == 3
    &&& g.has_id(s.hunters[0])
    &&& g.has_id(s.hunters[1])
    &&& g.has_id(s.hunters[2])
}

/// The state as a position of the graph, whether or not every piece is on
/// the board.
pub fn locate_loose(g: &Graph, s: &GameState) -> (r: Position)
    requires
        g.wf(),
    ensures
        r == loose_position(g, s@),
        g.has_id(s@.bear) ==> r.bear < g.node_count(),
        hunters_on_board(g, s@) ==> hunters_in(r, g.node_count()),
        holds_state(g, s@) ==> r == position_of(g, s@),
{
    let n = g.nodes.len();
    let bear = match g.find_node(s.bear) {
        Some(i) => i,
        None => n,
    };
    let h0 = match g.find_node(s.hunters[0]) {
        Some(i) => i,
        None => n,
    };
    let h1 = match g.find_node(s.hunters[1]) {
        Some(i) => i,
        None => n,
    };
    let h2 = match g.find_node(s.hunters[2]) {
        Some(i) => i,
        None => n,
    };
    let r = Position { bear, hunters: [h0, h1, h2], side: s.side_to_move, turns: s.hunter_turns_used };
    assert(r =~= loose_position(g, s@));
    r
}

} // verus!
