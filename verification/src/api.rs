use vstd::prelude::*;
use vstd::string::StringExecFns;

use crate::game::{
    names3, perm3, sort_names, sorted_names, GameState, Move, MoveView, NodeId, Outcome,
    SideToMove, StateView,
};
use crate::game::{BoardNode, StartState};
use crate::graph::{edge_list_upto, pair_views, Graph};
use crate::play::{first_of, longest_step, named_option, recommended_move};
use crate::solver::{position_evaluation, EvalView, Solver};
use crate::minimax::{lemma_side_steps_fit, step_fits};
use crate::rules::{
    apply_step, holds_state, hunters_on_board, loose_position, position_of, side_steps, sort3,
    step_view, Position,
};
use crate::solver::{
    apply_move, law_apply_move_agrees, legal_bear_moves, legal_hunter_moves, lemma_index_order,
    lemma_sort3_unique, move_views, named_steps,
};
use crate::text::{nat_text, push_nat, text_eq};

verus! {

/// A state as the web interface sends it: nodes named by free text.
#[derive(Debug, Clone)]
pub struct ApiGameState {
    pub bear: String,
    pub hunters: [String; 3],
    pub side_to_move: SideToMove,
    pub hunter_turns_used: u32,
}

/// A move as the web interface sends it.
#[derive(Debug, Clone)]
pub enum ApiMove {
    Hunter { hunter_index: usize, from: String, to: String },
    Bear { from: String, to: String },
}

/// The answer to a refused request: why it was refused.
#[derive(Debug, Clone)]
pub struct ApiError {
    pub error: String,
}

/// A node of the board as the web interface shows it.
pub struct NodeResponse {
    pub id: String,
    pub x: i32,
    pub y: i32,
}

/// The board as the web interface shows it: its nodes in order of id, each
/// edge once, and the starting state.
pub struct BoardResponse {
    pub name: String,
    pub turn_limit: u32,
    pub nodes: Vec<NodeResponse>,
    pub edges: Vec<[String; 2]>,
    pub start: ApiGameState,
}

/// The legal moves of the side to move.
pub struct LegalMovesResponse {
    pub legal_moves: Vec<ApiMove>,
}

/// The value of a state, the move to play, and the moves that keep the side
/// to move winning.
pub struct EvaluateResponse {
    pub outcome: Outcome,
    pub distance: u32,
    pub best_move: Option<ApiMove>,
    pub winning_moves: Vec<ApiMove>,
    pub bear_refutations: Vec<ApiMove>,
    pub explanation: String,
}

/// A state and a move to play on it.
pub struct ApplyMoveRequest {
    pub state: ApiGameState,
    pub move_payload: ApiMove,
}

/// The state after a move.
pub struct ApplyMoveResponse {
    pub state: ApiGameState,
}

/// The views of a list of moves of the web interface.
pub open spec fn api_moves(v: Seq<ApiMove>) -> Seq<MoveView> {
    v.map_values(|m: ApiMove| m@)
}

impl View for ApiGameState {
    type V = StateView;

    open spec fn view(&self) -> StateView {
        StateView {
            bear: self.bear@,
            hunters: seq![self.hunters[0]@, self.hunters[1]@, self.hunters[2]@],
            side: self.side_to_move,
            turns: self.hunter_turns_used as nat,
        }
    }
}

impl View for ApiMove {
    type V = MoveView;

    open spec fn view(&self) -> MoveView {
        match self {
            ApiMove::Hunter { hunter_index, from, to } => MoveView::Hunter {
                hunter_index: *hunter_index as nat,
                from: from@,
                to: to@,
            },
            ApiMove::Bear { from, to } => MoveView::Bear { from: from@, to: to@ },
        }
    }
}

/// The refusal of a node name that the graph does not hold.
pub open spec fn unknown_node_text(id: Seq<char>) -> Seq<char> {
    "unknown node id: "@ + id
}

/// Why a state from the web interface is refused, if it is: an unknown bear
/// node, then for each hunter in turn an unknown node or one already taken by
/// an earlier hunter, then a hunter on the bear's node, then too many turns.
pub open spec fn state_problem(g: &Graph, s: StateView) -> Option<Seq<char>> {
    let h = s.hunters;
    if !g.has_id(s.bear) {
        Some(unknown_node_text(s.bear))
    } else if !g.has_id(h[0]) {
        Some(unknown_node_text(h[0]))
    } else if !g.has_id(h[1]) {
        Some(unknown_node_text(h[1]))
    } else if h[1] == h[0] {
        Some("hunters must occupy 3 distinct nodes"@)
    } else if !g.has_id(h[2]) {
        Some(unknown_node_text(h[2]))
    } else if h[2] == h[0] || h[2] == h[1] {
        Some("hunters must occupy 3 distinct nodes"@)
    } else if h[0] == s.bear || h[1] == s.bear || h[2] == s.bear {
        Some("bear cannot occupy a hunter node"@)
    } else if s.turns > g.turn_limit {
        Some("hunterTurnsUsed must be <= "@ + nat_text(g.turn_limit as nat))
    } else {
        None
    }
}

/// The graph's node with the given name.
pub fn map_node(graph: &Graph, id: &str) -> (r: Result<NodeId, String>)
    requires
        graph.wf(),
    ensures
        match r {
            Ok(n) => n@ == id@ && graph.has_id(id@),
            Err(msg) => !graph.has_id(id@) && msg@ == unknown_node_text(id@),
        },
{
    match graph.find_node(id) {
        Some(i) => {
            proof {
                graph.lemma_index_of_id(i);
            }
            Ok(graph.nodes[i].id)
        },
        None => {
            let mut msg = String::new();
            msg.append("unknown node id: ");
            msg.append(id);
            assert(msg@ =~= unknown_node_text(id@));
            Err(msg)
        },
    }
}

/// A state from the web interface as a state of the graph: hunters sorted.
pub fn to_internal_state(graph: &Graph, s: ApiGameState) -> (r: Result<GameState, String>)
    requires
        graph.wf(),
    ensures
        match r {
            Ok(st) => {
                &&& state_problem(graph, s@) is None
                &&& st.bear@ == s.bear@
                &&& perm3(s@.hunters, names3(st.hunters))
                &&& sorted_names(names3(st.hunters))
                &&& st.side_to_move == s.side_to_move
                &&& st.hunter_turns_used == s.hunter_turns_used
                &&& holds_state(graph, st@)
            },
            Err(msg) => state_problem(graph, s@) == Some(msg@),
        },
{
    let bear = match map_node(graph, s.bear.as_str()) {
        Ok(b) => b,
        Err(e) => return Err(e),
    };
    let h0 = match map_node(graph, s.hunters[0].as_str()) {
        Ok(h) => h,
        Err(e) => return Err(e),
    };
    let h1 = match map_node(graph, s.hunters[1].as_str()) {
        Ok(h) => h,
        Err(e) => return Err(e),
    };
    if text_eq(h1, h0) {
        let mut msg = String::new();
        msg.append("hunters must occupy 3 distinct nodes");
        return Err(msg);
    }
    let h2 = match map_node(graph, s.hunters[2].as_str()) {
        Ok(h) => h,
        Err(e) => return Err(e),
    };
    if text_eq(h2, h0) || text_eq(h2, h1) {
        let mut msg = String::new();
        msg.append("hunters must occupy 3 distinct nodes");
        return Err(msg);
    }
    if text_eq(h0, bear) || text_eq(h1, bear) || text_eq(h2, bear) {
        let mut msg = String::new();
        msg.append("bear cannot occupy a hunter node");
        return Err(msg);
    }
    if s.hunter_turns_used > graph.turn_limit {
        let mut msg = String::new();
        msg.append("hunterTurnsUsed must be <= ");
        push_nat(&mut msg, graph.turn_limit as u64);
        assert(msg@ =~= "hunterTurnsUsed must be <= "@ + nat_text(graph.turn_limit as nat));
        return Err(msg);
    }
    let hunters = sort_names([h0, h1, h2]);
    let st = GameState {
        bear,
        hunters,
        side_to_move: s.side_to_move,
        hunter_turns_used: s.hunter_turns_used,
    };
    assert(names3([h0, h1, h2]) =~= s@.hunters);
    assert(perm3(s@.hunters, names3(st.hunters))) by {
        assert([h0, h1, h2]@ =~= seq![h0, h1, h2]);
        assert(names3(st.hunters) =~= st.hunters@.map_values(|h: NodeId| h@));
        assert(s@.hunters =~= [h0, h1, h2]@.map_values(|h: NodeId| h@));
    }
    Ok(st)
}

/// A move from the web interface, with its nodes named by the graph. It must
/// be the turn of the side that the move belongs to.
pub fn to_internal_move(graph: &Graph, state: &GameState, mv: ApiMove) -> (r: Result<Move, String>)
    requires
        graph.wf(),
    ensures
        match r {
            Ok(m) => m@ == mv@ && match mv@ {
                MoveView::Hunter { from, to, .. } => state.side_to_move == SideToMove::Hunters
                    && graph.has_id(from) && graph.has_id(to),
                MoveView::Bear { from, to } => state.side_to_move == SideToMove::Bear
                    && graph.has_id(from) && graph.has_id(to),
            },
            Err(msg) => match mv@ {
                MoveView::Hunter { from, to, .. } => msg@ == if state.side_to_move
                    != SideToMove::Hunters {
                    "not hunters turn"@
                } else if !graph.has_id(from) {
                    unknown_node_text(from)
                } else {
                    unknown_node_text(to)
                } && (state.side_to_move != SideToMove::Hunters || !graph.has_id(from)
                    || !graph.has_id(to)),
                MoveView::Bear { from, to } => msg@ == if state.side_to_move
                    != SideToMove::Bear {
                    "not bear turn"@
                } else if !graph.has_id(from) {
                    unknown_node_text(from)
                } else {
                    unknown_node_text(to)
                } && (state.side_to_move != SideToMove::Bear || !graph.has_id(from)
                    || !graph.has_id(to)),
            },
        },
{
    match mv {
        ApiMove::Hunter { hunter_index, from, to } => {
            match state.side_to_move {
                SideToMove::Hunters => {},
                SideToMove::Bear => {
                    let mut msg = String::new();
                    msg.append("not hunters turn");
                    return Err(msg);
                },
            }
            let from = match map_node(graph, from.as_str()) {
                Ok(n) => n,
                Err(e) => return Err(e),
            };
            let to = match map_node(graph, to.as_str()) {
                Ok(n) => n,
                Err(e) => return Err(e),
            };
            Ok(Move::Hunter { hunter_index, from, to })
        },
        ApiMove::Bear { from, to } => {
            match state.side_to_move {
                SideToMove::Bear => {},
                SideToMove::Hunters => {
                    let mut msg = String::new();
                    msg.append("not bear turn");
                    return Err(msg);
                },
            }
            let from = match map_node(graph, from.as_str()) {
                Ok(n) => n,
                Err(e) => return Err(e),
            };
            let to = match map_node(graph, to.as_str()) {
                Ok(n) => n,
                Err(e) => return Err(e),
            };
            Ok(Move::Bear { from, to })
        },
    }
}

/// A move as the web interface shows it.
pub fn to_api_move(mv: Move) -> (r: ApiMove)
    ensures
        r@ == mv@,
{
    match mv {
        Move::Hunter { hunter_index, from, to } => ApiMove::Hunter {
            hunter_index,
            from: from.to_owned(),
            to: to.to_owned(),
        },
        Move::Bear { from, to } => ApiMove::Bear { from: from.to_owned(), to: to.to_owned() },
    }
}

/// A state as the web interface shows it.
pub fn to_api_state(st: &GameState) -> (r: ApiGameState)
    ensures
        r@ == st@,
{
    ApiGameState {
        bear: st.bear.to_owned(),
        hunters: [st.hunters[0].to_owned(), st.hunters[1].to_owned(), st.hunters[2].to_owned()],
        side_to_move: st.side_to_move,
        hunter_turns_used: st.hunter_turns_used,
    }
}

/// The legal moves of the side to move.
pub fn moves_for_state(graph: &Graph, state: &GameState) -> (r: Vec<Move>)
    requires
        graph.wf(),
        state.side_to_move == SideToMove::Hunters ==> hunters_on_board(graph, state@),
        state.side_to_move == SideToMove::Bear ==> graph.has_id(state@.bear),
    ensures
        move_views(r@) == named_steps(graph, side_steps(graph.adj(), loose_position(graph, state@))),
        holds_state(graph, state@) ==> loose_position(graph, state@) == position_of(graph, state@),
{
    match state.side_to_move {
        SideToMove::Hunters => legal_hunter_moves(graph, state),
        SideToMove::Bear => legal_bear_moves(graph, state),
    }
}

} // verus!

verus! {

/// A state from the web interface as a position of the graph: each name at
/// its place, the hunters' places in increasing order.
pub open spec fn api_position(g: &Graph, s: StateView) -> Position {
    Position {
        bear: g.index_of_id(s.bear),
        hunters: sort3(
            g.index_of_id(s.hunters[0]),
            g.index_of_id(s.hunters[1]),
            g.index_of_id(s.hunters[2]),
        ),
        side: s.side,
        turns: s.turns as u32,
    }
}

/// A position of the graph with its nodes named by their ids.
pub open spec fn state_view_of(g: &Graph, q: Position) -> StateView {
    StateView {
        bear: g.nodes@[q.bear as int].id@,
        hunters: seq![
            g.nodes@[q.hunters[0] as int].id@,
            g.nodes@[q.hunters[1] as int].id@,
            g.nodes@[q.hunters[2] as int].id@,
        ],
        side: q.side,
        turns: q.turns as nat,
    }
}

/// An accepted state is the position `api_position` names.
proof fn lemma_accepted_position(g: &Graph, s: StateView, st: GameState)
    requires
        g.wf(),
        s.hunters.len() == 3,
        st.bear@ == s.bear,
        perm3(s.hunters, names3(st.hunters)),
        sorted_names(names3(st.hunters)),
        st.side_to_move == s.side,
        st.hunter_turns_used as nat == s.turns,
        holds_state(g, st@),
    ensures
        position_of(g, st@) == api_position(g, s),
{
    let nn = names3(st.hunters);
    let r = [g.index_of_id(nn[0]), g.index_of_id(nn[1]), g.index_of_id(nn[2])];
    let ui = seq![
        g.index_of_id(s.hunters[0]),
        g.index_of_id(s.hunters[1]),
        g.index_of_id(s.hunters[2]),
    ];
    assert(perm3(ui, r@)) by {
        assert(r@ =~= seq![r[0], r[1], r[2]]);
    }
    lemma_index_order(g, nn[0], nn[1]);
    lemma_index_order(g, nn[1], nn[2]);
    lemma_sort3_unique(ui[0], ui[1], ui[2], r);
    assert(position_of(g, st@) =~= api_position(g, s));
}

/// A state whose names are all graph ids reads back from its position.
pub proof fn lemma_view_of_position(g: &Graph, st: GameState)
    requires
        g.wf(),
        holds_state(g, st@),
    ensures
        st@ == state_view_of(g, position_of(g, st@)),
{
    g.lemma_has_id(st@.bear);
    g.lemma_has_id(st@.hunters[0]);
    g.lemma_has_id(st@.hunters[1]);
    g.lemma_has_id(st@.hunters[2]);
    assert(st@.hunters =~= state_view_of(g, position_of(g, st@)).hunters);
}

/// The legal moves from a state sent by the web interface.
pub fn legal_moves_request(graph: &Graph, req: ApiGameState) -> (r: Result<LegalMovesResponse, ApiError>)
    requires
        graph.wf(),
    ensures
        match r {
            Ok(resp) => state_problem(graph, req@) is None && api_moves(resp.legal_moves@)
                == named_steps(graph, side_steps(graph.adj(), api_position(graph, req@))),
            Err(e) => state_problem(graph, req@) == Some(e.error@),
        },
{
    let ghost s = req@;
    let gs = match to_internal_state(graph, req) {
        Ok(gs) => gs,
        Err(e) => return Err(ApiError { error: e }),
    };
    proof {
        lemma_accepted_position(graph, s, gs);
    }
    let moves = moves_for_state(graph, &gs);
    let mut out: Vec<ApiMove> = Vec::new();
    let mut i: usize = 0;
    while i < moves.len()
        invariant
            i <= moves@.len(),
            out@.len() == i,
            forall|j: int| 0 <= j < i ==> (#[trigger] out@[j])@ == moves@[j]@,
        decreases moves@.len() - i,
    {
        out.push(to_api_move(moves[i]));
        i = i + 1;
    }
    assert(api_moves(out@) =~= move_views(moves@));
    Ok(LegalMovesResponse { legal_moves: out })
}

/// What is wrong with a move from the web interface, given the side to move.
pub open spec fn move_problem(g: &Graph, side: SideToMove, m: MoveView) -> Option<Seq<char>> {
    match m {
        MoveView::Hunter { from, to, .. } => if side != SideToMove::Hunters {
            Some("not hunters turn"@)
        } else if !g.has_id(from) {
            Some(unknown_node_text(from))
        } else if !g.has_id(to) {
            Some(unknown_node_text(to))
        } else {
            None
        },
        MoveView::Bear { from, to } => if side != SideToMove::Bear {
            Some("not bear turn"@)
        } else if !g.has_id(from) {
            Some(unknown_node_text(from))
        } else if !g.has_id(to) {
            Some(unknown_node_text(to))
        } else {
            None
        },
    }
}

/// Some legal move of the side to move reads as `m`.
pub open spec fn legal_as(g: &Graph, q: Position, m: MoveView, j: int) -> bool {
    0 <= j < side_steps(g.adj(), q).len() && step_view(g, side_steps(g.adj(), q)[j]) == m
}

/// Plays a move sent by the web interface on a state sent by it: the state
/// must be valid, the move well named, of the side to move, and legal.
pub fn apply_move_request(graph: &Graph, req: ApplyMoveRequest) -> (r: Result<
    ApplyMoveResponse,
    ApiError,
>)
    requires
        graph.wf(),
        graph.turn_limit < u32::MAX || req.state.hunter_turns_used < u32::MAX
            || req.state.side_to_move == SideToMove::Bear,
    ensures
        ({
            let s = req.state@;
            let m = req.move_payload@;
            let q = api_position(graph, s);
            match r {
                Ok(resp) => {
                    &&& state_problem(graph, s) is None
                    &&& move_problem(graph, s.side, m) is None
                    &&& exists|j: int|
                        legal_as(graph, q, m, j) && resp.state@ == state_view_of(
                            graph,
                            apply_step(q, side_steps(graph.adj(), q)[j]),
                        )
                },
                Err(e) => if state_problem(graph, s) is Some {
                    state_problem(graph, s) == Some(e.error@)
                } else if move_problem(graph, s.side, m) is Some {
                    move_problem(graph, s.side, m) == Some(e.error@)
                } else {
                    e.error@ == "illegal move for current state"@ && forall|j: int|
                        !legal_as(graph, q, m, j)
                },
            }
        }),
{
    let ghost s = req.state@;
    let ghost m = req.move_payload@;
    let ApplyMoveRequest { state, move_payload: mv } = req;
    let gs = match to_internal_state(graph, state) {
        Ok(gs) => gs,
        Err(e) => return Err(ApiError { error: e }),
    };
    proof {
        lemma_accepted_position(graph, s, gs);
    }
    let ghost q = position_of(graph, gs@);
    let internal = match to_internal_move(graph, &gs, mv) {
        Ok(m) => m,
        Err(e) => return Err(ApiError { error: e }),
    };
    let legal = moves_for_state(graph, &gs);
    let mut found: Option<usize> = None;
    let mut i: usize = 0;
    while i < legal.len()
        invariant
            i <= legal@.len(),
            found matches Some(k) ==> k < legal@.len() && legal@[k as int]@ == internal@,
            found is None ==> forall|j: int| 0 <= j < i ==> legal@[j]@ != internal@,
        decreases legal@.len() - i,
    {
        if found.is_none() && same_move(&legal[i], &internal) {
            found = Some(i);
        }
        i = i + 1;
    }
    let ghost steps = side_steps(graph.adj(), q);
    assert(move_views(legal@).len() == named_steps(graph, steps).len());
    if found.is_none() {
        let mut msg = String::new();
        msg.append("illegal move for current state");
        proof {
            assert forall|j: int| !legal_as(graph, q, m, j) by {
                if 0 <= j < steps.len() {
                    assert(move_views(legal@)[j] == named_steps(graph, steps)[j]);
                }
            }
        }
        return Err(ApiError { error: msg });
    }
    let ghost j = found.unwrap() as int;
    proof {
        assert(move_views(legal@)[j] == named_steps(graph, steps)[j]);
        assert(legal_as(graph, q, m, j));
        lemma_side_steps_fit(graph, q);
        assert(step_fits(q, steps[j], graph.node_count()));
    }
    let next = apply_move(&gs, &internal);
    proof {
        law_apply_move_agrees(graph, gs, steps[j], internal, next);
        lemma_view_of_position(graph, next);
    }
    Ok(ApplyMoveResponse { state: to_api_state(&next) })
}

/// Whether two moves are the same move.
pub fn same_move(a: &Move, b: &Move) -> (r: bool)
    ensures
        r == (a@ == b@),
{
    match (a, b) {
        (
            Move::Hunter { hunter_index: i, from: f, to: t },
            Move::Hunter { hunter_index: j, from: g, to: u },
        ) => *i == *j && text_eq(f, g) && text_eq(t, u),
        (Move::Bear { from: f, to: t }, Move::Bear { from: g, to: u }) => text_eq(f, g) && text_eq(
            t,
            u,
        ),
        _ => false,
    }
}

} // verus!

verus! {

/// A node as the web interface shows it.
pub open spec fn node_shown(r: NodeResponse, nd: BoardNode) -> bool {
    r.id@ == nd.id@ && r.x == nd.x && r.y == nd.y
}

/// The views of a list of edges as the web interface shows them.
pub open spec fn edge_views(v: Seq<[String; 2]>) -> Seq<(Seq<char>, Seq<char>)> {
    v.map_values(|e: [String; 2]| (e[0]@, e[1]@))
}

/// The starting state as the web interface shows it: no turns used yet.
pub open spec fn start_view(start: StartState) -> StateView {
    StateView {
        bear: start.bear@,
        hunters: names3(start.hunters),
        side: start.side_to_move,
        turns: 0,
    }
}

/// The board as the web interface shows it.
pub fn board_response(graph: &Graph, start: &StartState) -> (r: BoardResponse)
    requires
        graph.wf(),
    ensures
        r.name@ == graph.name@,
        r.turn_limit == graph.turn_limit,
        r.nodes@.len() == graph.nodes@.len(),
        forall|k: int| 0 <= k < r.nodes@.len() ==> node_shown(#[trigger] r.nodes@[k], graph.nodes@[k]),
        edge_views(r.edges@) == edge_list_upto(*graph, graph.nodes@.len()),
        r.start@ == start_view(*start),
{
    let mut nodes: Vec<NodeResponse> = Vec::new();
    let mut i: usize = 0;
    while i < graph.nodes.len()
        invariant
            i <= graph.nodes@.len(),
            nodes@.len() == i,
            forall|k: int| 0 <= k < i ==> node_shown(#[trigger] nodes@[k], graph.nodes@[k]),
        decreases graph.nodes@.len() - i,
    {
        let nd = &graph.nodes[i];
        nodes.push(NodeResponse { id: nd.id.to_owned(), x: nd.x, y: nd.y });
        i = i + 1;
    }
    let pairs = graph.edge_list();
    let mut edges: Vec<[String; 2]> = Vec::new();
    let mut k: usize = 0;
    while k < pairs.len()
        invariant
            k <= pairs@.len(),
            edges@.len() == k,
            forall|j: int|
                0 <= j < k ==> (#[trigger] edges@[j])[0]@ == pairs@[j].0@ && edges@[j][1]@
                    == pairs@[j].1@,
        decreases pairs@.len() - k,
    {
        let (a, b) = pairs[k];
        edges.push([a.to_owned(), b.to_owned()]);
        k = k + 1;
    }
    assert(edge_views(edges@) =~= pair_views(pairs@));
    let start_state = ApiGameState {
        bear: start.bear.to_owned(),
        hunters: [
            start.hunters[0].to_owned(),
            start.hunters[1].to_owned(),
            start.hunters[2].to_owned(),
        ],
        side_to_move: start.side_to_move,
        hunter_turns_used: 0,
    };
    assert(start_state@ =~= start_view(*start));
    BoardResponse {
        name: graph.name.to_owned(),
        turn_limit: graph.turn_limit,
        nodes,
        edges,
        start: start_state,
    }
}

/// The view of an optional move of the web interface.
pub open spec fn api_move_option(m: Option<ApiMove>) -> Option<MoveView> {
    match m {
        Some(x) => Some(x@),
        None => None,
    }
}

/// The name of an outcome.
pub open spec fn outcome_name(o: Outcome) -> Seq<char> {
    match o {
        Outcome::HuntersWin => "HuntersWin"@,
        Outcome::BearWin => "BearWin"@,
    }
}

/// The sentence that explains an evaluation.
pub open spec fn explanation_text(o: Outcome) -> Seq<char> {
    "State is "@ + outcome_name(o) + " under perfect play."@
}

/// The move the web interface recommends at `q`, given its evaluation `e`:
/// the first move that keeps the side to move winning; failing that, the
/// hunters' first legal move, or the bear's last move that plays longest.
pub open spec fn recommended_view(g: &Graph, q: Position, e: EvalView) -> Option<MoveView> {
    match q.side {
        SideToMove::Hunters => if e.winning_hunter_moves.len() > 0 {
            Some(e.winning_hunter_moves[0])
        } else {
            named_option(g, first_of(side_steps(g.adj(), q)))
        },
        SideToMove::Bear => if e.refuting_bear_moves.len() > 0 {
            Some(e.refuting_bear_moves[0])
        } else {
            named_option(g, longest_step(g.adj(), g.turn_limit, q))
        },
    }
}

/// The sentence that explains an evaluation.
fn explanation_for(o: Outcome) -> (s: String)
    ensures
        s@ == explanation_text(o),
{
    let mut s = String::new();
    s.append("State is ");
    match o {
        Outcome::HuntersWin => s.append("HuntersWin"),
        Outcome::BearWin => s.append("BearWin"),
    }
    s.append(" under perfect play.");
    s
}

/// Moves as the web interface shows them.
fn to_api_moves(v: &Vec<Move>) -> (r: Vec<ApiMove>)
    ensures
        api_moves(r@) == move_views(v@),
{
    let mut r: Vec<ApiMove> = Vec::new();
    let mut i: usize = 0;
    while i < v.len()
        invariant
            i <= v@.len(),
            r@.len() == i,
            forall|j: int| 0 <= j < i ==> (#[trigger] r@[j])@ == v@[j]@,
        decreases v@.len() - i,
    {
        r.push(to_api_move(v[i]));
        i = i + 1;
    }
    assert(api_moves(r@) =~= move_views(v@));
    r
}

/// Evaluates a state sent by the web interface: its value under perfect
/// play, the move to play, and the moves that keep the side to move winning.
pub fn evaluate_request(graph: &Graph, solver: &mut Solver, req: ApiGameState) -> (r: Result<
    EvaluateResponse,
    ApiError,
>)
    requires
        old(solver).inv(),
        old(solver).graph() == *graph,
        graph.wf(),
        graph.turn_limit < 0x8000_0000,
    ensures
        final(solver).inv(),
        final(solver).graph() == *graph,
        ({
            let q = api_position(graph, req@);
            let e = position_evaluation(graph, q);
            match r {
                Ok(resp) => {
                    &&& state_problem(graph, req@) is None
                    &&& resp.outcome == e.outcome
                    &&& resp.distance == e.distance
                    &&& api_move_option(resp.best_move) == recommended_view(graph, q, e)
                    &&& api_moves(resp.winning_moves@) == e.winning_hunter_moves
                    &&& api_moves(resp.bear_refutations@) == e.refuting_bear_moves
                    &&& resp.explanation@ == explanation_text(e.outcome)
                },
                Err(err) => state_problem(graph, req@) == Some(err.error@),
            }
        }),
{
    let ghost s = req@;
    let gs = match to_internal_state(graph, req) {
        Ok(gs) => gs,
        Err(e) => return Err(ApiError { error: e }),
    };
    proof {
        lemma_accepted_position(graph, s, gs);
    }
    let eval = solver.evaluate_state(gs);
    let best = recommended_move(graph, solver, &gs, &eval);
    proof {
        if eval.winning_hunter_moves@.len() > 0 {
            assert(move_views(eval.winning_hunter_moves@)[0] == eval.winning_hunter_moves@[0]@);
        }
        if eval.refuting_bear_moves@.len() > 0 {
            assert(move_views(eval.refuting_bear_moves@)[0] == eval.refuting_bear_moves@[0]@);
        }
    }
    let best_move = match best {
        Some(m) => Some(to_api_move(m)),
        None => None,
    };
    let winning_moves = to_api_moves(&eval.winning_hunter_moves);
    let bear_refutations = to_api_moves(&eval.refuting_bear_moves);
    let explanation = explanation_for(eval.outcome);
    Ok(EvaluateResponse {
        outcome: eval.outcome,
        distance: eval.distance,
        best_move,
        winning_moves,
        bear_refutations,
        explanation,
    })
}

} // verus!
