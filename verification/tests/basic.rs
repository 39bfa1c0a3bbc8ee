use bear_game_solver::api::{
    moves_for_state, to_internal_move, to_internal_state, ApiGameState, ApiMove,
};
use bear_game_solver::game::{
    BoardDefinition, BoardEdge, BoardNode, GameState, SideToMove, StartState,
};
use bear_game_solver::graph::Graph;
use bear_game_solver::solver::{apply_move, legal_bear_moves, legal_hunter_moves, Solver};

/// A board laid out as a ring of eight nodes around a centre, every ring
/// node joined to its ring neighbours and to the centre.
fn bear_game_board() -> BoardDefinition {
    BoardDefinition {
        name: "Bear Game",
        nodes: &[
            BoardNode { id: "top", x: 0, y: -2 },
            BoardNode { id: "top_right", x: 1, y: -1 },
            BoardNode { id: "right", x: 2, y: 0 },
            BoardNode { id: "bottom_right", x: 1, y: 1 },
            BoardNode { id: "bottom", x: 0, y: 2 },
            BoardNode { id: "bottom_left", x: -1, y: 1 },
            BoardNode { id: "left", x: -2, y: 0 },
            BoardNode { id: "top_left", x: -1, y: -1 },
            BoardNode { id: "center", x: 0, y: 0 },
        ],
        edges: &[
            BoardEdge("top", "top_right"),
            BoardEdge("top_right", "right"),
            BoardEdge("right", "bottom_right"),
            BoardEdge("bottom_right", "bottom"),
            BoardEdge("bottom", "bottom_left"),
            BoardEdge("bottom_left", "left"),
            BoardEdge("left", "top_left"),
            BoardEdge("top_left", "top"),
            BoardEdge("center", "top"),
            BoardEdge("center", "top_right"),
            BoardEdge("center", "right"),
            BoardEdge("center", "bottom_right"),
            BoardEdge("center", "bottom"),
            BoardEdge("center", "bottom_left"),
            BoardEdge("center", "left"),
            BoardEdge("center", "top_left"),
        ],
        start: StartState {
            bear: "top",
            hunters: ["bottom_left", "bottom", "bottom_right"],
            side_to_move: SideToMove::Hunters,
        },
        turn_limit: 40,
    }
}

fn graph() -> Graph {
    Graph::from_board_definition(&bear_game_board()).unwrap()
}

#[test]
fn state_conversion() {
    let g = graph();
    let api = ApiGameState {
        bear: "top".into(),
        hunters: ["bottom_left".into(), "bottom".into(), "bottom_right".into()],
        side_to_move: SideToMove::Hunters,
        hunter_turns_used: 0,
    };
    let st = to_internal_state(&g, api).unwrap();
    assert_eq!(st.side_to_move, SideToMove::Hunters);
}

#[test]
fn invalid_state_rejected() {
    let g = graph();
    let api = ApiGameState {
        bear: "bad".into(),
        hunters: ["bottom_left".into(), "bottom".into(), "bottom_right".into()],
        side_to_move: SideToMove::Hunters,
        hunter_turns_used: 0,
    };
    assert!(to_internal_state(&g, api).is_err());
}

#[test]
fn illegal_move_rejected() {
    let g = graph();
    let st = to_internal_state(
        &g,
        ApiGameState {
            bear: "top".into(),
            hunters: ["bottom_left".into(), "bottom".into(), "bottom_right".into()],
            side_to_move: SideToMove::Hunters,
            hunter_turns_used: 0,
        },
    )
    .unwrap();
    let mv = to_internal_move(
        &g,
        &st,
        ApiMove::Hunter {
            hunter_index: 0,
            from: "top".into(),
            to: "center".into(),
        },
    )
    .unwrap();
    assert!(!moves_for_state(&g, &st).contains(&mv));
}

#[test]
fn hunter_move_increments_and_switches() {
    let g = graph();
    let st = to_internal_state(
        &g,
        ApiGameState {
            bear: "top".into(),
            hunters: ["bottom_left".into(), "bottom".into(), "bottom_right".into()],
            side_to_move: SideToMove::Hunters,
            hunter_turns_used: 0,
        },
    )
    .unwrap();
    let mv = legal_hunter_moves(&g, &st)[0].clone();
    let next = apply_move(&st, &mv);
    assert_eq!(next.hunter_turns_used, 1);
    assert_eq!(next.side_to_move, SideToMove::Bear);
}

#[test]
fn bear_move_no_increment_switches() {
    let g = graph();
    let st = GameState {
        bear: "top",
        hunters: ["bottom", "bottom_left", "bottom_right"],
        side_to_move: SideToMove::Bear,
        hunter_turns_used: 3,
    };
    let mv = legal_bear_moves(&g, &st)[0].clone();
    let next = apply_move(&st, &mv);
    assert_eq!(next.hunter_turns_used, 3);
    assert_eq!(next.side_to_move, SideToMove::Hunters);
}

#[test]
fn start_eval_consistent() {
    let g = graph();
    let board = bear_game_board();
    let start = GameState::from_start(&board.start);
    let mut s1 = Solver::new(&g);
    let mut s2 = Solver::new(&g);
    assert_eq!(
        s1.evaluate_state(start.clone()).outcome,
        s2.evaluate_state(start).outcome
    );
}

#[test]
fn board_builds() {
    let graph = Graph::from_board_definition(&bear_game_board()).expect("board should be valid");
    assert!(!graph.nodes.is_empty());
}

#[test]
fn hunter_moves_exist_from_start() {
    let graph = Graph::from_board_definition(&bear_game_board()).expect("board should be valid");
    let state = GameState::from_start(&bear_game_board().start);
    assert!(!legal_hunter_moves(&graph, &state).is_empty());
}

#[test]
fn solve_is_deterministic() {
    let graph = Graph::from_board_definition(&bear_game_board()).expect("board should be valid");
    let state = GameState::from_start(&bear_game_board().start);
    let mut solver_a = Solver::new(&graph);
    let mut solver_b = Solver::new(&graph);
    let a = solver_a.evaluate_state(state.clone());
    let b = solver_b.evaluate_state(state);
    assert_eq!(a.outcome, b.outcome);
}

#[test]
fn ring_line_matches_value() {
    let g = graph();
    let start = GameState::from_start(&bear_game_board().start);
    let mut solver = Solver::new(&g);
    let r = solver.solve(start);
    assert_eq!(r.principal_variation.len() as u32, r.distance);
    assert_eq!(r.best_move, r.principal_variation.first().copied());
    let ev = solver.evaluate_state(start);
    assert_eq!(ev.outcome, r.outcome);
    assert_eq!(ev.distance, r.distance);
    if r.outcome == bear_game_solver::game::Outcome::HuntersWin && r.distance > 0 {
        assert_eq!(r.best_move, ev.winning_hunter_moves.first().copied());
    }
}
