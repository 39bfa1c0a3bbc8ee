use bear_game_solver::api::{
    apply_move_request, board_response, evaluate_request, legal_moves_request, map_node,
    same_move, to_api_move, to_api_state, ApiGameState, ApiMove, ApplyMoveRequest,
};
use bear_game_solver::cli::parse_limit;
use bear_game_solver::debug::render_debug_board;
use bear_game_solver::explore::{count_outcomes, hunter_policy, reachable_states};
use bear_game_solver::game::{
    BoardDefinition, BoardEdge, BoardNode, GameState, Move, Outcome, SideToMove, StartState,
};
use bear_game_solver::graph::Graph;
use bear_game_solver::play::{
    choose_pv_move, moves_leading_to, principal_variation, recommended_move,
};
use bear_game_solver::render::{fits_svg, svg_document};
use bear_game_solver::solver::{apply_move, legal_bear_moves, legal_hunter_moves, Solver};
use bear_game_solver::text::{parse_usize, text_eq, text_less};

const PATH_NODES: &[BoardNode] = &[
    BoardNode { id: "a", x: 0, y: 0 },
    BoardNode { id: "b", x: 1, y: 0 },
    BoardNode { id: "c", x: 2, y: 0 },
    BoardNode { id: "d", x: 3, y: 0 },
    BoardNode { id: "e", x: 4, y: 0 },
];

const PATH_EDGES: &[BoardEdge] = &[
    BoardEdge("a", "b"),
    BoardEdge("b", "c"),
    BoardEdge("c", "d"),
    BoardEdge("d", "e"),
];

/// Five nodes in a row, a - b - c - d - e; the bear at the right end, the
/// hunters on the three left nodes, listed out of order.
fn path_board(turn_limit: u32) -> BoardDefinition {
    BoardDefinition {
        name: "Path",
        nodes: PATH_NODES,
        edges: PATH_EDGES,
        start: StartState {
            bear: "e",
            hunters: ["c", "a", "b"],
            side_to_move: SideToMove::Hunters,
        },
        turn_limit,
    }
}

fn path_graph(turn_limit: u32) -> Graph {
    Graph::from_board_definition(&path_board(turn_limit)).unwrap()
}

fn state(bear: &'static str, hunters: [&'static str; 3], side: SideToMove, turns: u32) -> GameState {
    GameState { bear, hunters, side_to_move: side, hunter_turns_used: turns }
}

fn api_state(bear: &str, hunters: [&str; 3], side: SideToMove, turns: u32) -> ApiGameState {
    ApiGameState {
        bear: bear.to_string(),
        hunters: [hunters[0].to_string(), hunters[1].to_string(), hunters[2].to_string()],
        side_to_move: side,
        hunter_turns_used: turns,
    }
}

fn board_with(nodes: &'static [BoardNode], edges: &'static [BoardEdge], start: StartState) -> BoardDefinition {
    BoardDefinition { name: "Test", nodes, edges, start, turn_limit: 10 }
}

fn path_start() -> StartState {
    StartState { bear: "e", hunters: ["a", "b", "c"], side_to_move: SideToMove::Hunters }
}

fn error_text(board: &BoardDefinition) -> String {
    match Graph::from_board_definition(board) {
        Ok(_) => panic!("the board should be refused"),
        Err(e) => e.message(),
    }
}

const HUNTER_C_TO_D: Move = Move::Hunter { hunter_index: 2, from: "c", to: "d" };

#[test]
fn graph_orders_nodes_and_neighbours() {
    let g = path_graph(2);
    let ids: Vec<&str> = g.nodes.iter().map(|n| n.id).collect();
    assert_eq!(ids, vec!["a", "b", "c", "d", "e"]);
    assert_eq!(g.neighbors("c"), &["b", "d"]);
    assert_eq!(g.neighbors("e"), &["d"]);
    assert_eq!(g.edge_list(), vec![("a", "b"), ("b", "c"), ("c", "d"), ("d", "e")]);
    assert!(g.warnings.is_empty());
    assert_eq!(g.name, "Path");
    assert_eq!(g.turn_limit, 2);
}

#[test]
fn duplicate_coordinates_only_warn() {
    const NODES: &[BoardNode] = &[
        BoardNode { id: "a", x: 0, y: 0 },
        BoardNode { id: "b", x: 1, y: -3 },
        BoardNode { id: "c", x: 1, y: -3 },
        BoardNode { id: "d", x: 2, y: 0 },
        BoardNode { id: "e", x: 0, y: 0 },
    ];
    let g = Graph::from_board_definition(&board_with(NODES, PATH_EDGES, path_start())).unwrap();
    assert_eq!(
        g.warnings,
        vec![
            "warning: duplicate coordinate detected at (1, -3)".to_string(),
            "warning: duplicate coordinate detected at (0, 0)".to_string(),
        ]
    );
}

#[test]
fn duplicate_node_id_refused() {
    const NODES: &[BoardNode] = &[
        BoardNode { id: "a", x: 0, y: 0 },
        BoardNode { id: "b", x: 1, y: 0 },
        BoardNode { id: "a", x: 2, y: 0 },
        BoardNode { id: "d", x: 3, y: 0 },
        BoardNode { id: "e", x: 4, y: 0 },
    ];
    assert_eq!(error_text(&board_with(NODES, &[], path_start())), "duplicate node id: a");
}

#[test]
fn unknown_edge_node_refused() {
    const EDGES: &[BoardEdge] = &[BoardEdge("a", "b"), BoardEdge("c", "z")];
    assert_eq!(
        error_text(&board_with(PATH_NODES, EDGES, path_start())),
        "edge references unknown node id: z"
    );
}

#[test]
fn duplicate_edge_refused() {
    const EDGES: &[BoardEdge] = &[BoardEdge("a", "b"), BoardEdge("c", "d"), BoardEdge("b", "a")];
    assert_eq!(error_text(&board_with(PATH_NODES, EDGES, path_start())), "duplicate edge: a -- b");
}

#[test]
fn self_edge_refused() {
    const EDGES: &[BoardEdge] = &[BoardEdge("a", "b"), BoardEdge("z", "z")];
    assert_eq!(
        error_text(&board_with(PATH_NODES, EDGES, path_start())),
        "self edge is not allowed: z -- z"
    );
}

#[test]
fn invalid_starts_refused() {
    let missing_bear = StartState { bear: "z", hunters: ["a", "b", "c"], side_to_move: SideToMove::Hunters };
    assert_eq!(
        error_text(&board_with(PATH_NODES, PATH_EDGES, missing_bear)),
        "invalid start state: bear start node 'z' does not exist"
    );
    let missing_hunter = StartState { bear: "e", hunters: ["a", "y", "c"], side_to_move: SideToMove::Hunters };
    assert_eq!(
        error_text(&board_with(PATH_NODES, PATH_EDGES, missing_hunter)),
        "invalid start state: hunter start node 'y' does not exist"
    );
    let twice = StartState { bear: "e", hunters: ["a", "b", "a"], side_to_move: SideToMove::Hunters };
    assert_eq!(
        error_text(&board_with(PATH_NODES, PATH_EDGES, twice)),
        "invalid start state: duplicate hunter start node 'a'"
    );
    let shared = StartState { bear: "b", hunters: ["a", "b", "c"], side_to_move: SideToMove::Hunters };
    assert_eq!(
        error_text(&board_with(PATH_NODES, PATH_EDGES, shared)),
        "invalid start state: bear and hunter cannot share a start node"
    );
}

#[test]
fn start_state_sorts_hunters() {
    let st = GameState::from_start(&path_board(2).start);
    assert_eq!(st, state("e", ["a", "b", "c"], SideToMove::Hunters, 0));
    let mut moved = state("e", ["d", "a", "c"], SideToMove::Bear, 4);
    moved.canonicalize_hunters();
    assert_eq!(moved.hunters, ["a", "c", "d"]);
}

#[test]
fn move_text_reads_as_in_listings() {
    assert_eq!(HUNTER_C_TO_D.to_text(), "Hunter#2: c -> d");
    assert_eq!(Move::Bear { from: "e", to: "d" }.to_text(), "Bear: e -> d");
}

#[test]
fn only_free_neighbours_are_legal() {
    let g = path_graph(2);
    let st = state("e", ["a", "b", "c"], SideToMove::Hunters, 0);
    assert_eq!(legal_hunter_moves(&g, &st), vec![HUNTER_C_TO_D]);
    let bear_turn = state("e", ["a", "b", "c"], SideToMove::Bear, 0);
    assert_eq!(legal_bear_moves(&g, &bear_turn), vec![Move::Bear { from: "e", to: "d" }]);
    let blocked = state("e", ["a", "b", "d"], SideToMove::Bear, 1);
    assert!(legal_bear_moves(&g, &blocked).is_empty());
}

#[test]
fn every_legal_move_follows_an_edge() {
    let g = path_graph(2);
    let st = state("c", ["a", "b", "e"], SideToMove::Hunters, 0);
    for mv in legal_hunter_moves(&g, &st) {
        match mv {
            Move::Hunter { from, to, .. } => assert!(g.neighbors(from).contains(&to)),
            Move::Bear { .. } => panic!("a hunter move was expected"),
        }
    }
    let bear_turn = state("c", ["a", "b", "e"], SideToMove::Bear, 0);
    for mv in legal_bear_moves(&g, &bear_turn) {
        match mv {
            Move::Bear { from, to } => assert!(g.neighbors(from).contains(&to)),
            Move::Hunter { .. } => panic!("a bear move was expected"),
        }
    }
}

#[test]
fn hunter_move_sorts_and_counts() {
    let st = state("e", ["a", "b", "c"], SideToMove::Hunters, 0);
    let next = apply_move(&st, &Move::Hunter { hunter_index: 0, from: "a", to: "d" });
    assert_eq!(next, state("e", ["b", "c", "d"], SideToMove::Bear, 1));
    let back = apply_move(&next, &Move::Bear { from: "e", to: "a" });
    assert_eq!(back, state("a", ["b", "c", "d"], SideToMove::Hunters, 1));
}

#[test]
fn forced_capture_is_solved() {
    let g = path_graph(2);
    let start = GameState::from_start(&path_board(2).start);
    let mut solver = Solver::new(&g);
    let r = solver.solve(start);
    assert_eq!(r.outcome, Outcome::HuntersWin);
    assert_eq!(r.distance, 1);
    assert_eq!(r.best_move, Some(HUNTER_C_TO_D));
    assert_eq!(r.principal_variation, vec![HUNTER_C_TO_D]);
}

#[test]
fn turn_limit_beats_capture() {
    let g = path_graph(1);
    let start = GameState::from_start(&path_board(1).start);
    let mut solver = Solver::new(&g);
    let r = solver.solve(start);
    assert_eq!(r.outcome, Outcome::BearWin);
    assert_eq!(r.distance, 1);
    assert_eq!(r.best_move, Some(HUNTER_C_TO_D));
    let g0 = path_graph(0);
    let mut solver0 = Solver::new(&g0);
    let r0 = solver0.solve(start);
    assert_eq!(r0.outcome, Outcome::BearWin);
    assert_eq!(r0.distance, 0);
    assert_eq!(r0.best_move, None);
    assert!(r0.principal_variation.is_empty());
}

#[test]
fn stuck_bear_loses_at_once() {
    let g = path_graph(2);
    let mut solver = Solver::new(&g);
    let r = solver.solve(state("e", ["a", "b", "d"], SideToMove::Bear, 1));
    assert_eq!(r.outcome, Outcome::HuntersWin);
    assert_eq!(r.distance, 0);
    assert_eq!(r.best_move, None);
}

#[test]
fn stuck_hunters_lose_at_once() {
    let g = path_graph(2);
    let mut solver = Solver::new(&g);
    let st = state("d", ["a", "b", "c"], SideToMove::Hunters, 0);
    assert!(legal_hunter_moves(&g, &st).is_empty());
    let r = solver.solve(st);
    assert_eq!(r.outcome, Outcome::BearWin);
    assert_eq!(r.distance, 0);
    assert_eq!(r.best_move, None);
}

#[test]
fn bear_escapes_to_stalemate() {
    let g = path_graph(2);
    let mut solver = Solver::new(&g);
    let st = state("e", ["a", "b", "c"], SideToMove::Bear, 0);
    let r = solver.solve(st);
    assert_eq!(r.outcome, Outcome::BearWin);
    assert_eq!(r.distance, 1);
    assert_eq!(r.best_move, Some(Move::Bear { from: "e", to: "d" }));
    let ev = solver.evaluate_state(st);
    assert_eq!(ev.outcome, Outcome::BearWin);
    assert_eq!(ev.distance, 1);
    assert!(ev.winning_hunter_moves.is_empty());
    assert_eq!(ev.refuting_bear_moves, vec![Move::Bear { from: "e", to: "d" }]);
}

#[test]
fn evaluation_lists_best_move_first() {
    let g = path_graph(2);
    let start = GameState::from_start(&path_board(2).start);
    let mut solver = Solver::new(&g);
    let ev = solver.evaluate_state(start);
    assert_eq!(ev.outcome, Outcome::HuntersWin);
    assert_eq!(ev.distance, 1);
    assert_eq!(ev.winning_hunter_moves, vec![HUNTER_C_TO_D]);
    assert!(ev.refuting_bear_moves.is_empty());
    let r = solver.solve(start);
    assert_eq!(r.best_move, ev.winning_hunter_moves.first().copied());
}

#[test]
fn child_outcomes_cover_each_move() {
    let g = path_graph(2);
    let mut solver = Solver::new(&g);
    let start = GameState::from_start(&path_board(2).start);
    assert_eq!(solver.child_outcomes(&start), vec![(HUNTER_C_TO_D, Outcome::HuntersWin, 0)]);
    assert_eq!(moves_leading_to(&g, &mut solver, &start, Outcome::HuntersWin), vec![HUNTER_C_TO_D]);
    assert!(moves_leading_to(&g, &mut solver, &start, Outcome::BearWin).is_empty());
}

#[test]
fn principal_variation_plays_out() {
    let g = path_graph(2);
    let mut solver = Solver::new(&g);
    let start = GameState::from_start(&path_board(2).start);
    assert_eq!(principal_variation(&g, &mut solver, start, 24), vec!["Hunter#2: c -> d".to_string()]);
    assert!(principal_variation(&g, &mut solver, start, 0).is_empty());
    let ev = solver.evaluate_state(start);
    assert_eq!(choose_pv_move(&g, &mut solver, &start, &ev), Some(HUNTER_C_TO_D));
    assert_eq!(recommended_move(&g, &mut solver, &start, &ev), Some(HUNTER_C_TO_D));
}

#[test]
fn losing_hunters_still_get_a_move() {
    let g = path_graph(1);
    let mut solver = Solver::new(&g);
    let start = GameState::from_start(&path_board(1).start);
    let ev = solver.evaluate_state(start);
    assert_eq!(ev.outcome, Outcome::BearWin);
    assert!(ev.winning_hunter_moves.is_empty());
    assert_eq!(recommended_move(&g, &mut solver, &start, &ev), Some(HUNTER_C_TO_D));
    assert_eq!(choose_pv_move(&g, &mut solver, &start, &ev), Some(HUNTER_C_TO_D));
}

#[test]
fn reachable_states_from_start() {
    let g = path_graph(2);
    let start = GameState::from_start(&path_board(2).start);
    let all = reachable_states(&g, &start);
    assert_eq!(all, vec![start, state("e", ["a", "b", "d"], SideToMove::Bear, 1)]);
    let over = state("d", ["a", "b", "c"], SideToMove::Hunters, 0);
    assert_eq!(reachable_states(&g, &over), vec![over]);
}

#[test]
fn limit_flag_parsing() {
    let args = |v: &[&str]| v.iter().map(|s| s.to_string()).collect::<Vec<String>>();
    assert_eq!(parse_limit(&args(&["--limit", "5"])), Some(5));
    assert_eq!(parse_limit(&args(&["x", "--limit", "+7"])), Some(7));
    assert_eq!(parse_limit(&args(&["--limit", "abc"])), None);
    assert_eq!(parse_limit(&args(&["--limit", "x", "--limit", "3"])), Some(3));
    assert_eq!(parse_limit(&args(&["--limit"])), None);
    assert_eq!(parse_limit(&args(&[])), None);
    assert_eq!(parse_limit(&args(&["--limit", "99999999999999999999999"])), None);
    assert_eq!(parse_limit(&args(&["--limits", "4"])), None);
}

#[test]
fn numbers_parse_as_std_does() {
    assert_eq!(parse_usize("0"), Some(0));
    assert_eq!(parse_usize("042"), Some(42));
    assert_eq!(parse_usize("+9"), Some(9));
    assert_eq!(parse_usize(""), None);
    assert_eq!(parse_usize("+"), None);
    assert_eq!(parse_usize("-1"), None);
    assert_eq!(parse_usize("1 "), None);
    assert_eq!(parse_usize("18446744073709551615"), Some(usize::MAX));
    assert_eq!(parse_usize("18446744073709551616"), None);
}

#[test]
fn text_comparisons() {
    assert!(text_eq("center", "center"));
    assert!(!text_eq("center", "centre"));
    assert!(text_less("a", "b"));
    assert!(text_less("bottom", "bottom_left"));
    assert!(!text_less("bottom_left", "bottom"));
    assert!(!text_less("x", "x"));
    assert!(text_less("Z", "a"));
}

#[test]
fn debug_listing_of_path() {
    let g = path_graph(2);
    let st = state("e", ["a", "b", "c"], SideToMove::Hunters, 0);
    assert_eq!(
        render_debug_board(&g, Some(&st)),
        "Debug board listing (positive Y is down):\n\
         - a                  ( 0,  0) hunter -> [\"b\"]\n\
         - b                  ( 1,  0) hunter -> [\"a\", \"c\"]\n\
         - c                  ( 2,  0) hunter -> [\"b\", \"d\"]\n\
         - d                  ( 3,  0) empty  -> [\"c\", \"e\"]\n\
         - e                  ( 4,  0) bear   -> [\"d\"]\n"
    );
    let empty = render_debug_board(&g, None);
    assert!(empty.contains("- e                  ( 4,  0) empty  -> [\"d\"]\n"));
}

#[test]
fn debug_listing_orders_by_row_then_column() {
    const NODES: &[BoardNode] = &[
        BoardNode { id: "a", x: 5, y: 1 },
        BoardNode { id: "b", x: -10, y: 1 },
        BoardNode { id: "c", x: 0, y: -1 },
        BoardNode { id: "d", x: 3, y: 0 },
        BoardNode { id: "e", x: 4, y: 0 },
    ];
    let g = Graph::from_board_definition(&board_with(NODES, PATH_EDGES, path_start())).unwrap();
    let text = render_debug_board(&g, None);
    let firsts: Vec<&str> = text.lines().skip(1).map(|l| &l[2..3]).collect();
    assert_eq!(firsts, vec!["c", "d", "e", "b", "a"]);
    assert!(text.contains("- b                  (-10,  1) empty  -> [\"a\", \"c\"]\n"));
}

#[test]
fn svg_of_path() {
    let g = path_graph(2);
    assert!(fits_svg(&g));
    let st = state("e", ["a", "b", "c"], SideToMove::Hunters, 0);
    let expected = "<svg xmlns='http://www.w3.org/2000/svg' width='640' height='320'>\n\
<rect width='100%' height='100%' fill='white'/>\n\
<line x1='160' y1='160' x2='240' y2='160' stroke='#777' stroke-width='2'/>\n\
<line x1='240' y1='160' x2='320' y2='160' stroke='#777' stroke-width='2'/>\n\
<line x1='320' y1='160' x2='400' y2='160' stroke='#777' stroke-width='2'/>\n\
<line x1='400' y1='160' x2='480' y2='160' stroke='#777' stroke-width='2'/>\n\
<circle cx='160' cy='160' r='16' fill='#0275d8' stroke='black'/>\n\
<text x='160' y='138' text-anchor='middle' font-size='10'>a</text>\n\
<circle cx='240' cy='160' r='16' fill='#0275d8' stroke='black'/>\n\
<text x='240' y='138' text-anchor='middle' font-size='10'>b</text>\n\
<circle cx='320' cy='160' r='16' fill='#0275d8' stroke='black'/>\n\
<text x='320' y='138' text-anchor='middle' font-size='10'>c</text>\n\
<circle cx='400' cy='160' r='16' fill='#f5f5f5' stroke='black'/>\n\
<text x='400' y='138' text-anchor='middle' font-size='10'>d</text>\n\
<circle cx='480' cy='160' r='16' fill='#d9534f' stroke='black'/>\n\
<text x='480' y='138' text-anchor='middle' font-size='10'>e</text>\n\
</svg>\n";
    assert_eq!(svg_document(&g, Some(&st)), expected);
}

#[test]
fn svg_too_wide_is_detected() {
    const NODES: &[BoardNode] = &[
        BoardNode { id: "a", x: i32::MIN, y: 0 },
        BoardNode { id: "b", x: i32::MAX, y: 0 },
        BoardNode { id: "c", x: 0, y: 0 },
        BoardNode { id: "d", x: 1, y: 0 },
        BoardNode { id: "e", x: 2, y: 0 },
    ];
    let g = Graph::from_board_definition(&board_with(NODES, PATH_EDGES, path_start())).unwrap();
    assert!(!fits_svg(&g));
}

#[test]
fn node_names_are_looked_up() {
    let g = path_graph(2);
    assert_eq!(map_node(&g, "c"), Ok("c"));
    assert_eq!(map_node(&g, "q"), Err("unknown node id: q".to_string()));
}

#[test]
fn web_state_round_trip() {
    let st = state("e", ["a", "b", "c"], SideToMove::Bear, 7);
    let api = to_api_state(&st);
    assert_eq!(api.bear, "e");
    assert_eq!(api.hunters, ["a".to_string(), "b".to_string(), "c".to_string()]);
    assert_eq!(api.side_to_move, SideToMove::Bear);
    assert_eq!(api.hunter_turns_used, 7);
    match to_api_move(HUNTER_C_TO_D) {
        ApiMove::Hunter { hunter_index, from, to } => {
            assert_eq!((hunter_index, from.as_str(), to.as_str()), (2, "c", "d"));
        },
        ApiMove::Bear { .. } => panic!("a hunter move was expected"),
    }
    assert!(same_move(&HUNTER_C_TO_D, &HUNTER_C_TO_D));
    assert!(!same_move(&HUNTER_C_TO_D, &Move::Hunter { hunter_index: 1, from: "c", to: "d" }));
    assert!(!same_move(&HUNTER_C_TO_D, &Move::Bear { from: "c", to: "d" }));
}

#[test]
fn web_legal_moves() {
    let g = path_graph(2);
    let ok = legal_moves_request(&g, api_state("e", ["c", "b", "a"], SideToMove::Hunters, 0)).unwrap();
    assert_eq!(ok.legal_moves.len(), 1);
    assert!(matches!(
        &ok.legal_moves[0],
        ApiMove::Hunter { hunter_index: 2, from, to } if from == "c" && to == "d"
    ));
    let err = |s: ApiGameState| legal_moves_request(&g, s).err().unwrap().error;
    assert_eq!(err(api_state("q", ["a", "b", "c"], SideToMove::Hunters, 0)), "unknown node id: q");
    assert_eq!(err(api_state("e", ["a", "q", "c"], SideToMove::Hunters, 0)), "unknown node id: q");
    assert_eq!(
        err(api_state("e", ["a", "a", "c"], SideToMove::Hunters, 0)),
        "hunters must occupy 3 distinct nodes"
    );
    assert_eq!(
        err(api_state("a", ["a", "b", "c"], SideToMove::Hunters, 0)),
        "bear cannot occupy a hunter node"
    );
    assert_eq!(
        err(api_state("e", ["a", "b", "c"], SideToMove::Hunters, 3)),
        "hunterTurnsUsed must be <= 2"
    );
}

#[test]
fn web_apply_move() {
    let g = path_graph(2);
    let req = |side: SideToMove, mv: ApiMove| ApplyMoveRequest {
        state: api_state("e", ["a", "b", "c"], side, 0),
        move_payload: mv,
    };
    let hunter = |from: &str, to: &str| ApiMove::Hunter {
        hunter_index: 2,
        from: from.to_string(),
        to: to.to_string(),
    };
    let next = apply_move_request(&g, req(SideToMove::Hunters, hunter("c", "d"))).unwrap().state;
    assert_eq!(next.bear, "e");
    assert_eq!(next.hunters, ["a".to_string(), "b".to_string(), "d".to_string()]);
    assert_eq!(next.side_to_move, SideToMove::Bear);
    assert_eq!(next.hunter_turns_used, 1);
    let err = |r: ApplyMoveRequest| apply_move_request(&g, r).err().unwrap().error;
    assert_eq!(err(req(SideToMove::Bear, hunter("c", "d"))), "not hunters turn");
    assert_eq!(
        err(req(SideToMove::Hunters, ApiMove::Bear { from: "e".to_string(), to: "d".to_string() })),
        "not bear turn"
    );
    assert_eq!(err(req(SideToMove::Hunters, hunter("c", "zz"))), "unknown node id: zz");
    assert_eq!(err(req(SideToMove::Hunters, hunter("c", "b"))), "illegal move for current state");
    assert_eq!(err(req(SideToMove::Hunters, hunter("b", "d"))), "illegal move for current state");
}

#[test]
fn web_evaluate() {
    let g = path_graph(2);
    let mut solver = Solver::new(&g);
    let r = evaluate_request(&g, &mut solver, api_state("e", ["b", "c", "a"], SideToMove::Hunters, 0)).unwrap();
    assert_eq!(r.outcome, Outcome::HuntersWin);
    assert_eq!(r.distance, 1);
    assert!(matches!(&r.best_move, Some(ApiMove::Hunter { hunter_index: 2, from, to }) if from == "c" && to == "d"));
    assert_eq!(r.winning_moves.len(), 1);
    assert!(r.bear_refutations.is_empty());
    assert_eq!(r.explanation, "State is HuntersWin under perfect play.");
    let bear = evaluate_request(&g, &mut solver, api_state("e", ["a", "b", "c"], SideToMove::Bear, 0)).unwrap();
    assert_eq!(bear.outcome, Outcome::BearWin);
    assert_eq!(bear.explanation, "State is BearWin under perfect play.");
    assert!(matches!(&bear.best_move, Some(ApiMove::Bear { from, to }) if from == "e" && to == "d"));
    assert_eq!(bear.bear_refutations.len(), 1);
    let err = evaluate_request(&g, &mut solver, api_state("e", ["a", "b", "x"], SideToMove::Bear, 0));
    assert_eq!(err.err().unwrap().error, "unknown node id: x");
}

#[test]
fn losing_bear_plays_the_last_longest_move() {
    const NODES: &[BoardNode] = &[
        BoardNode { id: "a", x: 0, y: 0 },
        BoardNode { id: "b", x: 1, y: 0 },
        BoardNode { id: "c", x: 2, y: 0 },
        BoardNode { id: "d", x: 3, y: 0 },
        BoardNode { id: "e", x: 4, y: 0 },
        BoardNode { id: "f", x: 5, y: 0 },
        BoardNode { id: "g", x: 6, y: 0 },
    ];
    const EDGES: &[BoardEdge] = &[
        BoardEdge("a", "b"),
        BoardEdge("b", "c"),
        BoardEdge("c", "d"),
        BoardEdge("d", "e"),
        BoardEdge("e", "f"),
        BoardEdge("f", "g"),
    ];
    let board = BoardDefinition {
        name: "Longer path",
        nodes: NODES,
        edges: EDGES,
        start: StartState { bear: "d", hunters: ["a", "b", "f"], side_to_move: SideToMove::Bear },
        turn_limit: 10,
    };
    let g = Graph::from_board_definition(&board).unwrap();
    let mut solver = Solver::new(&g);
    let start = GameState::from_start(&board.start);
    let ev = solver.evaluate_state(start);
    assert_eq!(ev.outcome, Outcome::HuntersWin);
    assert_eq!(ev.distance, 4);
    assert!(ev.refuting_bear_moves.is_empty());
    let r = solver.solve(start);
    assert_eq!(r.best_move, Some(Move::Bear { from: "d", to: "c" }));
    assert_eq!(r.principal_variation.len(), 4);
    assert_eq!(
        recommended_move(&g, &mut solver, &start, &ev),
        Some(Move::Bear { from: "d", to: "e" })
    );
    assert_eq!(
        choose_pv_move(&g, &mut solver, &start, &ev),
        Some(Move::Bear { from: "d", to: "e" })
    );
    let mut api_solver = Solver::new(&g);
    let resp = evaluate_request(&g, &mut api_solver, api_state("d", ["f", "a", "b"], SideToMove::Bear, 0)).unwrap();
    assert!(matches!(&resp.best_move, Some(ApiMove::Bear { from, to }) if from == "d" && to == "e"));
    assert_eq!(resp.distance, 4);
}

#[test]
fn web_board_description() {
    let board = path_board(2);
    let g = path_graph(2);
    let r = board_response(&g, &board.start);
    assert_eq!(r.name, "Path");
    assert_eq!(r.turn_limit, 2);
    let nodes: Vec<(String, i32, i32)> = r.nodes.iter().map(|n| (n.id.clone(), n.x, n.y)).collect();
    assert_eq!(nodes[2], ("c".to_string(), 2, 0));
    assert_eq!(nodes.len(), 5);
    assert_eq!(r.edges.len(), 4);
    assert_eq!(r.edges[3], ["d".to_string(), "e".to_string()]);
    assert_eq!(r.start.hunters, ["c".to_string(), "a".to_string(), "b".to_string()]);
    assert_eq!(r.start.hunter_turns_used, 0);
    assert_eq!(r.start.side_to_move, SideToMove::Hunters);
}

#[test]
fn reachable_states_are_counted_and_policed() {
    let g = path_graph(2);
    let start = GameState::from_start(&path_board(2).start);
    let states = reachable_states(&g, &start);
    let mut solver = Solver::new(&g);
    let counts = count_outcomes(&g, &mut solver, &states);
    assert_eq!((counts.total, counts.hunters_win, counts.bear_win), (2, 2, 0));
    let policy = hunter_policy(&g, &mut solver, &states, None);
    assert_eq!(policy, vec![(start, vec![HUNTER_C_TO_D])]);
    assert!(hunter_policy(&g, &mut solver, &states, Some(0)).is_empty());
    assert_eq!(hunter_policy(&g, &mut solver, &states, Some(5)).len(), 1);
    let g1 = path_graph(1);
    let mut solver1 = Solver::new(&g1);
    let states1 = reachable_states(&g1, &start);
    let counts1 = count_outcomes(&g1, &mut solver1, &states1);
    assert_eq!((counts1.total, counts1.hunters_win, counts1.bear_win), (2, 0, 2));
    assert!(hunter_policy(&g1, &mut solver1, &states1, None).is_empty());
}

#[test]
fn moves_need_only_the_moving_pieces_on_the_board() {
    let g = path_graph(2);
    let lost_bear = state("nowhere", ["a", "b", "c"], SideToMove::Hunters, 0);
    assert_eq!(legal_hunter_moves(&g, &lost_bear), vec![HUNTER_C_TO_D]);
    let lost_hunters = state("c", ["x", "y", "z"], SideToMove::Bear, 0);
    assert_eq!(
        legal_bear_moves(&g, &lost_hunters),
        vec![Move::Bear { from: "c", to: "b" }, Move::Bear { from: "c", to: "d" }]
    );
}

#[test]
fn turn_limit_answers_without_the_board() {
    let g = path_graph(2);
    let mut solver = Solver::new(&g);
    let off = state("nowhere", ["p", "q", "r"], SideToMove::Hunters, 2);
    let r = solver.solve(off);
    assert_eq!(r.outcome, Outcome::BearWin);
    assert_eq!(r.distance, 0);
    assert_eq!(r.best_move, None);
    assert!(r.principal_variation.is_empty());
    let ev = solver.evaluate_state(off);
    assert_eq!(ev.outcome, Outcome::BearWin);
    assert_eq!(ev.distance, 0);
    assert!(ev.winning_hunter_moves.is_empty() && ev.refuting_bear_moves.is_empty());
}

#[test]
fn legal_moves_keep_states_valid() {
    let g = path_graph(10);
    let mut st = state("c", ["a", "b", "e"], SideToMove::Hunters, 0);
    for _ in 0..4 {
        let moves = match st.side_to_move {
            SideToMove::Hunters => legal_hunter_moves(&g, &st),
            SideToMove::Bear => legal_bear_moves(&g, &st),
        };
        let Some(mv) = moves.first().copied() else { break };
        let next = apply_move(&st, &mv);
        assert_ne!(next.side_to_move, st.side_to_move);
        let h = next.hunters;
        assert!(h[0] < h[1] && h[1] < h[2]);
        assert!(!h.contains(&next.bear));
        match mv {
            Move::Hunter { from, to, .. } => {
                assert!(g.neighbors(from).contains(&to));
                assert_eq!(next.hunter_turns_used, st.hunter_turns_used + 1);
                assert_eq!(next.bear, st.bear);
            },
            Move::Bear { from, to } => {
                assert!(g.neighbors(from).contains(&to));
                assert_eq!(next.hunter_turns_used, st.hunter_turns_used);
                assert_eq!(next.hunters, st.hunters);
            },
        }
        st = next;
    }
}
