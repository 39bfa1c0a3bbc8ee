use vstd::prelude::*;

use crate::game::{BoardDefinition, BoardEdge, BoardNode, NodeId, StartState};
use crate::text::{int_text, lemma_text_lt_order, push_int, text_eq, text_less, text_lt};
use vstd::string::StringExecFns;

verus! {

broadcast use vstd::seq_lib::group_seq_properties;

/// Why a board definition is refused.
#[derive(Debug, Clone)]
pub enum BoardError {
    DuplicateNodeId(NodeId),
    UnknownNode(NodeId),
    DuplicateEdge(NodeId, NodeId),
    SelfEdge(NodeId),
    InvalidStart(String),
}

/// The mathematical model of a board error.
pub enum BoardErrorView {
    DuplicateNodeId(Seq<char>),
    UnknownNode(Seq<char>),
    DuplicateEdge(Seq<char>, Seq<char>),
    SelfEdge(Seq<char>),
    InvalidStart(Seq<char>),
}

impl View for BoardError {
    type V = BoardErrorView;

    open spec fn view(&self) -> BoardErrorView {
        match self {
            BoardError::DuplicateNodeId(id) => BoardErrorView::DuplicateNodeId(id@),
            BoardError::UnknownNode(id) => BoardErrorView::UnknownNode(id@),
            BoardError::DuplicateEdge(a, b) => BoardErrorView::DuplicateEdge(a@, b@),
            BoardError::SelfEdge(id) => BoardErrorView::SelfEdge(id@),
            BoardError::InvalidStart(msg) => BoardErrorView::InvalidStart(msg@),
        }
    }
}

/// How a board error reads.
pub open spec fn board_error_text(e: BoardErrorView) -> Seq<char> {
    match e {
        BoardErrorView::DuplicateNodeId(id) => "duplicate node id: "@ + id,
        BoardErrorView::UnknownNode(id) => "edge references unknown node id: "@ + id,
        BoardErrorView::DuplicateEdge(a, b) => "duplicate edge: "@ + a + " -- "@ + b,
        BoardErrorView::SelfEdge(id) => "self edge is not allowed: "@ + id + " -- "@ + id,
        BoardErrorView::InvalidStart(msg) => "invalid start state: "@ + msg,
    }
}

impl BoardError {
    /// The error as text.
    pub fn message(&self) -> (s: String)
        ensures
            s@ == board_error_text(self@),
    {
        let mut s = String::new();
        match self {
            BoardError::DuplicateNodeId(id) => {
                s.append("duplicate node id: ");
                s.append(id);
            },
            BoardError::UnknownNode(id) => {
                s.append("edge references unknown node id: ");
                s.append(id);
            },
            BoardError::DuplicateEdge(a, b) => {
                s.append("duplicate edge: ");
                s.append(a);
                s.append(" -- ");
                s.append(b);
            },
            BoardError::SelfEdge(id) => {
                s.append("self edge is not allowed: ");
                s.append(id);
                s.append(" -- ");
                s.append(id);
            },
            BoardError::InvalidStart(msg) => {
                s.append("invalid start state: ");
                s.append(msg.as_str());
            },
        }
        assert(s@ =~= board_error_text(self@));
        s
    }
}

/// The first position below `j` where `bad` holds.
pub open spec fn first_where(bad: spec_fn(int) -> bool, j: nat) -> Option<int>
    decreases j,
{
    if j == 0 {
        None
    } else {
        match first_where(bad, (j - 1) as nat) {
            Some(x) => Some(x),
            None => if bad(j - 1) {
                Some(j - 1)
            } else {
                None
            },
        }
    }
}

pub proof fn lemma_first_where(bad: spec_fn(int) -> bool, j: nat)
    ensures
        first_where(bad, j) is None <==> forall|i: int| 0 <= i < j ==> !#[trigger] bad(i),
        first_where(bad, j) matches Some(x) ==> 0 <= x < j && bad(x) && forall|i: int|
            0 <= i < x ==> !#[trigger] bad(i),
    decreases j,
{
    if j > 0 {
        lemma_first_where(bad, (j - 1) as nat);
    }
}

/// Some node of the list has this id.
pub open spec fn lists_id(nodes: Seq<BoardNode>, id: Seq<char>) -> bool {
    exists|i: int| 0 <= i < nodes.len() && #[trigger] nodes[i].id@ == id
}

/// Node `j` repeats the id of an earlier node.
pub open spec fn id_repeats(nodes: Seq<BoardNode>) -> spec_fn(int) -> bool {
    |j: int| exists|i: int| 0 <= i < j && #[trigger] nodes[i].id@ == nodes[j].id@
}

/// Node `j` repeats the coordinates of an earlier node.
pub open spec fn coord_repeats(nodes: Seq<BoardNode>, j: int) -> bool {
    exists|i: int| 0 <= i < j && #[trigger] nodes[i].x == nodes[j].x && nodes[i].y == nodes[j].y
}

/// The warning for a node whose coordinates repeat.
pub open spec fn coordinate_warning(nd: BoardNode) -> Seq<char> {
    "warning: duplicate coordinate detected at ("@ + int_text(nd.x as int) + ", "@ + int_text(
        nd.y as int,
    ) + ")"@
}

/// The warnings for the first `j` nodes, in node order.
pub open spec fn coordinate_warnings(nodes: Seq<BoardNode>, j: nat) -> Seq<Seq<char>>
    decreases j,
{
    if j == 0 {
        Seq::empty()
    } else {
        let prev = coordinate_warnings(nodes, (j - 1) as nat);
        if coord_repeats(nodes, j - 1) {
            prev.push(coordinate_warning(nodes[j - 1]))
        } else {
            prev
        }
    }
}

/// The edge joins the nodes named `a` and `b`, in either direction.
pub open spec fn edge_joins(e: BoardEdge, a: Seq<char>, b: Seq<char>) -> bool {
    (e.0@ == a && e.1@ == b) || (e.0@ == b && e.1@ == a)
}

/// Some edge joins `a` and `b`.
pub open spec fn joined(edges: Seq<BoardEdge>, a: Seq<char>, b: Seq<char>) -> bool {
    exists|k: int| 0 <= k < edges.len() && edge_joins(#[trigger] edges[k], a, b)
}

/// What is wrong with edge `k`, given the nodes and the edges before it.
pub open spec fn edge_problem(nodes: Seq<BoardNode>, edges: Seq<BoardEdge>, k: int) -> Option<
    BoardErrorView,
> {
    let a = edges[k].0@;
    let b = edges[k].1@;
    if a == b {
        Some(BoardErrorView::SelfEdge(a))
    } else if !lists_id(nodes, a) {
        Some(BoardErrorView::UnknownNode(a))
    } else if !lists_id(nodes, b) {
        Some(BoardErrorView::UnknownNode(b))
    } else if exists|j: int| 0 <= j < k && edge_joins(#[trigger] edges[j], a, b) {
        if text_lt(a, b) {
            Some(BoardErrorView::DuplicateEdge(a, b))
        } else {
            Some(BoardErrorView::DuplicateEdge(b, a))
        }
    } else {
        None
    }
}

pub open spec fn edge_is_bad(nodes: Seq<BoardNode>, edges: Seq<BoardEdge>) -> spec_fn(int) -> bool {
    |k: int| edge_problem(nodes, edges, k) is Some
}

/// What is wrong with hunter `i` of the start.
pub open spec fn hunter_problem(nodes: Seq<BoardNode>, start: StartState, i: int) -> Option<
    Seq<char>,
> {
    let h = start.hunters[i]@;
    if !lists_id(nodes, h) {
        Some("hunter start node '"@ + h + "' does not exist"@)
    } else if exists|j: int| 0 <= j < i && start.hunters[j]@ == h {
        Some("duplicate hunter start node '"@ + h + "'"@)
    } else if h == start.bear@ {
        Some("bear and hunter cannot share a start node"@)
    } else {
        None
    }
}

/// What is wrong with the start: the bear first, then each hunter in turn.
pub open spec fn start_problem(nodes: Seq<BoardNode>, start: StartState) -> Option<Seq<char>> {
    if !lists_id(nodes, start.bear@) {
        Some("bear start node '"@ + start.bear@ + "' does not exist"@)
    } else if hunter_problem(nodes, start, 0) is Some {
        hunter_problem(nodes, start, 0)
    } else if hunter_problem(nodes, start, 1) is Some {
        hunter_problem(nodes, start, 1)
    } else {
        hunter_problem(nodes, start, 2)
    }
}

/// The error a board definition is refused with, if any: the first node
/// whose id repeats, else the first bad edge, else a bad start.
pub open spec fn board_error(board: BoardDefinition) -> Option<BoardErrorView> {
    let nodes = board.nodes@;
    let edges = board.edges@;
    match first_where(id_repeats(nodes), nodes.len()) {
        Some(j) => Some(BoardErrorView::DuplicateNodeId(nodes[j].id@)),
        None => match first_where(edge_is_bad(nodes, edges), edges.len()) {
            Some(k) => edge_problem(nodes, edges, k),
            None => match start_problem(nodes, board.start) {
                Some(msg) => Some(BoardErrorView::InvalidStart(msg)),
                None => None,
            },
        },
    }
}

/// Finds the node with the given id in a list of nodes.
pub fn find_id(nodes: &[BoardNode], id: &str) -> (r: Option<usize>)
    ensures
        match r {
            Some(i) => i < nodes@.len() && nodes@[i as int].id@ == id@,
            None => !lists_id(nodes@, id@),
        },
{
    let mut i: usize = 0;
    while i < nodes.len()
        invariant
            i <= nodes@.len(),
            forall|j: int| 0 <= j < i ==> nodes@[j].id@ != id@,
        decreases nodes@.len() - i,
    {
        if text_eq(nodes[i].id, id) {
            return Some(i);
        }
        i = i + 1;
    }
    None
}

/// The warning for a node whose coordinates repeat.
fn coordinate_warning_text(nd: &BoardNode) -> (s: String)
    ensures
        s@ == coordinate_warning(*nd),
{
    let mut s = String::new();
    s.append("warning: duplicate coordinate detected at (");
    push_int(&mut s, nd.x as i64);
    s.append(", ");
    push_int(&mut s, nd.y as i64);
    s.append(")");
    assert(s@ =~= coordinate_warning(*nd));
    s
}

/// The texts of a list of strings.
pub open spec fn texts(v: Seq<String>) -> Seq<Seq<char>> {
    v.map_values(|w: String| w@)
}

/// Checks that no id repeats; collects the warnings for repeated
/// coordinates, and the nodes in increasing order of id.
fn check_nodes(nodes: &[BoardNode]) -> (r: Result<(Vec<BoardNode>, Vec<String>), BoardError>)
    ensures
        match r {
            Err(e) => first_where(id_repeats(nodes@), nodes@.len()) matches Some(j) && e@
                == BoardErrorView::DuplicateNodeId(nodes@[j].id@),
            Ok(res) => {
                &&& first_where(id_repeats(nodes@), nodes@.len()) is None
                &&& ids_increasing(res.0@)
                &&& res.0@.len() == nodes@.len()
                &&& forall|x: BoardNode| #[trigger] res.0@.contains(x) <==> nodes@.contains(x)
                &&& texts(res.1@) == coordinate_warnings(nodes@, nodes@.len())
            },
        },
{
    let ghost all = nodes@;
    let mut sorted: Vec<BoardNode> = Vec::new();
    let mut warnings: Vec<String> = Vec::new();
    let mut j: usize = 0;
    proof {
        lemma_first_where(id_repeats(all), 0);
    }
    while j < nodes.len()
        invariant
            all == nodes@,
            j <= all.len(),
            first_where(id_repeats(all), j as nat) is None,
            ids_increasing(sorted@),
            sorted@.len() == j,
            forall|x: BoardNode| #[trigger] sorted@.contains(x) <==> all.take(j as int).contains(x),
            texts(warnings@) == coordinate_warnings(all, j as nat),
        decreases all.len() - j,
    {
        let node = nodes[j];
        proof {
            lemma_first_where(id_repeats(all), j as nat);
            lemma_first_where(id_repeats(all), (j + 1) as nat);
            lemma_first_where(id_repeats(all), all.len());
        }
        let mut i: usize = 0;
        while i < j
            invariant
                all == nodes@,
                j < all.len(),
                i <= j,
                node == all[j as int],
                first_where(id_repeats(all), j as nat) is None,
                forall|k: int| 0 <= k < i ==> all[k].id@ != node.id@,
            decreases j - i,
        {
            if text_eq(nodes[i].id, node.id) {
                proof {
                    assert(id_repeats(all)(j as int));
                    lemma_first_where(id_repeats(all), j as nat);
                    lemma_first_where(id_repeats(all), all.len());
                }
                return Err(BoardError::DuplicateNodeId(node.id));
            }
            i = i + 1;
        }
        assert(!id_repeats(all)(j as int));
        let mut seen = false;
        let mut i: usize = 0;
        while i < j
            invariant
                all == nodes@,
                j < all.len(),
                i <= j,
                node == all[j as int],
                seen <==> exists|k: int| 0 <= k < i && #[trigger] all[k].x == node.x && all[k].y
                    == node.y,
            decreases j - i,
        {
            if nodes[i].x == node.x && nodes[i].y == node.y {
                seen = true;
            }
            i = i + 1;
        }
        assert(seen == coord_repeats(all, j as int));
        if seen {
            let w = coordinate_warning_text(&node);
            warnings.push(w);
        }
        assert(texts(warnings@) =~= coordinate_warnings(all, (j + 1) as nat));
        proof {
            assert forall|a: int| 0 <= a < sorted@.len() implies (#[trigger] sorted@[a]).id@
                != node.id@ by {
                assert(sorted@.contains(sorted@[a]));
                let k = choose|k: int| 0 <= k < j && all.take(j as int)[k] == sorted@[a];
                assert(all[k] == sorted@[a]);
            }
        }
        insert_sorted(&mut sorted, node);
        proof {
            assert(all.take(j + 1) =~= all.take(j as int).push(node));
            assert forall|x: BoardNode| #[trigger] sorted@.contains(x) <==> all.take(
                j + 1,
            ).contains(x) by {
                if x == node {
                    assert(all.take(j + 1)[j as int] == x);
                }
                let t1 = all.take(j + 1);
                if t1.contains(x) && x != node {
                    let k = choose|k: int| 0 <= k < t1.len() && #[trigger] t1[k] == x;
                    assert(all.take(j as int)[k] == x);
                }
            }
        }
        j = j + 1;
    }
    assert(all.take(all.len() as int) =~= all);
    Ok((sorted, warnings))
}

/// Some edge before `k` joins `a` and `b`.
pub open spec fn joined_before(edges: Seq<BoardEdge>, k: int, a: Seq<char>, b: Seq<char>) -> bool {
    exists|e: int| 0 <= e < k && edge_joins(#[trigger] edges[e], a, b)
}

/// The node pairs `(x, y)`, `x < y`, joined by the first `k` edges.
pub open spec fn pairs_model(
    pairs: Seq<(usize, usize)>,
    sorted: Seq<BoardNode>,
    edges: Seq<BoardEdge>,
    k: int,
) -> bool {
    &&& forall|t: int| 0 <= t < pairs.len() ==> (#[trigger] pairs[t]).0 < pairs[t].1 < sorted.len()
    &&& forall|x: usize, y: usize|
        x < y < sorted.len() ==> (#[trigger] pairs.contains((x, y)) <==> joined_before(
            edges,
            k,
            sorted[x as int].id@,
            sorted[y as int].id@,
        ))
}

/// Two lists holding the same nodes list the same ids.
proof fn lemma_same_ids(p: Seq<BoardNode>, q: Seq<BoardNode>, id: Seq<char>)
    requires
        forall|x: BoardNode| #[trigger] p.contains(x) <==> q.contains(x),
    ensures
        lists_id(p, id) <==> lists_id(q, id),
{
    if lists_id(p, id) {
        let i = choose|i: int| 0 <= i < p.len() && #[trigger] p[i].id@ == id;
        assert(p.contains(p[i]));
        let j = choose|j: int| 0 <= j < q.len() && q[j] == p[i];
        assert(q[j].id@ == id);
    }
    if lists_id(q, id) {
        let i = choose|i: int| 0 <= i < q.len() && #[trigger] q[i].id@ == id;
        assert(q.contains(q[i]));
        assert(p.contains(q[i]));
        let j = choose|j: int| 0 <= j < p.len() && p[j] == q[i];
        assert(p[j].id@ == id);
    }
}

fn has_pair(pairs: &Vec<(usize, usize)>, x: usize, y: usize) -> (r: bool)
    ensures
        r == pairs@.contains((x, y)),
{
    let mut t: usize = 0;
    while t < pairs.len()
        invariant
            t <= pairs@.len(),
            forall|u: int| 0 <= u < t ==> pairs@[u] != (x, y),
        decreases pairs@.len() - t,
    {
        if pairs[t].0 == x && pairs[t].1 == y {
            assert(pairs@[t as int] == (x, y));
            return true;
        }
        t = t + 1;
    }
    false
}

/// Checks the edges in order; gives the joined node pairs.
fn check_edges(board_nodes: &[BoardNode], sorted: &Vec<BoardNode>, edges: &[BoardEdge]) -> (r:
    Result<Vec<(usize, usize)>, BoardError>)
    requires
        ids_increasing(sorted@),
        forall|x: BoardNode| #[trigger] sorted@.contains(x) <==> board_nodes@.contains(x),
    ensures
        match r {
            Err(e) => first_where(edge_is_bad(board_nodes@, edges@), edges@.len()) matches Some(k)
                && edge_problem(board_nodes@, edges@, k) == Some(e@),
            Ok(pairs) => first_where(edge_is_bad(board_nodes@, edges@), edges@.len()) is None
                && pairs_model(pairs@, sorted@, edges@, edges@.len() as int),
        },
{
    let ghost bn = board_nodes@;
    let ghost es = edges@;
    let ghost bad = edge_is_bad(bn, es);
    let mut pairs: Vec<(usize, usize)> = Vec::new();
    let mut k: usize = 0;
    proof {
        lemma_first_where(bad, 0);
    }
    while k < edges.len()
        invariant
            bn == board_nodes@,
            es == edges@,
            bad == edge_is_bad(bn, es),
            ids_increasing(sorted@),
            forall|x: BoardNode| #[trigger] sorted@.contains(x) <==> bn.contains(x),
            k <= es.len(),
            first_where(bad, k as nat) is None,
            pairs_model(pairs@, sorted@, es, k as int),
        decreases es.len() - k,
    {
        let e = edges[k];
        let a = e.0;
        let b = e.1;
        proof {
            lemma_first_where(bad, k as nat);
            lemma_first_where(bad, (k + 1) as nat);
            lemma_first_where(bad, es.len());
            lemma_same_ids(sorted@, bn, a@);
            lemma_same_ids(sorted@, bn, b@);
        }
        if text_eq(a, b) {
            assert(bad(k as int));
            return Err(BoardError::SelfEdge(a));
        }
        let ia = match find_id(sorted.as_slice(), a) {
            Some(i) => i,
            None => {
                assert(bad(k as int));
                return Err(BoardError::UnknownNode(a));
            },
        };
        let ib = match find_id(sorted.as_slice(), b) {
            Some(i) => i,
            None => {
                assert(bad(k as int));
                return Err(BoardError::UnknownNode(b));
            },
        };
        proof {
            if ia < ib {
                lemma_text_lt_order(sorted@[ia as int].id@, sorted@[ib as int].id@, a@);
            } else if ib < ia {
                lemma_text_lt_order(sorted@[ib as int].id@, sorted@[ia as int].id@, a@);
            }
        }
        let lo = if ia < ib {
            ia
        } else {
            ib
        };
        let hi = if ia < ib {
            ib
        } else {
            ia
        };
        assert(joined_before(es, k as int, a@, b@) == pairs@.contains((lo, hi)));
        if has_pair(&pairs, lo, hi) {
            assert(bad(k as int));
            if text_less(a, b) {
                return Err(BoardError::DuplicateEdge(a, b));
            } else {
                return Err(BoardError::DuplicateEdge(b, a));
            }
        }
        assert(!bad(k as int));
        let ghost before = pairs@;
        pairs.push((lo, hi));
        proof {
            assert forall|x: usize, y: usize| x < y < sorted@.len() implies (#[trigger] pairs@.contains(
                (x, y),
            ) <==> joined_before(es, k + 1, sorted@[x as int].id@, sorted@[y as int].id@)) by {
                let sx = sorted@[x as int].id@;
                let sy = sorted@[y as int].id@;
                lemma_text_lt_order(sx, sy, a@);
                if pairs@.contains((x, y)) {
                    let t = choose|t: int| 0 <= t < pairs@.len() && pairs@[t] == (x, y);
                    if t < before.len() {
                        assert(before.contains((x, y)));
                        let w = choose|w: int| 0 <= w < k && edge_joins(#[trigger] es[w], sx, sy);
                        assert(0 <= w < k + 1 && edge_joins(es[w], sx, sy));
                    } else {
                        assert(edge_joins(es[k as int], sx, sy));
                    }
                }
                if joined_before(es, k + 1, sx, sy) {
                    let w = choose|w: int| 0 <= w < k + 1 && edge_joins(#[trigger] es[w], sx, sy);
                    if w < k {
                        assert(joined_before(es, k as int, sx, sy));
                        assert(before.contains((x, y)));
                        let t = choose|t: int| 0 <= t < before.len() && before[t] == (x, y);
                        assert(pairs@[t] == (x, y));
                    } else {
                        if x != lo || y != hi {
                            if sx == a@ {
                                lemma_text_lt_order(sorted@[ia as int].id@, sorted@[x as int].id@, a@);
                                assert(sy == b@);
                            } else {
                                assert(sx == b@ && sy == a@);
                            }
                            if ia < x {
                                lemma_text_lt_order(sorted@[ia as int].id@, sx, a@);
                            } else if x < ia {
                                lemma_text_lt_order(sx, sorted@[ia as int].id@, a@);
                            }
                            if ib < x {
                                lemma_text_lt_order(sorted@[ib as int].id@, sx, a@);
                            } else if x < ib {
                                lemma_text_lt_order(sx, sorted@[ib as int].id@, a@);
                            }
                            if ia < y {
                                lemma_text_lt_order(sorted@[ia as int].id@, sy, a@);
                            } else if y < ia {
                                lemma_text_lt_order(sy, sorted@[ia as int].id@, a@);
                            }
                            if ib < y {
                                lemma_text_lt_order(sorted@[ib as int].id@, sy, a@);
                            } else if y < ib {
                                lemma_text_lt_order(sy, sorted@[ib as int].id@, a@);
                            }
                        }
                        assert(pairs@[before.len() as int] == (x, y));
                    }
                }
            }
        }
        k = k + 1;
    }
    Ok(pairs)
}

/// `prefix`, the name and `suffix`, as one text.
fn quoted(prefix: &str, name: &str, suffix: &str) -> (s: String)
    ensures
        s@ == prefix@ + name@ + suffix@,
{
    let mut s = String::new();
    s.append(prefix);
    s.append(name);
    s.append(suffix);
    assert(s@ =~= prefix@ + name@ + suffix@);
    s
}

/// Checks the start: the bear's node exists, and each hunter's node exists,
/// is not taken by an earlier hunter and is not the bear's.
pub fn validate_start(board: &BoardDefinition, nodes: &[BoardNode]) -> (r: Result<(), BoardError>)
    ensures
        match r {
            Ok(()) => start_problem(nodes@, board.start) is None,
            Err(e) => start_problem(nodes@, board.start) matches Some(msg) && e@
                == BoardErrorView::InvalidStart(msg),
        },
{
    let start = &board.start;
    if find_id(nodes, start.bear).is_none() {
        return Err(
            BoardError::InvalidStart(quoted("bear start node '", start.bear, "' does not exist")),
        );
    }
    let mut i: usize = 0;
    while i < 3
        invariant
            i <= 3,
            start == &board.start,
            lists_id(nodes@, start.bear@),
            forall|j: int| 0 <= j < i ==> hunter_problem(nodes@, *start, j) is None,
        decreases 3 - i,
    {
        let hunter = start.hunters[i];
        if find_id(nodes, hunter).is_none() {
            return Err(
                BoardError::InvalidStart(
                    quoted("hunter start node '", hunter, "' does not exist"),
                ),
            );
        }
        let mut j: usize = 0;
        while j < i
            invariant
                i < 3,
                j <= i,
                start == &board.start,
                hunter == start.hunters[i as int],
                lists_id(nodes@, start.bear@),
                lists_id(nodes@, hunter@),
                forall|m: int| 0 <= m < i ==> hunter_problem(nodes@, *start, m) is None,
                forall|m: int| 0 <= m < j ==> start.hunters[m]@ != hunter@,
            decreases i - j,
        {
            if text_eq(start.hunters[j], hunter) {
                return Err(
                    BoardError::InvalidStart(quoted("duplicate hunter start node '", hunter, "'")),
                );
            }
            j = j + 1;
        }
        if text_eq(hunter, start.bear) {
            let mut msg = String::new();
            msg.append("bear and hunter cannot share a start node");
            return Err(BoardError::InvalidStart(msg));
        }
        i = i + 1;
    }
    Ok(())
}

/// The neighbour lists: node `j` is a neighbour of node `i` when the pair
/// is joined.
fn build_links(sorted: &Vec<BoardNode>, pairs: &Vec<(usize, usize)>) -> (r: (
    Vec<Vec<usize>>,
    Vec<Vec<NodeId>>,
))
    ensures
        r.0@.len() == sorted@.len(),
        r.1@.len() == sorted@.len(),
        forall|i: int| 0 <= i < sorted@.len() ==> well_formed_links(#[trigger] r.0@[i]@, i, sorted@.len() as int),
        forall|i: int| 0 <= i < sorted@.len() ==> (#[trigger] r.1@[i])@.len() == r.0@[i]@.len(),
        forall|i: int, k: int|
            0 <= i < sorted@.len() && 0 <= k < r.0@[i]@.len() ==> #[trigger] r.1@[i]@[k]
                == sorted@[r.0@[i]@[k] as int].id,
        forall|i: usize, j: usize|
            i < sorted@.len() && j < sorted@.len() ==> (#[trigger] r.0@[i as int]@.contains(j) <==> (
            (i < j && pairs@.contains((i, j))) || (j < i && pairs@.contains((j, i))))),
{
    let n = sorted.len();
    let mut links: Vec<Vec<usize>> = Vec::new();
    let mut names: Vec<Vec<NodeId>> = Vec::new();
    let mut i: usize = 0;
    while i < n
        invariant
            n == sorted@.len(),
            i <= n,
            links@.len() == i,
            names@.len() == i,
            forall|a: int| 0 <= a < i ==> well_formed_links(#[trigger] links@[a]@, a, n as int),
            forall|a: int| 0 <= a < i ==> (#[trigger] names@[a])@.len() == links@[a]@.len(),
            forall|a: int, k: int|
                0 <= a < i && 0 <= k < links@[a]@.len() ==> #[trigger] names@[a]@[k]
                    == sorted@[links@[a]@[k] as int].id,
            forall|a: usize, j: usize|
                a < i && j < n ==> (#[trigger] links@[a as int]@.contains(j) <==> ((a < j
                    && pairs@.contains((a, j))) || (j < a && pairs@.contains((j, a))))),
        decreases n - i,
    {
        let mut row: Vec<usize> = Vec::new();
        let mut row_names: Vec<NodeId> = Vec::new();
        let mut j: usize = 0;
        while j < n
            invariant
                n == sorted@.len(),
                i < n,
                j <= n,
                row_names@.len() == row@.len(),
                forall|k: int| 0 <= k < row@.len() ==> #[trigger] row_names@[k] == sorted@[row@[k] as int].id,
                forall|a: int, b: int| 0 <= a < b < row@.len() ==> row@[a] < row@[b],
                forall|a: int| 0 <= a < row@.len() ==> row@[a] < j && row@[a] != i,
                forall|v: usize| #[trigger] row@.contains(v) <==> (v < j && ((i < v && pairs@.contains((i, v))) || (v < i
                    && pairs@.contains((v, i))))),
            decreases n - j,
        {
            let joined = if i < j {
                has_pair(pairs, i, j)
            } else if j < i {
                has_pair(pairs, j, i)
            } else {
                false
            };
            if joined {
                row.push(j);
                row_names.push(sorted[j].id);
            }
            proof {
                assert forall|v: usize| #[trigger] row@.contains(v) <==> (v < j + 1 && ((i < v
                    && pairs@.contains((i, v))) || (v < i && pairs@.contains((v, i))))) by {
                    if joined && v == j {
                        assert(row@[row@.len() - 1] == v);
                    }
                    if row@.contains(v) && !(joined && v == j) {
                        let k = choose|k: int| 0 <= k < row@.len() && row@[k] == v;
                        if joined {
                            assert(k < row@.len() - 1);
                            assert(row@.drop_last().contains(v));
                        }
                    }
                    if v < j && ((i < v && pairs@.contains((i, v))) || (v < i && pairs@.contains(
                        (v, i),
                    ))) && joined {
                        assert(row@.drop_last().contains(v));
                        let k = choose|k: int| 0 <= k < row@.len() - 1 && row@.drop_last()[k] == v;
                        assert(row@[k] == v);
                    }
                }
            }
            j = j + 1;
        }
        links.push(row);
        names.push(row_names);
        i = i + 1;
    }
    (links, names)
}

/// What the graph holds of the board it was built from.
pub open spec fn built_from(g: Graph, board: BoardDefinition) -> bool {
    let n = g.nodes@.len();
    &&& g.wf()
    &&& g.name == board.name
    &&& g.turn_limit == board.turn_limit
    &&& n == board.nodes@.len()
    &&& forall|x: BoardNode| #[trigger] g.nodes@.contains(x) <==> board.nodes@.contains(x)
    &&& forall|i: usize, j: usize|
        i < n && j < n ==> (#[trigger] g.adj()[i as int].contains(j) <==> joined(
            board.edges@,
            g.nodes@[i as int].id@,
            g.nodes@[j as int].id@,
        ))
    &&& texts(g.warnings@) == coordinate_warnings(board.nodes@, board.nodes@.len())
}

/// Ids in strictly increasing order.
pub open spec fn ids_increasing(v: Seq<BoardNode>) -> bool {
    forall|a: int, b: int| 0 <= a < b < v.len() ==> text_lt(#[trigger] v[a].id@, #[trigger] v[b].id@)
}

/// Inserts a node with a new id into a list sorted by id.
fn insert_sorted(v: &mut Vec<BoardNode>, node: BoardNode)
    requires
        ids_increasing(old(v)@),
        forall|a: int| 0 <= a < old(v)@.len() ==> (#[trigger] old(v)@[a]).id@ != node.id@,
    ensures
        ids_increasing(final(v)@),
        final(v)@.len() == old(v)@.len() + 1,
        forall|x: BoardNode| #[trigger] final(v)@.contains(x) <==> (old(v)@.contains(x) || x == node),
{
    let mut q: usize = 0;
    while q < v.len() && !text_less(node.id, v[q].id)
        invariant
            q <= v@.len(),
            v@ == old(v)@,
            forall|a: int| 0 <= a < q ==> text_lt(#[trigger] v@[a].id@, node.id@),
            forall|a: int| 0 <= a < v@.len() ==> (#[trigger] v@[a]).id@ != node.id@,
        decreases v@.len() - q,
    {
        proof {
            lemma_text_lt_order(v@[q as int].id@, node.id@, node.id@);
        }
        q = q + 1;
    }
    let ghost before = v@;
    proof {
        before.insert_ensures(q as int, node);
        assert forall|a: int| q <= a < before.len() implies text_lt(
            node.id@,
            #[trigger] before[a].id@,
        ) by {
            if a > q {
                lemma_text_lt_order(node.id@, before[q as int].id@, before[a].id@);
            }
        }
    }
    v.insert(q, node);
    proof {
        let after = v@;
        assert forall|a: int, b: int| 0 <= a < b < after.len() implies text_lt(
            #[trigger] after[a].id@,
            #[trigger] after[b].id@,
        ) by {
            if b < q {
            } else if a < q && b == q {
            } else if a < q {
                assert(after[b] == before[b - 1]);
                lemma_text_lt_order(after[a].id@, node.id@, after[b].id@);
            } else if a == q {
                assert(after[b] == before[b - 1]);
            } else {
                assert(after[b] == before[b - 1]);
                assert(after[a] == before[a - 1]);
            }
        }
        assert forall|x: BoardNode| #[trigger] after.contains(x) <==> (before.contains(x) || x
            == node) by {
            if after.contains(x) {
                let a = choose|a: int| 0 <= a < after.len() && after[a] == x;
                if a < q {
                    assert(before[a] == x);
                } else if a > q {
                    assert(before[a - 1] == x);
                }
            }
            if before.contains(x) {
                let a = choose|a: int| 0 <= a < before.len() && before[a] == x;
                if a < q {
                    assert(after[a] == x);
                } else {
                    assert(after[a + 1] == x);
                }
            }
            if x == node {
                assert(after[q as int] == x);
            }
        }
    }
}

/// A validated board: its nodes sorted by id, and for each node its
/// neighbours, sorted by id.
#[derive(Debug, Clone)]
pub struct Graph {
    pub name: &'static str,
    /// The nodes, in increasing order of id; no id occurs twice.
    pub nodes: Vec<BoardNode>,
    /// `adjacency[i]` names the neighbours of `nodes[i]`, in increasing order.
    pub adjacency: Vec<Vec<NodeId>>,
    pub turn_limit: u32,
    pub warnings: Vec<String>,
    /// `neighbor_indices[i]` holds the positions in `nodes` of the
    /// neighbours of `nodes[i]`, in increasing order.
    pub neighbor_indices: Vec<Vec<usize>>,
}

/// Neighbour positions of one node: increasing, in range, never the node itself.
pub open spec fn well_formed_links(l: Seq<usize>, i: int, n: int) -> bool {
    &&& forall|a: int, b: int| 0 <= a < b < l.len() ==> l[a] < l[b]
    &&& forall|a: int| 0 <= a < l.len() ==> l[a] < n && l[a] != i
}

impl Graph {
    /// Builds the graph of a board, or says why the board is refused.
    pub fn from_board_definition(board: &BoardDefinition) -> (r: Result<Graph, BoardError>)
        ensures
            match r {
                Ok(g) => board_error(*board) is None && built_from(g, *board),
                Err(e) => board_error(*board) == Some(e@),
            },
    {
        let (sorted, warnings) = match check_nodes(board.nodes) {
            Ok(res) => res,
            Err(e) => return Err(e),
        };
        let pairs = match check_edges(board.nodes, &sorted, board.edges) {
            Ok(p) => p,
            Err(e) => return Err(e),
        };
        match validate_start(board, board.nodes) {
            Ok(()) => {},
            Err(e) => return Err(e),
        }
        let (links, names) = build_links(&sorted, &pairs);
        let g = Graph {
            name: board.name,
            nodes: sorted,
            adjacency: names,
            turn_limit: board.turn_limit,
            warnings,
            neighbor_indices: links,
        };
        let count = g.nodes.len();
        proof {
            let n = g.nodes@.len();
            assert(n == count);
            let es = board.edges@;
            lemma_first_where(edge_is_bad(board.nodes@, es), es.len());
            assert forall|i: usize, j: usize| i < n && j < n implies (#[trigger] g.adj()[i as int].contains(j) <==> joined(
                es,
                g.nodes@[i as int].id@,
                g.nodes@[j as int].id@,
            )) by {
                let si = g.nodes@[i as int].id@;
                let sj = g.nodes@[j as int].id@;
                assert(g.adj()[i as int] == g.neighbor_indices@[i as int]@);
                if i < j {
                    if joined(es, si, sj) {
                        let k = choose|k: int| 0 <= k < es.len() && edge_joins(#[trigger] es[k], si, sj);
                        assert(joined_before(es, es.len() as int, si, sj));
                    }
                } else if j < i {
                    if joined(es, si, sj) {
                        let k = choose|k: int| 0 <= k < es.len() && edge_joins(#[trigger] es[k], si, sj);
                        assert(edge_joins(es[k], sj, si));
                        assert(joined_before(es, es.len() as int, sj, si));
                    }
                    if joined_before(es, es.len() as int, sj, si) {
                        let k = choose|k: int| 0 <= k < es.len() && edge_joins(#[trigger] es[k], sj, si);
                        assert(edge_joins(es[k], si, sj));
                    }
                } else {
                    if joined(es, si, sj) {
                        let k = choose|k: int| 0 <= k < es.len() && edge_joins(#[trigger] es[k], si, sj);
                        assert(!edge_is_bad(board.nodes@, es)(k));
                    }
                }
            }
            assert forall|i: int, j: int| 0 <= i < n && 0 <= j < n implies (#[trigger] g.neighbor_indices@[i]@.contains(j as usize)
                <==> #[trigger] g.neighbor_indices@[j]@.contains(i as usize)) by {
                assert((i as usize) as int == i);
                assert((j as usize) as int == j);
            }
        }
        Ok(g)
    }

    /// The neighbours of a node, in increasing order of id.
    pub fn neighbors(&self, node: NodeId) -> (r: &[NodeId])
        requires
            self.wf(),
            self.has_id(node@),
        ensures
            r@ == self.adjacency@[self.index_of_id(node@) as int]@,
    {
        let i = self.find_node(node).unwrap();
        self.adjacency[i].as_slice()
    }

    /// The ids of the nodes, as texts.
    pub open spec fn ids(&self) -> Seq<Seq<char>> {
        self.nodes@.map_values(|nd: BoardNode| nd.id@)
    }

    /// The neighbour positions of each node.
    pub open spec fn adj(&self) -> Seq<Seq<usize>> {
        self.neighbor_indices@.map_values(|v: Vec<usize>| v@)
    }

    pub open spec fn node_count(&self) -> nat {
        self.nodes@.len()
    }

    /// Some node has this id.
    pub open spec fn has_id(&self, name: Seq<char>) -> bool {
        exists|i: int| 0 <= i < self.nodes@.len() && #[trigger] self.nodes@[i].id@ == name
    }

    /// The place of the node with this id.
    pub open spec fn index_of_id(&self, name: Seq<char>) -> usize {
        choose|i: usize| (i as int) < self.nodes@.len() && #[trigger] self.nodes@[i as int].id@ == name
    }

    /// No id occurs twice.
    pub proof fn lemma_ids_distinct(&self)
        requires
            self.wf(),
        ensures
            forall|i: int, j: int|
                0 <= i < self.nodes@.len() && 0 <= j < self.nodes@.len() && i != j
                    ==> #[trigger] self.nodes@[i].id@ != #[trigger] self.nodes@[j].id@,
    {
        assert forall|i: int, j: int|
            0 <= i < self.nodes@.len() && 0 <= j < self.nodes@.len() && i != j
                implies #[trigger] self.nodes@[i].id@ != #[trigger] self.nodes@[j].id@ by {
            lemma_text_lt_order(self.nodes@[i].id@, self.nodes@[j].id@, self.nodes@[j].id@);
        }
    }

    /// The one place that holds a node with this id.
    pub proof fn lemma_index_of_id(&self, i: usize)
        requires
            self.wf(),
            i < self.nodes@.len(),
        ensures
            self.index_of_id(self.nodes@[i as int].id@) == i,
            self.has_id(self.nodes@[i as int].id@),
    {
        self.lemma_ids_distinct();
        let name = self.nodes@[i as int].id@;
        assert(self.nodes@[i as int].id@ == name);
        let j = self.index_of_id(name);
        assert((j as int) < self.nodes@.len() && self.nodes@[j as int].id@ == name);
    }

    /// A held id is found at its place.
    pub proof fn lemma_has_id(&self, name: Seq<char>)
        requires
            self.has_id(name),
        ensures
            (self.index_of_id(name) as int) < self.nodes@.len(),
            self.nodes@[self.index_of_id(name) as int].id@ == name,
    {
        let w = choose|w: int| 0 <= w < self.nodes@.len() && #[trigger] self.nodes@[w].id@ == name;
        assert(self.nodes@.len() == self.nodes.len());
        let u = w as usize;
        assert(u as int == w);
        assert((u as int) < self.nodes@.len() && self.nodes@[u as int].id@ == name);
    }

    /// Finds the node with the given id.
    pub fn find_node(&self, id: &str) -> (r: Option<usize>)
        requires
            self.wf(),
        ensures
            match r {
                Some(i) => i < self.nodes@.len() && self.nodes@[i as int].id@ == id@ && i
                    == self.index_of_id(id@),
                None => !self.has_id(id@),
            },
    {
        let mut i: usize = 0;
        while i < self.nodes.len()
            invariant
                self.wf(),
                i <= self.nodes@.len(),
                forall|j: int| 0 <= j < i ==> self.nodes@[j].id@ != id@,
            decreases self.nodes.len() - i,
        {
            if text_eq(self.nodes[i].id, id) {
                proof {
                    self.lemma_index_of_id(i);
                }
                return Some(i);
            }
            i = i + 1;
        }
        None
    }

    /// The graph's invariant.
    pub open spec fn wf(&self) -> bool {
        let n = self.nodes@.len() as int;
        &&& self.adjacency@.len() == n
        &&& self.neighbor_indices@.len() == n
        &&& forall|i: int, j: int|
            0 <= i < j < n ==> text_lt(#[trigger] self.nodes@[i].id@, #[trigger] self.nodes@[j].id@)
        &&& forall|i: int| 0 <= i < n ==> well_formed_links(#[trigger] self.neighbor_indices@[i]@, i, n)
        &&& forall|i: int|
            0 <= i < n ==> (#[trigger] self.adjacency@[i])@.len() == self.neighbor_indices@[i]@.len()
        &&& forall|i: int, k: int|
            0 <= i < n && 0 <= k < self.neighbor_indices@[i]@.len() ==> #[trigger] self.adjacency@[i]@[k]
                == self.nodes@[self.neighbor_indices@[i]@[k] as int].id
        &&& forall|i: int, j: int|
            0 <= i < n && 0 <= j < n ==> (#[trigger] self.neighbor_indices@[i]@.contains(j as usize)
                <==> #[trigger] self.neighbor_indices@[j]@.contains(i as usize))
    }
}

} // verus!

verus! {

/// The neighbours of node `i` that come after it.
pub open spec fn later_than(i: int) -> spec_fn(usize) -> bool {
    |j: usize| j > i
}

/// The ids of node `i` and of node `j`.
pub open spec fn id_pair(g: Graph, i: int) -> spec_fn(usize) -> (Seq<char>, Seq<char>) {
    |j: usize| (g.nodes@[i].id@, g.nodes@[j as int].id@)
}

/// Each edge once, as the ids of its ends in increasing order; edges from
/// the first `i` nodes, in node order, then neighbour order.
pub open spec fn edge_list_upto(g: Graph, i: nat) -> Seq<(Seq<char>, Seq<char>)>
    decreases i,
{
    if i == 0 {
        Seq::empty()
    } else {
        edge_list_upto(g, (i - 1) as nat) + g.adj()[i - 1].filter(later_than(i - 1)).map_values(
            id_pair(g, i - 1),
        )
    }
}

/// The views of a list of id pairs.
pub open spec fn pair_views(v: Seq<(NodeId, NodeId)>) -> Seq<(Seq<char>, Seq<char>)> {
    v.map_values(|e: (NodeId, NodeId)| (e.0@, e.1@))
}

impl Graph {
    /// Every edge once, as the ids of its ends in increasing order.
    pub fn edge_list(&self) -> (r: Vec<(NodeId, NodeId)>)
        requires
            self.wf(),
        ensures
            pair_views(r@) == edge_list_upto(*self, self.nodes@.len()),
    {
        let n = self.nodes.len();
        let mut r: Vec<(NodeId, NodeId)> = Vec::new();
        let mut i: usize = 0;
        while i < n
            invariant
                self.wf(),
                n == self.nodes@.len(),
                i <= n,
                pair_views(r@) == edge_list_upto(*self, i as nat),
            decreases n - i,
        {
            let row = &self.neighbor_indices[i];
            let ghost s = row@;
            let ghost pred = later_than(i as int);
            let ghost f = id_pair(*self, i as int);
            let ghost base = pair_views(r@);
            assert(s == self.adj()[i as int]);
            assert(s.take(0) =~= Seq::<usize>::empty());
            assert(base =~= base + s.take(0).filter(pred).map_values(f));
            let mut k: usize = 0;
            while k < row.len()
                invariant
                    self.wf(),
                    n == self.nodes@.len(),
                    i < n,
                    s == row@,
                    s == self.adj()[i as int],
                    pred == later_than(i as int),
                    f == id_pair(*self, i as int),
                    k <= s.len(),
                    pair_views(r@) == base + s.take(k as int).filter(pred).map_values(f),
                decreases s.len() - k,
            {
                let j = row[k];
                proof {
                    assert(crate::graph::well_formed_links(self.neighbor_indices@[i as int]@, i as int, n as int));
                    assert(s.take(k + 1) =~= s.take(k as int).push(j));
                    s.take(k as int).lemma_filter_push(j, pred);
                    s.take(k as int).filter(pred).lemma_push_map_commute(f, j);
                }
                let ghost before = r@;
                if j > i {
                    r.push((self.nodes[i].id, self.nodes[j].id));
                    assert(pair_views(r@) =~= pair_views(before).push(f(j)));
                }
                k = k + 1;
            }
            assert(s.take(s.len() as int) =~= s);
            i = i + 1;
        }
        r
    }
}

} // verus!
