use vstd::prelude::*;
use vstd::string::StringExecFns;

use crate::debug::{state_option_view};
use crate::game::{BoardNode, GameState, StateView};
use crate::graph::Graph;
use crate::text::{int_text, nat_text, push_int, push_nat, text_eq};

verus! {

/// The least of a list of numbers; 0 for none.
pub open spec fn seq_min(s: Seq<int>) -> int
    decreases s.len(),
{
    if s.len() == 0 {
        0
    } else if s.len() == 1 {
        s[0]
    } else if s.last() < seq_min(s.drop_last()) {
        s.last()
    } else {
        seq_min(s.drop_last())
    }
}

/// The greatest of a list of numbers; 0 for none.
pub open spec fn seq_max(s: Seq<int>) -> int
    decreases s.len(),
{
    if s.len() == 0 {
        0
    } else if s.len() == 1 {
        s[0]
    } else if s.last() > seq_max(s.drop_last()) {
        s.last()
    } else {
        seq_max(s.drop_last())
    }
}

pub open spec fn xs(g: &Graph) -> Seq<int> {
    g.nodes@.map_values(|nd: BoardNode| nd.x as int)
}

pub open spec fn ys(g: &Graph) -> Seq<int> {
    g.nodes@.map_values(|nd: BoardNode| nd.y as int)
}

/// Pixels per layout unit, and the margin in pixels.
pub open spec fn scale() -> int {
    80
}

/// The picture's width in pixels.
pub open spec fn svg_width(g: &Graph) -> int {
    (seq_max(xs(g)) - seq_min(xs(g)) + 2) * scale() + scale() * 2
}

/// The picture's height in pixels.
pub open spec fn svg_height(g: &Graph) -> int {
    (seq_max(ys(g)) - seq_min(ys(g)) + 2) * scale() + scale() * 2
}

/// The picture fits the arithmetic of `i32`.
pub open spec fn svg_fits(g: &Graph) -> bool {
    svg_width(g) <= i32::MAX && svg_height(g) <= i32::MAX
}

/// The pixel column of node `i`.
pub open spec fn px(g: &Graph, i: int) -> int {
    (g.nodes@[i].x - seq_min(xs(g)) + 1) * scale() + scale()
}

/// The pixel row of node `i`.
pub open spec fn py(g: &Graph, i: int) -> int {
    (g.nodes@[i].y - seq_min(ys(g)) + 1) * scale() + scale()
}

/// The line drawn for the edge from node `a` to node `b`.
pub open spec fn edge_line(g: &Graph, a: int, b: int) -> Seq<char> {
    "<line x1='"@ + int_text(px(g, a)) + "' y1='"@ + int_text(py(g, a)) + "' x2='"@ + int_text(
        px(g, b),
    ) + "' y2='"@ + int_text(py(g, b)) + "' stroke='#777' stroke-width='2'/>\n"@
}

/// The lines for the edges from node `i` to its first `k` neighbours that
/// come after it.
pub open spec fn edge_lines_of(g: &Graph, i: int, k: nat) -> Seq<char>
    decreases k,
{
    if k == 0 {
        Seq::empty()
    } else {
        let j = g.adj()[i][k - 1];
        edge_lines_of(g, i, (k - 1) as nat) + if j > i {
            edge_line(g, i, j as int)
        } else {
            Seq::empty()
        }
    }
}

/// The lines for the edges of the first `i` nodes: each edge once.
pub open spec fn edge_lines(g: &Graph, i: nat) -> Seq<char>
    decreases i,
{
    if i == 0 {
        Seq::empty()
    } else {
        edge_lines(g, (i - 1) as nat) + edge_lines_of(g, i - 1, g.adj()[i - 1].len())
    }
}

/// The colour of a node: red for the bear, blue for a hunter, grey else.
pub open spec fn fill_of(state: Option<StateView>, id: Seq<char>) -> Seq<char> {
    match state {
        Some(s) => if s.bear == id {
            "#d9534f"@
        } else if s.hunters.contains(id) {
            "#0275d8"@
        } else {
            "#f5f5f5"@
        },
        None => "#f5f5f5"@,
    }
}

/// The circle and label drawn for node `i`.
pub open spec fn node_shapes(g: &Graph, i: int, state: Option<StateView>) -> Seq<char> {
    "<circle cx='"@ + int_text(px(g, i)) + "' cy='"@ + int_text(py(g, i)) + "' r='16' fill='"@
        + fill_of(state, g.nodes@[i].id@) + "' stroke='black'/>\n"@ + "<text x='"@ + int_text(
        px(g, i),
    ) + "' y='"@ + int_text(py(g, i) - 22) + "' text-anchor='middle' font-size='10'>"@
        + g.nodes@[i].id@ + "</text>\n"@
}

/// The shapes of the first `i` nodes.
pub open spec fn node_shapes_upto(g: &Graph, state: Option<StateView>, i: nat) -> Seq<char>
    decreases i,
{
    if i == 0 {
        Seq::empty()
    } else {
        node_shapes_upto(g, state, (i - 1) as nat) + node_shapes(g, i - 1, state)
    }
}

/// The whole SVG picture: frame, white background, the edges, then the
/// nodes, in node order.
pub open spec fn svg_text(g: &Graph, state: Option<StateView>) -> Seq<char> {
    "<svg xmlns='http://www.w3.org/2000/svg' width='"@ + nat_text(svg_width(g) as nat)
        + "' height='"@ + nat_text(svg_height(g) as nat) + "'>\n"@
        + "<rect width='100%' height='100%' fill='white'/>\n"@ + edge_lines(g, g.nodes@.len())
        + node_shapes_upto(g, state, g.nodes@.len()) + "</svg>\n"@
}

/// The least and greatest coordinates of the nodes.
fn bounds(g: &Graph) -> (r: (i32, i32, i32, i32))
    ensures
        r.0 == seq_min(xs(g)),
        r.1 == seq_max(xs(g)),
        r.2 == seq_min(ys(g)),
        r.3 == seq_max(ys(g)),
        forall|i: int|
            0 <= i < g.nodes@.len() ==> r.0 <= #[trigger] g.nodes@[i].x <= r.1 && r.2
                <= g.nodes@[i].y <= r.3,
{
    let n = g.nodes.len();
    if n == 0 {
        return (0, 0, 0, 0);
    }
    let mut min_x = g.nodes[0].x;
    let mut max_x = g.nodes[0].x;
    let mut min_y = g.nodes[0].y;
    let mut max_y = g.nodes[0].y;
    let mut i: usize = 1;
    assert(xs(g).take(1).drop_last() =~= Seq::<int>::empty());
    assert(xs(g).take(1) =~= seq![g.nodes@[0].x as int]);
    assert(ys(g).take(1) =~= seq![g.nodes@[0].y as int]);
    while i < n
        invariant
            n == g.nodes@.len(),
            1 <= i <= n,
            min_x == seq_min(xs(g).take(i as int)),
            max_x == seq_max(xs(g).take(i as int)),
            min_y == seq_min(ys(g).take(i as int)),
            max_y == seq_max(ys(g).take(i as int)),
            forall|k: int|
                0 <= k < i ==> min_x <= #[trigger] g.nodes@[k].x <= max_x && min_y
                    <= g.nodes@[k].y <= max_y,
        decreases n - i,
    {
        let nd = &g.nodes[i];
        assert(xs(g).take(i + 1).drop_last() =~= xs(g).take(i as int));
        assert(ys(g).take(i + 1).drop_last() =~= ys(g).take(i as int));
        if nd.x < min_x {
            min_x = nd.x;
        }
        if nd.x > max_x {
            max_x = nd.x;
        }
        if nd.y < min_y {
            min_y = nd.y;
        }
        if nd.y > max_y {
            max_y = nd.y;
        }
        i = i + 1;
    }
    assert(xs(g).take(n as int) =~= xs(g));
    assert(ys(g).take(n as int) =~= ys(g));
    (min_x, max_x, min_y, max_y)
}

/// Appends the line for the edge from node `a` to node `b`.
fn push_edge_line(s: &mut String, g: &Graph, b: (i32, i32, i32, i32), a: usize, c: usize)
    requires
        a < g.nodes@.len(),
        c < g.nodes@.len(),
        b.0 == seq_min(xs(g)),
        b.2 == seq_min(ys(g)),
        forall|i: int|
            0 <= i < g.nodes@.len() ==> b.0 <= #[trigger] g.nodes@[i].x <= b.1 && b.2
                <= g.nodes@[i].y <= b.3,
        svg_fits(g),
        b.1 == seq_max(xs(g)),
        b.3 == seq_max(ys(g)),
    ensures
        final(s)@ == old(s)@ + edge_line(g, a as int, c as int),
{
    let x1 = (g.nodes[a].x - b.0 + 1) * 80 + 80;
    let y1 = (g.nodes[a].y - b.2 + 1) * 80 + 80;
    let x2 = (g.nodes[c].x - b.0 + 1) * 80 + 80;
    let y2 = (g.nodes[c].y - b.2 + 1) * 80 + 80;
    s.append("<line x1='");
    push_int(s, x1 as i64);
    s.append("' y1='");
    push_int(s, y1 as i64);
    s.append("' x2='");
    push_int(s, x2 as i64);
    s.append("' y2='");
    push_int(s, y2 as i64);
    s.append("' stroke='#777' stroke-width='2'/>\n");
    assert(final(s)@ =~= old(s)@ + edge_line(g, a as int, c as int));
}

/// The colour of the node with this id.
fn fill_for(state: Option<&GameState>, id: &str) -> (r: &'static str)
    ensures
        r@ == fill_of(state_option_view(state), id@),
{
    match state {
        Some(s) => {
            if text_eq(s.bear, id) {
                "#d9534f"
            } else if text_eq(s.hunters[0], id) || text_eq(s.hunters[1], id) || text_eq(
                s.hunters[2],
                id,
            ) {
                assert(s@.hunters.contains(id@)) by {
                    if s.hunters[0]@ == id@ {
                        assert(s@.hunters[0] == id@);
                    } else if s.hunters[1]@ == id@ {
                        assert(s@.hunters[1] == id@);
                    } else {
                        assert(s@.hunters[2] == id@);
                    }
                }
                "#0275d8"
            } else {
                assert(!s@.hunters.contains(id@));
                "#f5f5f5"
            }
        },
        None => "#f5f5f5",
    }
}

/// Appends the circle and label of node `i`.
fn push_node_shapes(s: &mut String, graph: &Graph, b: (i32, i32, i32, i32), state: Option<&GameState>, i: usize)
    requires
        i < graph.nodes@.len(),
        b.0 == seq_min(xs(graph)),
        b.2 == seq_min(ys(graph)),
        b.1 == seq_max(xs(graph)),
        b.3 == seq_max(ys(graph)),
        forall|k: int|
            0 <= k < graph.nodes@.len() ==> b.0 <= #[trigger] graph.nodes@[k].x <= b.1 && b.2
                <= graph.nodes@[k].y <= b.3,
        svg_fits(graph),
    ensures
        final(s)@ == old(s)@ + node_shapes(graph, i as int, state_option_view(state)),
{
    let nd = &graph.nodes[i];
    let x = (nd.x - b.0 + 1) * 80 + 80;
    let y = (nd.y - b.2 + 1) * 80 + 80;
    s.append("<circle cx='");
    push_int(s, x as i64);
    s.append("' cy='");
    push_int(s, y as i64);
    s.append("' r='16' fill='");
    s.append(fill_for(state, nd.id));
    s.append("' stroke='black'/>\n");
    s.append("<text x='");
    push_int(s, x as i64);
    s.append("' y='");
    push_int(s, (y - 22) as i64);
    s.append("' text-anchor='middle' font-size='10'>");
    s.append(nd.id);
    s.append("</text>\n");
    assert(final(s)@ =~= old(s)@ + node_shapes(graph, i as int, state_option_view(state)));
}

/// The SVG picture of the board, with the pieces of `state` coloured.
pub fn svg_document(graph: &Graph, state: Option<&GameState>) -> (r: String)
    requires
        graph.wf(),
        svg_fits(graph),
    ensures
        r@ == svg_text(graph, state_option_view(state)),
{
    let ghost sv = state_option_view(state);
    let b = bounds(graph);
    let n = graph.nodes.len();
    proof {
        if n > 0 {
            assert(b.0 <= graph.nodes@[0].x <= b.1);
            assert(b.2 <= graph.nodes@[0].y <= b.3);
        }
    }
    let width = (b.1 - b.0 + 2) * 80 + 160;
    let height = (b.3 - b.2 + 2) * 80 + 160;
    let mut s = String::new();
    s.append("<svg xmlns='http://www.w3.org/2000/svg' width='");
    push_nat(&mut s, width as u64);
    s.append("' height='");
    push_nat(&mut s, height as u64);
    s.append("'>\n");
    s.append("<rect width='100%' height='100%' fill='white'/>\n");
    let ghost head = s@;
    let mut i: usize = 0;
    while i < n
        invariant
            graph.wf(),
            n == graph.nodes@.len(),
            i <= n,
            svg_fits(graph),
            b.0 == seq_min(xs(graph)),
            b.1 == seq_max(xs(graph)),
            b.2 == seq_min(ys(graph)),
            b.3 == seq_max(ys(graph)),
            forall|k: int|
                0 <= k < graph.nodes@.len() ==> b.0 <= #[trigger] graph.nodes@[k].x <= b.1 && b.2
                    <= graph.nodes@[k].y <= b.3,
            s@ == head + edge_lines(graph, i as nat),
        decreases n - i,
    {
        let row = &graph.neighbor_indices[i];
        let ghost base = s@;
        let mut k: usize = 0;
        proof {
            assert(row@ == graph.adj()[i as int]);
            assert(crate::graph::well_formed_links(graph.neighbor_indices@[i as int]@, i as int, n as int));
        }
        while k < row.len()
            invariant
                graph.wf(),
                n == graph.nodes@.len(),
                i < n,
                row@ == graph.adj()[i as int],
                crate::graph::well_formed_links(row@, i as int, n as int),
                k <= row@.len(),
                svg_fits(graph),
                b.0 == seq_min(xs(graph)),
                b.1 == seq_max(xs(graph)),
                b.2 == seq_min(ys(graph)),
                b.3 == seq_max(ys(graph)),
                forall|m: int|
                    0 <= m < graph.nodes@.len() ==> b.0 <= #[trigger] graph.nodes@[m].x <= b.1
                        && b.2 <= graph.nodes@[m].y <= b.3,
                s@ == base + edge_lines_of(graph, i as int, k as nat),
            decreases row@.len() - k,
        {
            let j = row[k];
            if j > i {
                push_edge_line(&mut s, graph, b, i, j);
            }
            assert(s@ =~= base + edge_lines_of(graph, i as int, (k + 1) as nat));
            k = k + 1;
        }
        assert(s@ =~= head + edge_lines(graph, (i + 1) as nat));
        i = i + 1;
    }
    let ghost mid = s@;
    let mut i: usize = 0;
    while i < n
        invariant
            graph.wf(),
            n == graph.nodes@.len(),
            i <= n,
            svg_fits(graph),
            sv == state_option_view(state),
            b.0 == seq_min(xs(graph)),
            b.1 == seq_max(xs(graph)),
            b.2 == seq_min(ys(graph)),
            b.3 == seq_max(ys(graph)),
            forall|k: int|
                0 <= k < graph.nodes@.len() ==> b.0 <= #[trigger] graph.nodes@[k].x <= b.1 && b.2
                    <= graph.nodes@[k].y <= b.3,
            s@ == mid + node_shapes_upto(graph, sv, i as nat),
        decreases n - i,
    {
        push_node_shapes(&mut s, graph, b, state, i);
        assert(s@ =~= mid + node_shapes_upto(graph, sv, (i + 1) as nat));
        i = i + 1;
    }
    s.append("</svg>\n");
    assert(s@ =~= svg_text(graph, sv));
    s
}

/// Whether the picture of the graph fits the arithmetic of `i32`.
pub fn fits_svg(graph: &Graph) -> (r: bool)
    ensures
        r == svg_fits(graph),
{
    let b = bounds(graph);
    let width: i64 = (b.1 as i64 - b.0 as i64 + 2) * 80 + 160;
    let height: i64 = (b.3 as i64 - b.2 as i64 + 2) * 80 + 160;
    width <= 0x7fff_ffff && height <= 0x7fff_ffff
}

} // verus!
