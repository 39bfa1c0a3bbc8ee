use vstd::prelude::*;
use vstd::string::{StrSliceExecFns, StringExecFns};

use crate::game::{BoardNode, GameState, NodeId, StateView};
use crate::graph::Graph;
use crate::text::{int_text, lemma_text_lt_order, push_int, text_eq, text_less, text_lt};

verus! {

broadcast use vstd::seq_lib::group_seq_properties;

/// The text that `{:?}` writes for a list of node names.
pub uninterp spec fn debug_list_text(names: Seq<Seq<char>>) -> Seq<char>;

/// `format!("{:?}", names)`: the names quoted and escaped as `Debug` writes
/// `str`, between brackets, separated by `, `. Its contract only says that
/// the text is a function of the names' texts; the escaping rules are not
/// stated.
#[verifier::external_body]
fn debug_names(names: &[NodeId]) -> (s: String)
    ensures
        s@ == debug_list_text(names@.map_values(|n: NodeId| n@)),
{
    format!("{:?}", names)
}

/// `k` spaces.
pub open spec fn spaces(k: nat) -> Seq<char> {
    Seq::new(k, |i: int| ' ')
}

/// The text, then spaces up to width `w`, as `{:<w}` writes it.
pub open spec fn pad_right(s: Seq<char>, w: nat) -> Seq<char> {
    if s.len() >= w {
        s
    } else {
        s + spaces((w - s.len()) as nat)
    }
}

/// Spaces up to width `w`, then the text, as `{:>w}` writes it.
pub open spec fn pad_left(s: Seq<char>, w: nat) -> Seq<char> {
    if s.len() >= w {
        s
    } else {
        spaces((w - s.len()) as nat) + s
    }
}

/// What stands on a node: the bear, a hunter, or nothing.
pub open spec fn occupant(state: Option<StateView>, id: Seq<char>) -> Seq<char> {
    match state {
        Some(s) => if s.bear == id {
            "bear"@
        } else if s.hunters.contains(id) {
            "hunter"@
        } else {
            "empty"@
        },
        None => "empty"@,
    }
}

/// The listing's line for node `i`.
pub open spec fn debug_line(g: &Graph, i: int, state: Option<StateView>) -> Seq<char> {
    let nd = g.nodes@[i];
    "- "@ + pad_right(nd.id@, 18) + " ("@ + pad_left(int_text(nd.x as int), 2) + ", "@ + pad_left(
        int_text(nd.y as int),
        2,
    ) + ") "@ + pad_right(occupant(state, nd.id@), 6) + " -> "@ + debug_list_text(
        g.adjacency@[i]@.map_values(|n: NodeId| n@),
    ) + "\n"@
}

/// `a` is listed before `b`: by `y`, then by `x`, then by id.
pub open spec fn node_before(a: BoardNode, b: BoardNode) -> bool {
    a.y < b.y || (a.y == b.y && (a.x < b.x || (a.x == b.x && text_lt(a.id@, b.id@))))
}

/// `order` lists every node once, in listing order.
pub open spec fn display_order(g: &Graph, order: Seq<usize>) -> bool {
    &&& order.len() == g.nodes@.len()
    &&& forall|k: int| 0 <= k < order.len() ==> #[trigger] order[k] < g.nodes@.len()
    &&& forall|i: usize| i < g.nodes@.len() ==> #[trigger] order.contains(i)
    &&& forall|a: int, b: int|
        0 <= a < b < order.len() ==> node_before(
            #[trigger] g.nodes@[order[a] as int],
            #[trigger] g.nodes@[order[b] as int],
        )
}

/// The listing's lines for the first `k` nodes of `order`.
pub open spec fn debug_lines(g: &Graph, state: Option<StateView>, order: Seq<usize>, k: nat) -> Seq<
    char,
>
    decreases k,
{
    if k == 0 {
        Seq::empty()
    } else {
        debug_lines(g, state, order, (k - 1) as nat) + debug_line(g, order[k - 1] as int, state)
    }
}

/// The whole listing, nodes in `order`.
pub open spec fn debug_text(g: &Graph, state: Option<StateView>, order: Seq<usize>) -> Seq<char> {
    "Debug board listing (positive Y is down):\n"@ + debug_lines(g, state, order, order.len())
}

pub open spec fn state_option_view(state: Option<&GameState>) -> Option<StateView> {
    match state {
        Some(s) => Some(s@),
        None => None,
    }
}

proof fn lemma_node_before_order(a: BoardNode, b: BoardNode)
    ensures
        !node_before(a, a),
        !(node_before(a, b) && node_before(b, a)),
        a.id@ != b.id@ ==> node_before(a, b) || node_before(b, a),
{
    lemma_text_lt_order(a.id@, b.id@, a.id@);
}

/// There is one listing order.
pub proof fn law_display_order_unique(g: &Graph, o1: Seq<usize>, o2: Seq<usize>)
    requires
        display_order(g, o1),
        display_order(g, o2),
    ensures
        o1 == o2,
{
    assert forall|a: int| 0 <= a < o1.len() implies o1[a] == o2[a] by {
        lemma_display_position(g, o1, o2, a);
    }
    assert(o1 =~= o2);
}

proof fn lemma_display_position(g: &Graph, o1: Seq<usize>, o2: Seq<usize>, a: int)
    requires
        display_order(g, o1),
        display_order(g, o2),
        0 <= a < o1.len(),
    ensures
        o1[a] == o2[a],
    decreases a,
{
    assert(o1.contains(o2[a]));
    assert(o2.contains(o1[a]));
    let k = choose|k: int| 0 <= k < o1.len() && o1[k] == o2[a];
    let m = choose|m: int| 0 <= m < o2.len() && o2[m] == o1[a];
    if m < a {
        lemma_display_position(g, o1, o2, m);
        lemma_node_before_order(g.nodes@[o1[m] as int], g.nodes@[o1[a] as int]);
    }
    if k < a {
        lemma_display_position(g, o1, o2, k);
        lemma_node_before_order(g.nodes@[o2[k] as int], g.nodes@[o2[a] as int]);
    }
    if m > a && k > a {
        lemma_node_before_order(g.nodes@[o1[a] as int], g.nodes@[o2[a] as int]);
    }
}

/// Whether `a` is listed before `b`.
fn listed_before(a: &BoardNode, b: &BoardNode) -> (r: bool)
    ensures
        r == node_before(*a, *b),
{
    a.y < b.y || (a.y == b.y && (a.x < b.x || (a.x == b.x && text_less(a.id, b.id))))
}

/// The listing order of the graph's nodes.
fn listing_order(g: &Graph) -> (order: Vec<usize>)
    requires
        g.wf(),
    ensures
        display_order(g, order@),
{
    let n = g.nodes.len();
    let mut order: Vec<usize> = Vec::new();
    let mut j: usize = 0;
    proof {
        g.lemma_ids_distinct();
    }
    while j < n
        invariant
            g.wf(),
            n == g.nodes@.len(),
            j <= n,
            order@.len() == j,
            forall|x: usize| #[trigger] order@.contains(x) <==> x < j,
            forall|a: int| 0 <= a < order@.len() ==> #[trigger] order@[a] < j,
            forall|a: int, b: int|
                0 <= a < b < order@.len() ==> node_before(
                    #[trigger] g.nodes@[order@[a] as int],
                    #[trigger] g.nodes@[order@[b] as int],
                ),
            forall|i: int, k: int|
                0 <= i < n && 0 <= k < n && i != k ==> #[trigger] g.nodes@[i].id@
                    != #[trigger] g.nodes@[k].id@,
        decreases n - j,
    {
        let mut q: usize = 0;
        while q < order.len() && !listed_before(&g.nodes[j], &g.nodes[order[q]])
            invariant
                g.wf(),
                n == g.nodes@.len(),
                j < n,
                q <= order@.len(),
                forall|x: usize| #[trigger] order@.contains(x) <==> x < j,
                forall|a: int| 0 <= a < order@.len() ==> #[trigger] order@[a] < j,
                forall|a: int| 0 <= a < q ==> node_before(g.nodes@[order@[a] as int], #[trigger] g.nodes@[j as int])
                    || order@[a] == j,
                forall|i: int, k: int|
                    0 <= i < n && 0 <= k < n && i != k ==> #[trigger] g.nodes@[i].id@
                        != #[trigger] g.nodes@[k].id@,
            decreases order@.len() - q,
        {
            proof {
                assert(order@.contains(order@[q as int]));
                lemma_node_before_order(g.nodes@[j as int], g.nodes@[order@[q as int] as int]);
            }
            q = q + 1;
        }
        let ghost before = order@;
        proof {
            before.insert_ensures(q as int, j);
            assert forall|a: int| 0 <= a < q implies node_before(
                g.nodes@[before[a] as int],
                g.nodes@[j as int],
            ) by {
                assert(before.contains(before[a]));
            }
            assert forall|a: int| q <= a < before.len() implies node_before(
                g.nodes@[j as int],
                g.nodes@[before[a] as int],
            ) by {
                if a > q {
                    assert(node_before(g.nodes@[before[q as int] as int], g.nodes@[before[a] as int]));
                    let x = g.nodes@[j as int];
                    let y = g.nodes@[before[q as int] as int];
                    let z = g.nodes@[before[a] as int];
                    lemma_text_lt_order(x.id@, y.id@, z.id@);
                }
            }
        }
        order.insert(q, j);
        proof {
            let after = order@;
            assert forall|a: int, b: int| 0 <= a < b < after.len() implies node_before(
                #[trigger] g.nodes@[after[a] as int],
                #[trigger] g.nodes@[after[b] as int],
            ) by {
                if b < q {
                } else if a < q && b == q {
                } else if a < q {
                    assert(after[b] == before[b - 1]);
                    let x = g.nodes@[after[a] as int];
                    let y = g.nodes@[j as int];
                    let z = g.nodes@[after[b] as int];
                    lemma_text_lt_order(x.id@, y.id@, z.id@);
                } else if a == q {
                    assert(after[b] == before[b - 1]);
                } else {
                    assert(after[b] == before[b - 1]);
                    assert(after[a] == before[a - 1]);
                }
            }
            assert forall|a: int| 0 <= a < after.len() implies #[trigger] after[a] < j + 1 by {
                if a < q {
                    assert(before.contains(before[a]));
                } else if a > q {
                    assert(before.contains(before[a - 1]));
                }
            }
            assert forall|x: usize| #[trigger] after.contains(x) <==> x < j + 1 by {
                if after.contains(x) {
                    let a = choose|a: int| 0 <= a < after.len() && after[a] == x;
                    if a < q {
                        assert(before[a] == x);
                        assert(before.contains(x));
                    } else if a > q {
                        assert(before[a - 1] == x);
                        assert(before.contains(x));
                    }
                }
                if x < j + 1 {
                    if x == j {
                        assert(after[q as int] == x);
                    } else {
                        assert(before.contains(x));
                        let a = choose|a: int| 0 <= a < before.len() && before[a] == x;
                        if a < q {
                            assert(after[a] == x);
                        } else {
                            assert(after[a + 1] == x);
                        }
                    }
                }
            }
        }
        j = j + 1;
    }
    proof {
        assert forall|k: int| 0 <= k < order@.len() implies #[trigger] order@[k] < g.nodes@.len() by {
            assert(order@.contains(order@[k]));
        }
    }
    order
}

/// Appends spaces.
fn push_spaces(s: &mut String, k: usize)
    ensures
        final(s)@ == old(s)@ + spaces(k as nat),
{
    let mut i: usize = 0;
    while i < k
        invariant
            i <= k,
            s@ == old(s)@ + spaces(i as nat),
        decreases k - i,
    {
        let ghost before = s@;
        s.append(" ");
        proof {
            reveal_strlit(" ");
        }
        assert(" "@ =~= seq![' ']);
        assert(spaces((i + 1) as nat) =~= spaces(i as nat).push(' '));
        assert(s@ =~= old(s)@ + spaces((i + 1) as nat));
        i = i + 1;
    }
}

/// Appends a text padded on the right to width `w`.
fn push_padded_right(s: &mut String, t: &str, w: usize)
    ensures
        final(s)@ == old(s)@ + pad_right(t@, w as nat),
{
    s.append(t);
    let len = t.unicode_len();
    if len < w {
        push_spaces(s, w - len);
    }
    assert(s@ =~= old(s)@ + pad_right(t@, w as nat));
}

/// Appends an integer padded on the left to width `w`.
fn push_padded_int(s: &mut String, x: i32, w: usize)
    ensures
        final(s)@ == old(s)@ + pad_left(int_text(x as int), w as nat),
{
    let mut num = String::new();
    push_int(&mut num, x as i64);
    let len = num.as_str().unicode_len();
    if len < w {
        push_spaces(s, w - len);
    }
    s.append(num.as_str());
    assert(s@ =~= old(s)@ + pad_left(int_text(x as int), w as nat));
}

/// What stands on the node with this id.
fn occupant_of(state: Option<&GameState>, id: &str) -> (r: &'static str)
    ensures
        r@ == occupant(state_option_view(state), id@),
{
    match state {
        Some(s) => {
            if text_eq(s.bear, id) {
                "bear"
            } else if text_eq(s.hunters[0], id) || text_eq(s.hunters[1], id) || text_eq(
                s.hunters[2],
                id,
            ) {
                assert(s@.hunters.contains(id@)) by {
                    if s.hunters[0]@ == id@ {
                        assert(s@.hunters[0] == id@);
                    } else if s.hunters[1]@ == id@ {
                        assert(s@.hunters[1] == id@);
                    } else {
                        assert(s@.hunters[2] == id@);
                    }
                }
                "hunter"
            } else {
                assert(!s@.hunters.contains(id@));
                "empty"
            }
        },
        None => "empty",
    }
}

/// A listing of the board for debugging: one line per node in order of
/// `y`, then `x` (then id), with coordinates, occupant and neighbours.
pub fn render_debug_board(graph: &Graph, state: Option<&GameState>) -> (r: String)
    requires
        graph.wf(),
    ensures
        exists|order: Seq<usize>|
            display_order(graph, order) && r@ == debug_text(graph, state_option_view(state), order),
{
    let order = listing_order(graph);
    let ghost sv = state_option_view(state);
    let mut out = String::new();
    out.append("Debug board listing (positive Y is down):\n");
    let ghost header = out@;
    let mut k: usize = 0;
    while k < order.len()
        invariant
            graph.wf(),
            display_order(graph, order@),
            sv == state_option_view(state),
            k <= order@.len(),
            out@ == header + debug_lines(graph, sv, order@, k as nat),
        decreases order@.len() - k,
    {
        let i = order[k];
        let nd = &graph.nodes[i];
        let ghost start = out@;
        out.append("- ");
        push_padded_right(&mut out, nd.id, 18);
        out.append(" (");
        push_padded_int(&mut out, nd.x, 2);
        out.append(", ");
        push_padded_int(&mut out, nd.y, 2);
        out.append(") ");
        push_padded_right(&mut out, occupant_of(state, nd.id), 6);
        out.append(" -> ");
        let listing = debug_names(graph.adjacency[i].as_slice());
        out.append(listing.as_str());
        out.append("\n");
        assert(out@ =~= start + debug_line(graph, i as int, sv));
        k = k + 1;
    }
    out
}

} // verus!
