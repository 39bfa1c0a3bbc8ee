use std::collections::HashSet;
use vstd::prelude::*;

use crate::api::state_view_of;
use crate::game::{GameState, StateView};
use crate::graph::Graph;
use crate::minimax::{lemma_side_steps_fit, lemma_step_child, step_fits};
use crate::rules::{
    apply_step, apply_step_to, bear_steps, bear_steps_in, holds_state, hunter_steps_in,
    locate_state, position_in, position_of, side_steps, Position,
};
use crate::game::{Move, Outcome, SideToMove};
use crate::solver::{
    evaluation, key_of, keyable, lemma_key_injective, lemma_key_value, move_views, position_key,
    solution, Solver,
};

verus! {

broadcast use vstd::std_specs::hash::group_hash_axioms;

/// The game is over at `p`: the hunters have used up their turns or the
/// bear cannot move.
pub open spec fn game_ended(adj: Seq<Seq<usize>>, limit: u32, p: Position) -> bool {
    p.turns >= limit || bear_steps(adj, p).len() == 0
}

/// `q` is the position after some legal move from `p`.
pub open spec fn follows(adj: Seq<Seq<usize>>, p: Position, q: Position) -> bool {
    exists|m: int| 0 <= m < side_steps(adj, p).len() && q == apply_step(p, #[trigger] side_steps(adj, p)[m])
}

/// Every position after a legal move from `p` is listed.
pub open spec fn continuations_listed(adj: Seq<Seq<usize>>, p: Position, seen: Seq<Position>) -> bool {
    forall|m: int|
        0 <= m < side_steps(adj, p).len() ==> seen.contains(
            apply_step(p, #[trigger] side_steps(adj, p)[m]),
        )
}

/// The position at `k` in `seen` follows an earlier one where the game
/// goes on.
pub open spec fn has_parent(adj: Seq<Seq<usize>>, limit: u32, seen: Seq<Position>, k: int) -> bool {
    exists|j: int| 0 <= j < k && !game_ended(adj, limit, seen[j]) && follows(adj, seen[j], seen[k])
}

/// `seen` lists, once each, the positions reached from `start` by legal
/// play that stops where the game is over: `start` first; every later one
/// follows an earlier one where the game goes on; and every position that
/// follows a listed one where the game goes on is listed.
pub open spec fn reachable_list(adj: Seq<Seq<usize>>, limit: u32, start: Position, seen: Seq<Position>) -> bool {
    &&& seen.len() > 0
    &&& seen[0] == start
    &&& seen.no_duplicates()
    &&& forall|k: int| 0 < k < seen.len() ==> #[trigger] has_parent(adj, limit, seen, k)
    &&& forall|k: int|
        0 <= k < seen.len() && !game_ended(adj, limit, #[trigger] seen[k]) ==> continuations_listed(
            adj,
            seen[k],
            seen,
        )
}

/// More positions than there are memo keys cannot be listed.
pub open spec fn key_space() -> int {
    0x2_0000_0000int * 0x10000int * 0x10000int * 0x10000int * 0x10000int
}

/// `seen` starts at `start`, holds each position once, every later one
/// following an earlier one where the game goes on, all on the board.
#[verifier::opaque]
pub open spec fn sound_list(adj: Seq<Seq<usize>>, limit: u32, n: nat, start: Position, seen: Seq<Position>) -> bool {
    &&& seen.len() > 0
    &&& seen[0] == start
    &&& seen.no_duplicates()
    &&& forall|k: int| 0 <= k < seen.len() ==> position_in(#[trigger] seen[k], n)
    &&& forall|k: int| 0 < k < seen.len() ==> #[trigger] has_parent(adj, limit, seen, k)
}

/// Every listed position where the game goes on, other than `p`, and not
/// waiting on the stack, has its continuations listed.
#[verifier::opaque]
pub open spec fn closed_except(
    adj: Seq<Seq<usize>>,
    limit: u32,
    seen: Seq<Position>,
    stack: Seq<Position>,
    p: Option<Position>,
) -> bool {
    forall|k: int|
        0 <= k < seen.len() && !game_ended(adj, limit, #[trigger] seen[k]) && !stack.contains(seen[k])
            && p != Some(seen[k]) ==> continuations_listed(adj, seen[k], seen)
}

/// Every position on the stack is listed.
#[verifier::opaque]
pub open spec fn stacked_listed(stack: Seq<Position>, seen: Seq<Position>) -> bool {
    forall|t: int| 0 <= t < stack.len() ==> seen.contains(#[trigger] stack[t])
}

/// The keys in `keys` are those of the positions in `seen`, one each.
#[verifier::opaque]
pub open spec fn keys_match(keys: Set<u128>, seen: Seq<Position>) -> bool {
    &&& keys.finite()
    &&& keys.len() == seen.len()
    &&& forall|x: u128| #[trigger] keys.contains(x) ==> (x as int) < key_space()
    &&& forall|x: Position| keyable(x) ==> (#[trigger] keys.contains(position_key(x)) <==> seen.contains(x))
}

/// A position already listed stays listed when more are listed.
proof fn lemma_still_listed(seen: Seq<Position>, more: Seq<Position>, x: Position)
    requires
        seen.contains(x),
        more.len() >= seen.len(),
        forall|a: int| 0 <= a < seen.len() ==> more[a] == seen[a],
    ensures
        more.contains(x),
{
    let a = choose|a: int| 0 <= a < seen.len() && seen[a] == x;
    assert(more[a] == x);
}

/// What the key set tells: its size, and whether a position is listed.
proof fn lemma_keys_facts(keys: Set<u128>, seen: Seq<Position>, q: Position)
    requires
        keys_match(keys, seen),
        keyable(q),
    ensures
        keys.finite(),
        keys.len() == seen.len(),
        seen.len() <= key_space(),
        keys.contains(position_key(q)) <==> seen.contains(q),
{
    reveal(keys_match);
    lemma_keys_bound(keys);
}

/// Listing a new position keeps the key set in step.
proof fn lemma_keys_add(keys: Set<u128>, seen: Seq<Position>, q: Position)
    requires
        keys_match(keys, seen),
        keyable(q),
        (position_key(q) as int) < key_space(),
        !seen.contains(q),
    ensures
        keys_match(keys.insert(position_key(q)), seen.push(q)),
{
    reveal(keys_match);
    let ns = seen.push(q);
    let nk = keys.insert(position_key(q));
    assert(!keys.contains(position_key(q)));
    assert forall|x: Position| keyable(x) implies (#[trigger] nk.contains(position_key(x))
        <==> ns.contains(x)) by {
        if x == q {
            assert(ns[ns.len() - 1] == q);
        } else {
            if position_key(x) == position_key(q) {
                lemma_key_injective(x, q);
            }
            if seen.contains(x) {
                lemma_still_listed(seen, ns, x);
            }
            if ns.contains(x) {
                let a = choose|a: int| 0 <= a < ns.len() && ns[a] == x;
                assert(seen[a] == x);
            }
        }
    }
}

/// Listing a new position that follows a listed `p` keeps the list sound.
proof fn lemma_sound_add(
    adj: Seq<Seq<usize>>,
    limit: u32,
    n: nat,
    start: Position,
    seen: Seq<Position>,
    p: Position,
    pi: int,
    q: Position,
)
    requires
        sound_list(adj, limit, n, start, seen),
        0 <= pi < seen.len(),
        seen[pi] == p,
        !game_ended(adj, limit, p),
        follows(adj, p, q),
        position_in(q, n),
        !seen.contains(q),
    ensures
        sound_list(adj, limit, n, start, seen.push(q)),
{
    reveal(sound_list);
    let ns = seen.push(q);
    assert forall|k: int| 0 < k < ns.len() implies #[trigger] has_parent(adj, limit, ns, k) by {
        if k == ns.len() - 1 {
            assert(ns[pi] == p);
        } else {
            assert(ns[k] == seen[k]);
            assert(has_parent(adj, limit, seen, k));
            let j = choose|j: int|
                0 <= j < k && !game_ended(adj, limit, seen[j]) && follows(adj, seen[j], seen[k]);
            assert(ns[j] == seen[j]);
        }
    }
    assert forall|a: int, b: int| 0 <= a < ns.len() && 0 <= b < ns.len() && a != b implies ns[a]
        != ns[b] by {
        if a == ns.len() - 1 && b < seen.len() {
            assert(seen.contains(seen[b]));
        }
        if b == ns.len() - 1 && a < seen.len() {
            assert(seen.contains(seen[a]));
        }
    }
    assert forall|k: int| 0 <= k < ns.len() implies position_in(#[trigger] ns[k], n) by {
        if k < seen.len() {
            assert(ns[k] == seen[k]);
        }
    }
}

/// Listing a new position and putting it on the stack keeps the stack
/// listed and the other positions closed.
proof fn lemma_closed_add(
    adj: Seq<Seq<usize>>,
    limit: u32,
    seen: Seq<Position>,
    stack: Seq<Position>,
    p: Position,
    q: Position,
)
    requires
        closed_except(adj, limit, seen, stack, Some(p)),
        stacked_listed(stack, seen),
    ensures
        closed_except(adj, limit, seen.push(q), stack.push(q), Some(p)),
        stacked_listed(stack.push(q), seen.push(q)),
{
    reveal(closed_except);
    reveal(stacked_listed);
    let ns = seen.push(q);
    let nt = stack.push(q);
    assert forall|k: int|
        0 <= k < ns.len() && !game_ended(adj, limit, #[trigger] ns[k]) && !nt.contains(ns[k]) && Some(p)
            != Some(ns[k]) implies continuations_listed(adj, ns[k], ns) by {
        if k == ns.len() - 1 {
            assert(nt[nt.len() - 1] == q);
        } else {
            assert(ns[k] == seen[k]);
            if stack.contains(seen[k]) {
                let t = choose|t: int| 0 <= t < stack.len() && stack[t] == seen[k];
                assert(nt[t] == stack[t]);
            }
            assert(continuations_listed(adj, seen[k], seen));
            assert forall|m: int| 0 <= m < side_steps(adj, ns[k]).len() implies ns.contains(
                apply_step(ns[k], #[trigger] side_steps(adj, ns[k])[m]),
            ) by {
                let y = apply_step(seen[k], side_steps(adj, seen[k])[m]);
                assert(seen.contains(y));
                lemma_still_listed(seen, ns, y);
            }
        }
    }
    assert forall|t: int| 0 <= t < nt.len() implies ns.contains(#[trigger] nt[t]) by {
        if t == nt.len() - 1 {
            assert(ns[ns.len() - 1] == q);
        } else {
            assert(seen.contains(stack[t]));
            lemma_still_listed(seen, ns, stack[t]);
        }
    }
}

/// The list, the stack and the keys as they stand before the search.
proof fn lemma_start(
    adj: Seq<Seq<usize>>,
    limit: u32,
    n: nat,
    start: Position,
    seen: Seq<Position>,
    keys: Set<u128>,
)
    requires
        seen == seq![start],
        keyable(start),
        (position_key(start) as int) < key_space(),
        keys == Set::<u128>::empty().insert(position_key(start)),
        position_in(start, n),
    ensures
        sound_list(adj, limit, n, start, seen),
        closed_except(adj, limit, seen, seen, None),
        stacked_listed(seen, seen),
        keys_match(keys, seen),
{
    reveal(sound_list);
    reveal(closed_except);
    reveal(stacked_listed);
    reveal(keys_match);
    assert(seen[0] == start);
    assert forall|x: Position| keyable(x) implies (#[trigger] keys.contains(position_key(x))
        <==> seen.contains(x)) by {
        if keys.contains(position_key(x)) {
            lemma_key_injective(x, start);
        }
    }
    assert forall|k: int|
        0 <= k < seen.len() && !game_ended(adj, limit, #[trigger] seen[k]) && !seen.contains(seen[k])
            && None::<Position> != Some(seen[k]) implies continuations_listed(adj, seen[k], seen) by {
        assert(seen.contains(seen[k]));
    }
}

/// After `p` is taken off the stack, `p` is listed, the rest of the stack
/// stays listed, and every position other than `p` that is off the stack
/// and where the game goes on has its continuations listed.
proof fn lemma_popped(
    adj: Seq<Seq<usize>>,
    limit: u32,
    seen: Seq<Position>,
    before: Seq<Position>,
    after: Seq<Position>,
    p: Position,
)
    requires
        before.len() > 0,
        after == before.drop_last(),
        before[before.len() - 1] == p,
        closed_except(adj, limit, seen, before, None),
        stacked_listed(before, seen),
    ensures
        closed_except(adj, limit, seen, after, Some(p)),
        stacked_listed(after, seen),
        seen.contains(p),
{
    reveal(closed_except);
    reveal(stacked_listed);
    assert(seen.contains(before[before.len() - 1]));
    assert forall|k: int|
        0 <= k < seen.len() && !game_ended(adj, limit, #[trigger] seen[k]) && !after.contains(seen[k])
            && Some(p) != Some(seen[k]) implies continuations_listed(adj, seen[k], seen) by {
        if before.contains(seen[k]) {
            let t = choose|t: int| 0 <= t < before.len() && before[t] == seen[k];
            assert(after[t] == before[t]);
        }
    }
    assert forall|t: int| 0 <= t < after.len() implies seen.contains(#[trigger] after[t]) by {
        assert(after[t] == before[t]);
    }
}

/// Once the continuations of `p` are listed, `p` is closed too.
proof fn lemma_close(
    adj: Seq<Seq<usize>>,
    limit: u32,
    seen: Seq<Position>,
    stack: Seq<Position>,
    p: Position,
)
    requires
        closed_except(adj, limit, seen, stack, Some(p)),
        !game_ended(adj, limit, p) ==> continuations_listed(adj, p, seen),
    ensures
        closed_except(adj, limit, seen, stack, None),
{
    reveal(closed_except);
}

/// With the stack empty, the list is complete.
proof fn lemma_finished(
    adj: Seq<Seq<usize>>,
    limit: u32,
    n: nat,
    start: Position,
    seen: Seq<Position>,
    stack: Seq<Position>,
)
    requires
        sound_list(adj, limit, n, start, seen),
        closed_except(adj, limit, seen, stack, None),
        stack.len() == 0,
    ensures
        reachable_list(adj, limit, start, seen),
        forall|k: int| 0 <= k < seen.len() ==> position_in(#[trigger] seen[k], n),
{
    reveal(sound_list);
    reveal(closed_except);
    assert(seen.len() > 0);
    assert(seen[0] == start);
    assert(seen.no_duplicates());
    assert forall|k: int|
        0 <= k < seen.len() && !game_ended(adj, limit, #[trigger] seen[k]) implies continuations_listed(
        adj,
        seen[k],
        seen,
    ) by {
        assert(!stack.contains(seen[k]));
    }
}

/// The positions reachable from `start`.
fn reachable_positions(g: &Graph, start: Position) -> (seen: Vec<Position>)
    requires
        g.wf(),
        g.node_count() <= 0x10000,
        position_in(start, g.node_count()),
    ensures
        reachable_list(g.adj(), g.turn_limit, start, seen@),
        forall|k: int| 0 <= k < seen@.len() ==> position_in(#[trigger] seen@[k], g.node_count()),
{
    let ghost adj = g.adj();
    let ghost limit = g.turn_limit;
    let ghost n = g.node_count();
    let mut seen: Vec<Position> = Vec::new();
    let mut keys: HashSet<u128> = HashSet::new();
    let mut stack: Vec<Position> = Vec::new();
    let k0 = key_of(&start).unwrap();
    proof {
        lemma_key_value(start);
    }
    keys.insert(k0);
    seen.push(start);
    stack.push(start);
    proof {
        assert(keys@ =~= Set::<u128>::empty().insert(k0));
        assert(seen@ =~= seq![start]);
        assert(stack@ =~= seq![start]);
        lemma_start(adj, limit, n, start, seen@, keys@);
    }
    while stack.len() > 0
        invariant
            g.wf(),
            adj == g.adj(),
            limit == g.turn_limit,
            n == g.node_count(),
            n <= 0x10000,
            keyable(start),
            sound_list(adj, limit, n, start, seen@),
            closed_except(adj, limit, seen@, stack@, None),
            stacked_listed(stack@, seen@),
            keys_match(keys@, seen@),
        decreases key_space() - seen@.len(), stack@.len(),
    {
        proof {
            lemma_keys_facts(keys@, seen@, start);
        }
        let ghost before_stack = stack@;
        let p = stack.pop().unwrap();
        proof {
            lemma_popped(adj, limit, seen@, before_stack, stack@, p);
            reveal(sound_list);
        }
        let ghost pi = choose|i: int| 0 <= i < seen@.len() && seen@[i] == p;
        proof {
            assert(position_in(seen@[pi], n));
        }
        let ended = p.turns >= g.turn_limit || bear_steps_in(g, &p).len() == 0;
        if !ended {
            let moves = match p.side {
                SideToMove::Hunters => hunter_steps_in(g, &p),
                SideToMove::Bear => bear_steps_in(g, &p),
            };
            proof {
                lemma_side_steps_fit(g, p);
                assert(moves@ == side_steps(adj, p));
            }
            let mut i: usize = 0;
            let ghost seen_len0 = seen@.len();
            let ghost stack_len0 = stack@.len();
            while i < moves.len()
                invariant
                    seen@.len() >= seen_len0,
                    stack@.len() + seen_len0 == stack_len0 + seen@.len(),
                    g.wf(),
                    adj == g.adj(),
                    limit == g.turn_limit,
                    n == g.node_count(),
                    n <= 0x10000,
                    position_in(p, n),
                    p.turns < limit,
                    !game_ended(adj, limit, p),
                    moves@ == side_steps(adj, p),
                    forall|j: int| 0 <= j < moves@.len() ==> step_fits(p, #[trigger] moves@[j], n),
                    0 <= pi < seen@.len(),
                    seen@[pi] == p,
                    i <= moves@.len(),
                    forall|m: int| 0 <= m < i ==> seen@.contains(apply_step(p, #[trigger] moves@[m])),
                    sound_list(adj, limit, n, start, seen@),
                    closed_except(adj, limit, seen@, stack@, Some(p)),
                    stacked_listed(stack@, seen@),
                    keys_match(keys@, seen@),
                decreases moves@.len() - i,
            {
                let mv = moves[i];
                proof {
                    assert(step_fits(p, moves@[i as int], n));
                    lemma_step_child(p, mv, n, limit);
                }
                let q = apply_step_to(&p, &mv);
                let kq = key_of(&q).unwrap();
                proof {
                    lemma_key_value(q);
                    lemma_keys_facts(keys@, seen@, q);
                }
                let ghost old_seen = seen@;
                let ghost old_keys = keys@;
                let ghost old_stack = stack@;
                if keys.insert(kq) {
                    proof {
                        assert(follows(adj, p, q));
                        lemma_keys_add(old_keys, old_seen, q);
                        lemma_sound_add(adj, limit, n, start, old_seen, p, pi, q);
                        lemma_closed_add(adj, limit, old_seen, old_stack, p, q);
                    }
                    seen.push(q);
                    stack.push(q);
                    proof {
                        assert(seen@ == old_seen.push(q));
                        assert forall|m: int| 0 <= m < i + 1 implies seen@.contains(
                            apply_step(p, #[trigger] moves@[m]),
                        ) by {
                            if m < i {
                                lemma_still_listed(old_seen, seen@, apply_step(p, moves@[m]));
                            } else {
                                assert(seen@[seen@.len() - 1] == q);
                            }
                        }
                    }
                } else {
                    proof {
                        assert(keys@ =~= old_keys);
                    }
                }
                i = i + 1;
            }
        }
        proof {
            lemma_close(adj, limit, seen@, stack@, p);
            lemma_keys_facts(keys@, seen@, start);
        }
    }
    proof {
        lemma_finished(adj, limit, n, start, seen@, stack@);
    }
    seen
}

/// A position of the graph as a state, its nodes named by their ids.
fn name_position(g: &Graph, q: &Position) -> (s: GameState)
    requires
        g.wf(),
        position_in(*q, g.node_count()),
    ensures
        s@ == state_view_of(g, *q),
        holds_state(g, s@),
{
    proof {
        g.lemma_index_of_id(q.bear);
        g.lemma_index_of_id(q.hunters[0]);
        g.lemma_index_of_id(q.hunters[1]);
        g.lemma_index_of_id(q.hunters[2]);
    }
    let s = GameState {
        bear: g.nodes[q.bear].id,
        hunters: [g.nodes[q.hunters[0]].id, g.nodes[q.hunters[1]].id, g.nodes[q.hunters[2]].id],
        side_to_move: q.side,
        hunter_turns_used: q.turns,
    };
    assert(s@.hunters =~= state_view_of(g, *q).hunters);
    s
}

/// The states reached from `start` by legal play, each once, `start`
/// first, up to the states where the game is over.
pub fn reachable_states(graph: &Graph, start: &GameState) -> (r: Vec<GameState>)
    requires
        graph.wf(),
        graph.node_count() <= 0x10000,
        holds_state(graph, start@),
    ensures
        exists|seen: Seq<Position>|
            {
                &&& reachable_list(graph.adj(), graph.turn_limit, position_of(graph, start@), seen)
                &&& r@.map_values(|s: GameState| s@) == seen.map_values(
                    |q: Position| state_view_of(graph, q),
                )
            },
        forall|k: int| 0 <= k < r@.len() ==> holds_state(graph, (#[trigger] r@[k])@),
{
    let p = locate_state(graph, start);
    let seen = reachable_positions(graph, p);
    let mut r: Vec<GameState> = Vec::new();
    let mut k: usize = 0;
    while k < seen.len()
        invariant
            graph.wf(),
            forall|j: int| 0 <= j < seen@.len() ==> position_in(#[trigger] seen@[j], graph.node_count()),
            k <= seen@.len(),
            r@.len() == k,
            forall|j: int| 0 <= j < k ==> (#[trigger] r@[j])@ == state_view_of(graph, seen@[j]),
            forall|j: int| 0 <= j < k ==> holds_state(graph, (#[trigger] r@[j])@),
        decreases seen.len() - k,
    {
        let s = name_position(graph, &seen[k]);
        r.push(s);
        k = k + 1;
    }
    assert(r@.map_values(|s: GameState| s@) =~= seen@.map_values(
        |q: Position| state_view_of(graph, q),
    ));
    r
}

/// The map to `int` keeps a set's size.
pub open spec fn widen() -> spec_fn(u128) -> int {
    |x: u128| x as int
}

proof fn injective_len(s: Set<u128>)
    requires
        s.finite(),
    ensures
        s.map(widen()).len() == s.len(),
    decreases s.len(),
{
    if s.len() > 0 {
        let x = s.choose();
        injective_len(s.remove(x));
        assert(s.map(widen()) =~= s.remove(x).map(widen()).insert(x as int));
        assert(!s.remove(x).map(widen()).contains(x as int));
        s.remove(x).lemma_map_finite(widen());
    } else {
        assert(s.map(widen()) =~= Set::<int>::empty());
    }
}

/// A finite set of keys below `key_space()` has at most that many members.
proof fn lemma_keys_bound(keys: Set<u128>)
    requires
        keys.finite(),
        forall|x: u128| #[trigger] keys.contains(x) ==> (x as int) < key_space(),
    ensures
        keys.len() <= key_space(),
{
    vstd::set_lib::lemma_int_range(0, key_space());
    let range = vstd::set_lib::set_int_range(0, key_space());
    let ks = keys.map(widen());
    assert(ks.subset_of(range));
    keys.lemma_map_finite(widen());
    vstd::set_lib::lemma_len_subset(ks, range);
    injective_len(keys);
}

} // verus!

verus! {

/// The states whose value under perfect play has outcome `o`.
pub open spec fn with_outcome(g: &Graph, o: Outcome) -> spec_fn(GameState) -> bool {
    |s: GameState| solution(g, s).outcome == o
}

/// The states where the hunters are to move and win under perfect play.
pub open spec fn hunters_winning(g: &Graph) -> spec_fn(GameState) -> bool {
    |s: GameState| s.side_to_move == SideToMove::Hunters && solution(g, s).outcome == Outcome::HuntersWin
}

/// How many states there are, and how many of them each side wins.
pub struct StateCounts {
    pub total: usize,
    pub hunters_win: usize,
    pub bear_win: usize,
}

/// A filter of a prefix is a prefix of the filter.
proof fn lemma_filter_take_prefix<A>(s: Seq<A>, pred: spec_fn(A) -> bool, i: int)
    requires
        0 <= i <= s.len(),
    ensures
        s.take(i).filter(pred).len() <= s.filter(pred).len(),
        forall|k: int|
            0 <= k < s.take(i).filter(pred).len() ==> s.take(i).filter(pred)[k] == s.filter(pred)[k],
    decreases s.len() - i,
{
    if i < s.len() {
        lemma_filter_take_prefix(s, pred, i + 1);
        assert(s.take(i + 1) =~= s.take(i).push(s[i]));
        s.take(i).lemma_filter_push(s[i], pred);
    } else {
        assert(s.take(i) =~= s);
    }
}

/// Counts the states, and those that each side wins under perfect play.
pub fn count_outcomes(graph: &Graph, solver: &mut Solver, states: &Vec<GameState>) -> (r: StateCounts)
    requires
        old(solver).inv(),
        old(solver).graph() == *graph,
        graph.wf(),
        graph.turn_limit < 0x8000_0000,
        forall|k: int| 0 <= k < states@.len() ==> holds_state(graph, (#[trigger] states@[k])@),
    ensures
        final(solver).inv(),
        final(solver).graph() == *graph,
        r.total == states@.len(),
        r.hunters_win == states@.filter(with_outcome(graph, Outcome::HuntersWin)).len(),
        r.bear_win == states@.filter(with_outcome(graph, Outcome::BearWin)).len(),
{
    let ghost hw = with_outcome(graph, Outcome::HuntersWin);
    let ghost bw = with_outcome(graph, Outcome::BearWin);
    let mut hunters_win: usize = 0;
    let mut bear_win: usize = 0;
    let mut i: usize = 0;
    assert(states@.take(0) =~= Seq::<GameState>::empty());
    while i < states.len()
        invariant
            solver.inv(),
            solver.graph() == *graph,
            graph.wf(),
            graph.turn_limit < 0x8000_0000,
            forall|k: int| 0 <= k < states@.len() ==> holds_state(graph, (#[trigger] states@[k])@),
            hw == with_outcome(graph, Outcome::HuntersWin),
            bw == with_outcome(graph, Outcome::BearWin),
            i <= states@.len(),
            hunters_win == states@.take(i as int).filter(hw).len(),
            bear_win == states@.take(i as int).filter(bw).len(),
        decreases states@.len() - i,
    {
        let st = states[i];
        proof {
            assert(holds_state(graph, states@[i as int]@));
            assert(states@.take(i + 1) =~= states@.take(i as int).push(st));
            states@.take(i as int).lemma_filter_push(st, hw);
            states@.take(i as int).lemma_filter_push(st, bw);
            states@.take(i as int).lemma_filter_len(hw);
            states@.take(i as int).lemma_filter_len(bw);
        }
        let res = solver.solve(st);
        match res.outcome {
            Outcome::HuntersWin => {
                hunters_win = hunters_win + 1;
            },
            Outcome::BearWin => {
                bear_win = bear_win + 1;
            },
        }
        i = i + 1;
    }
    assert(states@.take(states@.len() as int) =~= states@);
    StateCounts { total: states.len(), hunters_win, bear_win }
}

/// Whether a list of `n` entries has reached the limit.
fn at_limit(limit: Option<usize>, n: usize) -> (b: bool)
    ensures
        b == (limit matches Some(m) && n >= m),
{
    match limit {
        Some(m) => n >= m,
        None => false,
    }
}

/// The hunters' winning policy over `states`: in order, each state where
/// the hunters are to move and win, with the moves that keep them winning,
/// quickest first; at most `limit` states when a limit is given.
pub fn hunter_policy(
    graph: &Graph,
    solver: &mut Solver,
    states: &Vec<GameState>,
    limit: Option<usize>,
) -> (r: Vec<(GameState, Vec<Move>)>)
    requires
        old(solver).inv(),
        old(solver).graph() == *graph,
        graph.wf(),
        graph.turn_limit < 0x8000_0000,
        forall|k: int| 0 <= k < states@.len() ==> holds_state(graph, (#[trigger] states@[k])@),
    ensures
        final(solver).inv(),
        final(solver).graph() == *graph,
        ({
            let chosen = states@.filter(hunters_winning(graph));
            let n = match limit {
                Some(m) => if m < chosen.len() {
                    m as int
                } else {
                    chosen.len() as int
                },
                None => chosen.len() as int,
            };
            &&& r@.len() == n
            &&& forall|k: int|
                0 <= k < n ==> (#[trigger] r@[k]).0 == chosen[k] && move_views(r@[k].1@) == evaluation(
                    graph,
                    chosen[k],
                ).winning_hunter_moves
        }),
{
    let ghost pred = hunters_winning(graph);
    let mut r: Vec<(GameState, Vec<Move>)> = Vec::new();
    let mut i: usize = 0;
    assert(states@.take(0) =~= Seq::<GameState>::empty());
    while i < states.len() && !at_limit(limit, r.len())
        invariant
            solver.inv(),
            solver.graph() == *graph,
            graph.wf(),
            graph.turn_limit < 0x8000_0000,
            forall|k: int| 0 <= k < states@.len() ==> holds_state(graph, (#[trigger] states@[k])@),
            pred == hunters_winning(graph),
            i <= states@.len(),
            r@.len() == states@.take(i as int).filter(pred).len(),
            forall|k: int|
                0 <= k < r@.len() ==> (#[trigger] r@[k]).0 == states@.take(i as int).filter(pred)[k]
                    && move_views(r@[k].1@) == evaluation(graph, r@[k].0).winning_hunter_moves,
            limit matches Some(m) ==> r@.len() <= m,
        decreases states@.len() - i,
    {
        let st = states[i];
        proof {
            assert(holds_state(graph, states@[i as int]@));
            assert(states@.take(i + 1) =~= states@.take(i as int).push(st));
            states@.take(i as int).lemma_filter_push(st, pred);
        }
        let ghost before = r@;
        match st.side_to_move {
            SideToMove::Hunters => {
                let ev = solver.evaluate_state(st);
                match ev.outcome {
                    Outcome::HuntersWin => {
                        r.push((st, ev.winning_hunter_moves));
                    },
                    Outcome::BearWin => {},
                }
            },
            SideToMove::Bear => {},
        }
        proof {
            assert forall|k: int| 0 <= k < r@.len() implies (#[trigger] r@[k]).0 == states@.take(
                i + 1,
            ).filter(pred)[k] && move_views(r@[k].1@) == evaluation(graph, r@[k].0).winning_hunter_moves by {
                if k < before.len() {
                    assert(r@[k] == before[k]);
                }
            }
        }
        i = i + 1;
    }
    proof {
        lemma_filter_take_prefix(states@, pred, i as int);
        if i == states@.len() {
            assert(states@.take(i as int) =~= states@);
        }
    }
    r
}

} // verus!
