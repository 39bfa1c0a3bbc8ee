use vstd::prelude::*;

use crate::text::{lemma_text_lt_order, nat_text, push_nat, text_less, text_lt};
use vstd::string::StringExecFns;

verus! {

/// A node of the board is named by a static text.
pub type NodeId = &'static str;

/// A node of the board, with layout coordinates (positive `y` is down).
#[derive(Debug, Clone, Copy, PartialEq, Eq, Hash)]
pub struct BoardNode {
    pub id: NodeId,
    pub x: i32,
    pub y: i32,
}

/// An undirected edge between two nodes, named by their ids.
#[derive(Debug, Clone, Copy, PartialEq, Eq, Hash)]
pub struct BoardEdge(pub NodeId, pub NodeId);

/// A board as it is written down: nodes, edges, start and turn limit.
#[derive(Debug, Clone)]
pub struct BoardDefinition {
    pub name: &'static str,
    pub nodes: &'static [BoardNode],
    pub edges: &'static [BoardEdge],
    pub start: StartState,
    pub turn_limit: u32,
}

/// Where the pieces start and who moves first.
#[derive(Debug, Clone)]
pub struct StartState {
    pub bear: NodeId,
    pub hunters: [NodeId; 3],
    pub side_to_move: SideToMove,
}

/// Which side moves next.
#[derive(Debug, Clone, Copy, PartialEq, Eq, Hash)]
pub enum SideToMove {
    Hunters,
    Bear,
}

/// A position of the game.
#[derive(Debug, Clone, Copy, PartialEq, Eq, Hash)]
pub struct GameState {
    pub bear: NodeId,
    pub hunters: [NodeId; 3],
    pub side_to_move: SideToMove,
    pub hunter_turns_used: u32,
}

/// A move of one hunter, or of the bear.
#[derive(Debug, Clone, Copy, PartialEq, Eq, Hash)]
pub enum Move {
    Hunter { hunter_index: usize, from: NodeId, to: NodeId },
    Bear { from: NodeId, to: NodeId },
}

/// Who wins under perfect play.
#[derive(Debug, Clone, Copy, PartialEq, Eq)]
pub enum Outcome {
    HuntersWin,
    BearWin,
}

/// What the solver finds for a position: who wins, in how many plies,
/// the move that gets there and the line of play that follows.
#[derive(Debug, Clone)]
pub struct SolveResult {
    pub outcome: Outcome,
    pub distance: u32,
    pub best_move: Option<Move>,
    pub principal_variation: Vec<Move>,
}

/// The mathematical model of a position: node names as texts.
pub struct StateView {
    pub bear: Seq<char>,
    pub hunters: Seq<Seq<char>>,
    pub side: SideToMove,
    pub turns: nat,
}

/// The mathematical model of a move.
pub enum MoveView {
    Hunter { hunter_index: nat, from: Seq<char>, to: Seq<char> },
    Bear { from: Seq<char>, to: Seq<char> },
}

/// The mathematical model of a solver's answer.
pub struct SolveView {
    pub outcome: Outcome,
    pub distance: nat,
    pub best_move: Option<MoveView>,
    pub principal_variation: Seq<MoveView>,
}

/// The model of an optional move.
pub open spec fn move_option_view(m: Option<Move>) -> Option<MoveView> {
    match m {
        Some(mv) => Some(mv@),
        None => None,
    }
}

impl View for SolveResult {
    type V = SolveView;

    open spec fn view(&self) -> SolveView {
        SolveView {
            outcome: self.outcome,
            distance: self.distance as nat,
            best_move: move_option_view(self.best_move),
            principal_variation: self.principal_variation@.map_values(|m: Move| m@),
        }
    }
}

/// The texts of three node names.
pub open spec fn names3(h: [NodeId; 3]) -> Seq<Seq<char>> {
    seq![h[0]@, h[1]@, h[2]@]
}

impl View for GameState {
    type V = StateView;

    open spec fn view(&self) -> StateView {
        StateView {
            bear: self.bear@,
            hunters: names3(self.hunters),
            side: self.side_to_move,
            turns: self.hunter_turns_used as nat,
        }
    }
}

impl View for Move {
    type V = MoveView;

    open spec fn view(&self) -> MoveView {
        match *self {
            Move::Hunter { hunter_index, from, to } => MoveView::Hunter {
                hunter_index: hunter_index as nat,
                from: from@,
                to: to@,
            },
            Move::Bear { from, to } => MoveView::Bear { from: from@, to: to@ },
        }
    }
}

/// `b` holds the three entries of `a` in some order.
pub open spec fn perm3<T>(a: Seq<T>, b: Seq<T>) -> bool {
    &&& a.len() == 3
    &&& b.len() == 3
    &&& {
        ||| b == seq![a[0], a[1], a[2]]
        ||| b == seq![a[0], a[2], a[1]]
        ||| b == seq![a[1], a[0], a[2]]
        ||| b == seq![a[1], a[2], a[0]]
        ||| b == seq![a[2], a[0], a[1]]
        ||| b == seq![a[2], a[1], a[0]]
    }
}

/// Texts in non-decreasing order.
pub open spec fn text_le(a: Seq<char>, b: Seq<char>) -> bool {
    a == b || text_lt(a, b)
}

/// Three names in the order in which `sort_unstable` leaves them.
pub open spec fn sorted_names(h: Seq<Seq<char>>) -> bool {
    h.len() == 3 && text_le(h[0], h[1]) && text_le(h[1], h[2])
}

/// Three names, sorted as `sort_unstable` sorts them.
pub fn sort_names(h: [NodeId; 3]) -> (r: [NodeId; 3])
    ensures
        perm3(h@, r@),
        sorted_names(names3(r)),
{
    let mut a = h[0];
    let mut b = h[1];
    let mut c = h[2];
    if text_less(b, a) {
        let t = a;
        a = b;
        b = t;
    }
    if text_less(c, b) {
        let t = b;
        b = c;
        c = t;
    }
    if text_less(b, a) {
        let t = a;
        a = b;
        b = t;
    }
    proof {
        lemma_text_lt_order(a@, b@, c@);
        lemma_text_lt_order(b@, c@, a@);
        lemma_text_lt_order(c@, a@, b@);
        lemma_text_lt_order(b@, a@, c@);
        lemma_text_lt_order(a@, c@, b@);
        lemma_text_lt_order(c@, b@, a@);
    }
    let r = [a, b, c];
    assert(r@ =~= seq![a, b, c]);
    assert(h@ =~= seq![h[0], h[1], h[2]]);
    r
}

/// How a move reads: `Hunter#1: a -> b` or `Bear: a -> b`.
pub open spec fn move_text(m: MoveView) -> Seq<char> {
    match m {
        MoveView::Hunter { hunter_index, from, to } => "Hunter#"@ + nat_text(hunter_index) + ": "@
            + from + " -> "@ + to,
        MoveView::Bear { from, to } => "Bear: "@ + from + " -> "@ + to,
    }
}

impl Move {
    /// The move as text.
    pub fn to_text(&self) -> (s: String)
        ensures
            s@ == move_text(self@),
    {
        let mut s = String::new();
        match *self {
            Move::Hunter { hunter_index, from, to } => {
                s.append("Hunter#");
                push_nat(&mut s, hunter_index as u64);
                s.append(": ");
                s.append(from);
                s.append(" -> ");
                s.append(to);
            },
            Move::Bear { from, to } => {
                s.append("Bear: ");
                s.append(from);
                s.append(" -> ");
                s.append(to);
            },
        }
        assert(s@ =~= move_text(self@));
        s
    }
}

impl GameState {
    /// The position at the start of a game: hunters sorted, no turns used.
    pub fn from_start(start: &StartState) -> (r: Self)
        ensures
            r.bear == start.bear,
            perm3(start.hunters@, r.hunters@),
            sorted_names(names3(r.hunters)),
            r.side_to_move == start.side_to_move,
            r.hunter_turns_used == 0,
    {
        let hunters = sort_names(start.hunters);
        GameState {
            bear: start.bear,
            hunters,
            side_to_move: start.side_to_move,
            hunter_turns_used: 0,
        }
    }

    /// Puts the hunters in sorted order, so that one set of hunter nodes
    /// gives one position.
    pub fn canonicalize_hunters(&mut self)
        ensures
            final(self).bear == old(self).bear,
            perm3(old(self).hunters@, final(self).hunters@),
            sorted_names(names3(final(self).hunters)),
            final(self).side_to_move == old(self).side_to_move,
            final(self).hunter_turns_used == old(self).hunter_turns_used,
    {
        self.hunters = sort_names(self.hunters);
    }
}

} // verus!
