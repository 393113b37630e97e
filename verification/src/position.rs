use vstd::prelude::*;

use crate::RulesError;
use crate::board::{Board, BoardValue};
use crate::location::Location;

verus! {

broadcast use vstd::seq_lib::lemma_seq_contains_after_push;

/// One of the two sides. The engine is symmetric between them; `Black`
/// merely happens to be the side that moves first on a fresh board.
#[derive(Clone, Copy, PartialEq, Eq, Structural, Hash, Debug)]
pub enum Player {
    Black,
    White,
}

impl Player {
    /// The opponent of this side.
    pub open spec fn spec_switch(self) -> Player {
        match self {
            Player::White => Player::Black,
            Player::Black => Player::White,
        }
    }

    /// Returns the opponent of this side.
    pub fn switch(&self) -> (r: Player)
        ensures
            r == self.spec_switch(),
    {
        match self {
            Player::White => Player::Black,
            Player::Black => Player::White,
        }
    }
}

impl Default for Player {
    /// The side that moves first on a fresh board.
    fn default() -> (r: Self)
        ensures
            r == Player::Black,
    {
        Player::Black
    }
}

/// True exactly when `(dx, dy)` is one of the eight leap offsets: a step of
/// two along one axis and one along the other, in any sign combination.
pub open spec fn spec_is_leap(dx: int, dy: int) -> bool {
    ||| (dx == 2 || dx == -2) && (dy == 1 || dy == -1)
    ||| (dx == 1 || dx == -1) && (dy == 2 || dy == -2)
}

/// True exactly when the cell at offset `(dx, dy)` from `c` holds a piece
/// of `opp`. Out-of-bounds offsets count as unoccupied.
pub open spec fn spec_opp_at(b: Board, c: Location, opp: Player, dx: int, dy: int) -> bool {
    b.spec_is_color_xy(c.x + dx, c.y + dy, opp)
}

/// The leap-blocking rule. A leap from `from` to `to` (which must be at one
/// of the eight leap offsets, else the result is false) is clear unless, on
/// each of the two flanks of the leap, at least one of the designated pair
/// of flanking cells is occupied by the opponent of `player`.
pub open spec fn spec_connection_between(b: Board, from: Location, to: Location, player: Player) -> bool {
    let dx = to.x - from.x;
    let dy = to.y - from.y;
    let opp = player.spec_switch();
    if dx == 2 && dy == 1 {
        !((spec_opp_at(b, from, opp, 0, 1) || spec_opp_at(b, from, opp, 1, 1))
            && (spec_opp_at(b, from, opp, 1, 0) || spec_opp_at(b, from, opp, 2, 0)))
    } else if dx == 2 && dy == -1 {
        !((spec_opp_at(b, from, opp, 0, -1) || spec_opp_at(b, from, opp, 1, -1))
            && (spec_opp_at(b, from, opp, 1, 0) || spec_opp_at(b, from, opp, 2, 0)))
    } else if dx == -2 && dy == 1 {
        !((spec_opp_at(b, from, opp, 0, 1) || spec_opp_at(b, from, opp, -1, 1))
            && (spec_opp_at(b, from, opp, -1, 0) || spec_opp_at(b, from, opp, -2, 0)))
    } else if dx == -2 && dy == -1 {
        !((spec_opp_at(b, from, opp, 0, -1) || spec_opp_at(b, from, opp, -1, -1))
            && (spec_opp_at(b, from, opp, -1, 0) || spec_opp_at(b, from, opp, -2, 0)))
    } else if dx == 1 && dy == 2 {
        !((spec_opp_at(b, from, opp, 1, 0) || spec_opp_at(b, from, opp, 1, 1))
            && (spec_opp_at(b, from, opp, 0, 1) || spec_opp_at(b, from, opp, 0, 2)))
    } else if dx == 1 && dy == -2 {
        !((spec_opp_at(b, from, opp, 1, 0) || spec_opp_at(b, from, opp, 1, -1))
            && (spec_opp_at(b, from, opp, 0, -1) || spec_opp_at(b, from, opp, 0, -2)))
    } else if dx == -1 && dy == 2 {
        !((spec_opp_at(b, from, opp, -1, 0) || spec_opp_at(b, from, opp, -1, 1))
            && (spec_opp_at(b, from, opp, 0, 1) || spec_opp_at(b, from, opp, 0, 2)))
    } else if dx == -1 && dy == -2 {
        !((spec_opp_at(b, from, opp, -1, 0) || spec_opp_at(b, from, opp, -1, -1))
            && (spec_opp_at(b, from, opp, 0, -1) || spec_opp_at(b, from, opp, 0, -2)))
    } else {
        false
    }
}

/// True exactly when `l` is an in-bounds cell at a leap offset from `c`:
/// one of the candidate neighbors of `c`.
pub open spec fn spec_is_neighbor(b: Board, c: Location, l: Location) -> bool {
    b.spec_in_bounds(l) && spec_is_leap(l.x - c.x, l.y - c.y)
}

/// True exactly when `l` is a candidate neighbor of `c` whose leap from `c`
/// is clear for `player`.
pub open spec fn spec_reachable_member(b: Board, c: Location, player: Player, l: Location) -> bool {
    spec_is_neighbor(b, c, l) && spec_connection_between(b, c, l, player)
}

/// Membership in the connection cloud of a piece of `opp.switch()` placed
/// at `c`: the in-bounds cells whose reachability the placement may have
/// changed. Each of the twelve probed offsets around `c` that holds an
/// `opp` piece contributes the flanking partners of its leaps.
pub open spec fn spec_cloud_member(b: Board, c: Location, opp: Player, l: Location) -> bool {
    let dx = l.x - c.x;
    let dy = l.y - c.y;
    b.spec_in_bounds(l) && {
    ||| (spec_opp_at(b, c, opp, -2, 0) && (dx == 0 && dy == 1 || dx == 0 && dy == -1))
    ||| (spec_opp_at(b, c, opp, -1, 1) && (dx == 0 && dy == -1 || dx == 1 && dy == 0))
    ||| (spec_opp_at(b, c, opp, -1, 0) && (dx == 1 && dy == 1 || dx == 1 && dy == -1 || dx == 0
        && dy == 2 || dx == 0 && dy == -2))
    ||| (spec_opp_at(b, c, opp, -1, -1) && (dx == 1 && dy == 0 || dx == 0 && dy == 1))
    ||| (spec_opp_at(b, c, opp, 0, 2) && (dx == -1 && dy == 0 || dx == 1 && dy == 0))
    ||| (spec_opp_at(b, c, opp, 0, 1) && (dx == -1 && dy == -1 || dx == 1 && dy == -1 || dx == -2
        && dy == 0 || dx == 2 && dy == 0))
    ||| (spec_opp_at(b, c, opp, 0, -1) && (dx == 1 && dy == 1 || dx == -1 && dy == 1 || dx == -2
        && dy == 0 || dx == 2 && dy == 0))
    ||| (spec_opp_at(b, c, opp, 0, -2) && (dx == -1 && dy == 0 || dx == 1 && dy == 0))
    ||| (spec_opp_at(b, c, opp, 1, 1) && (dx == 0 && dy == -1 || dx == -1 && dy == 0))
    ||| (spec_opp_at(b, c, opp, 1, 0) && (dx == -1 && dy == 1 || dx == -1 && dy == -1 || dx == 0
        && dy == 2 || dx == 0 && dy == -2))
    ||| (spec_opp_at(b, c, opp, 1, -1) && (dx == 0 && dy == 1 || dx == -1 && dy == 0))
    ||| (spec_opp_at(b, c, opp, 2, 0) && (dx == 0 && dy == 1 || dx == 0 && dy == -1))
    }
}

/// Membership in the set of cut-off squares of a piece of `opp.switch()`
/// just placed at `c`: the empty cells of the connection cloud that no
/// `opp` piece can reach by a clear leap any more. They must leave `opp`'s
/// legal-placement set.
pub open spec fn spec_cut_off(b: Board, c: Location, opp: Player, l: Location) -> bool {
    &&& spec_cloud_member(b, c, opp, l)
    &&& b.spec_cell(l) == BoardValue::Empty
    &&& !spec_opp_reaches(b, opp, l)
}

/// True exactly when some `player` piece at a clear leap from the empty
/// cell `l` exists: the cell is still reachable by `player`.
pub open spec fn spec_opp_reaches(b: Board, player: Player, l: Location) -> bool {
    exists|n: Location|
        #[trigger] spec_reachable_member(b, l, player, n) && b.spec_is_color_xy(
            n.x as int,
            n.y as int,
            player,
        )
}

/// True exactly when `l` lies on the outer border of the board.
pub open spec fn spec_edge(b: Board, l: Location) -> bool {
    b.spec_in_bounds(l) && (l.x == 0 || l.x == b.size_x - 1 || l.y == 0 || l.y == b.size_y - 1)
}

/// One step of the same-color reachability graph: `to` is a `player` piece
/// at a clear leap from `a`.
pub open spec fn spec_step(b: Board, player: Player, a: Location, to: Location) -> bool {
    spec_reachable_member(b, a, player, to) && b.spec_is_color_xy(to.x as int, to.y as int, player)
}

/// A walk through the same-color reachability graph: each entry after the
/// first is a `player` piece at a clear leap from its predecessor.
pub open spec fn is_step_path(b: Board, player: Player, p: Seq<Location>) -> bool {
    forall|i: int| 0 <= i < p.len() - 1 ==> spec_step(b, player, #[trigger] p[i], p[i + 1])
}

/// True exactly when `to` belongs to the connected component of `from` in
/// the same-color reachability graph of `player`: some walk leads from
/// `from` to `to`.
pub open spec fn in_group(b: Board, player: Player, from: Location, to: Location) -> bool {
    exists|p: Seq<Location>|
        #[trigger] is_step_path(b, player, p) && p.len() > 0 && p.first() == from && p.last() == to
}

/// True exactly when the group seeded at `from` touches the outer border
/// of the board: such a group is safe from capture.
pub open spec fn group_reaches_edge(b: Board, player: Player, from: Location) -> bool {
    exists|l: Location| #[trigger] in_group(b, player, from, l) && spec_edge(b, l)
}

/// `b1` is `b` with one more `p` piece at `c`: the grid exactly as it
/// stands right after a placement, before any capture.
pub open spec fn spec_placed_board(b: Board, c: Location, p: Player, b1: Board) -> bool {
    &&& b1.wf()
    &&& b1.size_x == b.size_x
    &&& b1.size_y == b.size_y
    &&& b1.spec_cell(c) == BoardValue::Filled(p)
    &&& forall|l: Location|
        b.spec_in_bounds(l) && l != c ==> #[trigger] b1.spec_cell(l) == b.spec_cell(l)
}

/// Removing `player` pieces never creates a step for `player`: a step that
/// exists on the thinned board `b2` exists on the fuller board `b1` too.
/// Blocking only ever depends on the opponent's pieces, which agree.
proof fn lemma_step_monotone(b1: Board, b2: Board, player: Player, a: Location, to: Location)
    requires
        b1.wf(),
        b2.size_x == b1.size_x,
        b2.size_y == b1.size_y,
        forall|l: Location|
            b1.spec_in_bounds(l) ==> #[trigger] b2.spec_cell(l) == b1.spec_cell(l) || (
            b2.spec_cell(l) == BoardValue::Empty && b1.spec_cell(l) == BoardValue::Filled(player)),
        spec_step(b2, player, a, to),
    ensures
        spec_step(b1, player, a, to),
{
    assert(b2.spec_cell(to) == BoardValue::Filled(player));
    assert(b1.spec_cell(to) == BoardValue::Filled(player));
    let opp2 = player.spec_switch();
    assert forall|dx: int, dy: int| -2 <= dx <= 2 && -2 <= dy <= 2 implies spec_opp_at(
        b1,
        a,
        opp2,
        dx,
        dy,
    ) == spec_opp_at(b2, a, opp2, dx, dy) by {
        let x = a.x + dx;
        let y = a.y + dy;
        if 0 <= x < b1.size_x && 0 <= y < b1.size_y {
            let l = Location { x: x as isize, y: y as isize };
            assert(l.x as int == x && l.y as int == y);
            assert(b1.spec_in_bounds(l));
            assert(b2.spec_cell(l) == b2.spec_cell_xy(x, y));
            assert(b1.spec_cell(l) == b1.spec_cell_xy(x, y));
        }
    }
    assert(spec_connection_between(b1, a, to, player) == spec_connection_between(
        b2,
        a,
        to,
        player,
    ));
}

/// Removing `player` pieces never reconnects a `player` group: a group
/// that touches the border on the thinned board `b2` touches it on the
/// fuller board `b1` as well.
proof fn lemma_reach_monotone(b1: Board, b2: Board, player: Player, seed: Location)
    requires
        b1.wf(),
        b2.size_x == b1.size_x,
        b2.size_y == b1.size_y,
        forall|l: Location|
            b1.spec_in_bounds(l) ==> #[trigger] b2.spec_cell(l) == b1.spec_cell(l) || (
            b2.spec_cell(l) == BoardValue::Empty && b1.spec_cell(l) == BoardValue::Filled(player)),
        group_reaches_edge(b2, player, seed),
    ensures
        group_reaches_edge(b1, player, seed),
{
    let le = choose|le: Location| #[trigger] in_group(b2, player, seed, le) && spec_edge(b2, le);
    let p = choose|p: Seq<Location>|
        #[trigger] is_step_path(b2, player, p) && p.len() > 0 && p.first() == seed && p.last()
            == le;
    assert forall|i: int| 0 <= i < p.len() - 1 implies spec_step(b1, player, #[trigger] p[i], p[i + 1]) by {
        assert(spec_step(b2, player, p[i], p[i + 1]));
        lemma_step_monotone(b1, b2, player, p[i], p[i + 1]);
    }
    assert(is_step_path(b1, player, p));
    assert(in_group(b1, player, seed, le));
    assert(spec_edge(b1, le));
}

/// Distinct cells of a `w` by `h` grid have distinct row-major indices.
proof fn lemma_cell_index_injective(x1: int, y1: int, x2: int, y2: int, w: int, h: int)
    by (nonlinear_arith)
    requires
        0 <= x1 < w,
        0 <= y1 < h,
        0 <= x2 < w,
        0 <= y2 < h,
        !(x1 == x2 && y1 == y2),
    ensures
        x1 * h + y1 != x2 * h + y2,
{
}

/// The row-major index of a cell of a `w` by `h` grid lies below `w * h`.
proof fn lemma_cell_index_range(x: int, y: int, w: int, h: int)
    by (nonlinear_arith)
    requires
        0 <= x < w,
        0 <= y < h,
    ensures
        0 <= x * h + y < w * h,
{
}

/// A duplicate-free list of in-bounds coordinates of a `w` by `h` grid
/// cannot hold more entries than the grid has cells.
proof fn lemma_grid_seq_len(s: Seq<Location>, w: int, h: int)
    requires
        s.no_duplicates(),
        w >= 0,
        h >= 0,
        forall|j: int| 0 <= j < s.len() ==> 0 <= (#[trigger] s[j]).x < w && 0 <= s[j].y < h,
    ensures
        s.len() <= w * h,
{
    let f = |l: Location| l.x * h + l.y;
    let t = s.map_values(f);
    assert forall|i: int, j: int| 0 <= i < j < t.len() implies t[i] != t[j] by {
        lemma_cell_index_injective(
            s[i].x as int,
            s[i].y as int,
            s[j].x as int,
            s[j].y as int,
            w,
            h,
        );
    }
    assert(t.no_duplicates());
    t.unique_seq_to_set();
    assert forall|v: int| t.to_set().contains(v) implies vstd::set_lib::set_int_range(
        0,
        w * h,
    ).contains(v) by {
        let k = choose|k: int| 0 <= k < t.len() && t[k] == v;
        lemma_cell_index_range(s[k].x as int, s[k].y as int, w, h);
    }
    vstd::set_lib::lemma_int_range(0, w * h);
    vstd::set_lib::lemma_len_subset(t.to_set(), vstd::set_lib::set_int_range(0, w * h));
}

/// Every cell belongs to its own group: the one-entry walk witnesses it.
proof fn lemma_group_refl(b: Board, player: Player, seed: Location)
    ensures
        in_group(b, player, seed, seed),
{
    let p = seq![seed];
    assert(is_step_path(b, player, p));
    assert(p.first() == seed && p.last() == seed);
}

/// A group member stays a group member after one more step of the
/// same-color reachability graph.
proof fn lemma_group_step(b: Board, player: Player, seed: Location, v: Location, w: Location)
    requires
        in_group(b, player, seed, v),
        spec_step(b, player, v, w),
    ensures
        in_group(b, player, seed, w),
{
    let p = choose|p: Seq<Location>|
        #[trigger] is_step_path(b, player, p) && p.len() > 0 && p.first() == seed && p.last() == v;
    let q = p.push(w);
    assert forall|i: int| 0 <= i < q.len() - 1 implies spec_step(b, player, #[trigger] q[i], q[i + 1]) by {
        if i < p.len() - 1 {
            assert(spec_step(b, player, p[i], p[i + 1]));
        } else {
            assert(q[i] == v && q[i + 1] == w);
        }
    }
    assert(is_step_path(b, player, q));
    assert(q.first() == seed && q.last() == w);
}

/// Along a walk whose start lies in a step-closed set of cells, every
/// entry lies in that set.
proof fn lemma_path_covered(
    b: Board,
    player: Player,
    visited: Seq<Location>,
    p: Seq<Location>,
    i: int,
)
    requires
        is_step_path(b, player, p),
        p.len() > 0,
        visited.contains(p.first()),
        forall|v: Location, w: Location|
            visited.contains(v) && #[trigger] spec_step(b, player, v, w) ==> visited.contains(w),
        0 <= i < p.len(),
    ensures
        visited.contains(p[i]),
    decreases i,
{
    if i > 0 {
        lemma_path_covered(b, player, visited, p, i - 1);
        assert(spec_step(b, player, p[i - 1], p[i]));
    }
}

/// Every set of cells that holds the seed and is closed under the
/// same-color step relation covers the seed's whole group.
proof fn lemma_closed_set_covers_group(
    b: Board,
    player: Player,
    seed: Location,
    visited: Seq<Location>,
    to: Location,
)
    requires
        visited.contains(seed),
        forall|v: Location, w: Location|
            visited.contains(v) && #[trigger] spec_step(b, player, v, w) ==> visited.contains(w),
        in_group(b, player, seed, to),
    ensures
        visited.contains(to),
{
    let p = choose|p: Seq<Location>|
        #[trigger] is_step_path(b, player, p) && p.len() > 0 && p.first() == seed && p.last()
            == to;
    lemma_path_covered(b, player, visited, p, p.len() - 1);
}

/// Pushing a coordinate that is not yet present keeps a list
/// duplicate-free.
proof fn lemma_push_keeps_no_duplicates(s: Seq<Location>, c: Location)
    requires
        s.no_duplicates(),
        !s.contains(c),
    ensures
        s.push(c).no_duplicates(),
{
    let t = s.push(c);
    assert forall|a: int, b: int| 0 <= a < b < t.len() implies t[a] != t[b] by {
        if b == t.len() - 1 {
            assert(t[a] == s[a]);
            assert(s.contains(s[a]));
        }
    }
}

/// In a duplicate-free list, an element never occurs before its own
/// position.
proof fn lemma_no_dup_prefix_absent(s: Seq<Location>, i: int)
    requires
        s.no_duplicates(),
        0 <= i < s.len(),
    ensures
        !s.subrange(0, i).contains(s[i]),
{
    if s.subrange(0, i).contains(s[i]) {
        let j = choose|j: int| 0 <= j < i && s.subrange(0, i)[j] == s[i];
        assert(s[j] == s[i]);
    }
}

/// Linear membership test on a list of coordinates.
fn contains_loc(v: &Vec<Location>, l: &Location) -> (r: bool)
    ensures
        r == v@.contains(*l),
{
    let mut i: usize = 0;
    while i < v.len()
        invariant
            i <= v@.len(),
            forall|j: int| 0 <= j < i ==> v@[j] != *l,
        decreases v@.len() - i,
    {
        if v[i] == *l {
            return true;
        }
        i = i + 1;
    }
    false
}

/// Adds `l` to a duplicate-free list of coordinates if it is not there yet.
fn insert_legal(set: &mut Vec<Location>, l: Location)
    requires
        old(set)@.no_duplicates(),
    ensures
        final(set)@.no_duplicates(),
        forall|m: Location|
            #[trigger] final(set)@.contains(m) <==> old(set)@.contains(m) || m == l,
{
    if !contains_loc(set, &l) {
        set.push(l);
        assert(set@.drop_last() == old(set)@);
    }
}

/// Removes `l` from a duplicate-free list of coordinates, if present.
fn remove_legal(set: &mut Vec<Location>, l: &Location)
    requires
        old(set)@.no_duplicates(),
    ensures
        final(set)@.no_duplicates(),
        forall|m: Location|
            #[trigger] final(set)@.contains(m) <==> old(set)@.contains(m) && m != *l,
{
    let mut out: Vec<Location> = Vec::new();
    let mut i: usize = 0;
    while i < set.len()
        invariant
            i <= set@.len(),
            set@.no_duplicates(),
            out@.no_duplicates(),
            forall|m: Location|
                #[trigger] out@.contains(m) <==> set@.subrange(0, i as int).contains(m) && m != *l,
        decreases set@.len() - i,
    {
        let c = set[i];
        if !(c == *l) {
            assert(!set@.subrange(0, i as int).contains(c));
            proof {
                lemma_push_keeps_no_duplicates(out@, c);
            }
            out.push(c);
        }
        assert(set@.subrange(0, i as int).push(set@[i as int]) == set@.subrange(0, i + 1));
        i = i + 1;
    }
    assert(set@.subrange(0, set@.len() as int) == set@);
    *set = out;
}

/// Appends the cell at offset `(dx, dy)` from `center` to `acc` when it is
/// in bounds and not yet present.
fn push_offset_cell(board: &Board, acc: &mut Vec<Location>, center: &Location, dx: isize, dy: isize)
    requires
        board.wf(),
        board.spec_in_bounds(*center),
        -2 <= dx <= 2,
        -2 <= dy <= 2,
        old(acc)@.no_duplicates(),
    ensures
        final(acc)@.no_duplicates(),
        forall|l: Location|
            #[trigger] final(acc)@.contains(l) <==> old(acc)@.contains(l) || (board.spec_in_bounds(
                l,
            ) && l.x == center.x + dx && l.y == center.y + dy),
{
    let cell = Location { x: center.x + dx, y: center.y + dy };
    if board.in_bounds(&cell) {
        if !contains_loc(acc, &cell) {
            proof {
                lemma_push_keeps_no_duplicates(acc@, cell);
            }
            acc.push(cell);
        }
    }
}

/// The verdict of the edge-connectivity search is a function of the board
/// alone. `connection_to_edge` promises of any returned removal set that
/// it holds exactly the seed's connected component, so two removal sets
/// for the same seed on the same board hold exactly the same cells,
/// whatever order either traversal explored the neighbors in.
pub proof fn lemma_search_order_irrelevant(
    b: Board,
    player: Player,
    seed: Location,
    v1: Seq<Location>,
    v2: Seq<Location>,
)
    requires
        forall|l: Location| #[trigger] v1.contains(l) <==> in_group(b, player, seed, l),
        forall|l: Location| #[trigger] v2.contains(l) <==> in_group(b, player, seed, l),
    ensures
        forall|l: Location| #[trigger] v1.contains(l) <==> v2.contains(l),
{
}

/// Cloud membership never looks at the cell of the placement itself, so
/// two boards that agree everywhere but there have the same cloud.
proof fn lemma_cloud_ignores_center(b1: Board, b2: Board, c: Location, opp: Player, l: Location)
    requires
        b1.size_x == b2.size_x,
        b1.size_y == b2.size_y,
        forall|x: int, y: int|
            0 <= x < b1.size_x && 0 <= y < b1.size_y && !(x == c.x && y == c.y)
                ==> b1.spec_cell_xy(x, y) == b2.spec_cell_xy(x, y),
    ensures
        spec_cloud_member(b1, c, opp, l) == spec_cloud_member(b2, c, opp, l),
{
}

/// Adds to `set` every cell of `cells` that is currently empty on `board`.
fn extend_legal_with_empty(set: &mut Vec<Location>, board: &Board, cells: &Vec<Location>)
    requires
        board.wf(),
        old(set)@.no_duplicates(),
        forall|j: int| 0 <= j < cells@.len() ==> board.spec_in_bounds(#[trigger] cells@[j]),
    ensures
        final(set)@.no_duplicates(),
        forall|l: Location|
            #[trigger] final(set)@.contains(l) <==> old(set)@.contains(l) || (cells@.contains(l)
                && board.spec_cell(l) == BoardValue::Empty),
{
    let mut i: usize = 0;
    while i < cells.len()
        invariant
            i <= cells@.len(),
            board.wf(),
            forall|j: int| 0 <= j < cells@.len() ==> board.spec_in_bounds(#[trigger] cells@[j]),
            set@.no_duplicates(),
            forall|l: Location|
                #[trigger] set@.contains(l) <==> old(set)@.contains(l) || (cells@.subrange(
                    0,
                    i as int,
                ).contains(l) && board.spec_cell(l) == BoardValue::Empty),
        decreases cells@.len() - i,
    {
        let c = cells[i];
        proof {
            assert(cells@.contains(cells@[i as int]));
            assert(cells@.subrange(0, i as int).push(cells@[i as int]) == cells@.subrange(
                0,
                i + 1,
            ));
        }
        let is_empty = match board.get_at(&c) {
            Ok(BoardValue::Empty) => true,
            _ => false,
        };
        if is_empty {
            insert_legal(set, c);
        }
        i = i + 1;
    }
    proof {
        assert(cells@.subrange(0, cells@.len() as int) == cells@);
    }
}

/// Removes every cell of `cells` from `set`.
fn remove_all_legal(set: &mut Vec<Location>, cells: &Vec<Location>)
    requires
        old(set)@.no_duplicates(),
    ensures
        final(set)@.no_duplicates(),
        forall|l: Location|
            #[trigger] final(set)@.contains(l) <==> old(set)@.contains(l) && !cells@.contains(l),
{
    let mut i: usize = 0;
    while i < cells.len()
        invariant
            i <= cells@.len(),
            set@.no_duplicates(),
            forall|l: Location|
                #[trigger] set@.contains(l) <==> old(set)@.contains(l) && !cells@.subrange(
                    0,
                    i as int,
                ).contains(l),
        decreases cells@.len() - i,
    {
        proof {
            assert(cells@.subrange(0, i as int).push(cells@[i as int]) == cells@.subrange(
                0,
                i + 1,
            ));
        }
        remove_legal(set, &cells[i]);
        i = i + 1;
    }
    proof {
        assert(cells@.subrange(0, cells@.len() as int) == cells@);
    }
}

/// The rules engine: one grid, the side to move, and the legal-placement
/// set of each side, kept incrementally by `make_move`.
pub struct Position {
    pub board: Board,
    pub turn: Player,
    pub legal_white_moves: Vec<Location>,
    pub legal_black_moves: Vec<Location>,
}

impl Position {
    /// The legal-placement set of `p`, as a sequence of coordinates.
    pub open spec fn spec_legal_moves_of(self, p: Player) -> Seq<Location> {
        match p {
            Player::Black => self.legal_black_moves@,
            Player::White => self.legal_white_moves@,
        }
    }

    /// A legal-placement set is duplicate-free and holds only in-bounds,
    /// currently empty cells.
    pub open spec fn legal_set_ok(self, s: Seq<Location>) -> bool {
        &&& s.no_duplicates()
        &&& forall|l: Location|
            #[trigger] s.contains(l) ==> self.board.spec_in_bounds(l) && self.board.spec_cell(l)
                == BoardValue::Empty
    }

    /// Well-formed: the grid is well-formed and both legal-placement sets
    /// satisfy their invariant.
    pub open spec fn wf(self) -> bool {
        &&& self.board.wf()
        &&& self.legal_set_ok(self.legal_white_moves@)
        &&& self.legal_set_ok(self.legal_black_moves@)
    }

    /// Switches the current active player.
    pub fn next_turn(&mut self)
        ensures
            final(self).turn == old(self).turn.spec_switch(),
            final(self).board == old(self).board,
            final(self).legal_white_moves == old(self).legal_white_moves,
            final(self).legal_black_moves == old(self).legal_black_moves,
    {
        self.turn = self.turn.switch();
    }

    /// The candidate neighbors of `location`: its eight leap-offset
    /// translations, filtered to in-bounds cells. Edge and corner cells
    /// naturally have fewer candidates.
    pub fn connections_around(&self, location: &Location) -> (r: Vec<Location>)
        requires
            self.board.wf(),
            self.board.spec_in_bounds(*location),
        ensures
            r@.no_duplicates(),
            forall|l: Location|
                #[trigger] r@.contains(l) <==> spec_is_neighbor(self.board, *location, l),
    {
        let mut result: Vec<Location> = Vec::new();
        push_offset_cell(&self.board, &mut result, location, -2, 1);
        push_offset_cell(&self.board, &mut result, location, 2, 1);
        push_offset_cell(&self.board, &mut result, location, 2, -1);
        push_offset_cell(&self.board, &mut result, location, -2, -1);
        push_offset_cell(&self.board, &mut result, location, -1, 2);
        push_offset_cell(&self.board, &mut result, location, 1, 2);
        push_offset_cell(&self.board, &mut result, location, 1, -2);
        push_offset_cell(&self.board, &mut result, location, -1, -2);
        result
    }

    /// Decides whether the single leap from `from` to `to` is clear for
    /// `player` under the flanking rule. It does not check that a piece
    /// stands at `from`, nor that `to` is in bounds; a delta that is not a
    /// leap offset is simply not a connection.
    pub fn is_connection_between(&self, from: &Location, to: &Location, player: &Player) -> (r:
        Result<bool, RulesError>)
        requires
            self.board.wf(),
            self.board.spec_in_bounds(*from),
        ensures
            r == Ok::<bool, RulesError>(spec_connection_between(self.board, *from, *to, *player)),
    {
        let delta_x = match to.x.checked_sub(from.x) {
            Some(d) => d,
            None => {
                return Ok(false);
            },
        };
        let delta_y = match to.y.checked_sub(from.y) {
            Some(d) => d,
            None => {
                return Ok(false);
            },
        };

        let other_player = player.switch();
        let proxy = self.board.proxy(from);

        let clear = if delta_x == 2 && delta_y == 1 {
            !((proxy.is_color_at(&Location::new(0, 1), &other_player) || proxy.is_color_at(
                &Location::new(1, 1),
                &other_player,
            )) && (proxy.is_color_at(&Location::new(1, 0), &other_player) || proxy.is_color_at(
                &Location::new(2, 0),
                &other_player,
            )))
        } else if delta_x == 2 && delta_y == -1 {
            !((proxy.is_color_at(&Location::new(0, -1), &other_player) || proxy.is_color_at(
                &Location::new(1, -1),
                &other_player,
            )) && (proxy.is_color_at(&Location::new(1, 0), &other_player) || proxy.is_color_at(
                &Location::new(2, 0),
                &other_player,
            )))
        } else if delta_x == -2 && delta_y == 1 {
            !((proxy.is_color_at(&Location::new(0, 1), &other_player) || proxy.is_color_at(
                &Location::new(-1, 1),
                &other_player,
            )) && (proxy.is_color_at(&Location::new(-1, 0), &other_player) || proxy.is_color_at(
                &Location::new(-2, 0),
                &other_player,
            )))
        } else if delta_x == -2 && delta_y == -1 {
            !((proxy.is_color_at(&Location::new(0, -1), &other_player) || proxy.is_color_at(
                &Location::new(-1, -1),
                &other_player,
            )) && (proxy.is_color_at(&Location::new(-1, 0), &other_player) || proxy.is_color_at(
                &Location::new(-2, 0),
                &other_player,
            )))
        } else if delta_x == 1 && delta_y == 2 {
            !((proxy.is_color_at(&Location::new(1, 0), &other_player) || proxy.is_color_at(
                &Location::new(1, 1),
                &other_player,
            )) && (proxy.is_color_at(&Location::new(0, 1), &other_player) || proxy.is_color_at(
                &Location::new(0, 2),
                &other_player,
            )))
        } else if delta_x == 1 && delta_y == -2 {
            !((proxy.is_color_at(&Location::new(1, 0), &other_player) || proxy.is_color_at(
                &Location::new(1, -1),
                &other_player,
            )) && (proxy.is_color_at(&Location::new(0, -1), &other_player) || proxy.is_color_at(
                &Location::new(0, -2),
                &other_player,
            )))
        } else if delta_x == -1 && delta_y == 2 {
            !((proxy.is_color_at(&Location::new(-1, 0), &other_player) || proxy.is_color_at(
                &Location::new(-1, 1),
                &other_player,
            )) && (proxy.is_color_at(&Location::new(0, 1), &other_player) || proxy.is_color_at(
                &Location::new(0, 2),
                &other_player,
            )))
        } else if delta_x == -1 && delta_y == -2 {
            !((proxy.is_color_at(&Location::new(-1, 0), &other_player) || proxy.is_color_at(
                &Location::new(-1, -1),
                &other_player,
            )) && (proxy.is_color_at(&Location::new(0, -1), &other_player) || proxy.is_color_at(
                &Location::new(0, -2),
                &other_player,
            )))
        } else {
            false
        };
        Ok(clear)
    }

    /// The candidate neighbors of `location` whose leap from `location` is
    /// clear for `player`.
    pub fn get_reachable(&self, location: &Location, player: &Player) -> (r: Vec<Location>)
        requires
            self.board.wf(),
            self.board.spec_in_bounds(*location),
        ensures
            r@.no_duplicates(),
            forall|l: Location|
                #[trigger] r@.contains(l) <==> spec_reachable_member(
                    self.board,
                    *location,
                    *player,
                    l,
                ),
    {
        let around = self.connections_around(location);
        let mut result: Vec<Location> = Vec::new();
        let mut i: usize = 0;
        while i < around.len()
            invariant
                i <= around@.len(),
                self.board.wf(),
                self.board.spec_in_bounds(*location),
                around@.no_duplicates(),
                forall|l: Location|
                    #[trigger] around@.contains(l) <==> spec_is_neighbor(self.board, *location, l),
                result@.no_duplicates(),
                forall|l: Location|
                    #[trigger] result@.contains(l) <==> around@.subrange(0, i as int).contains(l)
                        && spec_connection_between(self.board, *location, l, *player),
            decreases around@.len() - i,
        {
            let square = around[i];
            let connected = match self.is_connection_between(location, &square, player) {
                Ok(b) => b,
                Err(_) => false,
            };
            proof {
                lemma_no_dup_prefix_absent(around@, i as int);
                assert(around@.subrange(0, i as int).push(around@[i as int]) == around@.subrange(
                    0,
                    i + 1,
                ));
            }
            if connected {
                proof {
                    lemma_push_keeps_no_duplicates(result@, square);
                }
                result.push(square);
            }
            i = i + 1;
        }
        proof {
            assert(around@.subrange(0, around@.len() as int) == around@);
        }
        result
    }

    /// The connection cloud of the piece at `location`: every in-bounds
    /// cell whose reachability the placement of that piece may have
    /// changed, derived from the opponent pieces at the twelve probed
    /// offsets around it. Fails with `InvalidCoordinate` when `location`
    /// is out of bounds or empty.
    #[verifier::rlimit(80)]
    pub fn get_connection_cloud(&self, location: &Location) -> (r: Result<Vec<Location>, RulesError>)
        requires
            self.board.wf(),
        ensures
            match r {
                Ok(v) => {
                    &&& self.board.spec_in_bounds(*location)
                    &&& self.board.spec_cell(*location) is Filled
                    &&& v@.no_duplicates()
                    &&& forall|l: Location|
                        #[trigger] v@.contains(l) <==> spec_cloud_member(
                            self.board,
                            *location,
                            self.board.spec_cell(*location)->Filled_0.spec_switch(),
                            l,
                        )
                },
                Err(e) => e == RulesError::InvalidCoordinate && !(self.board.spec_in_bounds(
                    *location,
                ) && self.board.spec_cell(*location) is Filled),
            },
    {
        let piece = match self.board.get_at(location) {
            Ok(v) => v,
            Err(e) => {
                return Err(e);
            },
        };
        let other_player = match piece {
            BoardValue::Filled(i) => i.switch(),
            BoardValue::Empty => {
                return Err(RulesError::InvalidCoordinate);
            },
        };

        let b = &self.board;
        let mut result: Vec<Location> = Vec::new();

        if b.is_color_at(&Location::new(location.x - 2, location.y), &other_player) {
            push_offset_cell(b, &mut result, location, 0, 1);
            push_offset_cell(b, &mut result, location, 0, -1);
        }
        if b.is_color_at(&Location::new(location.x - 1, location.y + 1), &other_player) {
            push_offset_cell(b, &mut result, location, 0, -1);
            push_offset_cell(b, &mut result, location, 1, 0);
        }
        if b.is_color_at(&Location::new(location.x - 1, location.y), &other_player) {
            push_offset_cell(b, &mut result, location, 1, 1);
            push_offset_cell(b, &mut result, location, 1, -1);
            push_offset_cell(b, &mut result, location, 0, 2);
            push_offset_cell(b, &mut result, location, 0, -2);
        }
        if b.is_color_at(&Location::new(location.x - 1, location.y - 1), &other_player) {
            push_offset_cell(b, &mut result, location, 1, 0);
            push_offset_cell(b, &mut result, location, 0, 1);
        }
        if b.is_color_at(&Location::new(location.x, location.y + 2), &other_player) {
            push_offset_cell(b, &mut result, location, -1, 0);
            push_offset_cell(b, &mut result, location, 1, 0);
        }
        if b.is_color_at(&Location::new(location.x, location.y + 1), &other_player) {
            push_offset_cell(b, &mut result, location, -1, -1);
            push_offset_cell(b, &mut result, location, 1, -1);
            push_offset_cell(b, &mut result, location, -2, 0);
            push_offset_cell(b, &mut result, location, 2, 0);
        }
        if b.is_color_at(&Location::new(location.x, location.y - 1), &other_player) {
            push_offset_cell(b, &mut result, location, 1, 1);
            push_offset_cell(b, &mut result, location, -1, 1);
            push_offset_cell(b, &mut result, location, -2, 0);
            push_offset_cell(b, &mut result, location, 2, 0);
        }
        if b.is_color_at(&Location::new(location.x, location.y - 2), &other_player) {
            push_offset_cell(b, &mut result, location, -1, 0);
            push_offset_cell(b, &mut result, location, 1, 0);
        }
        if b.is_color_at(&Location::new(location.x + 1, location.y + 1), &other_player) {
            push_offset_cell(b, &mut result, location, 0, -1);
            push_offset_cell(b, &mut result, location, -1, 0);
        }
        if b.is_color_at(&Location::new(location.x + 1, location.y), &other_player) {
            push_offset_cell(b, &mut result, location, -1, 1);
            push_offset_cell(b, &mut result, location, -1, -1);
            push_offset_cell(b, &mut result, location, 0, 2);
            push_offset_cell(b, &mut result, location, 0, -2);
        }
        if b.is_color_at(&Location::new(location.x + 1, location.y - 1), &other_player) {
            push_offset_cell(b, &mut result, location, 0, 1);
            push_offset_cell(b, &mut result, location, -1, 0);
        }
        if b.is_color_at(&Location::new(location.x + 2, location.y), &other_player) {
            push_offset_cell(b, &mut result, location, 0, 1);
            push_offset_cell(b, &mut result, location, 0, -1);
        }

        Ok(result)
    }

    /// True exactly when some `player` piece stands at a clear leap from
    /// `location`.
    fn has_reachable_piece(&self, location: &Location, player: &Player) -> (r: bool)
        requires
            self.board.wf(),
            self.board.spec_in_bounds(*location),
        ensures
            r == spec_opp_reaches(self.board, *player, *location),
    {
        let reach = self.get_reachable(location, player);
        let mut i: usize = 0;
        while i < reach.len()
            invariant
                i <= reach@.len(),
                self.board.wf(),
                self.board.spec_in_bounds(*location),
                forall|l: Location|
                    #[trigger] reach@.contains(l) <==> spec_reachable_member(
                        self.board,
                        *location,
                        *player,
                        l,
                    ),
                forall|j: int|
                    0 <= j < i ==> !self.board.spec_is_color_xy(
                        (#[trigger] reach@[j]).x as int,
                        reach@[j].y as int,
                        *player,
                    ),
            decreases reach@.len() - i,
        {
            if self.board.is_color_at(&reach[i], player) {
                proof {
                    assert(reach@.contains(reach@[i as int]));
                }
                return true;
            }
            i = i + 1;
        }
        proof {
            assert forall|n: Location| !(#[trigger] spec_reachable_member(
                self.board,
                *location,
                *player,
                n,
            ) && self.board.spec_is_color_xy(n.x as int, n.y as int, *player)) by {
                if spec_reachable_member(self.board, *location, *player, n) {
                    assert(reach@.contains(n));
                    let j = choose|j: int| 0 <= j < reach@.len() && reach@[j] == n;
                    assert(!self.board.spec_is_color_xy(reach@[j].x as int, reach@[j].y as int, *player));
                }
            }
        }
        false
    }

    /// The cut-off squares of the piece at `location`: the empty cells of
    /// its connection cloud that the opponent of that piece can no longer
    /// reach by any clear leap. Fails with `InvalidCoordinate` when
    /// `location` is out of bounds or empty.
    pub fn get_cut_off_squares(&self, location: &Location) -> (r: Result<Vec<Location>, RulesError>)
        requires
            self.board.wf(),
        ensures
            match r {
                Ok(v) => {
                    &&& self.board.spec_in_bounds(*location)
                    &&& self.board.spec_cell(*location) is Filled
                    &&& v@.no_duplicates()
                    &&& forall|l: Location|
                        #[trigger] v@.contains(l) <==> spec_cut_off(
                            self.board,
                            *location,
                            self.board.spec_cell(*location)->Filled_0.spec_switch(),
                            l,
                        )
                },
                Err(e) => e == RulesError::InvalidCoordinate && !(self.board.spec_in_bounds(
                    *location,
                ) && self.board.spec_cell(*location) is Filled),
            },
    {
        let piece = match self.board.get_at(location) {
            Ok(v) => v,
            Err(e) => {
                return Err(e);
            },
        };
        let other_player = match piece {
            BoardValue::Filled(i) => i.switch(),
            BoardValue::Empty => {
                return Err(RulesError::InvalidCoordinate);
            },
        };
        let cloud = match self.get_connection_cloud(location) {
            Ok(v) => v,
            Err(e) => {
                return Err(e);
            },
        };

        let ghost opp = self.board.spec_cell(*location)->Filled_0.spec_switch();
        let mut result: Vec<Location> = Vec::new();
        let mut i: usize = 0;
        while i < cloud.len()
            invariant
                i <= cloud@.len(),
                self.board.wf(),
                other_player == opp,
                cloud@.no_duplicates(),
                forall|l: Location|
                    #[trigger] cloud@.contains(l) <==> spec_cloud_member(
                        self.board,
                        *location,
                        opp,
                        l,
                    ),
                result@.no_duplicates(),
                forall|l: Location|
                    #[trigger] result@.contains(l) <==> cloud@.subrange(0, i as int).contains(l)
                        && self.board.spec_cell(l) == BoardValue::Empty && !spec_opp_reaches(
                        self.board,
                        opp,
                        l,
                    ),
            decreases cloud@.len() - i,
        {
            let cl = cloud[i];
            proof {
                assert(cloud@.contains(cloud@[i as int]));
                lemma_no_dup_prefix_absent(cloud@, i as int);
                assert(cloud@.subrange(0, i as int).push(cloud@[i as int]) == cloud@.subrange(
                    0,
                    i + 1,
                ));
            }
            let is_empty = match self.board.get_at(&cl) {
                Ok(BoardValue::Empty) => true,
                _ => false,
            };
            if is_empty {
                if !self.has_reachable_piece(&cl, &other_player) {
                    proof {
                        lemma_push_keeps_no_duplicates(result@, cl);
                    }
                    result.push(cl);
                }
            }
            i = i + 1;
        }
        proof {
            assert(cloud@.subrange(0, cloud@.len() as int) == cloud@);
        }
        Ok(result)
    }

    /// Edge-connectivity search. Starting from the piece at `location`, a
    /// depth-first traversal explores the same-color reachability graph.
    /// `Ok(None)` means the group touches the outer border and is safe;
    /// `Ok(Some(v))` means it does not, and `v` is the entire connected
    /// component, every piece of which may be removed with certainty.
    /// Fails with `InvalidCoordinate` when `location` is out of bounds or
    /// empty.
    pub fn connection_to_edge(&self, location: &Location) -> (r: Result<
        Option<Vec<Location>>,
        RulesError,
    >)
        requires
            self.board.wf(),
        ensures
            match r {
                Ok(opt) => {
                    &&& self.board.spec_in_bounds(*location)
                    &&& self.board.spec_cell(*location) is Filled
                    &&& match opt {
                        None => group_reaches_edge(
                            self.board,
                            self.board.spec_cell(*location)->Filled_0,
                            *location,
                        ),
                        Some(v) => {
                            &&& !group_reaches_edge(
                                self.board,
                                self.board.spec_cell(*location)->Filled_0,
                                *location,
                            )
                            &&& v@.no_duplicates()
                            &&& forall|l: Location|
                                #[trigger] v@.contains(l) <==> in_group(
                                    self.board,
                                    self.board.spec_cell(*location)->Filled_0,
                                    *location,
                                    l,
                                )
                            &&& forall|l: Location|
                                #[trigger] v@.contains(l) ==> self.board.spec_is_color_xy(
                                    l.x as int,
                                    l.y as int,
                                    self.board.spec_cell(*location)->Filled_0,
                                )
                        },
                    }
                },
                Err(e) => e == RulesError::InvalidCoordinate && !(self.board.spec_in_bounds(
                    *location,
                ) && self.board.spec_cell(*location) is Filled),
            },
    {
        let piece = match self.board.get_at(location) {
            Ok(v) => v,
            Err(e) => {
                return Err(e);
            },
        };
        let player = match piece {
            BoardValue::Filled(i) => i,
            BoardValue::Empty => {
                return Err(RulesError::InvalidCoordinate);
            },
        };

        let ghost b = self.board;
        let ghost seed = *location;

        let mut visited: Vec<Location> = Vec::new();
        let mut trace_stack: Vec<Location> = Vec::new();
        trace_stack.push(*location);

        proof {
            lemma_group_refl(b, player, seed);
        }

        loop
            invariant
                self.board == b,
                seed == *location,
                b.wf(),
                b.spec_in_bounds(seed),
                b.spec_cell(seed) == BoardValue::Filled(player),
                visited@.no_duplicates(),
                forall|j: int|
                    0 <= j < visited@.len() ==> in_group(b, player, seed, #[trigger] visited@[j])
                        && b.spec_in_bounds(visited@[j]) && !spec_edge(b, visited@[j])
                        && b.spec_is_color_xy(
                        visited@[j].x as int,
                        visited@[j].y as int,
                        player,
                    ),
                forall|j: int|
                    0 <= j < trace_stack@.len() ==> in_group(
                        b,
                        player,
                        seed,
                        #[trigger] trace_stack@[j],
                    ) && b.spec_in_bounds(trace_stack@[j]) && (b.spec_is_color_xy(
                        trace_stack@[j].x as int,
                        trace_stack@[j].y as int,
                        player,
                    ) || trace_stack@[j] == seed),
                forall|v: Location, w: Location|
                    visited@.contains(v) && #[trigger] spec_step(b, player, v, w)
                        ==> visited@.contains(w) || trace_stack@.contains(w),
                visited@.contains(seed) || trace_stack@.contains(seed),
            ensures
                trace_stack@.len() == 0,
            decreases b.size_x * b.size_y - visited@.len(), trace_stack@.len(),
        {
            let ghost old_stack = trace_stack@;
            let coordinate = match trace_stack.pop() {
                Some(c) => c,
                None => {
                    break ;
                },
            };
            proof {
                assert(old_stack[old_stack.len() - 1] == coordinate);
                assert(old_stack.contains(coordinate));
            }

            if contains_loc(&visited, &coordinate) {
                proof {
                    assert forall|w: Location| old_stack.contains(w) implies visited@.contains(w)
                        || trace_stack@.contains(w) by {
                        let j = choose|j: int| 0 <= j < old_stack.len() && old_stack[j] == w;
                        if j < old_stack.len() - 1 {
                            assert(trace_stack@[j] == w);
                        } else {
                            assert(w == coordinate);
                        }
                    }
                }
                continue ;
            }

            let last_x = (self.board.size_x - 1) as isize;
            let last_y = (self.board.size_y - 1) as isize;
            if coordinate.x == 0 || coordinate.x == last_x || coordinate.y == 0 || coordinate.y
                == last_y {
                proof {
                    assert(spec_edge(b, coordinate));
                    assert(group_reaches_edge(b, player, seed));
                }
                return Ok(None);
            }

            proof {
                lemma_push_keeps_no_duplicates(visited@, coordinate);
            }
            visited.push(coordinate);
            proof {
                lemma_grid_seq_len(visited@, b.size_x as int, b.size_y as int);
                assert(visited@[visited@.len() - 1] == coordinate);
                assert(visited@.contains(coordinate));
                assert forall|w: Location| old_stack.contains(w) implies visited@.contains(w)
                    || trace_stack@.contains(w) by {
                    let j = choose|j: int| 0 <= j < old_stack.len() && old_stack[j] == w;
                    if j < old_stack.len() - 1 {
                        assert(trace_stack@[j] == w);
                    } else {
                        assert(w == coordinate);
                    }
                }
            }

            let reach = self.get_reachable(&coordinate, &player);
            let mut k: usize = 0;
            while k < reach.len()
                invariant
                    k <= reach@.len(),
                    self.board == b,
                    b.wf(),
                    b.spec_in_bounds(seed),
                    b.spec_cell(seed) == BoardValue::Filled(player),
                    in_group(b, player, seed, coordinate),
                    forall|l: Location|
                        #[trigger] reach@.contains(l) <==> spec_reachable_member(
                            b,
                            coordinate,
                            player,
                            l,
                        ),
                    visited@.no_duplicates(),
                    forall|j: int|
                        0 <= j < visited@.len() ==> in_group(
                            b,
                            player,
                            seed,
                            #[trigger] visited@[j],
                        ) && b.spec_in_bounds(visited@[j]) && !spec_edge(b, visited@[j])
                            && b.spec_is_color_xy(
                            visited@[j].x as int,
                            visited@[j].y as int,
                            player,
                        ),
                    forall|j: int|
                        0 <= j < trace_stack@.len() ==> in_group(
                            b,
                            player,
                            seed,
                            #[trigger] trace_stack@[j],
                        ) && b.spec_in_bounds(trace_stack@[j]) && (b.spec_is_color_xy(
                            trace_stack@[j].x as int,
                            trace_stack@[j].y as int,
                            player,
                        ) || trace_stack@[j] == seed),
                    forall|v: Location, w: Location|
                        visited@.contains(v) && #[trigger] spec_step(b, player, v, w) && v
                            != coordinate ==> visited@.contains(w) || trace_stack@.contains(w),
                    forall|j: int|
                        0 <= j < k ==> !b.spec_is_color_xy(
                            (#[trigger] reach@[j]).x as int,
                            reach@[j].y as int,
                            player,
                        ) || visited@.contains(reach@[j]) || trace_stack@.contains(reach@[j]),
                    visited@.contains(seed) || trace_stack@.contains(seed),
                decreases reach@.len() - k,
            {
                let n = reach[k];
                proof {
                    assert(reach@.contains(reach@[k as int]));
                }
                if self.board.is_color_at(&n, &player) {
                    if !contains_loc(&visited, &n) {
                        proof {
                            assert(spec_step(b, player, coordinate, n));
                            lemma_group_step(b, player, seed, coordinate, n);
                        }
                        trace_stack.push(n);
                    }
                }
                k = k + 1;
            }

            proof {
                assert forall|v: Location, w: Location|
                    visited@.contains(v) && #[trigger] spec_step(b, player, v, w) implies visited@.contains(
                    w,
                ) || trace_stack@.contains(w) by {
                    if v == coordinate {
                        assert(spec_reachable_member(b, coordinate, player, w));
                        assert(reach@.contains(w));
                        let j = choose|j: int| 0 <= j < reach@.len() && reach@[j] == w;
                        assert(b.spec_is_color_xy(reach@[j].x as int, reach@[j].y as int, player));
                    }
                }
            }
        }

        proof {
            assert forall|l: Location| #[trigger] in_group(b, player, seed, l) implies visited@.contains(
                l,
            ) by {
                lemma_closed_set_covers_group(b, player, seed, visited@, l);
            }
            assert forall|l: Location| #[trigger] visited@.contains(l) implies in_group(
                b,
                player,
                seed,
                l,
            ) && b.spec_is_color_xy(l.x as int, l.y as int, player) && !spec_edge(b, l) by {
                let j = choose|j: int| 0 <= j < visited@.len() && visited@[j] == l;
            }
            assert(!group_reaches_edge(b, player, seed)) by {
                if group_reaches_edge(b, player, seed) {
                    let l = choose|l: Location| in_group(b, player, seed, l) && spec_edge(b, l);
                    assert(visited@.contains(l));
                }
            }
        }

        Ok(Some(visited))
    }

    /// Clears every cell of a captured group from the grid. The legal-move
    /// sets are deliberately left alone: captured cells do not re-enter
    /// either side's legal-placement set.
    pub fn capture_piece(&mut self, _location: &Location, pieces_to_remove: Vec<Location>) -> (r:
        Result<(), RulesError>)
        requires
            old(self).board.wf(),
            forall|j: int|
                0 <= j < pieces_to_remove@.len() ==> old(self).board.spec_in_bounds(
                    #[trigger] pieces_to_remove@[j],
                ),
        ensures
            r is Ok,
            final(self).board.wf(),
            final(self).turn == old(self).turn,
            final(self).legal_white_moves == old(self).legal_white_moves,
            final(self).legal_black_moves == old(self).legal_black_moves,
            final(self).board.size_x == old(self).board.size_x,
            final(self).board.size_y == old(self).board.size_y,
            forall|l: Location|
                old(self).board.spec_in_bounds(l) ==> #[trigger] final(self).board.spec_cell(l)
                    == if pieces_to_remove@.contains(l) {
                    BoardValue::Empty
                } else {
                    old(self).board.spec_cell(l)
                },
    {
        let mut i: usize = 0;
        while i < pieces_to_remove.len()
            invariant
                i <= pieces_to_remove@.len(),
                self.board.wf(),
                self.turn == old(self).turn,
                self.legal_white_moves == old(self).legal_white_moves,
                self.legal_black_moves == old(self).legal_black_moves,
                self.board.size_x == old(self).board.size_x,
                self.board.size_y == old(self).board.size_y,
                forall|j: int|
                    0 <= j < pieces_to_remove@.len() ==> old(self).board.spec_in_bounds(
                        #[trigger] pieces_to_remove@[j],
                    ),
                forall|l: Location|
                    old(self).board.spec_in_bounds(l) ==> #[trigger] self.board.spec_cell(l)
                        == if pieces_to_remove@.subrange(0, i as int).contains(l) {
                        BoardValue::Empty
                    } else {
                        old(self).board.spec_cell(l)
                    },
            decreases pieces_to_remove@.len() - i,
        {
            let piece = pieces_to_remove[i];
            proof {
                assert(pieces_to_remove@.subrange(0, i as int).push(
                    pieces_to_remove@[i as int],
                ) == pieces_to_remove@.subrange(0, i + 1));
            }
            let ghost pre = self.board;
            match self.board.clear_at(&piece) {
                Ok(_) => (),
                Err(e) => {
                    return Err(e);
                },
            }
            proof {
                assert forall|l: Location| old(self).board.spec_in_bounds(l) implies #[trigger] self.board.spec_cell(
                    l,
                ) == if pieces_to_remove@.subrange(0, i + 1).contains(l) {
                    BoardValue::Empty
                } else {
                    old(self).board.spec_cell(l)
                } by {
                    assert(pre.spec_cell(l) == pre.spec_cell_xy(l.x as int, l.y as int));
                    if l == piece {
                        assert(self.board.spec_cell(l) == BoardValue::Empty);
                    } else {
                        assert(!(l.x as int == piece.x as int && l.y as int == piece.y as int));
                        assert(self.board.spec_cell_xy(l.x as int, l.y as int)
                            == pre.spec_cell_xy(l.x as int, l.y as int));
                    }
                }
            }
            i = i + 1;
        }
        proof {
            assert(pieces_to_remove@.subrange(0, pieces_to_remove@.len() as int)
                == pieces_to_remove@);
        }
        Ok(())
    }

    /// One placement by the side to move. The move is rejected with
    /// `IllegalMove`, and nothing changes, unless `location` lies in the
    /// mover's legal-placement set. A legal placement occupies the cell,
    /// opens the empty cells the new piece can leap to for the mover,
    /// closes the placed cell for both sides and the cut-off squares for
    /// the opponent, captures every opponent group in the connection cloud
    /// that the placement disconnected from the board edge, and hands the
    /// turn to the opponent.
    pub fn make_move(&mut self, location: Location) -> (r: Result<(), RulesError>)
        requires
            old(self).wf(),
        ensures
            final(self).wf(),
            (r is Ok) <==> old(self).spec_legal_moves_of(old(self).turn).contains(location),
            r is Err ==> *final(self) == *old(self) && r == Err::<(), RulesError>(
                RulesError::IllegalMove,
            ),
            r is Ok ==> {
                let mover = old(self).turn;
                let opp = mover.spec_switch();
                &&& final(self).turn == opp
                &&& final(self).board.size_x == old(self).board.size_x
                &&& final(self).board.size_y == old(self).board.size_y
                &&& final(self).board.spec_cell(location) == BoardValue::Filled(mover)
                &&& !final(self).legal_white_moves@.contains(location)
                &&& !final(self).legal_black_moves@.contains(location)
                &&& forall|l: Location|
                    old(self).board.spec_in_bounds(l) && l != location
                        ==> final(self).board.spec_cell(l) == old(self).board.spec_cell(l)
                        || (final(self).board.spec_cell(l) == BoardValue::Empty
                        && old(self).board.spec_cell(l) == BoardValue::Filled(opp))
                &&& forall|l: Location|
                    #[trigger] final(self).spec_legal_moves_of(opp).contains(l)
                        ==> old(self).spec_legal_moves_of(opp).contains(l) && l != location
                &&& forall|l: Location|
                    old(self).spec_legal_moves_of(opp).contains(l) && l != location
                        && !spec_cloud_member(old(self).board, location, opp, l)
                        ==> #[trigger] final(self).spec_legal_moves_of(opp).contains(l)
                &&& forall|l: Location|
                    old(self).spec_legal_moves_of(mover).contains(l) && l != location
                        ==> #[trigger] final(self).spec_legal_moves_of(mover).contains(l)
                &&& forall|l: Location|
                    #[trigger] final(self).spec_legal_moves_of(mover).contains(l)
                        ==> (old(self).spec_legal_moves_of(mover).contains(l)
                        || spec_is_leap(l.x - location.x, l.y - location.y)) && l != location
                &&& (forall|l: Location|
                    !(#[trigger] spec_cloud_member(old(self).board, location, opp, l)
                        && old(self).board.spec_cell(l) == BoardValue::Filled(opp)))
                    ==> (forall|l: Location|
                    old(self).board.spec_in_bounds(l) && l != location
                        ==> #[trigger] final(self).board.spec_cell(l)
                        == old(self).board.spec_cell(l))
                &&& forall|b1: Board, l: Location|
                    spec_placed_board(old(self).board, location, mover, b1)
                        && spec_cloud_member(old(self).board, location, opp, l)
                        && old(self).board.spec_cell(l) == BoardValue::Filled(opp)
                        && !(#[trigger] group_reaches_edge(b1, opp, l))
                        ==> final(self).board.spec_cell(l) == BoardValue::Empty
            },
    {
        let mover = self.turn;

        // move validation
        if !contains_loc(self.legal_moves(), &location) {
            return Err(RulesError::IllegalMove);
        }
        proof {
            assert(old(self).spec_legal_moves_of(mover).contains(location));
        }

        // piece insertion
        match self.board.insert_piece(&mover, &location) {
            Ok(_) => (),
            Err(_) => {
                return Err(RulesError::IllegalMove);
            },
        }
        let ghost board_after_insert = self.board;

        // newly reachable empty cells become legal placements for the mover
        let reach = self.get_reachable(&location, &mover);
        proof {
            assert forall|j: int| 0 <= j < reach@.len() implies self.board.spec_in_bounds(
                #[trigger] reach@[j],
            ) by {
                assert(reach@.contains(reach@[j]));
            }
        }
        match mover {
            Player::Black => extend_legal_with_empty(
                &mut self.legal_black_moves,
                &self.board,
                &reach,
            ),
            Player::White => extend_legal_with_empty(
                &mut self.legal_white_moves,
                &self.board,
                &reach,
            ),
        }

        // the occupied cell leaves both legal-placement sets
        remove_legal(&mut self.legal_white_moves, &location);
        remove_legal(&mut self.legal_black_moves, &location);

        // cut-off squares leave the opponent's legal-placement set
        let cut = match self.get_cut_off_squares(&location) {
            Ok(v) => v,
            Err(e) => {
                return Err(e);
            },
        };
        match mover {
            Player::Black => remove_all_legal(&mut self.legal_white_moves, &cut),
            Player::White => remove_all_legal(&mut self.legal_black_moves, &cut),
        }
        proof {
            assert forall|l: Location| #[trigger] cut@.contains(l) implies spec_cloud_member(
                old(self).board,
                location,
                mover.spec_switch(),
                l,
            ) by {
                lemma_cloud_ignores_center(
                    board_after_insert,
                    old(self).board,
                    location,
                    mover.spec_switch(),
                    l,
                );
            }
        }

        // capturing: every opponent piece of the connection cloud whose
        // group the placement disconnected from the edge falls
        let other_player = mover.switch();
        let cloud = match self.get_connection_cloud(&location) {
            Ok(v) => v,
            Err(e) => {
                return Err(e);
            },
        };
        let mut seeds: Vec<Location> = Vec::new();
        let mut i: usize = 0;
        while i < cloud.len()
            invariant
                i <= cloud@.len(),
                self.board.wf(),
                self.board == board_after_insert,
                other_player == mover.spec_switch(),
                forall|l: Location|
                    #[trigger] cloud@.contains(l) ==> self.board.spec_in_bounds(l),
                forall|j: int|
                    0 <= j < seeds@.len() ==> self.board.spec_in_bounds(#[trigger] seeds@[j])
                        && cloud@.contains(seeds@[j]) && self.board.spec_is_color_xy(
                        seeds@[j].x as int,
                        seeds@[j].y as int,
                        other_player,
                    ),
                forall|l: Location|
                    cloud@.subrange(0, i as int).contains(l) && self.board.spec_is_color_xy(
                        l.x as int,
                        l.y as int,
                        other_player,
                    ) ==> #[trigger] seeds@.contains(l),
            decreases cloud@.len() - i,
        {
            proof {
                assert(cloud@.contains(cloud@[i as int]));
                assert(cloud@.subrange(0, i as int).push(cloud@[i as int]) == cloud@.subrange(
                    0,
                    i + 1,
                ));
            }
            if self.board.is_color_at(&cloud[i], &other_player) {
                seeds.push(cloud[i]);
            }
            i = i + 1;
        }
        proof {
            assert(cloud@.subrange(0, cloud@.len() as int) == cloud@);
        }

        let ghost mid = *self;
        let mut k: usize = 0;
        while k < seeds.len()
            invariant
                k <= seeds@.len(),
                self.board.wf(),
                self.turn == mid.turn,
                self.legal_white_moves == mid.legal_white_moves,
                self.legal_black_moves == mid.legal_black_moves,
                self.board.size_x == mid.board.size_x,
                self.board.size_y == mid.board.size_y,
                mid.board == board_after_insert,
                mid.board.wf(),
                other_player == mover.spec_switch(),
                board_after_insert.spec_in_bounds(location),
                board_after_insert.spec_cell(location) == BoardValue::Filled(mover),
                forall|j: int|
                    0 <= j < seeds@.len() ==> mid.board.spec_in_bounds(#[trigger] seeds@[j])
                        && mid.board.spec_is_color_xy(
                        (#[trigger] seeds@[j]).x as int,
                        seeds@[j].y as int,
                        other_player,
                    ),
                self.board.spec_cell(location) == BoardValue::Filled(mover),
                seeds@.len() == 0 ==> self.board == mid.board,
                forall|j: int|
                    0 <= j < k && !group_reaches_edge(
                        board_after_insert,
                        other_player,
                        #[trigger] seeds@[j],
                    ) ==> self.board.spec_cell(seeds@[j]) == BoardValue::Empty,
                forall|l: Location|
                    mid.board.spec_in_bounds(l) && l != location ==> #[trigger] self.board.spec_cell(
                        l,
                    ) == mid.board.spec_cell(l) || (self.board.spec_cell(l) == BoardValue::Empty
                        && mid.board.spec_cell(l) == BoardValue::Filled(mover.spec_switch())),
            decreases seeds@.len() - k,
        {
            let seed = seeds[k];
            let ghost cur = self.board;
            proof {
                // the current grid relates to the as-placed grid by capture
                // alone: cells agree, except where an opponent piece fell
                assert forall|l: Location| board_after_insert.spec_in_bounds(l) implies #[trigger] cur.spec_cell(
                    l,
                ) == board_after_insert.spec_cell(l) || (cur.spec_cell(l) == BoardValue::Empty
                    && board_after_insert.spec_cell(l) == BoardValue::Filled(other_player)) by {
                    if l != location {
                        assert(self.board.spec_cell(l) == mid.board.spec_cell(l) || (
                        self.board.spec_cell(l) == BoardValue::Empty && mid.board.spec_cell(l)
                            == BoardValue::Filled(mover.spec_switch())));
                    }
                }
            }
            if self.board.is_color_at(&seed, &other_player) {
                match self.connection_to_edge(&seed) {
                    Ok(Some(pieces)) => {
                        proof {
                            assert forall|j: int|
                                0 <= j < pieces@.len() implies self.board.spec_in_bounds(
                                #[trigger] pieces@[j],
                            ) by {
                                assert(pieces@.contains(pieces@[j]));
                            }
                            assert forall|l: Location| #[trigger] pieces@.contains(l) implies l
                                != location && self.board.spec_cell(l) == BoardValue::Filled(
                                mover.spec_switch(),
                            ) by {
                                assert(self.board.spec_is_color_xy(
                                    l.x as int,
                                    l.y as int,
                                    mover.spec_switch(),
                                ));
                            }
                            // the seed belongs to its own group, so it falls
                            lemma_group_refl(cur, other_player, seed);
                            assert(pieces@.contains(seed));
                        }
                        match self.capture_piece(&seed, pieces) {
                            Ok(_) => (),
                            Err(e) => {
                                return Err(e);
                            },
                        }
                        proof {
                            assert(self.board.spec_cell(seed) == BoardValue::Empty);
                        }
                    },
                    Ok(None) => {
                        proof {
                            // the verdict says this group still touches the
                            // border now, so it did on the as-placed grid too
                            assert(group_reaches_edge(cur, other_player, seed));
                            lemma_reach_monotone(board_after_insert, cur, other_player, seed);
                        }
                    },
                    Err(e) => {
                        return Err(e);
                    },
                }
            } else {
                proof {
                    // the seed held an opponent piece right after placement;
                    // if it no longer does, an earlier capture emptied it
                    assert(seed != location);
                    assert(cur.spec_cell(seed) == BoardValue::Empty);
                }
            }
            k = k + 1;
        }

        proof {
            // every opponent cloud piece whose group the placement cut off
            // from the border has fallen by now
            assert forall|b1: Board, l: Location|
                spec_placed_board(old(self).board, location, mover, b1) && spec_cloud_member(
                    old(self).board,
                    location,
                    mover.spec_switch(),
                    l,
                ) && old(self).board.spec_cell(l) == BoardValue::Filled(mover.spec_switch()) && !(
                #[trigger] group_reaches_edge(
                    b1,
                    mover.spec_switch(),
                    l,
                )) implies self.board.spec_cell(l) == BoardValue::Empty by {
                lemma_cloud_ignores_center(
                    board_after_insert,
                    old(self).board,
                    location,
                    mover.spec_switch(),
                    l,
                );
                assert(spec_cloud_member(board_after_insert, location, mover.spec_switch(), l));
                assert(l != location);
                assert(board_after_insert.spec_cell(l) == old(self).board.spec_cell(l));
                assert(cloud@.contains(l));
                assert(board_after_insert.spec_is_color_xy(
                    l.x as int,
                    l.y as int,
                    mover.spec_switch(),
                ));
                assert(seeds@.contains(l));
                let j = choose|j: int| 0 <= j < seeds@.len() && seeds@[j] == l;
                // any grid with exactly the placement added agrees with the
                // as-placed grid, so the group is cut off there as well
                assert(!group_reaches_edge(board_after_insert, mover.spec_switch(), l)) by {
                    if group_reaches_edge(board_after_insert, mover.spec_switch(), l) {
                        assert forall|l2: Location| b1.spec_in_bounds(l2) implies #[trigger] board_after_insert.spec_cell(
                            l2,
                        ) == b1.spec_cell(l2) || (board_after_insert.spec_cell(l2)
                            == BoardValue::Empty && b1.spec_cell(l2) == BoardValue::Filled(
                            mover.spec_switch(),
                        )) by {
                            if l2 != location {
                                assert(b1.spec_cell(l2) == old(self).board.spec_cell(l2));
                                assert(board_after_insert.spec_cell(l2)
                                    == old(self).board.spec_cell(l2));
                            }
                        }
                        lemma_reach_monotone(
                            b1,
                            board_after_insert,
                            mover.spec_switch(),
                            l,
                        );
                    }
                }
                assert(seeds@[j] == l);
            }

            // with no opponent piece in the cloud there was nothing to
            // capture, and the board changed only at the placed cell
            if forall|l: Location|
                !(#[trigger] spec_cloud_member(old(self).board, location, mover.spec_switch(), l)
                    && old(self).board.spec_cell(l) == BoardValue::Filled(mover.spec_switch())) {
                assert(seeds@.len() == 0) by {
                    if seeds@.len() > 0 {
                        let s = seeds@[0];
                        assert(cloud@.contains(s));
                        lemma_cloud_ignores_center(
                            board_after_insert,
                            old(self).board,
                            location,
                            mover.spec_switch(),
                            s,
                        );
                        assert(spec_cloud_member(
                            old(self).board,
                            location,
                            mover.spec_switch(),
                            s,
                        ));
                        assert(s != location);
                        assert(old(self).board.spec_cell(s) == BoardValue::Filled(
                            mover.spec_switch(),
                        ));
                    }
                }
            }
        }

        // wrapping up
        self.next_turn();

        Ok(())
    }

    /// The legal-placement set of the current active player, for reading.
    pub fn legal_moves(&self) -> (r: &Vec<Location>)
        ensures
            r@ == self.spec_legal_moves_of(self.turn),
    {
        match self.turn {
            Player::Black => &self.legal_black_moves,
            Player::White => &self.legal_white_moves,
        }
    }
}

impl Default for Position {
    /// A fresh game: the default empty grid, `Black` to move, and every
    /// border cell a legal first placement for either side.
    fn default() -> (r: Self)
        ensures
            r.wf(),
            r.turn == Player::Black,
            r.board.size_x == 13,
            r.board.size_y == 13,
            forall|x: int, y: int|
                0 <= x < 13 && 0 <= y < 13 ==> r.board.spec_cell_xy(x, y) == BoardValue::Empty,
            forall|l: Location|
                #[trigger] r.legal_white_moves@.contains(l) <==> spec_edge(r.board, l),
            forall|l: Location|
                #[trigger] r.legal_black_moves@.contains(l) <==> spec_edge(r.board, l),
    {
        let board = Board::default();
        let mut edges: Vec<Location> = Vec::new();

        let mut x: usize = 0;
        while x < board.size_x
            invariant
                x <= board.size_x,
                board.size_x == 13,
                board.size_y == 13,
                edges@.no_duplicates(),
                forall|l: Location|
                    #[trigger] edges@.contains(l) <==> 0 <= l.x < x && (l.y == 0 || l.y == 12),
            decreases board.size_x - x,
        {
            insert_legal(&mut edges, Location::new(x as isize, 0));
            insert_legal(&mut edges, Location::new(x as isize, (board.size_y - 1) as isize));
            x = x + 1;
        }

        let mut y: usize = 1;
        while y < board.size_y - 1
            invariant
                1 <= y <= board.size_y - 1,
                board.size_x == 13,
                board.size_y == 13,
                edges@.no_duplicates(),
                forall|l: Location|
                    #[trigger] edges@.contains(l) <==> (0 <= l.x < 13 && (l.y == 0 || l.y == 12))
                        || ((l.x == 0 || l.x == 12) && 1 <= l.y < y),
            decreases board.size_y - 1 - y,
        {
            insert_legal(&mut edges, Location::new(0, y as isize));
            insert_legal(&mut edges, Location::new((board.size_x - 1) as isize, y as isize));
            y = y + 1;
        }

        let legal_white_moves = edges.clone();
        assert(legal_white_moves@ == edges@);

        Position { board, turn: Player::Black, legal_white_moves, legal_black_moves: edges }
    }
}

} // verus!
