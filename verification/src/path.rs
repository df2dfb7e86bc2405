use vstd::prelude::*;
use crate::board::{Board, BoardTile};
use crate::enums::Direction;
use std::collections::VecDeque;

verus! {

/// A board cell, as (row, column).
pub type Cell = (usize, usize);

// ---------------------------------------------------------------------------
// The grid graph
// ---------------------------------------------------------------------------

/// The four candidate neighbours of `c` on a `w` x `h` board, in the order
/// up, down, left, right.  Up and down stop at the edges; left and right
/// wrap around (the tunnel).
pub open spec fn neighbor_cells(c: Cell, w: nat, h: nat) -> Seq<Option<Cell>> {
    seq![
        if c.0 > 0 { Some(((c.0 - 1) as usize, c.1)) } else { None },
        if c.0 + 1 < h { Some(((c.0 + 1) as usize, c.1)) } else { None },
        Some((c.0, if c.1 == 0 { (w - 1) as usize } else { (c.1 - 1) as usize })),
        Some((c.0, if c.1 + 1 >= w { 0usize } else { (c.1 + 1) as usize })),
    ]
}

/// A ghost may stand on every tile but a wall.
pub open spec fn spec_ghost_walkable(t: BoardTile) -> bool {
    t != BoardTile::Wall
}

/// `c` is on the board and a ghost may stand on it.
pub open spec fn walkable(b: Board, c: Cell) -> bool {
    b.in_bounds(c.0 as int, c.1 as int) && spec_ghost_walkable(b.tile(c.0 as int, c.1 as int))
}

/// One move from `u` to `v`: `v` is a neighbour of `u` on the board, and,
/// unless `through_walls`, not a wall.
pub open spec fn step(b: Board, through_walls: bool, u: Cell, v: Cell) -> bool {
    &&& neighbor_cells(u, b.spec_width(), b.spec_height()).contains(Some(v))
    &&& (through_walls || walkable(b, v))
}

/// The cell a walk leaves from before its `k`-th move.
pub open spec fn before(start: Cell, p: Seq<Cell>, k: int) -> Cell {
    if k == 0 { start } else { p[k - 1] }
}

/// `p` lists the cells that a walk from `start` enters, one move each.
pub open spec fn walk_from(b: Board, through_walls: bool, start: Cell, p: Seq<Cell>) -> bool {
    forall|k: int| 0 <= k < p.len() ==> step(b, through_walls, before(start, p, k), #[trigger] p[k])
}

/// Where a walk from `start` through `p` ends.
pub open spec fn end_of(start: Cell, p: Seq<Cell>) -> Cell {
    if p.len() == 0 { start } else { p.last() }
}

/// What a search looks for: one given cell, or any walkable cell.
#[derive(Clone, Copy, Debug)]
pub enum Goal {
    At(Cell),
    AnyWalkable,
}

pub open spec fn is_goal(b: Board, goal: Goal, c: Cell) -> bool {
    match goal {
        Goal::At(e) => c == e,
        Goal::AnyWalkable => walkable(b, c),
    }
}

// ---------------------------------------------------------------------------
// Small executable pieces
// ---------------------------------------------------------------------------

/// Whether a ghost may stand on `tile`.
pub fn ghost_walkable(tile: BoardTile) -> (r: bool)
    ensures
        r == spec_ghost_walkable(tile),
{
    tile != BoardTile::Wall
}

/// The four candidate neighbours of `(i, j)` on a `w` x `h` board:
/// up, down, then left and right with wrap-around.
pub fn neighbors(i: usize, j: usize, w: usize, h: usize) -> (r: [Option<Cell>; 4])
    requires
        i < usize::MAX,
        j < usize::MAX,
        j == 0 ==> w > 0,
    ensures
        r@ == neighbor_cells((i, j), w as nat, h as nat),
{
    let r = [
        if i > 0 { Some((i - 1, j)) } else { None },
        if i + 1 < h { Some((i + 1, j)) } else { None },
        Some((i, if j == 0 { w - 1 } else { j - 1 })),
        Some((i, if j + 1 >= w { 0 } else { j + 1 })),
    ];
    assert(r@ =~= neighbor_cells((i, j), w as nat, h as nat));
    r
}

/// Whether `(i, j)` is on the board and walkable.
fn walkable_at(board: &Board, i: usize, j: usize) -> (r: bool)
    ensures
        r == walkable(*board, (i, j)),
{
    match board.try_get(i, j) {
        Some(t) => ghost_walkable(t),
        None => false,
    }
}

/// The cell next to `c` in direction `d`, with rows counted upwards on
/// screen: up is the next row, down the previous one; left and right wrap
/// round through the tunnel.
pub open spec fn cell_ahead(c: Cell, d: Direction, w: nat, h: nat) -> Option<Cell> {
    let nb = neighbor_cells(c, w, h);
    match d {
        Direction::Up => nb[1],
        Direction::Down => nb[0],
        Direction::Left => nb[2],
        Direction::Right => nb[3],
    }
}

/// Whether a mover standing on `(i, j)` may enter the next cell in
/// direction `d`: that cell exists and is not a wall.
pub fn can_enter(board: &Board, i: usize, j: usize, d: Direction) -> (r: bool)
    requires
        i < usize::MAX,
        j < usize::MAX,
    ensures
        r == (match cell_ahead((i, j), d, board.spec_width(), board.spec_height()) {
            Some(v) => walkable(*board, v),
            None => false,
        }),
{
    let w = board.width();
    let h = board.height();
    let nb = neighbors(i, j, w, h);
    let next = match d {
        Direction::Up => nb[1],
        Direction::Down => nb[0],
        Direction::Left => nb[2],
        Direction::Right => nb[3],
    };
    match next {
        Some(v) => walkable_at(board, v.0, v.1),
        None => false,
    }
}

// ---------------------------------------------------------------------------
// The order in which a search tries moves
// ---------------------------------------------------------------------------

/// The position, among the candidate neighbours of `u` (up, down, left,
/// right), of the first one that is `v`; 4 when none is.
pub open spec fn move_index(b: Board, u: Cell, v: Cell) -> int {
    let nb = neighbor_cells(u, b.spec_width(), b.spec_height());
    if nb[0] == Some(v) {
        0
    } else if nb[1] == Some(v) {
        1
    } else if nb[2] == Some(v) {
        2
    } else if nb[3] == Some(v) {
        3
    } else {
        4
    }
}

/// The positions of the moves of a walk from `start`, move by move.
pub open spec fn move_indices(b: Board, start: Cell, p: Seq<Cell>) -> Seq<int> {
    Seq::new(p.len(), |k: int| move_index(b, before(start, p, k), p[k]))
}

/// `a` comes before `c` in dictionary order; both have the same length.
pub open spec fn lex_lt(a: Seq<int>, c: Seq<int>) -> bool
    decreases a.len(),
{
    if a.len() == 0 || a.len() != c.len() {
        false
    } else {
        lex_lt(a.drop_last(), c.drop_last()) || (a.drop_last() == c.drop_last() && a.last() < c.last())
    }
}

/// `a` equals `c` or comes before it in dictionary order.
pub open spec fn lex_le(a: Seq<int>, c: Seq<int>) -> bool {
    a == c || lex_lt(a, c)
}

proof fn lemma_lex_push(a: Seq<int>, c: Seq<int>, x: int, y: int)
    requires
        a.len() == c.len(),
    ensures
        lex_lt(a.push(x), c.push(y)) <==> (lex_lt(a, c) || (a == c && x < y)),
{
    assert(a.push(x).drop_last() =~= a);
    assert(c.push(y).drop_last() =~= c);
}

proof fn lemma_lex_trans(a: Seq<int>, c: Seq<int>, d: Seq<int>)
    requires
        lex_lt(a, c),
        lex_lt(c, d),
    ensures
        lex_lt(a, d),
    decreases a.len(),
{
    if lex_lt(a.drop_last(), c.drop_last()) && lex_lt(c.drop_last(), d.drop_last()) {
        lemma_lex_trans(a.drop_last(), c.drop_last(), d.drop_last());
    }
}

proof fn lemma_lex_lt_le(a: Seq<int>, c: Seq<int>, d: Seq<int>)
    requires
        lex_lt(a, c),
        lex_le(c, d),
    ensures
        lex_lt(a, d),
{
    if c != d {
        lemma_lex_trans(a, c, d);
    }
}

proof fn lemma_move_indices_push(b: Board, start: Cell, r: Seq<Cell>, c: Cell)
    ensures
        move_indices(b, start, r.push(c)) == move_indices(b, start, r).push(move_index(b, end_of(start, r), c)),
{
    let q = r.push(c);
    assert forall|k: int| 0 <= k < r.len() implies before(start, q, k) == before(start, r, k) by {}
    assert(before(start, q, r.len() as int) == end_of(start, r));
    assert(move_indices(b, start, q) =~= move_indices(b, start, r).push(move_index(b, end_of(start, r), c)));
}

proof fn lemma_move_indices_prepend(b: Board, p: Cell, u: Cell, r: Seq<Cell>)
    ensures
        move_indices(b, p, seq![u] + r) == seq![move_index(b, p, u)] + move_indices(b, u, r),
{
    let q = seq![u] + r;
    assert forall|k: int| 1 <= k < q.len() implies before(p, q, k) == before(u, r, k - 1) by {}
    assert(move_indices(b, p, q) =~= seq![move_index(b, p, u)] + move_indices(b, u, r));
}

// ---------------------------------------------------------------------------
// Lemmas on cell indices and walks
// ---------------------------------------------------------------------------

proof fn lemma_index_bound(i: int, j: int, w: int, h: int)
    requires
        0 <= i < h,
        0 <= j < w,
    ensures
        0 <= i * w + j < w * h,
        i * w + j + 1 <= w * h,
{
    assert(i * w + j < w * h) by (nonlinear_arith)
        requires
            0 <= i < h,
            0 <= j < w,
    ;
    assert(0 <= i * w) by (nonlinear_arith)
        requires
            0 <= i,
            0 <= w,
    ;
}

proof fn lemma_index_inj(i1: int, j1: int, i2: int, j2: int, w: int)
    requires
        0 <= i1,
        0 <= i2,
        0 <= j1 < w,
        0 <= j2 < w,
        i1 * w + j1 == i2 * w + j2,
    ensures
        i1 == i2,
        j1 == j2,
{
    if i1 < i2 {
        assert(i1 * w + w <= i2 * w) by (nonlinear_arith)
            requires
                i1 < i2,
                0 <= w,
        ;
    } else if i2 < i1 {
        assert(i2 * w + w <= i1 * w) by (nonlinear_arith)
            requires
                i2 < i1,
                0 <= w,
        ;
    }
}

/// A search keeps its parent table over a rectangle of `rh` rows and `rw`
/// columns, which holds the board, plus one slot for a start outside it.
spec fn in_region(c: Cell, rw: nat, rh: nat) -> bool {
    c.0 < rh && c.1 < rw
}

spec fn in_table(start: Cell, rw: nat, rh: nat, c: Cell) -> bool {
    in_region(c, rw, rh) || c == start
}

/// Where the table keeps `c`.
spec fn slot(rw: nat, rh: nat, c: Cell) -> int {
    if in_region(c, rw, rh) {
        c.0 * rw + c.1
    } else {
        (rw * rh) as int
    }
}

proof fn lemma_slot(start: Cell, rw: nat, rh: nat, c: Cell)
    ensures
        0 <= slot(rw, rh, c) <= rw * rh,
        in_region(c, rw, rh) ==> slot(rw, rh, c) < rw * rh,
{
    if in_region(c, rw, rh) {
        lemma_index_bound(c.0 as int, c.1 as int, rw as int, rh as int);
    } else {
        assert(0 <= rw * rh) by (nonlinear_arith);
    }
}

proof fn lemma_slot_inj(start: Cell, rw: nat, rh: nat, c1: Cell, c2: Cell)
    requires
        in_table(start, rw, rh, c1),
        in_table(start, rw, rh, c2),
        slot(rw, rh, c1) == slot(rw, rh, c2),
    ensures
        c1 == c2,
{
    lemma_slot(start, rw, rh, c1);
    lemma_slot(start, rw, rh, c2);
    if in_region(c1, rw, rh) && in_region(c2, rw, rh) {
        lemma_index_inj(c1.0 as int, c1.1 as int, c2.0 as int, c2.1 as int, rw as int);
    }
}

/// A walk that ends with one more move is still a walk.
proof fn lemma_walk_drop_last(b: Board, tw: bool, start: Cell, p: Seq<Cell>)
    requires
        walk_from(b, tw, start, p),
        p.len() > 0,
    ensures
        walk_from(b, tw, start, p.drop_last()),
        step(b, tw, end_of(start, p.drop_last()), p.last()),
{
    let q = p.drop_last();
    assert forall|k: int| 0 <= k < q.len() implies step(b, tw, before(start, q, k), #[trigger] q[k]) by {
        assert(q[k] == p[k]);
        assert(before(start, q, k) == before(start, p, k));
    }
    assert(p[p.len() - 1] == p.last());
    assert(before(start, p, p.len() - 1) == end_of(start, q));
}

/// A walk can be extended at its front by one move into its first cell.
proof fn lemma_walk_prepend(b: Board, tw: bool, p: Cell, u: Cell, r: Seq<Cell>)
    requires
        step(b, tw, p, u),
        walk_from(b, tw, u, r),
    ensures
        walk_from(b, tw, p, seq![u] + r),
        end_of(p, seq![u] + r) == end_of(u, r),
{
    let s = seq![u] + r;
    assert forall|k: int| 0 <= k < s.len() implies step(b, tw, before(p, s, k), #[trigger] s[k]) by {
        if k == 0 {
            assert(s[0] == u);
        } else {
            assert(s[k] == r[k - 1]);
            assert(before(p, s, k) == before(u, r, k - 1));
        }
    }
    if r.len() > 0 {
        assert(s.last() == r.last());
    }
}

// ---------------------------------------------------------------------------
// Breadth-first search
// ---------------------------------------------------------------------------

/// The number of empty slots in `s`.
spec fn count_none(s: Seq<Option<Cell>>) -> nat
    decreases s.len(),
{
    if s.len() == 0 {
        0
    } else {
        count_none(s.drop_last()) + (if s.last() is None { 1nat } else { 0nat })
    }
}

proof fn lemma_count_none_push(s: Seq<Option<Cell>>, x: Option<Cell>)
    ensures
        count_none(s.push(x)) == count_none(s) + (if x is None { 1nat } else { 0nat }),
{
    assert(s.push(x).drop_last() =~= s);
}

proof fn lemma_count_none_fill(s: Seq<Option<Cell>>, i: int, x: Cell)
    requires
        0 <= i < s.len(),
        s[i] is None,
    ensures
        count_none(s.update(i, Some(x))) + 1 == count_none(s),
    decreases s.len(),
{
    let t = s.update(i, Some(x));
    if i == s.len() - 1 {
        assert(t.drop_last() =~= s.drop_last());
    } else {
        assert(t.drop_last() =~= s.drop_last().update(i, Some(x)));
        lemma_count_none_fill(s.drop_last(), i, x);
    }
}

/// The discovery order of a search and what it knows of each cell found:
/// its level (number of moves from `start`), its parent, its position.
spec fn order_wf(
    b: Board,
    tw: bool,
    start: Cell,
    order: Seq<Cell>,
    lv: Seq<int>,
    par: Seq<Cell>,
    pos: Map<Cell, int>,
) -> bool {
    let n = order.len();
    &&& n >= 1
    &&& lv.len() == n
    &&& par.len() == n
    &&& order[0] == start
    &&& lv[0] == 0
    &&& par[0] == start
    &&& forall|k: int| 0 <= k < n ==> pos.dom().contains(#[trigger] order[k]) && pos[order[k]] == k
    &&& forall|c: Cell| #[trigger] pos.dom().contains(c) ==> 0 <= pos[c] < n && order[pos[c]] == c
    &&& forall|k: int|
        1 <= k < n ==> {
            &&& pos.dom().contains(#[trigger] par[k])
            &&& pos[par[k]] < k
            &&& lv[pos[par[k]]] + 1 == lv[k]
            &&& step(b, tw, par[k], order[k])
        }
    &&& forall|x: int, y: int| 0 <= x <= y < n ==> #[trigger] lv[x] <= #[trigger] lv[y]
}

/// The parent table agrees with the discovery order.
spec fn came_wf(
    rw: nat,
    rh: nat,
    start: Cell,
    came: Seq<Option<Cell>>,
    order: Seq<Cell>,
    par: Seq<Cell>,
    pos: Map<Cell, int>,
) -> bool {
    &&& came.len() == rw * rh + 1
    &&& forall|k: int|
        0 <= k < order.len() ==> in_table(start, rw, rh, #[trigger] order[k]) && came[slot(rw, rh, order[k])] == Some(
            par[k],
        )
    &&& forall|c: Cell|
        in_table(start, rw, rh, c) && (#[trigger] came[slot(rw, rh, c)]) is Some ==> pos.dom().contains(c)
}

/// Every move out of the first `head` cells found leads to a found cell
/// at most one level deeper.
spec fn expanded(b: Board, tw: bool, order: Seq<Cell>, lv: Seq<int>, pos: Map<Cell, int>, head: int) -> bool {
    forall|m: int, c: Cell|
        0 <= m < head && #[trigger] step(b, tw, order[m], c) ==> pos.dom().contains(c) && lv[pos[c]] <= lv[m] + 1
}

/// Breadth-first search reaches each cell at its least number of moves:
/// every walk of at most `t` moves ends in a found cell whose level is at
/// most the walk's length, as long as every found cell below level `t`
/// has been expanded.
proof fn lemma_walk_levels(
    b: Board,
    tw: bool,
    start: Cell,
    order: Seq<Cell>,
    lv: Seq<int>,
    par: Seq<Cell>,
    pos: Map<Cell, int>,
    head: int,
    t: int,
    q: Seq<Cell>,
)
    requires
        order_wf(b, tw, start, order, lv, par, pos),
        0 <= head <= order.len(),
        expanded(b, tw, order, lv, pos, head),
        forall|c: Cell| #[trigger] pos.dom().contains(c) && lv[pos[c]] < t ==> pos[c] < head,
        walk_from(b, tw, start, q),
        q.len() <= t,
    ensures
        pos.dom().contains(end_of(start, q)),
        lv[pos[end_of(start, q)]] <= q.len(),
    decreases q.len(),
{
    if q.len() == 0 {
        assert(pos.dom().contains(order[0]));
    } else {
        let r = q.drop_last();
        lemma_walk_drop_last(b, tw, start, q);
        lemma_walk_levels(b, tw, start, order, lv, par, pos, head, t, r);
        let c = end_of(start, r);
        assert(pos[c] < head);
        assert(order[pos[c]] == c);
        assert(step(b, tw, order[pos[c]], q.last()));
    }
}

/// A move from a cell of the table lands in the search rectangle.
proof fn lemma_step_in_table(b: Board, tw: bool, rw: nat, rh: nat, start: Cell, u: Cell, v: Cell)
    requires
        table_dims(b, rw, rh),
        in_table(start, rw, rh, u),
        tw ==> in_region(start, rw, rh),
        step(b, tw, u, v),
    ensures
        in_region(v, rw, rh),
{
    if !tw {
        assert(walkable(b, v));
    } else {
        let w = b.spec_width();
        assert(w <= usize::MAX) by (nonlinear_arith)
            requires
                b@.len() * w < usize::MAX,
                b@.len() > 0,
        ;
        let s = neighbor_cells(u, b.spec_width(), b.spec_height());
        let k = choose|k: int| 0 <= k < s.len() && s[k] == Some(v);
        assert(0 <= k < 4);
        if k == 2 {
            assert(v == (u.0, if u.1 == 0 { (w - 1) as usize } else { (u.1 - 1) as usize }));
        } else if k == 3 {
            assert(v == (u.0, if u.1 + 1 >= w { 0usize } else { (u.1 + 1) as usize }));
        }
    }
}

/// A candidate neighbour, if it can be moved to, has been found at most
/// at level `bound`.
spec fn covered(b: Board, tw: bool, u: Cell, e: Option<Cell>, pos: Map<Cell, int>, lv: Seq<int>, bound: int) -> bool {
    match e {
        Some(v) => step(b, tw, u, v) ==> pos.dom().contains(v) && lv[pos[v]] <= bound,
        None => true,
    }
}

proof fn lemma_grid_dims(b: Board)
    requires
        crate::board::grid_wf(b@),
    ensures
        grid_dims(b),
{
    assert(b@[0].len() * b@.len() == b@.len() * b@[0].len()) by (nonlinear_arith);
}

/// The board has at least one row and one column.
spec fn grid_dims(b: Board) -> bool {
    b.spec_width() > 0 && b.spec_height() > 0 && b@[0].len() == b.spec_width()
        && b.spec_width() * b.spec_height() < usize::MAX
}

/// The search rectangle holds the board, and its table fits in memory.
spec fn table_dims(b: Board, rw: nat, rh: nat) -> bool {
    &&& grid_dims(b)
    &&& rw >= b.spec_width()
    &&& rh >= b.spec_height()
    &&& rw * rh < usize::MAX
}

/// The shared hypotheses of a discovery of `v` from `u`.
spec fn discovery(
    b: Board,
    tw: bool,
    start: Cell,
    rw: nat,
    rh: nat,
    came: Seq<Option<Cell>>,
    order: Seq<Cell>,
    lv: Seq<int>,
    par: Seq<Cell>,
    pos: Map<Cell, int>,
    head: int,
    u: Cell,
    v: Cell,
    vi: int,
) -> bool {
    &&& table_dims(b, rw, rh)
    &&& order_wf(b, tw, start, order, lv, par, pos)
    &&& came_wf(rw, rh, start, came, order, par, pos)
    &&& expanded(b, tw, order, lv, pos, head)
    &&& 0 <= head < order.len()
    &&& u == order[head]
    &&& lv[order.len() - 1] <= lv[head] + 1
    &&& in_region(v, rw, rh)
    &&& vi == slot(rw, rh, v)
    &&& came[vi] is None
    &&& step(b, tw, u, v)
}

proof fn lemma_discover_new(
    b: Board,
    tw: bool,
    start: Cell,
    rw: nat,
    rh: nat,
    came: Seq<Option<Cell>>,
    order: Seq<Cell>,
    lv: Seq<int>,
    par: Seq<Cell>,
    pos: Map<Cell, int>,
    head: int,
    u: Cell,
    v: Cell,
    vi: int,
)
    requires
        discovery(b, tw, start, rw, rh, came, order, lv, par, pos, head, u, v, vi),
    ensures
        !pos.dom().contains(v),
        forall|j: int| 0 <= j < order.len() ==> #[trigger] order[j] != v,
{
    lemma_slot(start, rw, rh, v);
    if pos.dom().contains(v) {
        assert(came[slot(rw, rh, order[pos[v]])] is Some);
    }
    assert forall|j: int| 0 <= j < order.len() implies #[trigger] order[j] != v by {
        if order[j] == v {
            assert(pos.dom().contains(order[j]));
        }
    }
}

proof fn lemma_discover_order(
    b: Board,
    tw: bool,
    start: Cell,
    rw: nat,
    rh: nat,
    came: Seq<Option<Cell>>,
    order: Seq<Cell>,
    lv: Seq<int>,
    par: Seq<Cell>,
    pos: Map<Cell, int>,
    head: int,
    u: Cell,
    v: Cell,
    vi: int,
)
    requires
        discovery(b, tw, start, rw, rh, came, order, lv, par, pos, head, u, v, vi),
        !pos.dom().contains(v),
        forall|j: int| 0 <= j < order.len() ==> #[trigger] order[j] != v,
    ensures
        order_wf(
            b,
            tw,
            start,
            order.push(v),
            lv.push(lv[head] + 1),
            par.push(u),
            pos.insert(v, order.len() as int),
        ),
{
    let n = order.len() as int;
    let order2 = order.push(v);
    let lv2 = lv.push(lv[head] + 1);
    let par2 = par.push(u);
    let pos2 = pos.insert(v, n);
    assert forall|j: int| 0 <= j < order2.len() implies pos2.dom().contains(#[trigger] order2[j]) && pos2[order2[j]]
        == j by {
        if j < n {
            assert(order[j] != v);
            assert(order2[j] == order[j]);
        }
    }
    assert forall|j: int|
        1 <= j < order2.len() implies {
        &&& pos2.dom().contains(#[trigger] par2[j])
        &&& pos2[par2[j]] < j
        &&& lv2[pos2[par2[j]]] + 1 == lv2[j]
        &&& step(b, tw, par2[j], order2[j])
    } by {
        if j < n {
            assert(par2[j] == par[j]);
            assert(pos.dom().contains(par[j]));
            assert(par[j] != v);
        } else {
            assert(par2[j] == u);
            assert(pos[u] == head);
        }
    }
    assert forall|x: int, y: int| 0 <= x <= y < order2.len() implies #[trigger] lv2[x] <= #[trigger] lv2[y] by {
        if y == n && x < n {
            assert(lv[x] <= lv[n - 1]);
        }
    }
    assert forall|c: Cell| #[trigger] pos2.dom().contains(c) implies 0 <= pos2[c] < order2.len() && order2[pos2[c]]
        == c by {
        if c != v {
            assert(pos.dom().contains(c));
        }
    }
}

proof fn lemma_discover_came(
    b: Board,
    tw: bool,
    start: Cell,
    rw: nat,
    rh: nat,
    came: Seq<Option<Cell>>,
    order: Seq<Cell>,
    lv: Seq<int>,
    par: Seq<Cell>,
    pos: Map<Cell, int>,
    head: int,
    u: Cell,
    v: Cell,
    vi: int,
)
    requires
        discovery(b, tw, start, rw, rh, came, order, lv, par, pos, head, u, v, vi),
    ensures
        came_wf(rw, rh, start, came.update(vi, Some(u)), order.push(v), par.push(u), pos.insert(v, order.len() as int)),
{
    let n = order.len() as int;
    let order2 = order.push(v);
    let par2 = par.push(u);
    let pos2 = pos.insert(v, n);
    let came2 = came.update(vi, Some(u));
    lemma_slot(start, rw, rh, v);
    assert forall|j: int| 0 <= j < order2.len() implies in_table(start, rw, rh, #[trigger] order2[j]) && came2[slot(
        rw,
        rh,
        order2[j],
    )] == Some(par2[j]) by {
        if j < n {
            assert(order2[j] == order[j]);
            assert(in_table(start, rw, rh, order[j]));
            lemma_slot(start, rw, rh, order[j]);
            assert(came[slot(rw, rh, order[j])] is Some);
            assert(slot(rw, rh, order[j]) != vi);
        } else {
            assert(order2[j] == v);
        }
    }
    assert forall|c: Cell|
        in_table(start, rw, rh, c) && (#[trigger] came2[slot(rw, rh, c)]) is Some implies pos2.dom().contains(c) by {
        lemma_slot(start, rw, rh, c);
        if slot(rw, rh, c) == vi {
            lemma_slot_inj(start, rw, rh, c, v);
        } else {
            assert(came[slot(rw, rh, c)] is Some);
        }
    }
}

proof fn lemma_discover_expanded(
    b: Board,
    tw: bool,
    start: Cell,
    rw: nat,
    rh: nat,
    came: Seq<Option<Cell>>,
    order: Seq<Cell>,
    lv: Seq<int>,
    par: Seq<Cell>,
    pos: Map<Cell, int>,
    head: int,
    u: Cell,
    v: Cell,
    vi: int,
)
    requires
        discovery(b, tw, start, rw, rh, came, order, lv, par, pos, head, u, v, vi),
        !pos.dom().contains(v),
    ensures
        expanded(b, tw, order.push(v), lv.push(lv[head] + 1), pos.insert(v, order.len() as int), head),
        forall|c: Cell|
            #[trigger] pos.dom().contains(c) ==> pos.insert(v, order.len() as int)[c] == pos[c] && lv.push(
                lv[head] + 1,
            )[pos[c]] == lv[pos[c]],
{
    let n = order.len() as int;
    let order2 = order.push(v);
    let lv2 = lv.push(lv[head] + 1);
    let pos2 = pos.insert(v, n);
    assert forall|m: int, c: Cell| 0 <= m < head && #[trigger] step(b, tw, order2[m], c) implies pos2.dom().contains(c)
        && lv2[pos2[c]] <= lv2[m] + 1 by {
        assert(order2[m] == order[m]);
        assert(step(b, tw, order[m], c));
        assert(pos.dom().contains(c));
        assert(c != v);
    }
    assert forall|c: Cell| #[trigger] pos.dom().contains(c) implies pos2[c] == pos[c] && lv2[pos[c]] == lv[pos[c]] by {
        assert(c != v);
    }
}

/// Finding `v` from `u`, the cell being expanded, keeps the search's
/// invariants.
proof fn lemma_discover(
    b: Board,
    tw: bool,
    start: Cell,
    rw: nat,
    rh: nat,
    came: Seq<Option<Cell>>,
    order: Seq<Cell>,
    lv: Seq<int>,
    par: Seq<Cell>,
    pos: Map<Cell, int>,
    head: int,
    u: Cell,
    v: Cell,
    vi: int,
)
    requires
        discovery(b, tw, start, rw, rh, came, order, lv, par, pos, head, u, v, vi),
    ensures
        ({
            let n = order.len() as int;
            let order2 = order.push(v);
            let lv2 = lv.push(lv[head] + 1);
            let par2 = par.push(u);
            let pos2 = pos.insert(v, n);
            &&& !pos.dom().contains(v)
            &&& order_wf(b, tw, start, order2, lv2, par2, pos2)
            &&& came_wf(rw, rh, start, came.update(vi, Some(u)), order2, par2, pos2)
            &&& expanded(b, tw, order2, lv2, pos2, head)
            &&& forall|c: Cell| #[trigger] pos.dom().contains(c) ==> pos2[c] == pos[c] && lv2[pos[c]] == lv[pos[c]]
        }),
{
    lemma_discover_new(b, tw, start, rw, rh, came, order, lv, par, pos, head, u, v, vi);
    lemma_discover_order(b, tw, start, rw, rh, came, order, lv, par, pos, head, u, v, vi);
    lemma_discover_came(b, tw, start, rw, rh, came, order, lv, par, pos, head, u, v, vi);
    lemma_discover_expanded(b, tw, start, rw, rh, came, order, lv, par, pos, head, u, v, vi);
}

/// A goal found while expanding the cell at position `head` is a nearest
/// goal: no walk with fewer moves reaches any goal.
proof fn lemma_found_is_nearest(
    b: Board,
    tw: bool,
    goal: Goal,
    start: Cell,
    old_order: Seq<Cell>,
    old_lv: Seq<int>,
    order: Seq<Cell>,
    lv: Seq<int>,
    par: Seq<Cell>,
    pos: Map<Cell, int>,
    head: int,
    v: Cell,
)
    requires
        order_wf(b, tw, start, order, lv, par, pos),
        expanded(b, tw, order, lv, pos, head),
        0 <= head < old_order.len(),
        order == old_order.push(v),
        lv == old_lv.push(old_lv[head] + 1),
        pos.dom().contains(v),
        pos[v] == old_order.len(),
        forall|k: int| 0 <= k < old_order.len() ==> !is_goal(b, goal, #[trigger] old_order[k]),
    ensures
        forall|q: Seq<Cell>|
            walk_from(b, tw, start, q) && is_goal(b, goal, #[trigger] end_of(start, q)) ==> q.len() >= lv[pos[v]],
{
    let n = old_order.len() as int;
    assert forall|q: Seq<Cell>| walk_from(b, tw, start, q) && is_goal(b, goal, #[trigger] end_of(start, q)) implies q.len()
        >= lv[pos[v]] by {
        if q.len() < lv[pos[v]] {
            assert forall|c: Cell| #[trigger] pos.dom().contains(c) && lv[pos[c]] < old_lv[head] implies pos[c] < head by {
                if pos[c] >= head {
                    assert(lv[head] <= lv[pos[c]]);
                }
            }
            lemma_walk_levels(b, tw, start, order, lv, par, pos, head, old_lv[head], q);
            let e = end_of(start, q);
            assert(order[pos[e]] == e);
            assert(pos[e] != n);
            assert(old_order[pos[e]] == e);
        }
    }
}

/// A candidate neighbour's move position picks it out, and no earlier
/// candidate is it.
proof fn lemma_move_index(b: Board, u: Cell, v: Cell)
    requires
        neighbor_cells(u, b.spec_width(), b.spec_height()).contains(Some(v)),
    ensures
        0 <= move_index(b, u, v) < 4,
        neighbor_cells(u, b.spec_width(), b.spec_height())[move_index(b, u, v)] == Some(v),
        forall|j: int|
            0 <= j < move_index(b, u, v) ==> neighbor_cells(u, b.spec_width(), b.spec_height())[j] != Some(v),
{
    let nb = neighbor_cells(u, b.spec_width(), b.spec_height());
    let k = choose|k: int| 0 <= k < nb.len() && nb[k] == Some(v);
    assert(0 <= k < 4);
}

/// Each found cell's key: the move positions of the walk that the parent
/// table gives it.
spec fn keys_wf(b: Board, order: Seq<Cell>, lv: Seq<int>, par: Seq<Cell>, pos: Map<Cell, int>, ks: Seq<Seq<int>>) -> bool {
    &&& ks.len() == order.len()
    &&& ks[0] == Seq::<int>::empty()
    &&& forall|k: int| 0 <= k < order.len() ==> (#[trigger] ks[k]).len() == lv[k]
    &&& forall|k: int|
        #![trigger par[k]]
        1 <= k < order.len() ==> ks[k] == ks[pos[par[k]]].push(move_index(b, par[k], order[k]))
}

/// The search finds the cells of one level in the dictionary order of
/// their keys; each cell's parent is the first expanded cell with a move
/// to it; the cells found while expanding the cell at `head` came from its
/// first `kk` candidate moves.
#[verifier::opaque]
spec fn first_order(
    b: Board,
    tw: bool,
    order: Seq<Cell>,
    lv: Seq<int>,
    par: Seq<Cell>,
    pos: Map<Cell, int>,
    ks: Seq<Seq<int>>,
    head: int,
    kk: int,
) -> bool {
    &&& keys_wf(b, order, lv, par, pos, ks)
    &&& forall|x: int, y: int| 0 <= x < y < order.len() && lv[x] == lv[y] ==> #[trigger] lex_lt(ks[x], ks[y])
    &&& forall|k: int, m: int|
        1 <= k < order.len() && 0 <= m < head && #[trigger] step(b, tw, order[m], order[k]) ==> pos[par[k]] <= m
    &&& forall|k: int|
        #![trigger pos[par[k]]]
        1 <= k < order.len() ==> pos[par[k]] < head || (pos[par[k]] == head && move_index(b, par[k], order[k])
            < kk)
}

proof fn lemma_first_init(b: Board, tw: bool, start: Cell)
    ensures
        first_order(
            b,
            tw,
            seq![start],
            seq![0int],
            seq![start],
            map![start => 0int],
            seq![Seq::<int>::empty()],
            0,
            0,
        ),
{
    reveal(first_order);
}

proof fn lemma_first_next(
    b: Board,
    tw: bool,
    order: Seq<Cell>,
    lv: Seq<int>,
    par: Seq<Cell>,
    pos: Map<Cell, int>,
    ks: Seq<Seq<int>>,
    head: int,
    kk: int,
)
    requires
        first_order(b, tw, order, lv, par, pos, ks, head, kk),
    ensures
        first_order(b, tw, order, lv, par, pos, ks, head, kk + 1),
{
    reveal(first_order);
}

proof fn lemma_first_advance(
    b: Board,
    tw: bool,
    order: Seq<Cell>,
    lv: Seq<int>,
    par: Seq<Cell>,
    pos: Map<Cell, int>,
    ks: Seq<Seq<int>>,
    head: int,
    kk: int,
)
    requires
        first_order(b, tw, order, lv, par, pos, ks, head, kk),
    ensures
        first_order(b, tw, order, lv, par, pos, ks, head + 1, 0),
{
    reveal(first_order);
    assert forall|k: int, m: int|
        1 <= k < order.len() && 0 <= m < head + 1 && #[trigger] step(b, tw, order[m], order[k]) implies pos[par[k]]
        <= m by {
        if m == head {
            assert(pos[par[k]] <= head);
        }
    }
}

/// Finding `v` from `u` through its `kk`-th candidate move keeps the
/// search's order of keys.
proof fn lemma_first_discover(
    b: Board,
    tw: bool,
    start: Cell,
    rw: nat,
    rh: nat,
    came: Seq<Option<Cell>>,
    order: Seq<Cell>,
    lv: Seq<int>,
    par: Seq<Cell>,
    pos: Map<Cell, int>,
    ks: Seq<Seq<int>>,
    head: int,
    kk: int,
    u: Cell,
    v: Cell,
    vi: int,
)
    requires
        discovery(b, tw, start, rw, rh, came, order, lv, par, pos, head, u, v, vi),
        first_order(b, tw, order, lv, par, pos, ks, head, kk),
        0 <= kk < 4,
        neighbor_cells(u, b.spec_width(), b.spec_height())[kk] == Some(v),
        forall|j: int|
            0 <= j < kk ==> covered(
                b,
                tw,
                u,
                #[trigger] neighbor_cells(u, b.spec_width(), b.spec_height())[j],
                pos,
                lv,
                lv[head] + 1,
            ),
    ensures
        move_index(b, u, v) == kk,
        first_order(
            b,
            tw,
            order.push(v),
            lv.push(lv[head] + 1),
            par.push(u),
            pos.insert(v, order.len() as int),
            ks.push(ks[head].push(kk)),
            head,
            kk + 1,
        ),
{
    reveal(first_order);
    lemma_discover(b, tw, start, rw, rh, came, order, lv, par, pos, head, u, v, vi);
    let nb = neighbor_cells(u, b.spec_width(), b.spec_height());
    assert(nb.contains(Some(v))) by {
        assert(nb[kk] == Some(v));
    }
    lemma_move_index(b, u, v);
    if move_index(b, u, v) < kk {
        let j = move_index(b, u, v);
        assert(covered(b, tw, u, nb[j], pos, lv, lv[head] + 1));
    }
    let n = order.len() as int;
    let order2 = order.push(v);
    let lv2 = lv.push(lv[head] + 1);
    let par2 = par.push(u);
    let pos2 = pos.insert(v, n);
    let ks2 = ks.push(ks[head].push(kk));
    assert(pos[order[head]] == head);
    assert(pos2[u] == head);
    assert(lv[0] <= lv[head]);
    assert forall|k: int| 0 <= k < order2.len() implies (#[trigger] ks2[k]).len() == lv2[k] by {
        if k < n {
            assert(ks2[k] == ks[k]);
        }
    }
    assert forall|k: int| #![trigger par2[k]] 1 <= k < order2.len() implies ks2[k] == ks2[pos2[par2[k]]].push(
        move_index(b, par2[k], order2[k]),
    ) by {
        if k < n {
            assert(par2[k] == par[k]);
            assert(pos.dom().contains(par[k]));
            assert(par[k] != v);
            assert(pos2[par[k]] == pos[par[k]]);
            assert(ks2[pos[par[k]]] == ks[pos[par[k]]]);
        }
    }
    assert(keys_wf(b, order2, lv2, par2, pos2, ks2));
    assert forall|x: int, y: int| 0 <= x < y < order2.len() && lv2[x] == lv2[y] implies #[trigger] lex_lt(
        ks2[x],
        ks2[y],
    ) by {
        if y < n {
            assert(lex_lt(ks[x], ks[y]));
        } else {
            assert(lv[x] == lv[head] + 1);
            assert(x != 0);
            let px = pos[par[x]];
            assert(pos.dom().contains(par[x]));
            assert(lv[px] == lv[head]);
            assert(ks[x] == ks[px].push(move_index(b, par[x], order[x])));
            assert(ks[px].len() == lv[px]);
            assert(ks[head].len() == lv[head]);
            if px < head {
                assert(lex_lt(ks[px], ks[head]));
                lemma_lex_push(ks[px], ks[head], move_index(b, par[x], order[x]), kk);
            } else {
                assert(order[px] == par[x]);
                lemma_lex_push(ks[px], ks[head], move_index(b, par[x], order[x]), kk);
            }
        }
    }
    assert forall|k: int, m: int|
        1 <= k < order2.len() && 0 <= m < head && #[trigger] step(b, tw, order2[m], order2[k]) implies pos2[par2[k]]
        <= m by {
        assert(order2[m] == order[m]);
        if k < n {
            assert(step(b, tw, order[m], order[k]));
            assert(pos.dom().contains(par[k]));
            assert(par[k] != v);
        } else {
            assert(step(b, tw, order[m], v));
        }
    }
    assert forall|k: int| #![trigger pos2[par2[k]]] 1 <= k < order2.len() implies pos2[par2[k]] < head || (
    pos2[par2[k]] == head && move_index(b, par2[k], order2[k]) < kk + 1) by {
        if k < n {
            assert(pos.dom().contains(par[k]));
            assert(par[k] != v);
            assert(pos[par[k]] < head || (pos[par[k]] == head && move_index(b, par[k], order[k]) < kk));
        }
    }
}

proof fn lemma_first_facts(
    b: Board,
    tw: bool,
    order: Seq<Cell>,
    lv: Seq<int>,
    par: Seq<Cell>,
    pos: Map<Cell, int>,
    ks: Seq<Seq<int>>,
    head: int,
    kk: int,
)
    requires
        first_order(b, tw, order, lv, par, pos, ks, head, kk),
    ensures
        keys_wf(b, order, lv, par, pos, ks),
        forall|k: int| 1 <= k < order.len() ==> #[trigger] pos[par[k]] <= head,
{
    reveal(first_order);
}

proof fn lemma_first_sorted(
    b: Board,
    tw: bool,
    order: Seq<Cell>,
    lv: Seq<int>,
    par: Seq<Cell>,
    pos: Map<Cell, int>,
    ks: Seq<Seq<int>>,
    head: int,
    kk: int,
    x: int,
    y: int,
)
    requires
        first_order(b, tw, order, lv, par, pos, ks, head, kk),
        0 <= x < y < order.len(),
        lv[x] == lv[y],
    ensures
        lex_lt(ks[x], ks[y]),
{
    reveal(first_order);
}

proof fn lemma_first_parent(
    b: Board,
    tw: bool,
    order: Seq<Cell>,
    lv: Seq<int>,
    par: Seq<Cell>,
    pos: Map<Cell, int>,
    ks: Seq<Seq<int>>,
    head: int,
    kk: int,
    k: int,
    m: int,
)
    requires
        first_order(b, tw, order, lv, par, pos, ks, head, kk),
        1 <= k < order.len(),
        0 <= m < head,
        step(b, tw, order[m], order[k]),
    ensures
        pos[par[k]] <= m,
{
    reveal(first_order);
}

/// A walk from `start` to a found cell, with as many moves as that cell's
/// level, has move positions no earlier in dictionary order than the
/// cell's key.
proof fn lemma_walk_first(
    b: Board,
    tw: bool,
    start: Cell,
    order: Seq<Cell>,
    lv: Seq<int>,
    par: Seq<Cell>,
    pos: Map<Cell, int>,
    ks: Seq<Seq<int>>,
    head: int,
    kk: int,
    q: Seq<Cell>,
)
    requires
        order_wf(b, tw, start, order, lv, par, pos),
        first_order(b, tw, order, lv, par, pos, ks, head, kk),
        0 <= head < order.len(),
        expanded(b, tw, order, lv, pos, head),
        walk_from(b, tw, start, q),
        pos.dom().contains(end_of(start, q)),
        lv[pos[end_of(start, q)]] == q.len(),
        q.len() <= lv[head] + 1,
    ensures
        lex_le(ks[pos[end_of(start, q)]], move_indices(b, start, q)),
    decreases q.len(),
{
    lemma_first_facts(b, tw, order, lv, par, pos, ks, head, kk);
    if q.len() == 0 {
        assert(pos[order[0]] == 0);
        assert(move_indices(b, start, q) =~= Seq::<int>::empty());
    } else {
        let e = q.last();
        let r = q.drop_last();
        let u1 = end_of(start, r);
        lemma_walk_drop_last(b, tw, start, q);
        assert forall|c: Cell| #[trigger] pos.dom().contains(c) && lv[pos[c]] < lv[head] implies pos[c] < head by {
            if pos[c] >= head {
                assert(lv[head] <= lv[pos[c]]);
            }
        }
        lemma_walk_levels(b, tw, start, order, lv, par, pos, head, lv[head], r);
        let m = pos[u1];
        assert(order[m] == u1);
        if lv[m] < r.len() {
            assert(m < head);
            assert(step(b, tw, order[m], e));
        }
        assert(lv[m] == r.len());
        lemma_walk_first(b, tw, start, order, lv, par, pos, ks, head, kk, r);
        let k = pos[e];
        assert(order[k] == e);
        assert(k != 0) by {
            if k == 0 {
                assert(lv[0] == 0);
            }
        }
        let p = pos[par[k]];
        assert(pos.dom().contains(par[k]));
        assert(ks[k] == ks[p].push(move_index(b, par[k], order[k])));
        assert(lv[p] == r.len());
        if m < head {
            lemma_first_parent(b, tw, order, lv, par, pos, ks, head, kk, k, m);
        } else {
            assert(pos[par[k]] <= head);
        }
        assert(p <= m);
        assert(ks[p].len() == r.len());
        assert(move_indices(b, start, r).len() == r.len());
        assert(q =~= r.push(e));
        lemma_move_indices_push(b, start, r, e);
        if p < m {
            lemma_first_sorted(b, tw, order, lv, par, pos, ks, head, kk, p, m);
            lemma_lex_lt_le(ks[p], ks[m], move_indices(b, start, r));
            lemma_lex_push(ks[p], move_indices(b, start, r), move_index(b, par[k], order[k]), move_index(b, u1, e));
        } else {
            assert(order[p] == par[k]);
            assert(par[k] == u1);
            lemma_lex_push(ks[p], move_indices(b, start, r), move_index(b, par[k], order[k]), move_index(b, u1, e));
        }
    }
}

/// Of the cells found, only the last, `v`, is a goal.
proof fn lemma_only_goal(
    b: Board,
    tw: bool,
    goal: Goal,
    start: Cell,
    old_order: Seq<Cell>,
    order: Seq<Cell>,
    lv: Seq<int>,
    par: Seq<Cell>,
    pos: Map<Cell, int>,
    v: Cell,
)
    requires
        order_wf(b, tw, start, order, lv, par, pos),
        order == old_order.push(v),
        forall|k: int| 0 <= k < old_order.len() ==> !is_goal(b, goal, #[trigger] old_order[k]),
    ensures
        forall|c: Cell| #[trigger] pos.dom().contains(c) && is_goal(b, goal, c) ==> c == v,
{
    let n = old_order.len() as int;
    assert forall|c: Cell| #[trigger] pos.dom().contains(c) && is_goal(b, goal, c) implies c == v by {
        assert(order[pos[c]] == c);
        if pos[c] < n {
            assert(old_order[pos[c]] == c);
        }
    }
}

/// A goal found through the `kk`-th candidate move of the cell at `head`
/// has a key no later in dictionary order than the move positions of any
/// walk to any goal with as many moves.
#[verifier::spinoff_prover]
proof fn lemma_found_first(
    b: Board,
    tw: bool,
    goal: Goal,
    start: Cell,
    old_order: Seq<Cell>,
    order: Seq<Cell>,
    lv: Seq<int>,
    par: Seq<Cell>,
    pos: Map<Cell, int>,
    ks: Seq<Seq<int>>,
    head: int,
    kk: int,
    v: Cell,
    q: Seq<Cell>,
)
    requires
        order_wf(b, tw, start, order, lv, par, pos),
        first_order(b, tw, order, lv, par, pos, ks, head, kk + 1),
        expanded(b, tw, order, lv, pos, head),
        0 <= head < old_order.len(),
        order == old_order.push(v),
        lv[old_order.len() as int] == lv[head] + 1,
        par[old_order.len() as int] == order[head],
        pos[v] == old_order.len(),
        forall|k: int| 0 <= k < old_order.len() ==> !is_goal(b, goal, #[trigger] old_order[k]),
        0 <= kk < 4,
        move_index(b, order[head], v) == kk,
        forall|j: int|
            0 <= j < kk ==> covered(
                b,
                tw,
                order[head],
                #[trigger] neighbor_cells(order[head], b.spec_width(), b.spec_height())[j],
                pos,
                lv,
                lv[head] + 1,
            ),
        walk_from(b, tw, start, q),
        is_goal(b, goal, end_of(start, q)),
        q.len() == lv[pos[v]],
    ensures
        lex_le(ks[pos[v]], move_indices(b, start, q)),
{
    lemma_first_facts(b, tw, order, lv, par, pos, ks, head, kk + 1);
    let n = old_order.len() as int;
    let u = order[head];
    let e = q.last();
    let r = q.drop_last();
    let u1 = end_of(start, r);
    assert(pos.dom().contains(order[n]));
    assert(q.len() > 0) by {
        assert(lv[0] <= lv[head]);
    }
    lemma_walk_drop_last(b, tw, start, q);
    assert forall|c: Cell| #[trigger] pos.dom().contains(c) && lv[pos[c]] < lv[head] implies pos[c] < head by {
        if pos[c] >= head {
            assert(lv[head] <= lv[pos[c]]);
        }
    }
    lemma_walk_levels(b, tw, start, order, lv, par, pos, head, lv[head], r);
    let m = pos[u1];
    assert(order[m] == u1);
    lemma_only_goal(b, tw, goal, start, old_order, order, lv, par, pos, v);
    if lv[m] < r.len() {
        assert(m < head);
        assert(step(b, tw, order[m], e));
        assert(e == v);
    }
    assert(lv[m] == r.len());
    assert(q =~= r.push(e));
    lemma_move_indices_push(b, start, r, e);
    if m < head {
        assert(step(b, tw, order[m], e));
        assert(e == v);
        lemma_walk_first(b, tw, start, order, lv, par, pos, ks, head, kk + 1, q);
    } else {
        lemma_walk_first(b, tw, start, order, lv, par, pos, ks, head, kk + 1, r);
        assert(n != 0);
        assert(pos[order[head]] == head);
        assert(ks[n] == ks[pos[par[n]]].push(move_index(b, par[n], order[n])));
        assert(ks[n] == ks[head].push(kk));
        assert(ks[head].len() == lv[head]);
        assert(move_indices(b, start, r).len() == r.len());
        if m == head {
            lemma_move_index(b, u, e);
            let j = move_index(b, u, e);
            if j < kk {
                assert(covered(b, tw, u, neighbor_cells(u, b.spec_width(), b.spec_height())[j], pos, lv, lv[head] + 1));
                assert(e == v);
            }
            lemma_lex_push(ks[head], move_indices(b, start, r), kk, j);
        } else {
            lemma_first_sorted(b, tw, order, lv, par, pos, ks, head, kk + 1, head, m);
            lemma_lex_lt_le(ks[head], ks[m], move_indices(b, start, r));
            lemma_lex_push(ks[head], move_indices(b, start, r), kk, move_index(b, u1, e));
        }
    }
}

fn is_goal_at(board: &Board, goal: Goal, v: Cell) -> (r: bool)
    ensures
        r == is_goal(*board, goal, v),
{
    match goal {
        Goal::At(e) => v.0 == e.0 && v.1 == e.1,
        Goal::AnyWalkable => walkable_at(board, v.0, v.1),
    }
}

/// Where the table of a `rw` x `rh` search rectangle keeps `c`.
fn slot_of(c: Cell, rw: usize, rh: usize) -> (r: usize)
    requires
        rw * rh < usize::MAX,
    ensures
        r == slot(rw as nat, rh as nat, c),
{
    if c.0 < rh && c.1 < rw {
        proof {
            lemma_index_bound(c.0 as int, c.1 as int, rw as int, rh as int);
        }
        c.0 * rw + c.1
    } else {
        rw * rh
    }
}

/// Breadth-first search from `start` for the nearest goal cell, moving
/// through walls when `tw`, over the `rw` x `rh` rectangle (which holds the
/// board, and also `start` when moving through walls).  Returns the parent
/// table of the cells found and the goal cell found, if any.
#[verifier::rlimit(100)]
fn search(board: &Board, start: Cell, tw: bool, goal: Goal, rw: usize, rh: usize) -> (res: (
    Vec<Option<Cell>>,
    Option<Cell>,
    Ghost<(Seq<Cell>, Seq<int>, Seq<Cell>, Map<Cell, int>, Seq<Seq<int>>)>,
))
    requires
        table_dims(*board, rw as nat, rh as nat),
        tw ==> in_region(start, rw as nat, rh as nat),
        start.0 < usize::MAX,
        start.1 < usize::MAX,
        !is_goal(*board, goal, start),
    ensures
        ({
            let (order, lv, par, pos, ks) = res.2@;
            &&& order_wf(*board, tw, start, order, lv, par, pos)
            &&& came_wf(rw as nat, rh as nat, start, res.0@, order, par, pos)
            &&& res.1 matches Some(g) ==> {
                &&& is_goal(*board, goal, g)
                &&& pos.dom().contains(g)
                &&& keys_wf(*board, order, lv, par, pos, ks)
                &&& forall|q: Seq<Cell>|
                    walk_from(*board, tw, start, q) && is_goal(*board, goal, #[trigger] end_of(start, q))
                        ==> q.len() >= lv[pos[g]]
                &&& forall|q: Seq<Cell>|
                    walk_from(*board, tw, start, q) && is_goal(*board, goal, #[trigger] end_of(start, q))
                        && q.len() == lv[pos[g]] ==> lex_le(ks[pos[g]], move_indices(*board, start, q))
            }
            &&& res.1 is None ==> forall|q: Seq<Cell>|
                walk_from(*board, tw, start, q) ==> !is_goal(*board, goal, #[trigger] end_of(start, q))
        }),
{
    let w = board.width();
    let h = board.height();
    let ghost b = *board;
    let ghost rwn = rw as nat;
    let ghost rhn = rh as nat;
    let total = rw * rh + 1;
    let mut came: Vec<Option<Cell>> = Vec::new();
    while came.len() < total
        invariant
            came.len() <= total,
            forall|k: int| 0 <= k < came.len() ==> came@[k] is None,
            count_none(came@) == came.len(),
        decreases total - came.len(),
    {
        proof {
            lemma_count_none_push(came@, None);
        }
        came.push(None);
    }
    let si = slot_of(start, rw, rh);
    proof {
        lemma_slot(start, rwn, rhn, start);
        lemma_count_none_fill(came@, si as int, start);
    }
    came.set(si, Some(start));
    let mut queue: VecDeque<Cell> = VecDeque::new();
    queue.push_back(start);
    let ghost mut order: Seq<Cell> = seq![start];
    let ghost mut lv: Seq<int> = seq![0int];
    let ghost mut par: Seq<Cell> = seq![start];
    let ghost mut pos: Map<Cell, int> = map![start => 0int];
    let ghost mut head: int = 0;
    let ghost mut ks: Seq<Seq<int>> = seq![Seq::<int>::empty()];
    proof {
        lemma_first_init(b, tw, start);
        assert forall|c: Cell|
            in_table(start, rwn, rhn, c) && (#[trigger] came@[slot(rwn, rhn, c)]) is Some implies pos.dom().contains(
                c,
            ) by {
            lemma_slot(start, rwn, rhn, c);
            if slot(rwn, rhn, c) != si {
                assert(came@[slot(rwn, rhn, c)] is None);
            } else {
                lemma_slot_inj(start, rwn, rhn, c, start);
            }
        }
        assert(queue@ =~= order.subrange(head, order.len() as int));
    }
    loop
        invariant
            table_dims(b, rwn, rhn),
            rwn == rw,
            rhn == rh,
            tw ==> in_region(start, rwn, rhn),
            start.0 < usize::MAX,
            start.1 < usize::MAX,
            b == *board,
            w == b.spec_width(),
            h == b.spec_height(),
            total == rw * rh + 1,
            order_wf(b, tw, start, order, lv, par, pos),
            came_wf(rwn, rhn, start, came@, order, par, pos),
            0 <= head <= order.len(),
            queue@ == order.subrange(head, order.len() as int),
            head < order.len() ==> lv[order.len() - 1] <= lv[head] + 1,
            expanded(b, tw, order, lv, pos, head),
            forall|k: int| 0 <= k < order.len() ==> !is_goal(b, goal, #[trigger] order[k]),
            order.len() + count_none(came@) == total,
            first_order(b, tw, order, lv, par, pos, ks, head, 0),
        decreases total - head,
    {
        let u = match queue.pop_front() {
            Some(u) => u,
            None => {
                proof {
                    assert(head == order.len());
                    assert forall|q: Seq<Cell>| walk_from(b, tw, start, q) implies !is_goal(
                        b,
                        goal,
                        #[trigger] end_of(start, q),
                    ) by {
                        lemma_walk_levels(b, tw, start, order, lv, par, pos, head, q.len() as int + 1, q);
                        assert(order[pos[end_of(start, q)]] == end_of(start, q));
                    }
                }
                return (came, None, Ghost((order, lv, par, pos, ks)));
            },
        };
        proof {
            assert(u == order[head]);
            assert(in_table(start, rwn, rhn, u));
            if in_region(u, rwn, rhn) {
                assert(u.0 < usize::MAX && u.1 < usize::MAX) by (nonlinear_arith)
                    requires
                        u.0 < rhn,
                        u.1 < rwn,
                        rwn * rhn < usize::MAX,
                ;
            }
        }
        let nb = neighbors(u.0, u.1, w, h);
        let mut k: usize = 0;
        while k < 4
            invariant
                table_dims(b, rwn, rhn),
                rwn == rw,
                rhn == rh,
                tw ==> in_region(start, rwn, rhn),
                b == *board,
                w == b.spec_width(),
                h == b.spec_height(),
                total == rw * rh + 1,
                order_wf(b, tw, start, order, lv, par, pos),
                came_wf(rwn, rhn, start, came@, order, par, pos),
                0 <= head < order.len(),
                u == order[head],
                queue@ == order.subrange(head + 1, order.len() as int),
                lv[order.len() - 1] <= lv[head] + 1,
                expanded(b, tw, order, lv, pos, head),
                forall|j: int| 0 <= j < order.len() ==> !is_goal(b, goal, #[trigger] order[j]),
                order.len() + count_none(came@) == total,
                nb@ == neighbor_cells(u, w as nat, h as nat),
                k <= 4,
                forall|j: int| 0 <= j < k ==> covered(b, tw, u, #[trigger] nb@[j], pos, lv, lv[head] + 1),
                first_order(b, tw, order, lv, par, pos, ks, head, k as int),
            decreases 4 - k,
        {
            if let Some(v) = nb[k] {
                let passable = tw || walkable_at(board, v.0, v.1);
                proof {
                    assert(nb@[k as int] == Some(v));
                    assert(neighbor_cells(u, w as nat, h as nat).contains(Some(v)));
                    assert(passable == step(b, tw, u, v));
                    if passable {
                        lemma_step_in_table(b, tw, rwn, rhn, start, u, v);
                    }
                }
                let vi = slot_of(v, rw, rh);
                proof {
                    lemma_slot(start, rwn, rhn, v);
                }
                if passable && came[vi].is_none() {
                    let ghost n = order.len() as int;
                    let ghost old_came = came@;
                    let ghost old_order = order;
                    let ghost old_lv = lv;
                    let ghost old_pos = pos;
                    let ghost old_par = par;
                    proof {
                        lemma_slot(start, rwn, rhn, v);
                        lemma_count_none_fill(came@, vi as int, u);
                    }
                    came.set(vi, Some(u));
                    proof {
                        lemma_discover(b, tw, start, rwn, rhn, old_came, order, lv, par, pos, head, u, v, vi as int);
                        lemma_first_discover(
                            b,
                            tw,
                            start,
                            rwn,
                            rhn,
                            old_came,
                            order,
                            lv,
                            par,
                            pos,
                            ks,
                            head,
                            k as int,
                            u,
                            v,
                            vi as int,
                        );
                        ks = ks.push(ks[head].push(k as int));
                        order = order.push(v);
                        lv = lv.push(lv[head] + 1);
                        par = par.push(u);
                        pos = pos.insert(v, n);
                        assert forall|j: int| 0 <= j < k + 1 implies covered(
                            b,
                            tw,
                            u,
                            #[trigger] nb@[j],
                            pos,
                            lv,
                            lv[head] + 1,
                        ) by {
                            if j < k {
                                assert(covered(b, tw, u, nb@[j], old_pos, old_lv, old_lv[head] + 1));
                                if let Some(x) = nb@[j] {
                                    if step(b, tw, u, x) {
                                        assert(x != v);
                                    }
                                }
                            }
                        }
                    }
                    if is_goal_at(board, goal, v) {
                        proof {
                            lemma_found_is_nearest(b, tw, goal, start, old_order, old_lv, order, lv, par, pos, head, v);
                            lemma_first_facts(b, tw, order, lv, par, pos, ks, head, k as int + 1);
                            assert forall|q: Seq<Cell>|
                                walk_from(b, tw, start, q) && is_goal(b, goal, #[trigger] end_of(start, q)) && q.len()
                                    == lv[pos[v]] implies lex_le(ks[pos[v]], move_indices(b, start, q)) by {
                                lemma_found_first(
                                    b,
                                    tw,
                                    goal,
                                    start,
                                    old_order,
                                    order,
                                    lv,
                                    par,
                                    pos,
                                    ks,
                                    head,
                                    k as int,
                                    v,
                                    q,
                                );
                            }
                        }
                        return (came, Some(v), Ghost((order, lv, par, pos, ks)));
                    }
                    queue.push_back(v);
                    proof {
                        assert(queue@ =~= order.subrange(head + 1, order.len() as int));
                    }
                } else {
                    proof {
                        lemma_first_next(b, tw, order, lv, par, pos, ks, head, k as int);
                        assert forall|j: int| 0 <= j < k + 1 implies covered(
                            b,
                            tw,
                            u,
                            #[trigger] nb@[j],
                            pos,
                            lv,
                            lv[head] + 1,
                        ) by {
                            if j == k && passable {
                                assert(in_table(start, rwn, rhn, v));
                                assert(came@[slot(rwn, rhn, v)] is Some);
                                assert(pos.dom().contains(v));
                                assert(lv[pos[v]] <= lv[order.len() - 1]);
                            }
                        }
                    }
                }
            } else {
                proof {
                    lemma_first_next(b, tw, order, lv, par, pos, ks, head, k as int);
                }
            }
            k = k + 1;
        }
        proof {
            assert forall|m: int, c: Cell|
                0 <= m < head + 1 && #[trigger] step(b, tw, order[m], c) implies pos.dom().contains(c) && lv[pos[c]]
                <= lv[m] + 1 by {
                if m == head {
                    let s = neighbor_cells(u, w as nat, h as nat);
                    let j = choose|j: int| 0 <= j < s.len() && s[j] == Some(c);
                    assert(nb@[j] == Some(c));
                    assert(covered(b, tw, u, nb@[j], pos, lv, lv[head] + 1));
                }
            }
            lemma_first_advance(b, tw, order, lv, par, pos, ks, head, k as int);
            head = head + 1;
            assert(queue@ =~= order.subrange(head, order.len() as int));
            if head < order.len() {
                assert(lv[head - 1] <= lv[head]);
            }
        }
    }
}

/// `p` is a walk from `start` to a goal, with no fewer moves than any other
/// walk from `start` to any goal.
pub open spec fn is_nearest_route(b: Board, tw: bool, goal: Goal, start: Cell, p: Seq<Cell>) -> bool {
    &&& walk_from(b, tw, start, p)
    &&& is_goal(b, goal, end_of(start, p))
    &&& forall|q: Seq<Cell>|
        walk_from(b, tw, start, q) && is_goal(b, goal, #[trigger] end_of(start, q)) ==> p.len() <= q.len()
}

/// `p` is the nearest route that a breadth-first search takes when it tries
/// the moves of each cell in the order up, down, left, right and expands
/// cells in the order it finds them: among the walks to a goal with as few
/// moves as `p`, the move positions of `p` come first in dictionary order.
pub open spec fn is_first_route(b: Board, tw: bool, goal: Goal, start: Cell, p: Seq<Cell>) -> bool {
    &&& is_nearest_route(b, tw, goal, start, p)
    &&& forall|q: Seq<Cell>|
        walk_from(b, tw, start, q) && is_goal(b, goal, #[trigger] end_of(start, q)) && q.len() == p.len()
            ==> lex_le(move_indices(b, start, p), move_indices(b, start, q))
}

/// Some walk from `start` reaches a goal.
pub open spec fn goal_reachable(b: Board, tw: bool, goal: Goal, start: Cell) -> bool {
    exists|q: Seq<Cell>| walk_from(b, tw, start, q) && is_goal(b, goal, #[trigger] end_of(start, q))
}

proof fn lemma_walk_push(b: Board, tw: bool, start: Cell, p: Seq<Cell>, c: Cell)
    requires
        walk_from(b, tw, start, p),
        step(b, tw, end_of(start, p), c),
    ensures
        walk_from(b, tw, start, p.push(c)),
        end_of(start, p.push(c)) == c,
{
    let s = p.push(c);
    assert forall|k: int| 0 <= k < s.len() implies step(b, tw, before(start, s, k), #[trigger] s[k]) by {
        if k < p.len() {
            assert(s[k] == p[k]);
            assert(before(start, s, k) == before(start, p, k));
        } else {
            assert(before(start, s, k) == end_of(start, p));
        }
    }
}

/// Following parents back from a found cell gives a walk from `start`
/// with as many moves as the cell's level.
proof fn lemma_route_to(
    b: Board,
    tw: bool,
    start: Cell,
    order: Seq<Cell>,
    lv: Seq<int>,
    par: Seq<Cell>,
    pos: Map<Cell, int>,
    ks: Seq<Seq<int>>,
    c: Cell,
) -> (p: Seq<Cell>)
    requires
        order_wf(b, tw, start, order, lv, par, pos),
        keys_wf(b, order, lv, par, pos, ks),
        pos.dom().contains(c),
    ensures
        walk_from(b, tw, start, p),
        end_of(start, p) == c,
        p.len() == lv[pos[c]],
        move_indices(b, start, p) == ks[pos[c]],
    decreases pos[c],
{
    let k = pos[c];
    if k == 0 {
        assert(order[0] == c);
        let p: Seq<Cell> = seq![];
        assert(move_indices(b, start, p) =~= Seq::<int>::empty());
        p
    } else {
        let pp = par[k];
        assert(order[k] == c);
        let p0 = lemma_route_to(b, tw, start, order, lv, par, pos, ks, pp);
        lemma_walk_push(b, tw, start, p0, c);
        lemma_move_indices_push(b, start, p0, c);
        p0.push(c)
    }
}

/// One step back along the parent table, from a found cell other than
/// `start`, extends the walk built so far by one move at its front.
#[verifier::spinoff_prover]
#[verifier::rlimit(100)]
proof fn lemma_back_step(
    b: Board,
    start: Cell,
    rw: nat,
    rh: nat,
    came: Seq<Option<Cell>>,
    order: Seq<Cell>,
    lv: Seq<int>,
    par: Seq<Cell>,
    pos: Map<Cell, int>,
    ks: Seq<Seq<int>>,
    end: Cell,
    cur: Cell,
    rev: Seq<Cell>,
)
    requires
        order_wf(b, false, start, order, lv, par, pos),
        keys_wf(b, order, lv, par, pos, ks),
        ks[pos[end]] == ks[pos[cur]] + move_indices(b, cur, rev.reverse()),
        came_wf(rw, rh, start, came, order, par, pos),
        pos.dom().contains(end),
        pos.dom().contains(cur),
        rev.len() + lv[pos[cur]] == lv[pos[end]],
        walk_from(b, false, cur, rev.reverse()),
        end_of(cur, rev.reverse()) == end,
        cur != start,
    ensures
        in_table(start, rw, rh, cur),
        came[slot(rw, rh, cur)] == Some(par[pos[cur]]),
        pos.dom().contains(par[pos[cur]]),
        lv[pos[par[pos[cur]]]] + 1 == lv[pos[cur]],
        lv[pos[par[pos[cur]]]] >= 0,
        rev.push(cur).len() + lv[pos[par[pos[cur]]]] == lv[pos[end]],
        walk_from(b, false, par[pos[cur]], rev.push(cur).reverse()),
        end_of(par[pos[cur]], rev.push(cur).reverse()) == end,
        ks[pos[end]] == ks[pos[par[pos[cur]]]] + move_indices(b, par[pos[cur]], rev.push(cur).reverse()),
{
    let k = pos[cur];
    assert(order[k] == cur);
    if k == 0 {
        assert(order[0] == start);
    }
    assert(came[slot(rw, rh, order[k])] == Some(par[k]));
    assert(lv[0] <= lv[pos[par[k]]]);
    lemma_walk_prepend(b, false, par[k], cur, rev.reverse());
    assert(rev.push(cur).reverse() =~= seq![cur] + rev.reverse());
    lemma_move_indices_prepend(b, par[k], cur, rev.reverse());
    assert(ks[k] == ks[pos[par[k]]].push(move_index(b, par[k], order[k])));
    assert(ks[pos[end]] =~= ks[pos[par[k]]] + move_indices(b, par[k], rev.push(cur).reverse()));
}

/// Some cell of the board is walkable.
pub open spec fn some_walkable(b: Board) -> bool {
    exists|c: Cell| walkable(b, c)
}

/// `r` is a walkable cell closest to `c`, counting moves that may cross
/// walls; `c` itself when walkable, or when no cell of the board is.
pub open spec fn is_nearest_walkable(b: Board, c: Cell, r: Cell) -> bool {
    &&& walkable(b, c) ==> r == c
    &&& some_walkable(b) ==> walkable(b, r) && exists|p: Seq<Cell>|
        is_first_route(b, true, Goal::AnyWalkable, c, p) && #[trigger] end_of(c, p) == r
    &&& !some_walkable(b) ==> r == c
}

/// The rectangle a search for the nearest walkable cell from `(i, j)`
/// may cover: the board, stretched to hold `(i, j)`.
pub open spec fn nearest_search_rows(b: Board, i: usize) -> nat {
    if i + 1 > b.spec_height() { (i + 1) as nat } else { b.spec_height() }
}

pub open spec fn nearest_search_cols(b: Board, j: usize) -> nat {
    if j + 1 > b.spec_width() { (j + 1) as nat } else { b.spec_width() }
}

/// How many moves from column `j` to column `cj`, going right with
/// wrap-around, roughly: a measure that each such move decreases.
spec fn col_measure(w: nat, j: usize, cj: usize) -> nat {
    if j <= cj {
        (cj - j) as nat
    } else if j + 1 >= w {
        (cj + 1) as nat
    } else {
        (w - j + cj + 1) as nat
    }
}

/// Moving through walls, every cell of the board can be reached from any
/// cell: up or down to its row, then right (round through the tunnel) to
/// its column.
proof fn lemma_reach_cell(b: Board, s: Cell, c: Cell) -> (p: Seq<Cell>)
    requires
        grid_dims(b),
        b.in_bounds(c.0 as int, c.1 as int),
    ensures
        walk_from(b, true, s, p),
        end_of(s, p) == c,
    decreases (if s.0 > c.0 { s.0 - c.0 } else { c.0 - s.0 }), col_measure(b.spec_width(), s.1, c.1),
{
    let w = b.spec_width();
    let h = b.spec_height();
    assert(w < usize::MAX && h < usize::MAX) by (nonlinear_arith)
        requires
            w * h < usize::MAX,
            w > 0,
            h > 0,
    ;
    let nb = neighbor_cells(s, w, h);
    if s.0 > c.0 {
        let n = ((s.0 - 1) as usize, s.1);
        assert(nb[0] == Some(n));
        assert(nb.contains(Some(n)));
        let rest = lemma_reach_cell(b, n, c);
        lemma_walk_prepend(b, true, s, n, rest);
        seq![n] + rest
    } else if s.0 < c.0 {
        let n = ((s.0 + 1) as usize, s.1);
        assert(nb[1] == Some(n));
        assert(nb.contains(Some(n)));
        let rest = lemma_reach_cell(b, n, c);
        lemma_walk_prepend(b, true, s, n, rest);
        seq![n] + rest
    } else if s.1 == c.1 {
        assert(s == c);
        seq![]
    } else {
        let n = (s.0, if s.1 + 1 >= w { 0usize } else { (s.1 + 1) as usize });
        assert(nb[3] == Some(n));
        if s.1 <= c.1 {
            assert(s.1 + 1 < w);
            assert(col_measure(w, n.1, c.1) < col_measure(w, s.1, c.1));
        } else if s.1 + 1 >= w {
            assert(col_measure(w, n.1, c.1) < col_measure(w, s.1, c.1));
        } else {
            assert(n.1 == s.1 + 1);
            assert(col_measure(w, n.1, c.1) < col_measure(w, s.1, c.1));
        }
        assert(nb.contains(Some(n)));
        let rest = lemma_reach_cell(b, n, c);
        lemma_walk_prepend(b, true, s, n, rest);
        seq![n] + rest
    }
}

/// The walkable cell closest to `(i, j)`, counting moves that may cross
/// walls: `(i, j)` itself if walkable; otherwise the first walkable cell
/// that a breadth-first search from `(i, j)` meets; `(i, j)` if no cell
/// of the board is walkable.
///
/// From a cell off the board the search may cover the whole rectangle
/// from the board's corner to that cell, so that rectangle's cells must be
/// countable in a `usize` (for cells on the board this always holds).
pub fn nearest_walkable(i: usize, j: usize, board: &Board) -> (r: Cell)
    requires
        !walkable(*board, (i, j)) ==> {
            &&& i < usize::MAX
            &&& j < usize::MAX
            &&& nearest_search_rows(*board, i) * nearest_search_cols(*board, j) < usize::MAX
        },
    ensures
        is_nearest_walkable(*board, (i, j), r),
{
    let ghost b = *board;
    let w = board.width();
    let h = board.height();
    if walkable_at(board, i, j) {
        proof {
            let p: Seq<Cell> = seq![];
            assert(walk_from(b, true, (i, j), p));
            assert(is_nearest_route(b, true, Goal::AnyWalkable, (i, j), p));
            assert forall|q: Seq<Cell>|
                walk_from(b, true, (i, j), q) && is_goal(b, Goal::AnyWalkable, #[trigger] end_of((i, j), q)) && q.len()
                    == p.len() implies lex_le(move_indices(b, (i, j), p), move_indices(b, (i, j), q)) by {
                assert(move_indices(b, (i, j), p) =~= move_indices(b, (i, j), q));
            }
            assert(end_of((i, j), p) == (i, j));
        }
        return (i, j);
    }
    let rh = if i + 1 > h { i + 1 } else { h };
    let rw = if j + 1 > w { j + 1 } else { w };
    proof {
        lemma_grid_dims(b);
        assert(rh == nearest_search_rows(b, i));
        assert(rw == nearest_search_cols(b, j));
        assert(rw * rh == rh * rw) by (nonlinear_arith);
    }
    let (_came, found, gs) = search(board, (i, j), true, Goal::AnyWalkable, rw, rh);
    let ghost (order, lv, par, pos, ks) = gs@;
    proof {
        if some_walkable(b) {
            let c = choose|c: Cell| walkable(b, c);
            let q = lemma_reach_cell(b, (i, j), c);
            assert(is_goal(b, Goal::AnyWalkable, end_of((i, j), q)));
        }
    }
    match found {
        Some(g) => {
            proof {
                let p = lemma_route_to(b, true, (i, j), order, lv, par, pos, ks, g);
                assert(is_nearest_route(b, true, Goal::AnyWalkable, (i, j), p));
                assert(is_first_route(b, true, Goal::AnyWalkable, (i, j), p));
                assert(walkable(b, g));
            }
            g
        },
        None => {
            (i, j)
        },
    }
}

/// A shortest walk for a ghost from `(start_i, start_j)` to
/// `(end_i, end_j)`, as the list of cells it enters (the start left out,
/// the end last).  Empty when the two cells are the same or no walk
/// connects them.  The start may lie off the board.
pub fn bfs(start_i: usize, start_j: usize, end_i: usize, end_j: usize, board: &Board) -> (r: Vec<Cell>)
    requires
        (start_i, start_j) != (end_i, end_j) ==> start_i < usize::MAX && start_j < usize::MAX,
    ensures
        goal_reachable(*board, false, Goal::At((end_i, end_j)), (start_i, start_j)) ==> is_first_route(
            *board,
            false,
            Goal::At((end_i, end_j)),
            (start_i, start_j),
            r@,
        ),
        !goal_reachable(*board, false, Goal::At((end_i, end_j)), (start_i, start_j)) ==> r@.len() == 0,
{
    let ghost b = *board;
    let start = (start_i, start_j);
    let end = (end_i, end_j);
    let ghost goal = Goal::At(end);
    if start_i == end_i && start_j == end_j {
        proof {
            let p: Seq<Cell> = seq![];
            assert(walk_from(b, false, start, p));
            assert(is_nearest_route(b, false, goal, start, p));
            assert forall|q: Seq<Cell>|
                walk_from(b, false, start, q) && is_goal(b, goal, #[trigger] end_of(start, q)) && q.len() == p.len()
                    implies lex_le(move_indices(b, start, p), move_indices(b, start, q)) by {
                assert(move_indices(b, start, p) =~= move_indices(b, start, q));
            }
        }
        return Vec::new();
    }
    let w = board.width();
    let h = board.height();
    let (came, found, gs) = search(board, start, false, Goal::At(end), w, h);
    let ghost (order, lv, par, pos, ks) = gs@;
    if found.is_none() {
        return Vec::new();
    }
    proof {
        assert(pos.dom().contains(end));
        assert(Seq::<Cell>::empty().reverse() =~= Seq::<Cell>::empty());
        assert(move_indices(b, end, Seq::<Cell>::empty()) =~= Seq::<int>::empty());
        assert(ks[pos[end]] + Seq::<int>::empty() =~= ks[pos[end]]);
    }
    let mut rev: Vec<Cell> = Vec::new();
    let mut cur = end;
    while cur.0 != start_i || cur.1 != start_j
        invariant
            b == *board,
            w == b.spec_width(),
            h == b.spec_height(),
            w * h < usize::MAX,
            start == (start_i, start_j),
            order_wf(b, false, start, order, lv, par, pos),
            came_wf(w as nat, h as nat, start, came@, order, par, pos),
            pos.dom().contains(end),
            pos.dom().contains(cur),
            rev@.len() + lv[pos[cur]] == lv[pos[end]],
            walk_from(b, false, cur, rev@.reverse()),
            end_of(cur, rev@.reverse()) == end,
            keys_wf(b, order, lv, par, pos, ks),
            ks[pos[end]] == ks[pos[cur]] + move_indices(b, cur, rev@.reverse()),
        decreases lv[pos[cur]],
    {
        proof {
            lemma_back_step(b, start, w as nat, h as nat, came@, order, lv, par, pos, ks, end, cur, rev@);
            lemma_slot(start, w as nat, h as nat, cur);
        }
        let ci = slot_of(cur, w, h);
        rev.push(cur);
        match came[ci] {
            Some(p) => {
                cur = p;
            },
            None => {
                return Vec::new();
            },
        }
    }
    let mut path: Vec<Cell> = Vec::new();
    let mut k = rev.len();
    while k > 0
        invariant
            k <= rev.len(),
            path@.len() == rev.len() - k,
            forall|t: int| 0 <= t < path@.len() ==> path@[t] == rev@[rev.len() - 1 - t],
        decreases k,
    {
        k = k - 1;
        path.push(rev[k]);
    }
    proof {
        assert(path@ =~= rev@.reverse());
        assert(cur == start);
        assert(is_nearest_route(b, false, goal, start, path@));
        assert(pos[order[0]] == 0);
        assert(ks[pos[end]] =~= move_indices(b, start, path@));
        assert(is_first_route(b, false, goal, start, path@));
    }
    path
}

// ---------------------------------------------------------------------------
// Routes for ghosts
// ---------------------------------------------------------------------------

/// One cell of a route, and whether it is entered through the tunnel,
/// jumping from one side of the board to the other.
#[derive(Clone, Copy, PartialEq, Eq, Debug)]
pub struct RouteStep {
    pub cell: Cell,
    pub wraps: bool,
}

/// A move from `from` to `to` jumps through the tunnel: same row, columns
/// more than one apart.
pub open spec fn is_wrap(from: Cell, to: Cell) -> bool {
    from.0 == to.0 && (from.1 > to.1 + 1 || to.1 > from.1 + 1)
}

pub open spec fn step_cells(steps: Seq<RouteStep>) -> Seq<Cell> {
    steps.map_values(|s: RouteStep| s.cell)
}

/// Plans a ghost's route on the board, from its cell `start` towards the
/// cell `target`: the route ends at the walkable cell nearest to `target`,
/// and follows a shortest walk to it, each move marked when it goes through
/// the tunnel.  No moves when the ghost is already there or cannot get
/// there.
pub fn route_cells(board: &Board, start: Cell, target: Cell) -> (r: (Cell, Vec<RouteStep>))
    requires
        start.0 < usize::MAX,
        start.1 < usize::MAX,
        board.in_bounds(target.0 as int, target.1 as int),
    ensures
        is_nearest_walkable(*board, target, r.0),
        goal_reachable(*board, false, Goal::At(r.0), start) ==> is_first_route(
            *board,
            false,
            Goal::At(r.0),
            start,
            step_cells(r.1@),
        ),
        !goal_reachable(*board, false, Goal::At(r.0), start) ==> r.1@.len() == 0,
        forall|k: int|
            0 <= k < r.1@.len() ==> (#[trigger] r.1@[k]).wraps == is_wrap(
                before(start, step_cells(r.1@), k),
                r.1@[k].cell,
            ),
{
    let w = board.width();
    let h = board.height();
    let end = nearest_walkable(target.0, target.1, board);
    let cells = bfs(start.0, start.1, end.0, end.1, board);
    let mut steps: Vec<RouteStep> = Vec::new();
    let mut cur = start;
    let mut k: usize = 0;
    while k < cells.len()
        invariant
            0 <= k <= cells@.len(),
            steps@.len() == k,
            cur == before(start, cells@, k as int),
            forall|t: int| 0 <= t < k ==> (#[trigger] steps@[t]).cell == cells@[t],
            forall|t: int|
                0 <= t < k ==> (#[trigger] steps@[t]).wraps == is_wrap(before(start, cells@, t), cells@[t]),
        decreases cells@.len() - k,
    {
        let next = cells[k];
        let wraps = cur.0 == next.0 && (if cur.1 > next.1 {
            cur.1 - next.1 > 1
        } else {
            next.1 - cur.1 > 1
        });
        steps.push(RouteStep { cell: next, wraps });
        cur = next;
        k = k + 1;
    }
    proof {
        assert(step_cells(steps@) =~= cells@);
    }
    (end, steps)
}

// ---------------------------------------------------------------------------
// Laws
// ---------------------------------------------------------------------------

/// The only moves that jump across the board are the tunnel's: from the
/// first column to the last or back, within one row.
pub proof fn law_wrap_is_tunnel(b: Board, tw: bool, u: Cell, v: Cell)
    requires
        crate::board::grid_wf(b@),
        b.in_bounds(u.0 as int, u.1 as int),
        step(b, tw, u, v),
        is_wrap(u, v),
    ensures
        u.0 == v.0,
        (u.1 == 0 && v.1 == b.spec_width() - 1) || (u.1 == b.spec_width() - 1 && v.1 == 0),
{
    let w = b.spec_width();
    assert(w <= usize::MAX) by (nonlinear_arith)
        requires
            b@.len() * w <= usize::MAX,
            b@.len() > 0,
    ;
    let s = neighbor_cells(u, b.spec_width(), b.spec_height());
    let k = choose|k: int| 0 <= k < s.len() && s[k] == Some(v);
    assert(0 <= k < 4);
    if k == 2 {
        assert(v == (u.0, if u.1 == 0 { (w - 1) as usize } else { (u.1 - 1) as usize }));
    } else if k == 3 {
        assert(v == (u.0, if u.1 + 1 >= w { 0usize } else { (u.1 + 1) as usize }));
    }
}

/// Every move of a walk, tunnel jumps aside, goes to a cell next to the
/// one it leaves: one row up or down, or one column left or right.
pub proof fn law_steps_are_adjacent(b: Board, tw: bool, u: Cell, v: Cell)
    requires
        crate::board::grid_wf(b@),
        b.in_bounds(u.0 as int, u.1 as int),
        step(b, tw, u, v),
        !is_wrap(u, v),
    ensures
        (u.0 == v.0 && (u.1 == v.1 + 1 || v.1 == u.1 + 1)) || (u.1 == v.1 && (u.0 == v.0 + 1 || v.0 == u.0 + 1))
            || (u == v),
{
    let w = b.spec_width();
    assert(w <= usize::MAX) by (nonlinear_arith)
        requires
            b@.len() * w <= usize::MAX,
            b@.len() > 0,
    ;
    assert(b.spec_height() <= usize::MAX) by (nonlinear_arith)
        requires
            b@.len() * w <= usize::MAX,
            w > 0,
    ;
    let s = neighbor_cells(u, b.spec_width(), b.spec_height());
    let k = choose|k: int| 0 <= k < s.len() && s[k] == Some(v);
    assert(0 <= k < 4);
    if k == 0 {
        assert(v == ((u.0 - 1) as usize, u.1));
    } else if k == 1 {
        assert(v == ((u.0 + 1) as usize, u.1));
    } else if k == 2 {
        assert(v == (u.0, if u.1 == 0 { (w - 1) as usize } else { (u.1 - 1) as usize }));
        if u.1 == 0 && w == 1 {
            assert(u == v);
        }
    } else if k == 3 {
        assert(v == (u.0, if u.1 + 1 >= w { 0usize } else { (u.1 + 1) as usize }));
        if u.1 + 1 >= w && w == 1 {
            assert(u == v);
        }
    }
}

/// The candidate moves out of a cell of a `w` x `h` board: up to the
/// previous row and down to the next one, none past the first or last row;
/// left to the previous column and right to the next one, where the first
/// and last columns are joined by the tunnel, both ways, whatever the
/// board's size.  A left move undoes a right move and a down move an up
/// move.
pub proof fn law_candidate_moves(c: Cell, w: nat, h: nat)
    requires
        0 < w <= usize::MAX,
        h <= usize::MAX,
        c.0 < h,
        c.1 < w,
    ensures
        c.0 > 0 ==> neighbor_cells(c, w, h)[0] == Some(((c.0 - 1) as usize, c.1)),
        c.0 == 0 ==> neighbor_cells(c, w, h)[0] is None,
        c.0 + 1 < h ==> neighbor_cells(c, w, h)[1] == Some(((c.0 + 1) as usize, c.1)),
        c.0 + 1 == h ==> neighbor_cells(c, w, h)[1] is None,
        c.1 > 0 ==> neighbor_cells(c, w, h)[2] == Some((c.0, (c.1 - 1) as usize)),
        c.1 == 0 ==> neighbor_cells(c, w, h)[2] == Some((c.0, (w - 1) as usize)),
        c.1 + 1 < w ==> neighbor_cells(c, w, h)[3] == Some((c.0, (c.1 + 1) as usize)),
        c.1 + 1 == w ==> neighbor_cells(c, w, h)[3] == Some((c.0, 0usize)),
        neighbor_cells(c, w, h)[3] matches Some(d) ==> neighbor_cells(d, w, h)[2] == Some(c),
        neighbor_cells(c, w, h)[2] matches Some(d) ==> neighbor_cells(d, w, h)[3] == Some(c),
        neighbor_cells(c, w, h)[1] matches Some(d) ==> neighbor_cells(d, w, h)[0] == Some(c),
        neighbor_cells(c, w, h)[0] matches Some(d) ==> neighbor_cells(d, w, h)[1] == Some(c),
{
}

/// The cell ahead of a mover on the board, by direction: right is the next
/// column, wrapping from the last column to the first; left the previous
/// one, wrapping from the first to the last; up the next row and down the
/// previous one, none past the board's top or bottom.
pub proof fn law_cell_ahead(c: Cell, w: nat, h: nat)
    requires
        0 < w <= usize::MAX,
        h <= usize::MAX,
        c.0 < h,
        c.1 < w,
    ensures
        cell_ahead(c, Direction::Right, w, h) == Some((c.0, if c.1 + 1 == w { 0usize } else { (c.1 + 1) as usize })),
        cell_ahead(c, Direction::Left, w, h) == Some((c.0, if c.1 == 0 { (w - 1) as usize } else { (c.1 - 1) as usize })),
        cell_ahead(c, Direction::Up, w, h) == (if c.0 + 1 < h { Some(((c.0 + 1) as usize, c.1)) } else { None }),
        cell_ahead(c, Direction::Down, w, h) == (if c.0 > 0 { Some(((c.0 - 1) as usize, c.1)) } else { None }),
{
    law_candidate_moves(c, w, h);
}

/// On every board the tunnel is a ghost's move both ways: from the first
/// column of a row to its last, and back, when the cell moved to is not a
/// wall.
pub proof fn law_tunnel_is_a_move(b: Board, i: usize)
    requires
        crate::board::grid_wf(b@),
        i < b.spec_height(),
    ensures
        walkable(b, (i, (b.spec_width() - 1) as usize)) ==> step(b, false, (i, 0usize), (i, (b.spec_width() - 1) as usize)),
        walkable(b, (i, 0usize)) ==> step(b, false, (i, (b.spec_width() - 1) as usize), (i, 0usize)),
{
    lemma_grid_dims(b);
    let w = b.spec_width();
    let h = b.spec_height();
    assert(w <= usize::MAX && h <= usize::MAX) by (nonlinear_arith)
        requires
            w * h < usize::MAX,
            w > 0,
            h > 0,
    ;
    law_candidate_moves((i, 0usize), w, h);
    law_candidate_moves((i, (w - 1) as usize), w, h);
    let a = neighbor_cells((i, 0usize), w, h);
    let c = neighbor_cells((i, (w - 1) as usize), w, h);
    assert(a[2] == Some((i, (w - 1) as usize)));
    assert(a.contains(Some((i, (w - 1) as usize))));
    assert(c[3] == Some((i, 0usize)));
    assert(c.contains(Some((i, 0usize))));
}

} // verus!
