//! Hex A* over a terrain table and an occupancy table, with unit step cost.
//!
//! The visited cells live in one vector. Each holds the index of the cell it
//! was reached from and a flag that says whether it still waits in the open
//! set. The open cell taken next is the least by `(f, h, x, y)`.
use crate::geometry::Point;
use crate::model::{EntityComponent, TerrainComponent, TileTerrainType};
use crate::morton_table::{in_bounds, MortonTable};
use vstd::prelude::*;

verus! {

/// A visited cell: where it is, where it was reached from, the distance `h`
/// left to the goal and the number `g` of steps taken from the start.
#[derive(Debug, Clone, Copy, PartialEq, Eq, Structural)]
pub struct Node {
    pub pos: Point,
    pub parent: Point,
    pub h: u64,
    pub g: u64,
}

impl Node {
    /// `f = g + h`.
    pub open spec fn cost(&self) -> int {
        self.h + self.g
    }

    pub fn new(pos: Point, parent: Point, h: u64, g: u64) -> (n: Node)
        ensures
            n == (Node { pos, parent, h, g }),
    {
        Node { pos, parent, h, g }
    }

    pub fn f(&self) -> (r: u64)
        requires
            self.cost() <= u64::MAX,
        ensures
            r == self.cost(),
    {
        self.h + self.g
    }
}

#[derive(Debug, Clone, Copy, PartialEq, Eq, Structural)]
pub enum PathFindingError {
    /// The iteration budget ran out before the goal was reached.
    NotFound,
    /// The open set ran empty while iterations were left.
    Unreachable,
}

/// A slot of the search: the node, the index of the slot it was reached
/// from, and whether it is still in the open set.
#[derive(Debug, Clone, Copy)]
pub struct Visit {
    pub node: Node,
    pub parent: usize,
    pub open: bool,
}

/// The order of the open set: by `f`, then `h`, then `x`, then `y`.
pub open spec fn before(a: Node, b: Node) -> bool {
    ||| a.cost() < b.cost()
    ||| a.cost() == b.cost() && a.h < b.h
    ||| a.cost() == b.cost() && a.h == b.h && a.pos.x < b.pos.x
    ||| a.cost() == b.cost() && a.h == b.h && a.pos.x == b.pos.x && a.pos.y < b.pos.y
}

/// A cell may be stepped on: it lies in the range of the tables, and it is
/// the goal, or it is neither occupied nor a wall.
pub open spec fn passable(
    p: Point,
    to: Point,
    occupied: Map<Point, EntityComponent>,
    terrain: Map<Point, TerrainComponent>,
) -> bool {
    in_bounds(p) && (p == to || (!occupied.contains_key(p) && !(terrain.contains_key(p)
        && terrain[p].0 == TileTerrainType::Wall)))
}

/// `steps` leads from `from` to `end` one cell at a time over passable cells.
/// `from` itself is not part of it.
pub open spec fn is_walk(
    from: Point,
    steps: Seq<Point>,
    end: Point,
    to: Point,
    occupied: Map<Point, EntityComponent>,
    terrain: Map<Point, TerrainComponent>,
) -> bool {
    &&& steps.len() == 0 ==> from == end
    &&& steps.len() > 0 ==> steps.last() == end
    &&& forall|i: int|
        0 <= i < steps.len() ==> (if i == 0 {
            from
        } else {
            steps[i - 1]
        }).adjacent(#[trigger] steps[i])
    &&& forall|i: int| 0 <= i < steps.len() ==> passable(#[trigger] steps[i], to, occupied, terrain)
}

/// `steps` is a path from `from` to `to`: consecutive cells are one step
/// apart, the last cell is `to`, every cell lies in the range of the tables,
/// and no cell but `to` is a wall or occupied.
pub open spec fn is_path(
    from: Point,
    steps: Seq<Point>,
    to: Point,
    occupied: Map<Point, EntityComponent>,
    terrain: Map<Point, TerrainComponent>,
) -> bool {
    is_walk(from, steps, to, to, occupied, terrain)
}

/// Some slot is still open.
pub open spec fn has_open(nodes: Seq<Visit>) -> bool {
    exists|i: int| 0 <= i < nodes.len() && (#[trigger] nodes[i]).open
}

/// Slot `i` is open and comes before every other open slot.
pub open spec fn is_best(nodes: Seq<Visit>, i: int) -> bool {
    &&& 0 <= i < nodes.len()
    &&& nodes[i].open
    &&& forall|j: int|
        0 <= j < nodes.len() && j != i && (#[trigger] nodes[j]).open ==> before(
            nodes[i].node,
            nodes[j].node,
        )
}

/// The open slot that is expanded next.
pub open spec fn best_open(nodes: Seq<Visit>) -> int {
    choose|i: int| is_best(nodes, i)
}

/// The slot that holds cell `p`, or `-1`.
pub open spec fn slot_of(nodes: Seq<Visit>, p: Point) -> int {
    if exists|i: int| 0 <= i < nodes.len() && (#[trigger] nodes[i]).node.pos == p {
        choose|i: int| 0 <= i < nodes.len() && (#[trigger] nodes[i]).node.pos == p
    } else {
        -1
    }
}

/// Reaching cell `q` from slot `cur`: a new cell joins the open set; an open
/// cell that is reached in fewer steps than before gets the new parent.
pub open spec fn relax(nodes: Seq<Visit>, cur: int, q: Point, to: Point) -> Seq<Visit> {
    let g = (nodes[cur].node.g + 1) as u64;
    let j = slot_of(nodes, q);
    let reached = Visit {
        node: Node { pos: q, parent: nodes[cur].node.pos, h: q.distance(to) as u64, g },
        parent: cur as usize,
        open: true,
    };
    if j < 0 {
        nodes.push(reached)
    } else if nodes[j].open && g < nodes[j].node.g {
        nodes.update(j, reached)
    } else {
        nodes
    }
}

/// The `k`-th neighbour of `p` is a cell.
pub open spec fn neighbour_exists(p: Point, k: int) -> bool {
    &&& i32::MIN <= p.x + crate::geometry::neighbour_dx(k) <= i32::MAX
    &&& i32::MIN <= p.y + crate::geometry::neighbour_dy(k) <= i32::MAX
}

/// Slot `cur` closed and its first `k` neighbours, clockwise from east, reached.
pub open spec fn expand_upto(
    nodes: Seq<Visit>,
    cur: int,
    k: int,
    to: Point,
    occupied: Map<Point, EntityComponent>,
    terrain: Map<Point, TerrainComponent>,
) -> Seq<Visit>
    decreases k,
{
    if k <= 0 {
        nodes.update(cur, Visit { open: false, ..nodes[cur] })
    } else {
        let prev = expand_upto(nodes, cur, k - 1, to, occupied, terrain);
        let p = nodes[cur].node.pos;
        if neighbour_exists(p, k - 1) && passable(p.neighbour(k - 1), to, occupied, terrain) {
            relax(prev, cur, p.neighbour(k - 1), to)
        } else {
            prev
        }
    }
}

/// One iteration of the search on slot `cur`.
pub open spec fn expand(
    nodes: Seq<Visit>,
    cur: int,
    to: Point,
    occupied: Map<Point, EntityComponent>,
    terrain: Map<Point, TerrainComponent>,
) -> Seq<Visit> {
    expand_upto(nodes, cur, 6, to, occupied, terrain)
}

/// The search from a given state: iterate while the current cell is not the
/// goal, a cell is open and the budget is not used up. Yields the slots, the
/// current slot and the budget that is left.
pub open spec fn search(
    nodes: Seq<Visit>,
    cur: int,
    budget: nat,
    to: Point,
    occupied: Map<Point, EntityComponent>,
    terrain: Map<Point, TerrainComponent>,
) -> (Seq<Visit>, int, nat)
    decreases budget,
{
    if nodes[cur].node.pos == to || !has_open(nodes) || budget == 0 {
        (nodes, cur, budget)
    } else {
        let b = best_open(nodes);
        search(expand(nodes, b, to, occupied, terrain), b, (budget - 1) as nat, to, occupied, terrain)
    }
}

/// The state a search starts in: the start cell alone, open.
pub open spec fn start(from: Point, to: Point) -> Seq<Visit> {
    seq![
        Visit {
            node: Node { pos: from, parent: from, h: from.distance(to) as u64, g: 0 },
            parent: 0,
            open: true,
        },
    ]
}

/// The cells from the start to slot `i`, the start left out, following the
/// parents for `fuel` steps.
pub open spec fn trail(nodes: Seq<Visit>, i: int, fuel: nat) -> Seq<Point>
    decreases fuel,
{
    if fuel == 0 || i == 0 {
        Seq::empty()
    } else {
        trail(nodes, nodes[i].parent as int, (fuel - 1) as nat).push(nodes[i].node.pos)
    }
}

/// What the path finder returns: the path on success, else the reason.
pub open spec fn find_path_spec(
    from: Point,
    to: Point,
    occupied: Map<Point, EntityComponent>,
    terrain: Map<Point, TerrainComponent>,
    max_iterations: nat,
) -> Result<Seq<Point>, PathFindingError> {
    let (nodes, cur, left) = search(start(from, to), 0, max_iterations, to, occupied, terrain);
    if nodes[cur].node.pos == to {
        Ok(trail(nodes, cur, nodes[cur].node.g as nat))
    } else if left > 0 {
        Err(PathFindingError::Unreachable)
    } else {
        Err(PathFindingError::NotFound)
    }
}

/// What holds of the slots throughout a search, `steps` iterations in.
/// The cell of slot `i`.
pub open spec fn cell(nodes: Seq<Visit>, i: int) -> Point {
    nodes[i].node.pos
}

/// No cell has two slots.
pub open spec fn distinct(nodes: Seq<Visit>) -> bool {
    forall|i: int, j: int|
        0 <= i < j < nodes.len() ==> #[trigger] cell(nodes, i) != #[trigger] cell(nodes, j)
}

/// Slot `i` holds its distance to the goal and was reached in at most `steps` steps.
pub open spec fn measured(nodes: Seq<Visit>, i: int, steps: nat, to: Point) -> bool {
    &&& nodes[i].node.h == nodes[i].node.pos.distance(to)
    &&& nodes[i].node.g <= steps
}

/// Slot `i` was reached by one step from its parent, a closed slot, and its
/// cell may be stepped on.
pub open spec fn linked(
    nodes: Seq<Visit>,
    i: int,
    to: Point,
    occupied: Map<Point, EntityComponent>,
    terrain: Map<Point, TerrainComponent>,
) -> bool {
    let p = nodes[i].parent as int;
    &&& 0 <= p < nodes.len()
    &&& !nodes[p].open
    &&& nodes[p].node.g + 1 == nodes[i].node.g
    &&& nodes[i].node.parent == nodes[p].node.pos
    &&& nodes[p].node.pos.adjacent(nodes[i].node.pos)
    &&& passable(nodes[i].node.pos, to, occupied, terrain)
}

/// What holds of the slots throughout a search, `steps` iterations in.
pub open spec fn search_inv(
    nodes: Seq<Visit>,
    steps: nat,
    from: Point,
    to: Point,
    occupied: Map<Point, EntityComponent>,
    terrain: Map<Point, TerrainComponent>,
) -> bool {
    &&& nodes.len() >= 1
    &&& nodes[0].node.pos == from
    &&& nodes[0].node.g == 0
    &&& distinct(nodes)
    &&& forall|i: int| 0 <= i < nodes.len() ==> #[trigger] measured(nodes, i, steps, to)
    &&& forall|i: int| 1 <= i < nodes.len() ==> #[trigger] linked(nodes, i, to, occupied, terrain)
}

proof fn lemma_slot_of(nodes: Seq<Visit>, p: Point, j: int)
    requires
        distinct(nodes),
        0 <= j < nodes.len(),
        nodes[j].node.pos == p,
    ensures
        slot_of(nodes, p) == j,
{
    let k = slot_of(nodes, p);
    assert(0 <= k < nodes.len() && nodes[k].node.pos == p);
    if k < j {
        assert(cell(nodes, k) != cell(nodes, j));
    }
    if j < k {
        assert(cell(nodes, j) != cell(nodes, k));
    }
}

proof fn lemma_slot_of_none(nodes: Seq<Visit>, p: Point)
    requires
        forall|i: int| 0 <= i < nodes.len() ==> (#[trigger] nodes[i]).node.pos != p,
    ensures
        slot_of(nodes, p) == -1,
{
}

proof fn lemma_best_unique(nodes: Seq<Visit>, b: int)
    requires
        is_best(nodes, b),
    ensures
        best_open(nodes) == b,
        has_open(nodes),
{
    let c = best_open(nodes);
    assert(is_best(nodes, c));
    if c != b {
        assert(before(nodes[b].node, nodes[c].node));
        assert(before(nodes[c].node, nodes[b].node));
    }
}

#[verifier::spinoff_prover]
proof fn lemma_relax_inv(
    nodes: Seq<Visit>,
    cur: int,
    q: Point,
    steps: nat,
    from: Point,
    to: Point,
    occupied: Map<Point, EntityComponent>,
    terrain: Map<Point, TerrainComponent>,
)
    requires
        search_inv(nodes, steps, from, to, occupied, terrain),
        0 <= cur < nodes.len(),
        cur <= usize::MAX,
        !nodes[cur].open,
        !nodes[0].open,
        nodes[cur].node.g + 1 <= steps,
        steps <= u32::MAX,
        nodes[cur].node.pos.adjacent(q),
        passable(q, to, occupied, terrain),
    ensures
        search_inv(relax(nodes, cur, q, to), steps, from, to, occupied, terrain),
        relax(nodes, cur, q, to).len() >= nodes.len(),
        forall|i: int|
            0 <= i < nodes.len() ==> #[trigger] cell(relax(nodes, cur, q, to), i) == cell(nodes, i)
                && relax(nodes, cur, q, to)[i].open == nodes[i].open,
        relax(nodes, cur, q, to)[cur].node == nodes[cur].node,
{
    let next = relax(nodes, cur, q, to);
    let j = slot_of(nodes, q);
    let g = (nodes[cur].node.g + 1) as u64;
    let reached = Visit {
        node: Node { pos: q, parent: nodes[cur].node.pos, h: q.distance(to) as u64, g },
        parent: cur as usize,
        open: true,
    };
    assert(0 <= q.distance(to) <= u64::MAX);
    if j < 0 {
        assert(next == nodes.push(reached));
        let n = nodes.len() as int;
        assert forall|a: int, b: int| 0 <= a < b < next.len() implies #[trigger] cell(next, a)
            != #[trigger] cell(next, b) by {
            if b == n {
                assert(nodes[a].node.pos != q);
            } else {
                assert(cell(nodes, a) != cell(nodes, b));
            }
        }
        assert forall|i: int| 0 <= i < next.len() implies #[trigger] measured(
            next,
            i,
            steps,
            to,
        ) by {
            if i < n {
                assert(measured(nodes, i, steps, to));
            }
        }
        assert forall|i: int| 1 <= i < next.len() implies #[trigger] linked(
            next,
            i,
            to,
            occupied,
            terrain,
        ) by {
            if i < n {
                assert(linked(nodes, i, to, occupied, terrain));
            }
        }
    } else if nodes[j].open && g < nodes[j].node.g {
        assert(nodes[j].node.pos == q);
        assert(next == nodes.update(j, reached));
        assert(j != cur && j != 0);
        assert forall|a: int, b: int| 0 <= a < b < next.len() implies #[trigger] cell(next, a)
            != #[trigger] cell(next, b) by {
            assert(cell(nodes, a) != cell(nodes, b));
        }
        assert forall|i: int| 0 <= i < next.len() implies #[trigger] measured(
            next,
            i,
            steps,
            to,
        ) by {
            assert(measured(nodes, i, steps, to));
        }
        assert forall|i: int| 1 <= i < next.len() implies #[trigger] linked(
            next,
            i,
            to,
            occupied,
            terrain,
        ) by {
            if i != j {
                assert(linked(nodes, i, to, occupied, terrain));
                assert(nodes[i].parent as int != j);
            }
        }
    } else {
        assert(next == nodes);
    }
}

#[verifier::spinoff_prover]
proof fn lemma_close_inv(
    nodes: Seq<Visit>,
    cur: int,
    steps: nat,
    from: Point,
    to: Point,
    occupied: Map<Point, EntityComponent>,
    terrain: Map<Point, TerrainComponent>,
)
    requires
        search_inv(nodes, steps, from, to, occupied, terrain),
        0 <= cur < nodes.len(),
    ensures
        search_inv(
            nodes.update(cur, Visit { open: false, ..nodes[cur] }),
            (steps + 1) as nat,
            from,
            to,
            occupied,
            terrain,
        ),
{
    let next = nodes.update(cur, Visit { open: false, ..nodes[cur] });
    assert forall|a: int, b: int| 0 <= a < b < next.len() implies #[trigger] cell(next, a)
        != #[trigger] cell(next, b) by {
        assert(cell(nodes, a) != cell(nodes, b));
    }
    assert forall|i: int| 0 <= i < next.len() implies #[trigger] measured(
        next,
        i,
        (steps + 1) as nat,
        to,
    ) by {
        assert(measured(nodes, i, steps, to));
    }
    assert forall|i: int| 1 <= i < next.len() implies #[trigger] linked(
        next,
        i,
        to,
        occupied,
        terrain,
    ) by {
        assert(linked(nodes, i, to, occupied, terrain));
    }
}

/// What holds while slot `cur` of `nodes` is being expanded.
pub open spec fn expanding(
    nodes: Seq<Visit>,
    next: Seq<Visit>,
    cur: int,
    steps: nat,
    from: Point,
    to: Point,
    occupied: Map<Point, EntityComponent>,
    terrain: Map<Point, TerrainComponent>,
) -> bool {
    &&& search_inv(next, (steps + 1) as nat, from, to, occupied, terrain)
    &&& next.len() >= nodes.len()
    &&& !next[cur].open
    &&& !next[0].open
    &&& next[cur].node == nodes[cur].node
    &&& forall|i: int|
        0 <= i < nodes.len() ==> #[trigger] cell(next, i) == cell(nodes, i) && (!nodes[i].open
            ==> !next[i].open)
}

#[verifier::spinoff_prover]
proof fn lemma_expand_inv(
    nodes: Seq<Visit>,
    cur: int,
    k: int,
    steps: nat,
    from: Point,
    to: Point,
    occupied: Map<Point, EntityComponent>,
    terrain: Map<Point, TerrainComponent>,
)
    requires
        search_inv(nodes, steps, from, to, occupied, terrain),
        0 <= cur < nodes.len(),
        cur <= usize::MAX,
        cur == 0 || !nodes[0].open,
        steps < u32::MAX,
        0 <= k <= 6,
    ensures
        expanding(
            nodes,
            expand_upto(nodes, cur, k, to, occupied, terrain),
            cur,
            steps,
            from,
            to,
            occupied,
            terrain,
        ),
    decreases k,
{
    let next = expand_upto(nodes, cur, k, to, occupied, terrain);
    if k <= 0 {
        lemma_close_inv(nodes, cur, steps, from, to, occupied, terrain);
        assert forall|i: int| 0 <= i < nodes.len() implies #[trigger] cell(next, i) == cell(
            nodes,
            i,
        ) && (!nodes[i].open ==> !next[i].open) by {}
    } else {
        lemma_expand_inv(nodes, cur, k - 1, steps, from, to, occupied, terrain);
        let prev = expand_upto(nodes, cur, k - 1, to, occupied, terrain);
        let p = nodes[cur].node.pos;
        if neighbour_exists(p, k - 1) && passable(p.neighbour(k - 1), to, occupied, terrain) {
            let q = p.neighbour(k - 1);
            assert(p.adjacent(q));
            assert(measured(prev, cur, (steps + 1) as nat, to));
            assert(measured(nodes, cur, steps, to));
            lemma_relax_inv(prev, cur, q, (steps + 1) as nat, from, to, occupied, terrain);
            assert(next == relax(prev, cur, q, to));
            assert forall|i: int| 0 <= i < nodes.len() implies #[trigger] cell(next, i) == cell(
                nodes,
                i,
            ) && (!nodes[i].open ==> !next[i].open) by {
                assert(cell(prev, i) == cell(nodes, i));
                assert(cell(next, i) == cell(prev, i));
            }
        }
    }
}

/// Slot `i` is still in the open set.
pub open spec fn is_open(nodes: Seq<Visit>, i: int) -> bool {
    nodes[i].open
}

/// The cell `q` has a slot.
pub open spec fn held(nodes: Seq<Visit>, q: Point) -> bool {
    exists|j: int| 0 <= j < nodes.len() && #[trigger] cell(nodes, j) == q
}

/// Slot `i` is closed and `q` can be stepped on from its cell.
pub open spec fn reaches(
    nodes: Seq<Visit>,
    i: int,
    q: Point,
    to: Point,
    occupied: Map<Point, EntityComponent>,
    terrain: Map<Point, TerrainComponent>,
) -> bool {
    &&& 0 <= i < nodes.len()
    &&& !nodes[i].open
    &&& nodes[i].node.pos.adjacent(q)
    &&& passable(q, to, occupied, terrain)
}

/// What holds between the iterations of a search: the invariant of the
/// slots; every cell that can be stepped on from a closed slot has a slot;
/// and no closed slot but the current one holds the goal.
pub open spec fn between(
    nodes: Seq<Visit>,
    cur: int,
    steps: nat,
    from: Point,
    to: Point,
    occupied: Map<Point, EntityComponent>,
    terrain: Map<Point, TerrainComponent>,
) -> bool {
    &&& search_inv(nodes, steps, from, to, occupied, terrain)
    &&& 0 <= cur < nodes.len()
    &&& nodes.len() <= usize::MAX
    &&& steps == 0 ==> nodes == start(from, to)
    &&& steps > 0 ==> !nodes[0].open && !nodes[cur].open
    &&& forall|i: int, q: Point| #[trigger]
        reaches(nodes, i, q, to, occupied, terrain) ==> held(nodes, q)
    &&& forall|i: int|
        0 <= i < nodes.len() && i != cur && !(#[trigger] is_open(nodes, i)) ==> cell(nodes, i)
            != to
}

proof fn lemma_relax_more(
    nodes: Seq<Visit>,
    cur: int,
    q: Point,
    to: Point,
)
    requires
        distinct(nodes),
        0 <= cur < nodes.len(),
        !nodes[cur].open,
    ensures
        held(relax(nodes, cur, q, to), q),
        relax(nodes, cur, q, to).len() >= nodes.len(),
        relax(nodes, cur, q, to).len() <= nodes.len() + 1,
        forall|i: int|
            0 <= i < nodes.len() ==> #[trigger] is_open(relax(nodes, cur, q, to), i) == is_open(
                nodes,
                i,
            ) && cell(relax(nodes, cur, q, to), i) == cell(nodes, i),
        forall|i: int|
            nodes.len() <= i < relax(nodes, cur, q, to).len() ==> #[trigger] is_open(
                relax(nodes, cur, q, to),
                i,
            ),
{
    let next = relax(nodes, cur, q, to);
    let j = slot_of(nodes, q);
    if j < 0 {
        assert(cell(next, nodes.len() as int) == q);
    } else {
        assert(nodes[j].node.pos == q);
        assert(cell(next, j) == q);
    }
}

/// A cell with a slot keeps its slot when the slots grow and keep their cells.
proof fn lemma_held_kept(nodes: Seq<Visit>, next: Seq<Visit>, q: Point)
    requires
        held(nodes, q),
        next.len() >= nodes.len(),
        forall|i: int| 0 <= i < nodes.len() ==> #[trigger] cell(next, i) == cell(nodes, i),
    ensures
        held(next, q),
{
    let j = choose|j: int| 0 <= j < nodes.len() && #[trigger] cell(nodes, j) == q;
    assert(cell(next, j) == q);
}

#[verifier::spinoff_prover]
proof fn lemma_expand_more(
    nodes: Seq<Visit>,
    cur: int,
    k: int,
    steps: nat,
    from: Point,
    to: Point,
    occupied: Map<Point, EntityComponent>,
    terrain: Map<Point, TerrainComponent>,
)
    requires
        search_inv(nodes, steps, from, to, occupied, terrain),
        0 <= cur < nodes.len(),
        cur <= usize::MAX,
        cur == 0 || !nodes[0].open,
        steps < u32::MAX,
        0 <= k <= 6,
    ensures
        ({
            let next = expand_upto(nodes, cur, k, to, occupied, terrain);
            let p = nodes[cur].node.pos;
            &&& expanding(nodes, next, cur, steps, from, to, occupied, terrain)
            &&& next.len() <= nodes.len() + k
            &&& forall|i: int|
                0 <= i < nodes.len() && i != cur ==> #[trigger] is_open(next, i) == is_open(
                    nodes,
                    i,
                )
            &&& forall|i: int| nodes.len() <= i < next.len() ==> #[trigger] is_open(next, i)
            &&& forall|j: int|
                0 <= j < k && neighbour_exists(p, j) && passable(
                    #[trigger] p.neighbour(j),
                    to,
                    occupied,
                    terrain,
                ) ==> held(next, p.neighbour(j))
        }),
    decreases k,
{
    let next = expand_upto(nodes, cur, k, to, occupied, terrain);
    let p = nodes[cur].node.pos;
    lemma_expand_inv(nodes, cur, k, steps, from, to, occupied, terrain);
    if k > 0 {
        lemma_expand_more(nodes, cur, k - 1, steps, from, to, occupied, terrain);
        lemma_expand_inv(nodes, cur, k - 1, steps, from, to, occupied, terrain);
        let prev = expand_upto(nodes, cur, k - 1, to, occupied, terrain);
        if neighbour_exists(p, k - 1) && passable(p.neighbour(k - 1), to, occupied, terrain) {
            let q = p.neighbour(k - 1);
            lemma_relax_more(prev, cur, q, to);
            assert(next == relax(prev, cur, q, to));
            assert forall|i: int| 0 <= i < nodes.len() && i != cur implies #[trigger] is_open(
                next,
                i,
            ) == is_open(nodes, i) by {
                assert(is_open(next, i) == is_open(prev, i));
                assert(is_open(prev, i) == is_open(nodes, i));
            }
            assert forall|i: int| nodes.len() <= i < next.len() implies #[trigger] is_open(
                next,
                i,
            ) by {
                if i < prev.len() {
                    assert(is_open(next, i) == is_open(prev, i));
                    assert(is_open(prev, i));
                }
            }
            assert forall|j: int|
                0 <= j < k && neighbour_exists(p, j) && passable(
                    #[trigger] p.neighbour(j),
                    to,
                    occupied,
                    terrain,
                ) implies held(next, p.neighbour(j)) by {
                if j < k - 1 {
                    assert(held(prev, p.neighbour(j)));
                    assert forall|i: int| 0 <= i < prev.len() implies #[trigger] cell(next, i)
                        == cell(prev, i) by {
                        assert(is_open(next, i) == is_open(prev, i));
                    }
                    lemma_held_kept(prev, next, p.neighbour(j));
                }
            }
        } else {
            assert(next == prev);
        }
    } else {
        assert forall|i: int| 0 <= i < nodes.len() && i != cur implies #[trigger] is_open(
            next,
            i,
        ) == is_open(nodes, i) by {}
    }
}

/// Among open slots with distinct cells one comes before all the others.
proof fn lemma_best_exists(nodes: Seq<Visit>, n: int) -> (b: int)
    requires
        distinct(nodes),
        0 <= n <= nodes.len(),
        exists|i: int| 0 <= i < n && (#[trigger] nodes[i]).open,
    ensures
        0 <= b < n,
        nodes[b].open,
        best_below(nodes, b, n),
    decreases n,
{
    let last = n - 1;
    if exists|i: int| 0 <= i < last && (#[trigger] nodes[i]).open {
        let b = lemma_best_exists(nodes, last);
        if nodes[last].open {
            assert(cell(nodes, b) != cell(nodes, last));
            if before(nodes[last].node, nodes[b].node) {
                assert forall|k: int|
                    0 <= k < n && k != last && (#[trigger] nodes[k]).open implies before(
                    nodes[last].node,
                    nodes[k].node,
                ) by {
                    if k != b {
                        assert(before(nodes[b].node, nodes[k].node));
                    }
                }
                last
            } else {
                b
            }
        } else {
            b
        }
    } else {
        last
    }
}

/// One iteration of the search keeps what holds between the iterations.
#[verifier::spinoff_prover]
proof fn lemma_iteration(
    nodes: Seq<Visit>,
    cur: int,
    steps: nat,
    from: Point,
    to: Point,
    occupied: Map<Point, EntityComponent>,
    terrain: Map<Point, TerrainComponent>,
)
    requires
        between(nodes, cur, steps, from, to, occupied, terrain),
        nodes[cur].node.pos != to,
        has_open(nodes),
        steps < u32::MAX,
        nodes.len() + 6 <= usize::MAX,
    ensures
        between(
            expand(nodes, best_open(nodes), to, occupied, terrain),
            best_open(nodes),
            (steps + 1) as nat,
            from,
            to,
            occupied,
            terrain,
        ),
        expand(nodes, best_open(nodes), to, occupied, terrain).len() <= nodes.len() + 6,
{
    let b0 = lemma_best_exists(nodes, nodes.len() as int);
    assert(is_best(nodes, b0));
    lemma_best_unique(nodes, b0);
    let b = best_open(nodes);
    let next = expand(nodes, b, to, occupied, terrain);
    let p = nodes[b].node.pos;
    if steps == 0 {
        assert(b == 0);
    }
    lemma_expand_more(nodes, b, 6, steps, from, to, occupied, terrain);
    assert forall|i: int, q: Point| #[trigger]
        reaches(next, i, q, to, occupied, terrain) implies held(next, q) by {
        if i == b {
            assert(cell(next, b) == cell(nodes, b));
            crate::geometry::lemma_adjacent_is_neighbour(p, q);
            let j = choose|j: int|
                0 <= j < 6 && q.x - p.x == crate::geometry::neighbour_dx(j) && q.y - p.y
                    == crate::geometry::neighbour_dy(j);
            assert(neighbour_exists(p, j));
            assert(q == p.neighbour(j));
        } else {
            if i < nodes.len() {
                assert(is_open(next, i) == is_open(nodes, i));
                assert(cell(next, i) == cell(nodes, i));
                assert(reaches(nodes, i, q, to, occupied, terrain));
                assert forall|k: int| 0 <= k < nodes.len() implies #[trigger] cell(next, k)
                    == cell(nodes, k) by {}
                lemma_held_kept(nodes, next, q);
            } else {
                assert(is_open(next, i));
            }
        }
    }
    assert forall|i: int|
        0 <= i < next.len() && i != b && !(#[trigger] is_open(next, i)) implies cell(next, i)
        != to by {
        if i < nodes.len() {
            assert(is_open(next, i) == is_open(nodes, i));
            assert(cell(next, i) == cell(nodes, i));
            if i != cur {
                assert(!is_open(nodes, i));
            }
        } else {
            assert(is_open(next, i));
        }
    }
}

/// The search keeps what holds between its iterations, up to its end.
proof fn lemma_search(
    nodes: Seq<Visit>,
    cur: int,
    budget: nat,
    steps: nat,
    from: Point,
    to: Point,
    occupied: Map<Point, EntityComponent>,
    terrain: Map<Point, TerrainComponent>,
) -> (done: nat)
    requires
        between(nodes, cur, steps, from, to, occupied, terrain),
        steps + budget <= u32::MAX,
        1 + 6 * (steps + budget) <= usize::MAX,
        nodes.len() <= 1 + 6 * steps,
    ensures
        between(
            search(nodes, cur, budget, to, occupied, terrain).0,
            search(nodes, cur, budget, to, occupied, terrain).1,
            done,
            from,
            to,
            occupied,
            terrain,
        ),
    decreases budget,
{
    if nodes[cur].node.pos == to || !has_open(nodes) || budget == 0 {
        steps
    } else {
        lemma_iteration(nodes, cur, steps, from, to, occupied, terrain);
        lemma_search(
            expand(nodes, best_open(nodes), to, occupied, terrain),
            best_open(nodes),
            (budget - 1) as nat,
            (steps + 1) as nat,
            from,
            to,
            occupied,
            terrain,
        )
    }
}

/// Where no slot is open and the current slot does not hold the goal, no
/// walk over passable cells leads from the start to the goal.
proof fn lemma_walk_is_held(
    nodes: Seq<Visit>,
    cur: int,
    steps: nat,
    from: Point,
    to: Point,
    occupied: Map<Point, EntityComponent>,
    terrain: Map<Point, TerrainComponent>,
    walk: Seq<Point>,
    k: int,
)
    requires
        between(nodes, cur, steps, from, to, occupied, terrain),
        !has_open(nodes),
        is_path(from, walk, to, occupied, terrain),
        0 <= k < walk.len(),
    ensures
        held(nodes, walk[k]),
    decreases k,
{
    if k == 0 {
        assert(cell(nodes, 0) == from);
        assert(!nodes[0].open);
        assert(from.adjacent(walk[0]));
        assert(reaches(nodes, 0, walk[0], to, occupied, terrain));
    } else {
        lemma_walk_is_held(nodes, cur, steps, from, to, occupied, terrain, walk, k - 1);
        let j = choose|j: int| 0 <= j < nodes.len() && #[trigger] cell(nodes, j) == walk[k - 1];
        assert(!nodes[j].open);
        assert(walk[k - 1].adjacent(walk[k]));
        assert(reaches(nodes, j, walk[k], to, occupied, terrain));
    }
}

/// Where the path finder answers that the goal is unreachable, there is no
/// path: no sequence of cells leads from the start to the goal by single
/// steps over cells that may be stepped on. The budget is one that a
/// search can use up on this machine: six slots for each iteration can be
/// counted.
pub proof fn lemma_unreachable_means_no_path(
    from: Point,
    to: Point,
    occupied: Map<Point, EntityComponent>,
    terrain: Map<Point, TerrainComponent>,
    max_iterations: nat,
    walk: Seq<Point>,
)
    requires
        max_iterations <= u32::MAX,
        1 + 6 * max_iterations <= usize::MAX,
        find_path_spec(from, to, occupied, terrain, max_iterations) == Err::<
            Seq<Point>,
            PathFindingError,
        >(PathFindingError::Unreachable),
    ensures
        !is_path(from, walk, to, occupied, terrain),
{
    let first = start(from, to);
    assert(measured(first, 0, 0, to));
    assert(search_inv(first, 0, from, to, occupied, terrain));
    assert(between(first, 0, 0, from, to, occupied, terrain)) by {
        assert forall|i: int, q: Point| #[trigger]
            reaches(first, i, q, to, occupied, terrain) implies held(first, q) by {}
    }
    let done = lemma_search(first, 0, max_iterations, 0, from, to, occupied, terrain);
    let end = search(first, 0, max_iterations, to, occupied, terrain);
    lemma_search_stops(first, 0, max_iterations, to, occupied, terrain);
    let nodes = end.0;
    let cur = end.1;
    if is_path(from, walk, to, occupied, terrain) {
        if walk.len() == 0 {
            assert(cell(nodes, 0) == to);
            assert(!is_open(nodes, 0));
        } else {
            lemma_walk_is_held(
                nodes,
                cur,
                done,
                from,
                to,
                occupied,
                terrain,
                walk,
                walk.len() - 1,
            );
            let j = choose|j: int| 0 <= j < nodes.len() && #[trigger] cell(nodes, j) == to;
            assert(!is_open(nodes, j));
        }
    }
}

/// The search ends at the goal, with no slot open, or with no budget left.
proof fn lemma_search_stops(
    nodes: Seq<Visit>,
    cur: int,
    budget: nat,
    to: Point,
    occupied: Map<Point, EntityComponent>,
    terrain: Map<Point, TerrainComponent>,
)
    ensures
        ({
            let end = search(nodes, cur, budget, to, occupied, terrain);
            end.0[end.1].node.pos == to || !has_open(end.0) || end.2 == 0
        }),
    decreases budget,
{
    if !(nodes[cur].node.pos == to || !has_open(nodes) || budget == 0) {
        lemma_search_stops(
            expand(nodes, best_open(nodes), to, occupied, terrain),
            best_open(nodes),
            (budget - 1) as nat,
            to,
            occupied,
            terrain,
        );
    }
}

/// Under the invariant, the trail of a slot is a walk from the start to it.
proof fn lemma_trail_is_walk(
    nodes: Seq<Visit>,
    i: int,
    steps: nat,
    from: Point,
    to: Point,
    occupied: Map<Point, EntityComponent>,
    terrain: Map<Point, TerrainComponent>,
)
    requires
        search_inv(nodes, steps, from, to, occupied, terrain),
        0 <= i < nodes.len(),
    ensures
        is_walk(
            from,
            trail(nodes, i, nodes[i].node.g as nat),
            nodes[i].node.pos,
            to,
            occupied,
            terrain,
        ),
        trail(nodes, i, nodes[i].node.g as nat).len() == nodes[i].node.g,
    decreases nodes[i].node.g,
{
    if i != 0 {
        assert(linked(nodes, i, to, occupied, terrain));
        let p = nodes[i].parent as int;
        lemma_trail_is_walk(nodes, p, steps, from, to, occupied, terrain);
        let front = trail(nodes, p, nodes[p].node.g as nat);
        let whole = trail(nodes, i, nodes[i].node.g as nat);
        assert(whole == front.push(nodes[i].node.pos));
        assert forall|k: int| 0 <= k < whole.len() implies (if k == 0 {
            from
        } else {
            whole[k - 1]
        }).adjacent(#[trigger] whole[k]) by {
            if k < front.len() {
                assert(whole[k] == front[k]);
            }
        }
        assert forall|k: int| 0 <= k < whole.len() implies passable(
            #[trigger] whole[k],
            to,
            occupied,
            terrain,
        ) by {
            if k < front.len() {
                assert(whole[k] == front[k]);
            }
        }
    }
}

fn is_passable(
    p: Point,
    to: Point,
    positions: &MortonTable<EntityComponent>,
    terrain: &MortonTable<TerrainComponent>,
) -> (b: bool)
    requires
        positions.wf(),
        terrain.wf(),
    ensures
        b == passable(p, to, positions@, terrain@),
{
    if p.x < 0 || p.x > 0xffff || p.y < 0 || p.y > 0xffff {
        return false;
    }
    if p == to {
        return true;
    }
    if positions.contains_key(&p) {
        return false;
    }
    match terrain.get_by_id(&p) {
        Some(tile) => match tile.0 {
            TileTerrainType::Wall => false,
            TileTerrainType::Empty => true,
        },
        None => true,
    }
}

fn find_slot(nodes: &Vec<Visit>, p: Point) -> (r: Option<usize>)
    ensures
        r is Some ==> r->0 < nodes@.len() && nodes@[r->0 as int].node.pos == p,
        r is None ==> forall|i: int| 0 <= i < nodes@.len() ==> (#[trigger] nodes@[i]).node.pos != p,
{
    let mut i: usize = 0;
    while i < nodes.len()
        invariant
            i <= nodes@.len(),
            forall|k: int| 0 <= k < i ==> (#[trigger] nodes@[k]).node.pos != p,
        decreases nodes@.len() - i,
    {
        if nodes[i].node.pos == p {
            return Some(i);
        }
        i += 1;
    }
    None
}

fn comes_before(a: &Node, b: &Node) -> (r: bool)
    requires
        a.cost() <= u64::MAX,
        b.cost() <= u64::MAX,
    ensures
        r == before(*a, *b),
{
    let fa: u64 = a.f();
    let fb: u64 = b.f();
    if fa != fb {
        fa < fb
    } else if a.h != b.h {
        a.h < b.h
    } else if a.pos.x != b.pos.x {
        a.pos.x < b.pos.x
    } else {
        a.pos.y < b.pos.y
    }
}

/// `b` comes before every other open slot below `i`.
spec fn best_below(nodes: Seq<Visit>, b: int, i: int) -> bool {
    forall|k: int|
        0 <= k < i && k != b && (#[trigger] nodes[k]).open ==> before(nodes[b].node, nodes[k].node)
}

fn pick_best(nodes: &Vec<Visit>) -> (r: Option<usize>)
    requires
        distinct(nodes@),
        forall|i: int| 0 <= i < nodes@.len() ==> (#[trigger] nodes@[i]).node.cost() <= u64::MAX,
    ensures
        r is Some <==> has_open(nodes@),
        r is Some ==> r->0 == best_open(nodes@) && is_best(nodes@, r->0 as int),
{
    let mut best: Option<usize> = None;
    let mut i: usize = 0;
    while i < nodes.len()
        invariant
            i <= nodes@.len(),
            distinct(nodes@),
            forall|k: int| 0 <= k < nodes@.len() ==> (#[trigger] nodes@[k]).node.cost() <= u64::MAX,
            best is None ==> forall|k: int| 0 <= k < i ==> !(#[trigger] nodes@[k]).open,
            best is Some ==> best->0 < i && nodes@[best->0 as int].open && best_below(
                nodes@,
                best->0 as int,
                i as int,
            ),
        decreases nodes@.len() - i,
    {
        if nodes[i].open {
            match best {
                None => {
                    best = Some(i);
                },
                Some(b) => {
                    assert(cell(nodes@, b as int) != cell(nodes@, i as int));
                    if comes_before(&nodes[i].node, &nodes[b].node) {
                        assert forall|k: int|
                            0 <= k < i + 1 && k != i && (#[trigger] nodes@[k]).open implies before(
                            nodes@[i as int].node,
                            nodes@[k].node,
                        ) by {
                            if k != b {
                                assert(before(nodes@[b as int].node, nodes@[k].node));
                            }
                        }
                        best = Some(i);
                    }
                },
            }
        }
        i += 1;
    }
    proof {
        match best {
            Some(b) => {
                lemma_best_unique(nodes@, b as int);
            },
            None => {},
        }
    }
    best
}

fn reach(nodes: &mut Vec<Visit>, cur: usize, q: Point, to: Point)
    requires
        cur < old(nodes)@.len(),
        old(nodes)@[cur as int].node.g < u64::MAX,
        distinct(old(nodes)@),
    ensures
        final(nodes)@ == relax(old(nodes)@, cur as int, q, to),
{
    let g: u64 = nodes[cur].node.g + 1;
    let parent: Point = nodes[cur].node.pos;
    match find_slot(nodes, q) {
        None => {
            proof {
                lemma_slot_of_none(nodes@, q);
            }
            let reached = Visit {
                node: Node::new(q, parent, q.hex_distance(to), g),
                parent: cur,
                open: true,
            };
            nodes.push(reached);
        },
        Some(j) => {
            proof {
                lemma_slot_of(nodes@, q, j as int);
            }
            if nodes[j].open && g < nodes[j].node.g {
                let reached = Visit {
                    node: Node::new(q, parent, q.hex_distance(to), g),
                    parent: cur,
                    open: true,
                };
                nodes.set(j, reached);
            }
        },
    }
}

fn expand_slot(
    nodes: &mut Vec<Visit>,
    cur: usize,
    to: Point,
    positions: &MortonTable<EntityComponent>,
    terrain: &MortonTable<TerrainComponent>,
    Ghost(steps): Ghost<nat>,
    Ghost(from): Ghost<Point>,
)
    requires
        positions.wf(),
        terrain.wf(),
        search_inv(old(nodes)@, steps, from, to, positions@, terrain@),
        cur < old(nodes)@.len(),
        cur == 0 || !old(nodes)@[0].open,
        steps < u32::MAX,
    ensures
        final(nodes)@ == expand(old(nodes)@, cur as int, to, positions@, terrain@),
        expanding(
            old(nodes)@,
            final(nodes)@,
            cur as int,
            steps,
            from,
            to,
            positions@,
            terrain@,
        ),
{
    let closed = Visit { node: nodes[cur].node, parent: nodes[cur].parent, open: false };
    let p: Point = nodes[cur].node.pos;
    nodes.set(cur, closed);
    let mut k: usize = 0;
    while k < 6
        invariant
            positions.wf(),
            terrain.wf(),
            k <= 6,
            cur < old(nodes)@.len(),
            p == old(nodes)@[cur as int].node.pos,
            search_inv(old(nodes)@, steps, from, to, positions@, terrain@),
            cur == 0 || !old(nodes)@[0].open,
            steps < u32::MAX,
            nodes@ == expand_upto(old(nodes)@, cur as int, k as int, to, positions@, terrain@),
        decreases 6 - k,
    {
        proof {
            lemma_expand_inv(old(nodes)@, cur as int, k as int, steps, from, to, positions@, terrain@);
            assert(measured(nodes@, cur as int, (steps + 1) as nat, to));
        }
        match p.neighbour_at(k) {
            Some(q) => {
                if is_passable(q, to, positions, terrain) {
                    reach(nodes, cur, q, to);
                }
            },
            None => {},
        }
        k += 1;
    }
    proof {
        lemma_expand_inv(old(nodes)@, cur as int, 6, steps, from, to, positions@, terrain@);
    }
}

proof fn lemma_costs_fit(
    nodes: Seq<Visit>,
    steps: nat,
    from: Point,
    to: Point,
    occupied: Map<Point, EntityComponent>,
    terrain: Map<Point, TerrainComponent>,
)
    requires
        search_inv(nodes, steps, from, to, occupied, terrain),
        steps <= u32::MAX,
    ensures
        forall|i: int| 0 <= i < nodes.len() ==> (#[trigger] nodes[i]).node.cost() <= u64::MAX,
{
    assert forall|i: int| 0 <= i < nodes.len() implies (#[trigger] nodes[i]).node.cost()
        <= u64::MAX by {
        assert(measured(nodes, i, steps, to));
    }
}

/// Find a path from `from` to `to` and append it to `path`, `from` left out
/// and `to` included. On an error `path` is left as it was.
pub fn find_path(
    from: Point,
    to: Point,
    positions: &MortonTable<EntityComponent>,
    terrain: &MortonTable<TerrainComponent>,
    max_iterations: u32,
    path: &mut Vec<Point>,
) -> (r: Result<(), PathFindingError>)
    requires
        positions.wf(),
        terrain.wf(),
    ensures
        match find_path_spec(from, to, positions@, terrain@, max_iterations as nat) {
            Ok(steps) => r is Ok && final(path)@ == old(path)@ + steps,
            Err(e) => r == Err::<(), PathFindingError>(e) && final(path)@ == old(path)@,
        },
        r is Ok ==> old(path)@.len() <= final(path)@.len() && is_path(
            from,
            final(path)@.subrange(old(path)@.len() as int, final(path)@.len() as int),
            to,
            positions@,
            terrain@,
        ),
{
    let first = Visit {
        node: Node::new(from, from, from.hex_distance(to), 0),
        parent: 0,
        open: true,
    };
    let mut nodes: Vec<Visit> = Vec::new();
    nodes.push(first);
    assert(nodes@ =~= start(from, to));
    let mut cur: usize = 0;
    let mut budget: u32 = max_iterations;
    let ghost mut steps: nat = 0;
    proof {
        assert(measured(nodes@, 0, 0, to));
        assert(search_inv(nodes@, 0, from, to, positions@, terrain@));
        lemma_costs_fit(nodes@, steps, from, to, positions@, terrain@);
    }
    let mut next: Option<usize> = pick_best(&nodes);
    while nodes[cur].node.pos != to && budget > 0 && next.is_some()
        invariant
            positions.wf(),
            terrain.wf(),
            search_inv(nodes@, steps, from, to, positions@, terrain@),
            steps + budget == max_iterations,
            cur < nodes@.len(),
            steps > 0 ==> !nodes@[0].open,
            steps == 0 ==> nodes@ == start(from, to),
            next is Some <==> has_open(nodes@),
            next is Some ==> next->0 == best_open(nodes@) && is_best(nodes@, next->0 as int),
            search(nodes@, cur as int, budget as nat, to, positions@, terrain@) == search(
                start(from, to),
                0,
                max_iterations as nat,
                to,
                positions@,
                terrain@,
            ),
        decreases budget,
    {
        let b: usize = next.unwrap();
        expand_slot(&mut nodes, b, to, positions, terrain, Ghost(steps), Ghost(from));
        cur = b;
        budget -= 1;
        proof {
            steps = steps + 1;
            lemma_costs_fit(nodes@, steps, from, to, positions@, terrain@);
        }
        next = pick_best(&nodes);
    }
    if nodes[cur].node.pos != to {
        if budget > 0 {
            return Err(PathFindingError::Unreachable);
        }
        return Err(PathFindingError::NotFound);
    }
    proof {
        lemma_trail_is_walk(nodes@, cur as int, steps, from, to, positions@, terrain@);
    }
    let ghost whole = trail(nodes@, cur as int, nodes@[cur as int].node.g as nat);
    let mut back: Vec<Point> = Vec::new();
    let mut i: usize = cur;
    proof {
        assert(whole.subrange(0, nodes@[i as int].node.g as int) =~= whole);
    }
    while i != 0
        invariant
            search_inv(nodes@, steps, from, to, positions@, terrain@),
            i < nodes@.len(),
            back@.len() + nodes@[i as int].node.g == whole.len(),
            forall|k: int|
                0 <= k < back@.len() ==> #[trigger] back@[k] == whole[whole.len() - 1 - k],
            whole.subrange(0, nodes@[i as int].node.g as int) == trail(
                nodes@,
                i as int,
                nodes@[i as int].node.g as nat,
            ),
        decreases nodes@[i as int].node.g,
    {
        let ghost t = trail(nodes@, i as int, nodes@[i as int].node.g as nat);
        let p: usize = nodes[i].parent;
        proof {
            assert(linked(nodes@, i as int, to, positions@, terrain@));
            let tp = trail(nodes@, p as int, nodes@[p as int].node.g as nat);
            lemma_trail_is_walk(nodes@, p as int, steps, from, to, positions@, terrain@);
            assert(t == tp.push(nodes@[i as int].node.pos));
            let gi = nodes@[i as int].node.g as int;
            assert(whole.subrange(0, gi)[gi - 1] == t[gi - 1]);
            assert(whole.subrange(0, gi - 1) =~= tp) by {
                assert forall|k: int| 0 <= k < tp.len() implies whole[k] == tp[k] by {
                    assert(whole.subrange(0, gi)[k] == t[k]);
                }
            }
        }
        back.push(nodes[i].node.pos);
        i = p;
    }
    let mut k: usize = back.len();
    while k > 0
        invariant
            k <= back@.len(),
            back@.len() == whole.len(),
            forall|j: int|
                0 <= j < back@.len() ==> #[trigger] back@[j] == whole[whole.len() - 1 - j],
            path@ =~= old(path)@ + whole.subrange(0, back@.len() - k),
        decreases k,
    {
        k -= 1;
        path.push(back[k]);
    }
    proof {
        assert(whole.subrange(0, whole.len() as int) =~= whole);
        assert(path@.subrange(old(path)@.len() as int, path@.len() as int) =~= whole);
    }
    Ok(())
}

} // verus!
