use vstd::arithmetic::power::{lemma_pow1, lemma_pow_adds, lemma_pow_positive, pow};
use vstd::prelude::*;
use vstd::set_lib::{lemma_int_range, lemma_len_subset, set_int_range};

verus! {

/// The grid that a search runs over: a rectangle of `width() x height()`
/// cells, each either walkable or solid. Implement it for a world object
/// to run the search over that world.
///
/// The two spec functions fix what the executable answers mean, so that
/// everything the search promises is stated over them.
pub trait Maze {
    /// The number of columns, as the contracts see it.
    spec fn spec_width(&self) -> usize;

    /// The number of rows, as the contracts see it.
    spec fn spec_height(&self) -> usize;

    /// Whether the cell at `(x, y)` cannot be walked on, as the contracts
    /// see it.
    spec fn spec_solid(&self, x: usize, y: usize) -> bool;

    fn width(&self) -> (w: usize)
        ensures
            w == self.spec_width(),
    ;

    fn height(&self) -> (h: usize)
        ensures
            h == self.spec_height(),
    ;

    fn solid(&self, x: usize, y: usize) -> (s: bool)
        requires
            x < self.spec_width(),
            y < self.spec_height(),
        ensures
            s == self.spec_solid(x, y),
    ;
}

/// One record of the search: a grid position, the index (into the list of
/// finished nodes) of the node it was expanded from, and its costs. `g`
/// counts the steps walked from the start, `h` estimates the rest as the
/// squared Euclidean distance to the goal, and `f` is their sum, the
/// node's priority.
#[derive(Clone, Copy)]
pub struct Node {
    pub parent: Option<usize>,
    pub pos: (usize, usize),
    pub g: isize,
    pub h: isize,
    pub f: isize,
}

impl Node {
    pub fn new(parent: Option<usize>, pos: (usize, usize), g: isize, h: isize, f: isize) -> (n: Self)
        ensures
            n == (Node { parent, pos, g, h, f }),
    {
        Self { parent, pos, g, h, f }
    }
}

/// `pos` lies on the grid of `m`.
pub open spec fn in_grid<M: Maze>(m: &M, pos: (usize, usize)) -> bool {
    pos.0 < m.spec_width() && pos.1 < m.spec_height()
}

/// `b` is one king move away from `a`: the coordinates differ by at most
/// one in each direction, and by at least one in one of them.
pub open spec fn king_adjacent(a: (usize, usize), b: (usize, usize)) -> bool {
    let dx = b.0 as int - a.0 as int;
    let dy = b.1 as int - a.1 as int;
    &&& -1 <= dx <= 1
    &&& -1 <= dy <= 1
    &&& !(dx == 0 && dy == 0)
}

/// The squared Euclidean distance between two cells.
pub open spec fn sq_dist(a: (usize, usize), b: (usize, usize)) -> int {
    let dx = a.0 as int - b.0 as int;
    let dy = a.1 as int - b.1 as int;
    dx * dx + dy * dy
}

/// The search may step from `a` to `b`: one king move, landing on the
/// grid and on a walkable cell.
pub open spec fn valid_step<M: Maze>(m: &M, a: (usize, usize), b: (usize, usize)) -> bool {
    &&& king_adjacent(a, b)
    &&& in_grid(m, b)
    &&& !m.spec_solid(b.0, b.1)
}

/// `p` is a route from `start` to `goal` over `m`: it begins at `start`,
/// ends at `goal`, and every move is a valid step. The start cell itself
/// is not required to be walkable; the search never inspects it.
pub open spec fn is_path<M: Maze>(
    m: &M,
    p: Seq<(usize, usize)>,
    start: (usize, usize),
    goal: (usize, usize),
) -> bool {
    &&& p.len() >= 1
    &&& p[0] == start
    &&& p[p.len() - 1] == goal
    &&& forall|i: int| 0 <= i < p.len() - 1 ==> valid_step(m, #[trigger] p[i], p[i + 1])
}

/// Some node of `list` sits at position `pos`.
pub open spec fn has_pos(list: Seq<Node>, pos: (usize, usize)) -> bool {
    exists|i: int| 0 <= i < list.len() && (#[trigger] list[i]).pos == pos
}

/// The grid is small enough that no cost the search computes can leave
/// `isize`: `g` never exceeds the cell count, `h` never exceeds the
/// squared diagonal.
pub open spec fn size_ok<M: Maze>(m: &M) -> bool {
    let w = m.spec_width() as int;
    let h = m.spec_height() as int;
    w * h + w * w + h * h < isize::MAX as int
}

/// Whether some node of `list` sits at `pos`; the executable form of
/// [`has_pos`].
fn list_has_pos(list: &Vec<Node>, pos: (usize, usize)) -> (r: bool)
    ensures
        r == has_pos(list@, pos),
{
    for i in 0..list.len()
        invariant
            forall|j: int| 0 <= j < i ==> (#[trigger] list@[j]).pos != pos,
    {
        if list[i].pos.0 == pos.0 && list[i].pos.1 == pos.1 {
            return true;
        }
    }
    false
}

/// Whether some node of `list` sits at `pos` with a cost from the start
/// strictly below `g`.
fn list_has_cheaper(list: &Vec<Node>, pos: (usize, usize), g: isize) -> (r: bool)
    ensures
        r == exists|i: int|
            0 <= i < list@.len() && (#[trigger] list@[i]).pos == pos && g > list@[i].g,
{
    for i in 0..list.len()
        invariant
            forall|j: int|
                0 <= j < i ==> !((#[trigger] list@[j]).pos == pos && g > list@[j].g),
    {
        if list[i].pos.0 == pos.0 && list[i].pos.1 == pos.1 && g > list[i].g {
            return true;
        }
    }
    false
}

/// The eight king-move offsets, in the order the search tries them.
pub open spec fn spec_dir(k: int) -> (int, int) {
    if k == 0 { (-1, -1) }
    else if k == 1 { (0, -1) }
    else if k == 2 { (1, -1) }
    else if k == 3 { (-1, 0) }
    else if k == 4 { (1, 0) }
    else if k == 5 { (-1, 1) }
    else if k == 6 { (0, 1) }
    else { (1, 1) }
}

fn dir_offset(k: usize) -> (d: (isize, isize))
    requires
        k < 8,
    ensures
        d.0 as int == spec_dir(k as int).0,
        d.1 as int == spec_dir(k as int).1,
{
    match k {
        0 => (-1, -1),
        1 => (0, -1),
        2 => (1, -1),
        3 => (-1, 0),
        4 => (1, 0),
        5 => (-1, 1),
        6 => (0, 1),
        _ => (1, 1),
    }
}

/// What every record the search keeps must satisfy. `closed` is the list
/// of finished nodes and `bound` says how much of it the node may point
/// into: its parent, if any, is an earlier finished node one king move
/// away, the node's cell is walkable and on the grid, and its costs are
/// consistent — `g` one more than the parent's, `h` the squared distance
/// to the goal, `f` their sum. A node without a parent is the start node.
pub open spec fn node_ok<M: Maze>(
    m: &M,
    start: (usize, usize),
    goal: (usize, usize),
    closed: Seq<Node>,
    bound: int,
    n: Node,
) -> bool {
    &&& in_grid(m, n.pos)
    &&& 0 <= n.g
    &&& 0 <= n.h
    &&& n.f == n.g + n.h
    &&& n.f < isize::MAX
    &&& match n.parent {
        None => n.pos == start && n.g == 0 && n.h == 0,
        Some(pi) => {
            &&& 0 <= pi < bound
            &&& king_adjacent(closed[pi as int].pos, n.pos)
            &&& !m.spec_solid(n.pos.0, n.pos.1)
            &&& n.g == closed[pi as int].g + 1
            &&& n.h == sq_dist(n.pos, goal)
        },
    }
}

/// Every finished node is well formed, pointing only at nodes finished
/// before it.
pub open spec fn closed_ok<M: Maze>(
    m: &M,
    start: (usize, usize),
    goal: (usize, usize),
    closed: Seq<Node>,
) -> bool {
    forall|i: int|
        0 <= i < closed.len() ==> node_ok(m, start, goal, closed, i, #[trigger] closed[i])
}

/// Every frontier node is well formed, pointing anywhere into the
/// finished list.
pub open spec fn open_ok<M: Maze>(
    m: &M,
    start: (usize, usize),
    goal: (usize, usize),
    closed: Seq<Node>,
    open: Seq<Node>,
) -> bool {
    forall|j: int|
        0 <= j < open.len() ==> node_ok(
            m,
            start,
            goal,
            closed,
            closed.len() as int,
            #[trigger] open[j],
        )
}

/// The route that the parent links of `closed[i]` spell out, from the
/// start cell to the node's own cell.
pub open spec fn chain(closed: Seq<Node>, i: int) -> Seq<(usize, usize)>
    decreases i,
{
    if 0 <= i < closed.len() {
        match closed[i].parent {
            None => seq![closed[i].pos],
            Some(pi) => if pi < i {
                chain(closed, pi as int).push(closed[i].pos)
            } else {
                seq![closed[i].pos]
            },
        }
    } else {
        seq![]
    }
}

/// The parent links of a well-formed finished node spell out a route from
/// the start to that node.
proof fn lemma_chain_is_path<M: Maze>(
    m: &M,
    start: (usize, usize),
    goal: (usize, usize),
    closed: Seq<Node>,
    i: int,
)
    requires
        closed_ok(m, start, goal, closed),
        0 <= i < closed.len(),
    ensures
        is_path(m, chain(closed, i), start, closed[i].pos),
    decreases i,
{
    let p = chain(closed, i);
    match closed[i].parent {
        None => {
            assert(p =~= seq![closed[i].pos]);
        },
        Some(pi) => {
            assert(node_ok(m, start, goal, closed, i, closed[i]));
            lemma_chain_is_path(m, start, goal, closed, pi as int);
            let q = chain(closed, pi as int);
            assert(p =~= q.push(closed[i].pos));
            assert(valid_step(m, closed[pi as int].pos, closed[i].pos));
            assert(q[q.len() - 1] == closed[pi as int].pos);
            assert forall|j: int| 0 <= j < p.len() - 1 implies valid_step(
                m,
                #[trigger] p[j],
                p[j + 1],
            ) by {
                if j < q.len() - 1 {
                    assert(p[j] == q[j] && p[j + 1] == q[j + 1]);
                    assert(valid_step(m, q[j], q[j + 1]));
                } else {
                    assert(p[j] == q[q.len() - 1] && p[j + 1] == closed[i].pos);
                }
            }
        },
    }
}

/// Once the finished cells are closed under every valid step out of them,
/// any route that starts on a finished cell ends on one.
proof fn lemma_reachable_is_closed<M: Maze>(
    m: &M,
    closed: Seq<Node>,
    p: Seq<(usize, usize)>,
    start: (usize, usize),
    goal: (usize, usize),
)
    requires
        is_path(m, p, start, goal),
        has_pos(closed, start),
        forall|i: int, q: (usize, usize)|
            0 <= i < closed.len() && #[trigger] valid_step(m, (#[trigger] closed[i]).pos, q)
                ==> has_pos(closed, q),
    ensures
        has_pos(closed, goal),
    decreases p.len(),
{
    if p.len() == 1 {
        assert(goal == start);
    } else {
        assert(valid_step(m, p[0], p[1]));
        let w = choose|i: int| 0 <= i < closed.len() && (#[trigger] closed[i]).pos == start;
        assert(valid_step(m, closed[w].pos, p[1]));
        assert(has_pos(closed, p[1]));
        let p2 = p.drop_first();
        assert(p2[0] == p[1]);
        assert(p2[p2.len() - 1] == goal);
        assert forall|j: int| 0 <= j < p2.len() - 1 implies valid_step(
            m,
            #[trigger] p2[j],
            p2[j + 1],
        ) by {
            assert(p2[j] == p[j + 1] && p2[j + 1] == p[j + 2]);
            assert(valid_step(m, p[j + 1], p[j + 1 + 1]));
        }
        lemma_reachable_is_closed(m, closed, p2, p[1], goal);
    }
}

/// The weight of one frontier node in the termination measure: the
/// cheaper the node has been reached, the heavier it weighs, so that
/// trading a node for up to eight children that each cost one step more
/// always lightens the frontier. `b` bounds every `g` the search creates.
pub open spec fn pot_node(n: Node, b: int) -> int {
    pow(9, (if 0 <= n.g <= b {
        1 + b - n.g
    } else {
        0
    }) as nat)
}

/// The termination measure of the search: the summed weight of the
/// frontier.
pub open spec fn pot(s: Seq<Node>, b: int) -> int
    decreases s.len(),
{
    if s.len() == 0 {
        0
    } else {
        pot(s.drop_last(), b) + pot_node(s.last(), b)
    }
}

proof fn lemma_pot_node_positive(n: Node, b: int)
    ensures
        pot_node(n, b) >= 1,
{
    lemma_pow_positive(9, (if 0 <= n.g <= b {
        1 + b - n.g
    } else {
        0
    }) as nat);
}

proof fn lemma_pot_nonneg(s: Seq<Node>, b: int)
    ensures
        pot(s, b) >= 0,
    decreases s.len(),
{
    if s.len() > 0 {
        lemma_pot_nonneg(s.drop_last(), b);
        lemma_pot_node_positive(s.last(), b);
    }
}

proof fn lemma_pot_push(s: Seq<Node>, n: Node, b: int)
    ensures
        pot(s.push(n), b) == pot(s, b) + pot_node(n, b),
{
    assert(s.push(n).drop_last() =~= s);
    assert(s.push(n).last() == n);
}

proof fn lemma_pot_update(s: Seq<Node>, i: int, v: Node, b: int)
    requires
        0 <= i < s.len(),
    ensures
        pot(s.update(i, v), b) == pot(s, b) - pot_node(s[i], b) + pot_node(v, b),
    decreases s.len(),
{
    let t = s.update(i, v);
    if i == s.len() - 1 {
        assert(t.drop_last() =~= s.drop_last());
        assert(t.last() == v);
    } else {
        assert(t.drop_last() =~= s.drop_last().update(i, v));
        assert(t.last() == s.last());
        lemma_pot_update(s.drop_last(), i, v, b);
        assert(s.drop_last()[i] == s[i]);
    }
}

/// Swapping the last node into slot `i` and dropping the tail removes
/// exactly the weight of the node at `i`.
proof fn lemma_pot_swap_remove(s: Seq<Node>, i: int, b: int)
    requires
        0 <= i < s.len(),
    ensures
        pot(s.update(i, s.last()).drop_last(), b) == pot(s, b) - pot_node(s[i], b),
{
    let t = s.update(i, s.last());
    lemma_pot_update(s, i, s.last(), b);
    assert(t.last() == s.last());
    assert(t.drop_last() =~= t.drop_last());
    assert(pot(t, b) == pot(t.drop_last(), b) + pot_node(t.last(), b));
}

/// The list with the node at `i` taken out, its slot filled by the last
/// node: what `Vec::swap_remove` leaves behind.
pub open spec fn swap_removed(s: Seq<Node>, i: int) -> Seq<Node> {
    s.update(i, s.last()).drop_last()
}

/// The weight of a node within the cost budget, unfolded one step.
proof fn lemma_pot_node_unfold(n: Node, b: int)
    requires
        0 <= n.g,
        n.g <= b,
    ensures
        pot_node(n, b) == 9 * pow(9, (b - n.g) as nat),
        pow(9, (b - n.g) as nat) >= 1,
{
    lemma_pow_positive(9, (b - n.g) as nat);
    lemma_pow_adds(9, 1nat, (b - n.g) as nat);
    lemma_pow1(9);
}

/// A list of pairwise distinct grid cells cannot outnumber the grid.
proof fn lemma_distinct_cells_bound(s: Seq<(usize, usize)>, w: int, h: int)
    requires
        s.no_duplicates(),
        1 <= w,
        1 <= h,
        forall|k: int| 0 <= k < s.len() ==> (#[trigger] s[k]).0 < w && s[k].1 < h,
    ensures
        s.len() <= w * h,
{
    let enc = |p: (usize, usize)| p.1 as int * w + p.0 as int;
    let es = s.map_values(enc);
    assert forall|k: int, l: int| 0 <= k < es.len() && 0 <= l < es.len() && k != l implies es[k]
        != es[l] by {
        let a = s[k];
        let c = s[l];
        assert(a != c);
        assert(a.0 < w && a.1 < h && c.0 < w && c.1 < h);
        assert(a.1 as int * w + a.0 as int != c.1 as int * w + c.0 as int) by (nonlinear_arith)
            requires
                a.0 < w,
                c.0 < w,
                0 <= a.0 as int,
                0 <= c.0 as int,
                0 <= a.1 as int,
                0 <= c.1 as int,
                !(a.0 == c.0 && a.1 == c.1),
        ;
    }
    es.unique_seq_to_set();
    assert forall|e: int| es.to_set().contains(e) implies set_int_range(0, w * h).contains(
        e,
    ) by {
        let k = choose|k: int| 0 <= k < es.len() && es[k] == e;
        assert(0 <= s[k].1 as int * w + s[k].0 as int) by (nonlinear_arith)
            requires
                0 <= s[k].0 as int,
                0 <= s[k].1 as int,
                1 <= w,
        ;
        assert((s[k].1 as int * w + s[k].0 as int) < w * h) by (nonlinear_arith)
            requires
                s[k].0 < w,
                s[k].1 < h,
                0 <= s[k].0 as int,
                0 <= s[k].1 as int,
                1 <= w,
        ;
    }
    lemma_int_range(0, w * h);
    lemma_len_subset(es.to_set(), set_int_range(0, w * h));
    assert(es.len() == s.len());
}

/// When the frontier is spent, the finished cells are closed under every
/// valid step, the start is among them and the goal is not: no route can
/// exist at all.
proof fn lemma_exhausted<M: Maze>(
    m: &M,
    start: (usize, usize),
    goal: (usize, usize),
    closed: Seq<Node>,
)
    requires
        has_pos(closed, start),
        forall|i: int, q: (usize, usize)|
            0 <= i < closed.len() && #[trigger] valid_step(m, (#[trigger] closed[i]).pos, q)
                ==> has_pos(closed, q),
        forall|i: int| 0 <= i < closed.len() ==> (#[trigger] closed[i]).pos != goal,
    ensures
        !exists|p: Seq<(usize, usize)>| is_path(m, p, start, goal),
{
    if exists|p: Seq<(usize, usize)>| is_path(m, p, start, goal) {
        let p = choose|p: Seq<(usize, usize)>| is_path(m, p, start, goal);
        lemma_reachable_is_closed(m, closed, p, start, goal);
        let wi = choose|i: int| 0 <= i < closed.len() && (#[trigger] closed[i]).pos == goal;
        assert(false);
    }
}

/// The record of distinct finished cells cannot outgrow the grid: every
/// entry is the cell of a finished node, which lies on the grid.
proof fn lemma_dseq_bound<M: Maze>(
    m: &M,
    start: (usize, usize),
    goal: (usize, usize),
    closed: Seq<Node>,
    dseq: Seq<(usize, usize)>,
)
    requires
        m.spec_width() >= 1,
        m.spec_height() >= 1,
        closed_ok(m, start, goal, closed),
        dseq.no_duplicates(),
        forall|k: int| 0 <= k < dseq.len() ==> has_pos(closed, #[trigger] dseq[k]),
    ensures
        dseq.len() <= m.spec_width() as int * m.spec_height() as int,
{
    let gw = m.spec_width() as int;
    let gh = m.spec_height() as int;
    assert forall|k: int| 0 <= k < dseq.len() implies (#[trigger] dseq[k]).0 < gw && dseq[k].1
        < gh by {
        let wi = choose|i: int| 0 <= i < closed.len() && (#[trigger] closed[i]).pos == dseq[k];
        assert(node_ok(m, start, goal, closed, wi, closed[wi]));
    }
    lemma_distinct_cells_bound(dseq, gw, gh);
}

/// Finishing the frontier node at index `remove` keeps every record of
/// the search intact: the node joins the finished list, its slot on the
/// frontier closes up, and the cell joins the record of distinct finished
/// cells unless it is already there. Everything the search loop keeps
/// invariant — well-formed records, the cost budget, the mirror of
/// finished cells, the reach of the start, the cover of every valid step
/// out of an old finished cell, and the weight of the frontier — carries
/// over to the new state.
#[verifier::rlimit(100)]
#[verifier::spinoff_prover]
proof fn lemma_finish_step<M: Maze>(
    m: &M,
    start: (usize, usize),
    goal: (usize, usize),
    open0: Seq<Node>,
    closed0: Seq<Node>,
    dseq0: Seq<(usize, usize)>,
    remove: int,
    b: int,
    cur: Node,
    open1: Seq<Node>,
    closed1: Seq<Node>,
    dseq1: Seq<(usize, usize)>,
)
    requires
        cur == open0[remove],
        open1 == swap_removed(open0, remove),
        closed1 == closed0.push(cur),
        dseq1 == (if has_pos(closed0, cur.pos) {
            dseq0
        } else {
            dseq0.push(cur.pos)
        }),
        closed_ok(m, start, goal, closed0),
        open_ok(m, start, goal, closed0, open0),
        dseq0.no_duplicates(),
        forall|k: int| 0 <= k < dseq0.len() ==> has_pos(closed0, #[trigger] dseq0[k]),
        forall|q: (usize, usize)| #[trigger] has_pos(closed0, q) ==> dseq0.contains(q),
        forall|j: int|
            0 <= j < open0.len() ==> (#[trigger] open0[j]).g + gbit(closed0, open0[j].pos)
                <= dseq0.len(),
        has_pos(closed0, start) || has_pos(open0, start),
        forall|i: int, q: (usize, usize)|
            0 <= i < closed0.len() && #[trigger] valid_step(m, (#[trigger] closed0[i]).pos, q)
                ==> has_pos(closed0, q) || has_pos(open0, q),
        0 <= remove < open0.len(),
    ensures
        closed_ok(m, start, goal, closed1),
        open_ok(m, start, goal, closed1, open1),
        dseq1.no_duplicates(),
        forall|k: int| 0 <= k < dseq1.len() ==> has_pos(closed1, #[trigger] dseq1[k]),
        forall|q: (usize, usize)| #[trigger] has_pos(closed1, q) ==> dseq1.contains(q),
        forall|j: int|
            0 <= j < open1.len() ==> (#[trigger] open1[j]).g + gbit(closed1, open1[j].pos)
                <= dseq1.len(),
        cur.g + 1 <= dseq1.len(),
        dseq0.len() <= dseq1.len(),
        has_pos(closed1, start) || has_pos(open1, start),
        forall|i: int, q: (usize, usize)|
            0 <= i < closed0.len() && #[trigger] valid_step(m, (#[trigger] closed1[i]).pos, q)
                ==> has_pos(closed1, q) || has_pos(open1, q),
        pot(open1, b) == pot(open0, b) - pot_node(cur, b),
{
    lemma_pot_swap_remove(open0, remove, b);
    assert(node_ok(m, start, goal, closed0, closed0.len() as int, cur));

    // every surviving frontier node is an old frontier node, and every
    // old one survives or is the finished one
    assert forall|j1: int| 0 <= j1 < open1.len() implies exists|j0: int|
        0 <= j0 < open0.len() && open0[j0] == #[trigger] open1[j1] by {
        if j1 == remove && remove < open0.len() - 1 {
            assert(open0[open0.len() - 1] == open1[j1]);
        } else {
            assert(open0[j1] == open1[j1]);
        }
    }
    assert forall|j0: int| 0 <= j0 < open0.len() && j0 != remove implies has_pos(
        open1,
        (#[trigger] open0[j0]).pos,
    ) by {
        if j0 == open0.len() - 1 {
            assert(open1[remove] == open0[j0]);
        } else {
            assert(open1[j0] == open0[j0]);
        }
    }

    // the finished list stays well formed: old entries are untouched, the
    // new entry came off a well-formed frontier
    assert forall|i: int| 0 <= i < closed1.len() implies node_ok(
        m,
        start,
        goal,
        closed1,
        i,
        #[trigger] closed1[i],
    ) by {
        if i < closed0.len() {
            assert(node_ok(m, start, goal, closed0, i, closed0[i]));
        } else {
            assert(node_ok(m, start, goal, closed0, closed0.len() as int, cur));
        }
    }

    // finished cells carry over, and only the cell just finished joined
    assert forall|q: (usize, usize)| #[trigger] has_pos(closed0, q) implies has_pos(
        closed1,
        q,
    ) by {
        let i = choose|i: int| 0 <= i < closed0.len() && (#[trigger] closed0[i]).pos == q;
        assert(closed1[i] == closed0[i]);
    }
    assert(closed1[closed0.len() as int] == cur);
    assert(has_pos(closed1, cur.pos));
    assert forall|q: (usize, usize)| has_pos(closed1, q) && q != cur.pos implies has_pos(
        closed0,
        q,
    ) by {
        let i = choose|i: int| 0 <= i < closed1.len() && (#[trigger] closed1[i]).pos == q;
        assert(closed0[i] == closed1[i]);
    }

    // the record of distinct finished cells still mirrors the finished
    // cells, one entry each
    assert forall|k: int| 0 <= k < dseq1.len() implies has_pos(closed1, #[trigger] dseq1[k]) by {
        if k < dseq0.len() {
            assert(dseq1[k] == dseq0[k]);
            assert(has_pos(closed0, dseq0[k]));
        } else {
            assert(dseq1[k] == cur.pos);
        }
    }
    assert forall|q: (usize, usize)| #[trigger] has_pos(closed1, q) implies dseq1.contains(q) by {
        if has_pos(closed0, q) {
            assert(dseq0.contains(q));
            let k = choose|k: int| 0 <= k < dseq0.len() && dseq0[k] == q;
            assert(dseq1[k] == q);
        } else {
            assert(q == cur.pos);
            assert(dseq1[dseq1.len() - 1] == q);
        }
    }
    if !has_pos(closed0, cur.pos) {
        assert(!dseq0.contains(cur.pos)) by {
            if dseq0.contains(cur.pos) {
                let k = choose|k: int| 0 <= k < dseq0.len() && dseq0[k] == cur.pos;
                assert(has_pos(closed0, dseq0[k]));
            }
        }
        assert forall|a: int, b2: int|
            0 <= a < dseq1.len() && 0 <= b2 < dseq1.len() && a != b2 implies dseq1[a]
            != dseq1[b2] by {
            if a < dseq0.len() && b2 < dseq0.len() {
                assert(dseq0[a] != dseq0[b2]);
            } else if a == dseq1.len() - 1 {
                assert(dseq1[b2] == dseq0[b2]);
                if dseq1[b2] == cur.pos {
                    assert(dseq0.contains(cur.pos));
                }
            } else {
                assert(dseq1[a] == dseq0[a]);
                if dseq1[a] == cur.pos {
                    assert(dseq0.contains(cur.pos));
                }
            }
        }
    }
    assert(dseq1.no_duplicates());

    // the frontier keeps its records well formed and within the budget
    assert forall|j: int| 0 <= j < open1.len() implies node_ok(
        m,
        start,
        goal,
        closed1,
        closed1.len() as int,
        #[trigger] open1[j],
    ) by {
        let j0 = choose|j0: int| 0 <= j0 < open0.len() && open0[j0] == open1[j];
        assert(node_ok(m, start, goal, closed0, closed0.len() as int, open0[j0]));
        match open1[j].parent {
            Option::None => {},
            Option::Some(pi) => {
                assert(closed1[pi as int] == closed0[pi as int]);
            },
        }
    }
    assert forall|j: int| 0 <= j < open1.len() implies (#[trigger] open1[j]).g + gbit(
        closed1,
        open1[j].pos,
    ) <= dseq1.len() by {
        let j0 = choose|j0: int| 0 <= j0 < open0.len() && open0[j0] == open1[j];
        let qp = open1[j].pos;
        assert(open0[j0].g + gbit(closed0, qp) <= dseq0.len());
        if has_pos(closed0, qp) {
            assert(dseq0.len() <= dseq1.len());
        } else if qp == cur.pos {
            assert(dseq1.len() == dseq0.len() + 1);
        } else {
            assert(!has_pos(closed1, qp));
        }
    }
    assert(cur.g + 1 <= dseq1.len()) by {
        assert(cur.g + gbit(closed0, cur.pos) <= dseq0.len());
    }

    // the start is still seen
    assert(has_pos(closed1, start) || has_pos(open1, start)) by {
        if !has_pos(closed0, start) && has_pos(open0, start) {
            let j0 = choose|j0: int|
                0 <= j0 < open0.len() && (#[trigger] open0[j0]).pos == start;
            if j0 == remove {
                assert(cur == open0[j0]);
            }
        }
    }

    // every valid step out of an old finished cell is still covered
    assert forall|i: int, q: (usize, usize)|
        0 <= i < closed0.len() && #[trigger] valid_step(
            m,
            (#[trigger] closed1[i]).pos,
            q,
        ) implies has_pos(closed1, q) || has_pos(open1, q) by {
        assert(closed0[i] == closed1[i]);
        assert(valid_step(m, (closed0[i]).pos, q));
        if !has_pos(closed0, q) {
            assert(has_pos(open0, q));
            let j0 = choose|j0: int| 0 <= j0 < open0.len() && (#[trigger] open0[j0]).pos == q;
            if j0 == remove {
                assert(q == cur.pos);
            }
        }
    }
}

/// Every king move is one of the eight offsets.
proof fn lemma_adjacent_has_dir(a: (usize, usize), b: (usize, usize))
    requires
        king_adjacent(a, b),
    ensures
        exists|k: int|
            0 <= k < 8 && b.0 as int == a.0 as int + (#[trigger] spec_dir(k)).0 && b.1 as int
                == a.1 as int + spec_dir(k).1,
{
    let dx = b.0 as int - a.0 as int;
    let dy = b.1 as int - a.1 as int;
    if dx == -1 && dy == -1 {
        assert(spec_dir(0) == (-1int, -1int));
    } else if dx == 0 && dy == -1 {
        assert(spec_dir(1) == (0int, -1int));
    } else if dx == 1 && dy == -1 {
        assert(spec_dir(2) == (1int, -1int));
    } else if dx == -1 && dy == 0 {
        assert(spec_dir(3) == (-1int, 0int));
    } else if dx == 1 && dy == 0 {
        assert(spec_dir(4) == (1int, 0int));
    } else if dx == -1 && dy == 1 {
        assert(spec_dir(5) == (-1int, 1int));
    } else if dx == 0 && dy == 1 {
        assert(spec_dir(6) == (0int, 1int));
    } else {
        assert(spec_dir(7) == (1int, 1int));
    }
}

/// One if some finished node sits on `q`, zero otherwise; the share of
/// the cost bound that cell `q` has already used up.
pub open spec fn gbit(closed: Seq<Node>, q: (usize, usize)) -> int {
    if has_pos(closed, q) {
        1
    } else {
        0
    }
}

/// A freshly generated neighbour of the node finished at index `pi`:
/// one valid step away from `from`, costs not yet filled in.
pub open spec fn cand_ok<M: Maze>(m: &M, from: (usize, usize), pi: usize, c: Node) -> bool {
    &&& c.parent == Some(pi)
    &&& c.g == 0
    &&& c.h == 0
    &&& c.f == 0
    &&& valid_step(m, from, c.pos)
}

/// Every parent link points at an earlier entry of the list.
pub open spec fn parents_before(closed: Seq<Node>) -> bool {
    forall|i: int|
        0 <= i < closed.len() ==> match (#[trigger] closed[i]).parent {
            Option::None => true,
            Option::Some(pi) => 0 <= pi < i,
        }
}

/// The index of the frontier node with the lowest f value; among equals,
/// the one encountered first in the list's current order wins.
#[verifier::loop_isolation(false)]
fn lowest_f(open: &Vec<Node>) -> (sel: usize)
    requires
        open@.len() > 0,
        forall|j: int| 0 <= j < open@.len() ==> (#[trigger] open@[j]).f < isize::MAX,
    ensures
        is_first_min(open@, sel as int),
{
    let mut best = Node::new(None, (0, 0), 0, 0, isize::MAX);
    let mut sel: usize = 0;

    for i in 0..open.len()
        invariant
            i == 0 ==> best.f == isize::MAX && sel == 0,
            i > 0 ==> sel < i && best == open@[sel as int],
            forall|j: int| 0 <= j < i ==> (#[trigger] open@[j]).f >= best.f,
            forall|j: int| 0 <= j < sel ==> (#[trigger] open@[j]).f > best.f,
    {
        if open[i].f < best.f {
            best = open[i];
            sel = i;
        }
    }
    sel
}

/// Walk the parent links from the node finished at `idx` back to the node
/// without a parent, collecting cells, then turn the collection around so
/// that it runs start-first: the route that the links spell out.
#[verifier::loop_isolation(false)]
fn rebuild_route(closed: &Vec<Node>, idx: usize) -> (route: Vec<(usize, usize)>)
    requires
        parents_before(closed@),
        idx < closed@.len(),
    ensures
        route@ == chain(closed@, idx as int),
{
    let mut collected: Vec<(usize, usize)> = Vec::new();
    let mut at: usize = idx;
    collected.push((closed[at].pos.0, closed[at].pos.1));
    proof {
        assert(collected@.reverse() =~= seq![closed@[at as int].pos]);
    }
    while closed[at].parent.is_some()
        invariant
            0 <= at < closed@.len(),
            chain(closed@, idx as int) =~= (match closed@[at as int].parent {
                Option::None => Seq::<(usize, usize)>::empty(),
                Option::Some(p) => chain(closed@, p as int),
            }) + collected@.reverse(),
        decreases at,
    {
        let p: usize = closed[at].parent.unwrap();
        let ghost collected_before = collected@;
        collected.push((closed[p].pos.0, closed[p].pos.1));
        proof {
            assert(collected@.reverse() =~= seq![closed@[p as int].pos]
                + collected_before.reverse());
            assert(chain(closed@, p as int) =~= (match closed@[p as int].parent {
                Option::None => Seq::<(usize, usize)>::empty(),
                Option::Some(pp) => chain(closed@, pp as int),
            }) + seq![closed@[p as int].pos]);
        }
        at = p;
    }

    let mut route: Vec<(usize, usize)> = Vec::new();
    let total: usize = collected.len();
    for i in 0..total
        invariant
            route@.len() == i,
            forall|k: int| 0 <= k < i ==> #[trigger] route@[k] == collected@[total - 1 - k],
    {
        route.push(collected[total - 1 - i]);
    }
    proof {
        assert(route@ =~= collected@.reverse());
        assert(route@ =~= chain(closed@, idx as int));
    }
    route
}

/// The children of the cell `from`, whose node is finished at
/// `parent_index`: one candidate for every king move that stays on the
/// grid and lands on a walkable cell, in the order the moves are tried,
/// costs not yet filled in.
#[verifier::loop_isolation(false)]
fn gen_children<M: Maze>(m: &M, from: (usize, usize), parent_index: usize) -> (children: Vec<
    Node,
>)
    requires
        in_grid(m, from),
        size_ok(m),
    ensures
        children@.len() <= 8,
        children@ == cand_list(m, from, parent_index, 8),
        forall|l: int|
            0 <= l < children@.len() ==> cand_ok(m, from, parent_index, #[trigger] children@[l]),
        forall|q: (usize, usize)| #[trigger] valid_step(m, from, q) ==> has_pos(children@, q),
{
    let ghost gw = m.spec_width() as int;
    let ghost gh = m.spec_height() as int;
    let mut children: Vec<Node> = Vec::new();

    for k in 0..8
        invariant
            children@.len() <= k,
            children@ == cand_list(m, from, parent_index, k as int),
            forall|l: int|
                0 <= l < children@.len() ==> cand_ok(m, from, parent_index, #[trigger] children@[l]),
            forall|kk: int, q: (usize, usize)|
                0 <= kk < k && #[trigger] valid_step(m, from, q) && q.0 as int == from.0 as int + (
                #[trigger] spec_dir(kk)).0 && q.1 as int == from.1 as int + spec_dir(kk).1
                    ==> has_pos(children@, q),
    {
        proof {
            assert((gw) <= gw * gw) by (nonlinear_arith)
                requires
                    1 <= gw,
            ;
            assert((gh) <= gh * gh) by (nonlinear_arith)
                requires
                    1 <= gh,
            ;
        }
        let (dx, dy): (isize, isize) = dir_offset(k);
        let x: isize = from.0 as isize + dx;
        let y: isize = from.1 as isize + dy;

        // check the boundaries, then whether the tile can be walked on
        let inside = !(x < 0 || m.width() <= x as usize) && !(y < 0 || m.height() <= y as usize);
        if inside {
            let ux: usize = x as usize;
            let uy: usize = y as usize;
            if !m.solid(ux, uy) {
                let ghost children_before = children@;
                children.push(Node::new(Some(parent_index), (ux, uy), 0, 0, 0));
                proof {
                    assert(cand_at(m, from, k as int) == Some((ux, uy)));
                    assert(children@ == cand_list(m, from, parent_index, k as int + 1));
                    assert forall|q: (usize, usize)| #[trigger]
                        has_pos(children_before, q) implies has_pos(children@, q) by {
                        let l = choose|l: int|
                            0 <= l < children_before.len() && (#[trigger] children_before[l]).pos
                                == q;
                        assert(children@[l] == children_before[l]);
                    }
                    assert((#[trigger] children@[children@.len() - 1]).pos == (ux, uy));
                    assert forall|q: (usize, usize)|
                        valid_step(m, from, q) && q.0 as int == from.0 as int + spec_dir(
                            k as int,
                        ).0 && q.1 as int == from.1 as int + spec_dir(k as int).1 implies has_pos(
                        children@,
                        q,
                    ) by {
                        assert(q.0 == ux && q.1 == uy);
                    }
                }
            } else {
                proof {
                    assert(cand_at(m, from, k as int) is None);
                    assert(children@ == cand_list(m, from, parent_index, k as int + 1));
                    assert forall|q: (usize, usize)|
                        valid_step(m, from, q) && q.0 as int == from.0 as int + spec_dir(
                            k as int,
                        ).0 && q.1 as int == from.1 as int + spec_dir(k as int).1 implies has_pos(
                        children@,
                        q,
                    ) by {
                        assert(q.0 == ux && q.1 == uy);
                        assert(m.spec_solid(q.0, q.1));
                    }
                }
            }
        } else {
            proof {
                assert(cand_at(m, from, k as int) is None);
                assert(children@ == cand_list(m, from, parent_index, k as int + 1));
                assert forall|q: (usize, usize)|
                    valid_step(m, from, q) && q.0 as int == from.0 as int + spec_dir(k as int).0
                        && q.1 as int == from.1 as int + spec_dir(k as int).1 implies has_pos(
                    children@,
                    q,
                ) by {
                    assert(in_grid(m, q));
                    assert(false);
                }
            }
        }
    }

    proof {
        // every valid step away from `from` is among the children
        assert forall|q: (usize, usize)| #[trigger] valid_step(m, from, q) implies has_pos(
            children@,
            q,
        ) by {
            lemma_adjacent_has_dir(from, q);
            let kk = choose|kk: int|
                0 <= kk < 8 && q.0 as int == from.0 as int + (#[trigger] spec_dir(kk)).0
                    && q.1 as int == from.1 as int + spec_dir(kk).1;
        }
    }
    children
}

/// Work the fresh children of the node just finished into the frontier:
/// a child is left out if its cell is already finished, or if a node
/// already waits on its cell with a cost at most the child's; otherwise
/// its costs are filled in and it joins the frontier. Everything the
/// search keeps invariant about the frontier carries over, every valid
/// step out of a finished cell stays covered, and the frontier gains at
/// most the children's total weight.
#[verifier::loop_isolation(false)]
#[verifier::rlimit(100)]
fn push_children<M: Maze>(
    m: &M,
    open_list: &mut Vec<Node>,
    closed_list: &Vec<Node>,
    children: &Vec<Node>,
    current_node: Node,
    parent_index: usize,
    goal: (usize, usize),
    Ghost(start): Ghost<(usize, usize)>,
    Ghost(dseq): Ghost<Seq<(usize, usize)>>,
    Ghost(gb): Ghost<int>,
)
    requires
        size_ok(m),
        in_grid(m, goal),
        gb == m.spec_width() as int * m.spec_height() as int,
        closed_list@.len() >= 1,
        parent_index as int == closed_list@.len() - 1,
        closed_list@[parent_index as int] == current_node,
        closed_ok(m, start, goal, closed_list@),
        open_ok(m, start, goal, closed_list@, old(open_list)@),
        forall|j: int|
            0 <= j < old(open_list)@.len() ==> (#[trigger] old(open_list)@[j]).g + gbit(
                closed_list@,
                old(open_list)@[j].pos,
            ) <= dseq.len(),
        current_node.g + 1 <= dseq.len(),
        dseq.len() <= gb,
        has_pos(closed_list@, start) || has_pos(old(open_list)@, start),
        forall|i: int, q: (usize, usize)|
            0 <= i < parent_index as int && #[trigger] valid_step(
                m,
                (#[trigger] closed_list@[i]).pos,
                q,
            ) ==> has_pos(closed_list@, q) || has_pos(old(open_list)@, q),
        children@.len() <= 8,
        forall|l: int|
            0 <= l < children@.len() ==> cand_ok(
                m,
                current_node.pos,
                parent_index,
                #[trigger] children@[l],
            ),
        forall|q: (usize, usize)| #[trigger]
            valid_step(m, current_node.pos, q) ==> has_pos(children@, q),
    ensures
        open_ok(m, start, goal, closed_list@, final(open_list)@),
        forall|j: int|
            0 <= j < final(open_list)@.len() ==> (#[trigger] final(open_list)@[j]).g + gbit(
                closed_list@,
                final(open_list)@[j].pos,
            ) <= dseq.len(),
        has_pos(closed_list@, start) || has_pos(final(open_list)@, start),
        forall|i: int, q: (usize, usize)|
            0 <= i < closed_list@.len() && #[trigger] valid_step(
                m,
                (#[trigger] closed_list@[i]).pos,
                q,
            ) ==> has_pos(closed_list@, q) || has_pos(final(open_list)@, q),
        pot(final(open_list)@, gb) <= pot(old(open_list)@, gb) + 8 * pow(
            9,
            (gb - current_node.g) as nat,
        ),
        final(open_list)@ == folded_frontier(
            m,
            goal,
            closed_list@,
            current_node,
            children@,
            old(open_list)@,
            children@.len() as int,
        ),
{
    let ghost gw = m.spec_width() as int;
    let ghost gh = m.spec_height() as int;
    let ghost pot0 = pot(open_list@, gb);
    let ghost cterm = pow(9, (gb - current_node.g) as nat);

    proof {
        lemma_pow_positive(9, (gb - current_node.g) as nat);
        assert(node_ok(m, start, goal, closed_list@, parent_index as int, current_node));
        assert(gw <= gw * gw) by (nonlinear_arith)
            requires
                1 <= gw,
        ;
        assert(gh <= gh * gh) by (nonlinear_arith)
            requires
                1 <= gh,
        ;
    }

    for j in 0..children.len()
        invariant
            open_ok(m, start, goal, closed_list@, open_list@),
            forall|jj: int|
                0 <= jj < open_list@.len() ==> (#[trigger] open_list@[jj]).g + gbit(
                    closed_list@,
                    open_list@[jj].pos,
                ) <= dseq.len(),
            forall|q: (usize, usize)| #[trigger]
                has_pos(old(open_list)@, q) ==> has_pos(open_list@, q),
            forall|l: int|
                0 <= l < j ==> has_pos(closed_list@, (#[trigger] children@[l]).pos) || has_pos(
                    open_list@,
                    children@[l].pos,
                ),
            pot(open_list@, gb) <= pot0 + j * cterm,
            open_list@ == folded_frontier(
                m,
                goal,
                closed_list@,
                current_node,
                children@,
                old(open_list)@,
                j as int,
            ),
    {
        proof {
            assert((j + 1) * cterm == j * cterm + cterm) by (nonlinear_arith);
            assert(cand_ok(m, current_node.pos, parent_index, children@[j as int]));
        }
        let mut child = children[j];

        // if the tile is already finished, leave the child out
        if !list_has_pos(closed_list, child.pos) {
            // calculate the g, h and f values of the child
            child.g = current_node.g + 1;
            let dx: isize = child.pos.0 as isize - goal.0 as isize;
            let dy: isize = child.pos.1 as isize - goal.1 as isize;
            proof {
                assert((dx as int) * (dx as int) <= gw * gw) by (nonlinear_arith)
                    requires
                        0 <= dx as int + gw,
                        (dx as int) < gw,
                        1 <= gw,
                ;
                assert((dy as int) * (dy as int) <= gh * gh) by (nonlinear_arith)
                    requires
                        0 <= dy as int + gh,
                        (dy as int) < gh,
                        1 <= gh,
                ;
                assert(0 <= (dx as int) * (dx as int)) by (nonlinear_arith);
                assert(0 <= (dy as int) * (dy as int)) by (nonlinear_arith);
            }
            let hx: isize = dx * dx;
            let hy: isize = dy * dy;
            child.h = hx + hy;
            child.f = child.g + child.h;

            // if a cheaper node already waits on this tile, leave the
            // child out
            if !list_has_cheaper(open_list, child.pos, child.g) {
                proof {
                    assert(child.h == sq_dist(child.pos, goal));
                    assert(node_ok(
                        m,
                        start,
                        goal,
                        closed_list@,
                        closed_list@.len() as int,
                        child,
                    ));
                }
                let ghost open_before_push = open_list@;
                open_list.push(child);
                proof {
                    assert(child == (Node {
                        parent: children@[j as int].parent,
                        pos: children@[j as int].pos,
                        g: (current_node.g + 1) as isize,
                        h: sq_dist(children@[j as int].pos, goal) as isize,
                        f: (current_node.g + 1 + sq_dist(children@[j as int].pos, goal)) as isize,
                    }));
                    assert(open_list@ == folded_frontier(
                        m,
                        goal,
                        closed_list@,
                        current_node,
                        children@,
                        old(open_list)@,
                        j as int + 1,
                    ));
                    lemma_pot_push(open_before_push, child, gb);
                    assert(pot_node(child, gb) == cterm);
                    assert forall|q: (usize, usize)| #[trigger]
                        has_pos(open_before_push, q) implies has_pos(open_list@, q) by {
                        let i = choose|i: int|
                            0 <= i < open_before_push.len() && (
                            #[trigger] open_before_push[i]).pos == q;
                        assert(open_list@[i] == open_before_push[i]);
                    }
                    assert(open_list@[open_list@.len() - 1] == child);
                    assert(has_pos(open_list@, child.pos));
                }
            }
        }
    }

    proof {
        assert(children@.len() as int * cterm <= 8 * cterm) by (nonlinear_arith)
            requires
                children@.len() <= 8,
                cterm >= 1,
        ;
        // every valid step out of a finished cell is covered: for older
        // cells because the frontier only grew, for the cell just
        // finished because each of its children is finished or waiting
        assert forall|i: int, q: (usize, usize)|
            0 <= i < closed_list@.len() && #[trigger] valid_step(
                m,
                (#[trigger] closed_list@[i]).pos,
                q,
            ) implies has_pos(closed_list@, q) || has_pos(open_list@, q) by {
            if i < parent_index as int {
            } else {
                assert(valid_step(m, current_node.pos, q));
                assert(has_pos(children@, q));
                let l = choose|l: int|
                    0 <= l < children@.len() && (#[trigger] children@[l]).pos == q;
            }
        }
    }
}

/// The candidate cell one king move in direction `k` away from `from`:
/// the move's target, if it lands on the grid on a walkable cell.
pub open spec fn cand_at<M: Maze>(m: &M, from: (usize, usize), k: int) -> Option<(usize, usize)> {
    let x = from.0 as int + spec_dir(k).0;
    let y = from.1 as int + spec_dir(k).1;
    if 0 <= x && x < m.spec_width() as int && 0 <= y && y < m.spec_height() as int
        && !m.spec_solid(x as usize, y as usize) {
        Some((x as usize, y as usize))
    } else {
        None
    }
}

/// The children of `from` after the first `k` of the eight moves have
/// been tried, in order, with parent `pi` and costs not yet filled in.
pub open spec fn cand_list<M: Maze>(m: &M, from: (usize, usize), pi: usize, k: int) -> Seq<Node>
    decreases k,
{
    if k <= 0 {
        Seq::empty()
    } else {
        let prev = cand_list(m, from, pi, k - 1);
        match cand_at(m, from, k - 1) {
            Option::Some(c) => prev.push(
                Node { parent: Some(pi), pos: c, g: 0, h: 0, f: 0 },
            ),
            Option::None => prev,
        }
    }
}

/// The frontier after the first `j` children of `cur` have been worked
/// in: a child is left out when its cell is already finished, or when a
/// node no costlier already waits on its cell; otherwise it joins with
/// its costs filled in.
pub open spec fn folded_frontier<M: Maze>(
    m: &M,
    goal: (usize, usize),
    closed: Seq<Node>,
    cur: Node,
    children: Seq<Node>,
    open: Seq<Node>,
    j: int,
) -> Seq<Node>
    decreases j,
{
    if j <= 0 {
        open
    } else {
        let prev = folded_frontier(m, goal, closed, cur, children, open, j - 1);
        let c0 = children[j - 1];
        if has_pos(closed, c0.pos) {
            prev
        } else {
            let g = cur.g + 1;
            let h = sq_dist(c0.pos, goal);
            let c = (Node {
                parent: c0.parent,
                pos: c0.pos,
                g: g as isize,
                h: h as isize,
                f: (g + h) as isize,
            });
            if exists|i: int| 0 <= i < prev.len() && (#[trigger] prev[i]).pos == c.pos && c.g > prev[i].g {
                prev
            } else {
                prev.push(c)
            }
        }
    }
}

/// `i` is where the frontier scan settles: the first index holding the
/// lowest f value.
pub open spec fn is_first_min(s: Seq<Node>, i: int) -> bool {
    &&& 0 <= i < s.len()
    &&& forall|j: int| 0 <= j < s.len() ==> (#[trigger] s[j]).f >= s[i].f
    &&& forall|j: int| 0 <= j < i ==> (#[trigger] s[j]).f > s[i].f
}

/// The index where the frontier scan settles.
pub open spec fn first_min_index(s: Seq<Node>) -> int {
    choose|i: int| is_first_min(s, i)
}

/// At most one index is the first to hold the lowest f value.
proof fn lemma_first_min_unique(s: Seq<Node>, i: int)
    requires
        is_first_min(s, i),
    ensures
        first_min_index(s) == i,
{
    let i2 = first_min_index(s);
    assert(is_first_min(s, i2));
    if i < i2 {
        assert(s[i].f > s[i2].f);
        assert(s[i2].f >= s[i].f);
    } else if i2 < i {
        assert(s[i2].f > s[i].f);
        assert(s[i].f >= s[i2].f);
    }
}

/// What one round of the search does to its state: take the first
/// lowest-f node off the frontier and finish it, then either report the
/// route it spells out when its cell is the goal, give up when the
/// frontier was already empty, or work its children into the frontier.
pub open spec fn search_step<M: Maze>(
    m: &M,
    goal: (usize, usize),
    open: Seq<Node>,
    closed: Seq<Node>,
) -> SearchStep {
    if open.len() == 0 {
        SearchStep::Exhausted
    } else {
        let sel = first_min_index(open);
        let cur = open[sel];
        let closed1 = closed.push(cur);
        let open1 = swap_removed(open, sel);
        if cur.pos == goal {
            SearchStep::Found(chain(closed1, closed.len() as int))
        } else {
            let children = cand_list(m, cur.pos, closed.len() as usize, 8);
            SearchStep::Next(
                folded_frontier(m, goal, closed1, cur, children, open1, children.len() as int),
                closed1,
            )
        }
    }
}

/// One round of the search: the route it reports, the exhaustion it
/// gives up with, or the state it goes on from.
pub enum SearchStep {
    Found(Seq<(usize, usize)>),
    Exhausted,
    Next(Seq<Node>, Seq<Node>),
}

/// The search, run from the given state for at most `fuel` rounds,
/// settles on the result `r`: a route, or `None` for exhaustion.
pub open spec fn search_decides<M: Maze>(
    m: &M,
    goal: (usize, usize),
    open: Seq<Node>,
    closed: Seq<Node>,
    fuel: nat,
    r: Option<Seq<(usize, usize)>>,
) -> bool
    decreases fuel,
{
    if fuel == 0 {
        false
    } else {
        match search_step(m, goal, open, closed) {
            SearchStep::Found(p) => r == Option::Some(p),
            SearchStep::Exhausted => r is None,
            SearchStep::Next(open1, closed1) => search_decides(
                m,
                goal,
                open1,
                closed1,
                (fuel - 1) as nat,
                r,
            ),
        }
    }
}

/// The search over `m` from `start` to `goal` settles on the result `r`.
pub open spec fn search_result<M: Maze>(
    m: &M,
    start: (usize, usize),
    goal: (usize, usize),
    r: Option<Seq<(usize, usize)>>,
) -> bool {
    exists|fuel: nat|
        search_decides(
            m,
            goal,
            seq![(Node { parent: None, pos: start, g: 0, h: 0, f: 0 })],
            Seq::empty(),
            fuel,
            r,
        )
}

/// From one state the search settles on at most one result: each round
/// is a function of the state alone.
proof fn lemma_search_decides_unique<M: Maze>(
    m: &M,
    goal: (usize, usize),
    open: Seq<Node>,
    closed: Seq<Node>,
    f1: nat,
    f2: nat,
    r1: Option<Seq<(usize, usize)>>,
    r2: Option<Seq<(usize, usize)>>,
)
    requires
        search_decides(m, goal, open, closed, f1, r1),
        search_decides(m, goal, open, closed, f2, r2),
    ensures
        r1 == r2,
    decreases f1,
{
    match search_step(m, goal, open, closed) {
        SearchStep::Found(p) => {},
        SearchStep::Exhausted => {},
        SearchStep::Next(open1, closed1) => {
            lemma_search_decides_unique(
                m,
                goal,
                open1,
                closed1,
                (f1 - 1) as nat,
                (f2 - 1) as nat,
                r1,
                r2,
            );
        },
    }
}

/// Determinism: for a fixed maze and fixed start and goal cells, repeated
/// searches return identical results — any two results the search can
/// settle on are equal.
pub proof fn lemma_search_result_unique<M: Maze>(
    m: &M,
    start: (usize, usize),
    goal: (usize, usize),
    r1: Option<Seq<(usize, usize)>>,
    r2: Option<Seq<(usize, usize)>>,
)
    requires
        search_result(m, start, goal, r1),
        search_result(m, start, goal, r2),
    ensures
        r1 == r2,
{
    let open0 = seq![(Node { parent: None, pos: start, g: 0, h: 0, f: 0 })];
    let f1 = choose|fuel: nat| search_decides(m, goal, open0, Seq::empty(), fuel, r1);
    let f2 = choose|fuel: nat| search_decides(m, goal, open0, Seq::empty(), fuel, r2);
    lemma_search_decides_unique(m, goal, open0, Seq::empty(), f1, f2, r1, r2);
}

/// The simplest oracle the search can run over: a rectangle of cells
/// held row by row, each either solid or walkable.
pub struct GridMaze {
    width: usize,
    height: usize,
    cells: Vec<bool>,
}

impl GridMaze {
    /// A grid is well formed when both sides are positive and it holds
    /// one cell for every coordinate pair.
    #[verifier::type_invariant]
    pub closed spec fn wf(&self) -> bool {
        &&& 1 <= self.width
        &&& 1 <= self.height
        &&& self.cells@.len() == self.width * self.height
    }

    /// Build a grid of `width x height` cells over `cells`, row by row,
    /// a `true` cell being solid. Refused unless both sides are positive
    /// and exactly one value per cell is supplied.
    pub fn new(width: usize, height: usize, cells: Vec<bool>) -> (r: Option<GridMaze>)
        ensures
            (r is Some) <==> (1 <= width && 1 <= height && cells@.len() == width * height),
            r matches Some(g) ==> {
                &&& g.spec_width() == width
                &&& g.spec_height() == height
                &&& forall|x: usize, y: usize|
                    x < width && y < height ==> #[trigger] g.spec_solid(x, y) == cells@[y as int
                        * width as int + x as int]
            },
    {
        if width < 1 || height < 1 {
            return None;
        }
        proof {
            assert(cells.len() == cells@.len());
        }
        match width.checked_mul(height) {
            Some(n) => {
                if cells.len() == n {
                    Some(GridMaze { width, height, cells })
                } else {
                    None
                }
            },
            None => None,
        }
    }
}

impl Maze for GridMaze {
    closed spec fn spec_width(&self) -> usize {
        self.width
    }

    closed spec fn spec_height(&self) -> usize {
        self.height
    }

    closed spec fn spec_solid(&self, x: usize, y: usize) -> bool {
        self.cells@[y as int * self.width as int + x as int]
    }

    fn width(&self) -> (w: usize) {
        self.width
    }

    fn height(&self) -> (h: usize) {
        self.height
    }

    fn solid(&self, x: usize, y: usize) -> (s: bool) {
        proof {
            use_type_invariant(&*self);
            assert(self.cells.len() == self.cells@.len());
            assert((y as int * self.width as int + x as int) < self.width as int
                * self.height as int) by (nonlinear_arith)
                requires
                    x < self.width,
                    y < self.height,
                    0 <= x as int,
                    0 <= y as int,
                    1 <= self.width as int,
            ;
        }
        self.cells[y * self.width + x]
    }
}

/// The A* search.
pub struct AStar<M: Maze> {
    pub maze: Box<M>,
}

impl<M: Maze> AStar<M> {
    /// Find a route from `start` to `end`, both given as grid coordinates
    /// that lie on the maze.
    ///
    /// Returns a route exactly when one exists: a sequence that begins at
    /// `start`, ends at `end`, and advances by king moves over walkable
    /// grid cells. When `start` and `end` coincide the route is the single
    /// cell itself. When every route is cut off, returns `None`. The
    /// answer is a function of the maze and the two cells alone
    /// ([`search_result`]), so repeated calls return identical results.
    ///
    /// The grid must be small enough for the cost arithmetic to fit the
    /// machine ([`size_ok`]): no grid a renderer can hold comes near the
    /// bound.
    #[verifier::loop_isolation(false)]
    #[verifier::rlimit(100)]
    pub fn path(&mut self, start: (usize, usize), end: (usize, usize)) -> (r: Option<
        Vec<(usize, usize)>,
    >)
        requires
            in_grid(&*old(self).maze, start),
            in_grid(&*old(self).maze, end),
            size_ok(&*old(self).maze),
        ensures
            *final(self) == *old(self),
            (r is Some) <==> (exists|p: Seq<(usize, usize)>|
                is_path(&*old(self).maze, p, start, end)),
            r matches Some(v) ==> is_path(&*old(self).maze, v@, start, end),
            start == end ==> (r matches Some(v) && v@ == seq![start]),
            r is None ==> search_result(&*old(self).maze, start, end, Option::None),
            r matches Some(v) ==> search_result(&*old(self).maze, start, end, Option::Some(v@)),
    {
        let m: &M = &*self.maze;
        let ghost gw = m.spec_width() as int;
        let ghost gh = m.spec_height() as int;
        let ghost gb = gw * gh;

        // create the start node; the goal needs no record of its own,
        // only its coordinates
        let start_node = Node::new(None, start, 0, 0, 0);

        // create the lists: the frontier holds the start, nothing is
        // finished yet
        let mut open_list: Vec<Node> = vec![start_node];
        let mut closed_list: Vec<Node> = Vec::new();
        let ghost mut dseq: Seq<(usize, usize)> = Seq::empty();

        proof {
            assert(open_list@ =~= seq![(Node { parent: None, pos: start, g: 0, h: 0, f: 0 })]);
            assert(closed_list@ =~= Seq::<Node>::empty());
        }

        loop
            invariant
                closed_ok(m, start, end, closed_list@),
                open_ok(m, start, end, closed_list@, open_list@),
                dseq.no_duplicates(),
                forall|k: int| 0 <= k < dseq.len() ==> has_pos(closed_list@, #[trigger] dseq[k]),
                forall|q: (usize, usize)| #[trigger]
                    has_pos(closed_list@, q) ==> dseq.contains(q),
                forall|j: int|
                    0 <= j < open_list@.len() ==> (#[trigger] open_list@[j]).g + gbit(
                        closed_list@,
                        open_list@[j].pos,
                    ) <= dseq.len(),
                forall|i: int| 0 <= i < closed_list@.len() ==> (#[trigger] closed_list@[i]).pos != end,
                has_pos(closed_list@, start) || has_pos(open_list@, start),
                forall|i: int, q: (usize, usize)|
                    0 <= i < closed_list@.len() && #[trigger] valid_step(
                        m,
                        (#[trigger] closed_list@[i]).pos,
                        q,
                    ) ==> has_pos(closed_list@, q) || has_pos(open_list@, q),
                start == end ==> closed_list@.len() == 0 && open_list@ =~= seq![start_node],
                forall|fuel: nat, rr: Option<Seq<(usize, usize)>>| #[trigger]
                    search_decides(m, end, open_list@, closed_list@, fuel, rr) ==> search_result(
                        m,
                        start,
                        end,
                        rr,
                    ),
            decreases pot(open_list@, gb),
        {
            let ghost open_at_head = open_list@;
            let ghost closed_at_head = closed_list@;
            let ghost dseq_at_head = dseq;

            if open_list.len() == 0 {
                // the frontier is spent without reaching the goal: no
                // route exists at all, or one would end on a finished
                // cell, and the goal never finished
                proof {
                    lemma_exhausted(m, start, end, closed_list@);
                    assert(search_step(m, end, open_list@, closed_list@)
                        == SearchStep::Exhausted);
                    assert(search_decides(
                        m,
                        end,
                        open_list@,
                        closed_list@,
                        1nat,
                        Option::<Seq<(usize, usize)>>::None,
                    ));
                }
                return None;
            }

            // search the frontier for the node with the lowest f value,
            // take it off the frontier and finish it
            proof {
                assert forall|j: int| 0 <= j < open_list@.len() implies (#[trigger] open_list@[j]).f
                    < isize::MAX by {
                    assert(node_ok(
                        m,
                        start,
                        end,
                        closed_list@,
                        closed_list@.len() as int,
                        open_list@[j],
                    ));
                }
            }
            let remove: usize = lowest_f(&open_list);
            let current_node = open_list[remove];
            open_list.swap_remove(remove);
            let parent_index: usize = closed_list.len();
            closed_list.push(current_node);

            proof {
                assert(open_at_head[remove as int] == current_node);
                assert(node_ok(
                    m,
                    start,
                    end,
                    closed_at_head,
                    closed_at_head.len() as int,
                    current_node,
                ));
                if !has_pos(closed_at_head, current_node.pos) {
                    dseq = dseq.push(current_node.pos);
                }
                assert(open_list@ == swap_removed(open_at_head, remove as int));
                assert(closed_list@ == closed_at_head.push(current_node));
                lemma_finish_step(
                    m,
                    start,
                    end,
                    open_at_head,
                    closed_at_head,
                    dseq_at_head,
                    remove as int,
                    gb,
                    current_node,
                    open_list@,
                    closed_list@,
                    dseq,
                );
            }

            if current_node.pos.0 == end.0 && current_node.pos.1 == end.1 {
                // the goal is finished: the route is what its parent
                // links spell out
                proof {
                    assert forall|i: int| 0 <= i < closed_list@.len() implies match (
                    #[trigger] closed_list@[i]).parent {
                        Option::None => true,
                        Option::Some(pi) => 0 <= pi < i,
                    } by {
                        assert(node_ok(m, start, end, closed_list@, i, closed_list@[i]));
                    }
                }
                let route = rebuild_route(&closed_list, parent_index);

                proof {
                    lemma_chain_is_path(m, start, end, closed_list@, parent_index as int);
                    assert(is_path(m, route@, start, end));
                    if start == end {
                        assert(open_at_head =~= seq![start_node]);
                        assert(current_node == start_node);
                        assert(chain(closed_list@, parent_index as int) =~= seq![start]);
                        assert(route@ == seq![start]);
                    }
                    lemma_first_min_unique(open_at_head, remove as int);
                    assert(current_node.pos == end);
                    assert(search_step(m, end, open_at_head, closed_at_head)
                        == SearchStep::Found(route@));
                    assert(search_decides(
                        m,
                        end,
                        open_at_head,
                        closed_at_head,
                        1nat,
                        Option::Some(route@),
                    ));
                }
                return Some(route);
            }

            proof {
                // had start and end coincided, the node just finished
                // would have been the goal
                assert(start != end) by {
                    if start == end {
                        assert(open_at_head =~= seq![start_node]);
                        assert(current_node == start_node);
                    }
                }
                // the cost of anything finished so far stays within the
                // cell count of the grid
                lemma_dseq_bound(m, start, end, closed_list@, dseq);
            }

            // create the children: the walkable cells one king move away
            let children = gen_children(m, current_node.pos, parent_index);

            let ghost cterm = pow(9, (gb - current_node.g) as nat);

            proof {
                // the finished node's weight trades against its children's
                assert(0 <= current_node.g && current_node.g <= gb);
                lemma_pot_node_unfold(current_node, gb);
                assert(pot_node(current_node, gb) == 9 * cterm);
            }

            // work the children into the frontier
            push_children(
                m,
                &mut open_list,
                &closed_list,
                &children,
                current_node,
                parent_index,
                end,
                Ghost(start),
                Ghost(dseq),
                Ghost(gb),
            );

            proof {
                // the goal is still not among the finished cells
                assert forall|i: int| 0 <= i < closed_list@.len() implies (
                #[trigger] closed_list@[i]).pos != end by {
                    if i < closed_at_head.len() {
                        assert(closed_at_head[i] == closed_list@[i]);
                    }
                }

                // the frontier got strictly lighter: the finished node's
                // weight outweighs all its children together
                lemma_pot_nonneg(open_list@, gb);
                assert(pot(open_list@, gb) < pot(open_at_head, gb));

                // this round did to the state exactly what one round of
                // the search does, so whatever the search settles on from
                // here it settles on from the starting state too
                lemma_first_min_unique(open_at_head, remove as int);
                assert(search_step(m, end, open_at_head, closed_at_head) == SearchStep::Next(
                    open_list@,
                    closed_list@,
                ));
                assert forall|fuel: nat, rr: Option<Seq<(usize, usize)>>| #[trigger]
                    search_decides(m, end, open_list@, closed_list@, fuel, rr) implies search_result(
                    m,
                    start,
                    end,
                    rr,
                ) by {
                    assert(search_decides(m, end, open_at_head, closed_at_head, fuel + 1, rr));
                }
            }
        }
    }
}

/// Every returned route advances by king moves, and — as long as the
/// start cell itself is walkable — never touches a solid cell. (The
/// search never inspects the start cell, so a route out of a solid start
/// cell walks walkable cells from its second cell on.)
pub proof fn lemma_route_adjacent_and_walkable<M: Maze>(
    m: &M,
    p: Seq<(usize, usize)>,
    start: (usize, usize),
    goal: (usize, usize),
)
    requires
        is_path(m, p, start, goal),
        !m.spec_solid(start.0, start.1),
    ensures
        forall|i: int| 0 <= i < p.len() - 1 ==> king_adjacent(#[trigger] p[i], p[i + 1]),
        forall|i: int| 0 <= i < p.len() ==> !m.spec_solid((#[trigger] p[i]).0, p[i].1),
{
    assert forall|i: int| 0 <= i < p.len() implies !m.spec_solid(
        (#[trigger] p[i]).0,
        p[i].1,
    ) by {
        if i > 0 {
            assert(valid_step(m, p[i - 1], p[i]));
        }
    }
}

/// No returned route leaves the grid, whatever the grid's size: every
/// cell of it lies within the bounds.
pub proof fn lemma_route_on_grid<M: Maze>(
    m: &M,
    p: Seq<(usize, usize)>,
    start: (usize, usize),
    goal: (usize, usize),
)
    requires
        is_path(m, p, start, goal),
        in_grid(m, start),
    ensures
        forall|i: int| 0 <= i < p.len() ==> in_grid(m, #[trigger] p[i]),
{
    assert forall|i: int| 0 <= i < p.len() implies in_grid(m, #[trigger] p[i]) by {
        if i > 0 {
            assert(valid_step(m, p[i - 1], p[i]));
        }
    }
}

} // verus!
