use vstd::prelude::*;
use vstd::arithmetic::div_mod::{lemma_div_pos_is_pos, lemma_fundamental_div_mod, lemma_mod_pos_bound};
use crate::terminal::{
    TermCmd, at, cursor_after, in_rect, lemma_cursor_after_concat, lemma_prints_within_concat,
    lemma_prints_within_inside, prints_within,
};
use crate::window::{Window, WindowDisplay, actions_cmds, region_fits};

verus! {

/// The sum of the weights.
pub open spec fn weight_sum(ws: Seq<u32>) -> int
    decreases ws.len(),
{
    if ws.len() == 0 {
        0
    } else {
        weight_sum(ws.drop_last()) + ws.last()
    }
}

/// The sum of a sequence of extents.
pub open spec fn extent_sum(s: Seq<u16>) -> int
    decreases s.len(),
{
    if s.len() == 0 {
        0
    } else {
        extent_sum(s.drop_last()) + s.last()
    }
}

/// The base extent of a child of weight `w`: `floor(w * total / sum)`, the floor of
/// its weight times the extent of one unit of weight.
pub open spec fn base_extent(w: u32, total: u16, sum: int) -> int {
    (w * total) / sum
}

/// The sum of the base extents of the weights `ws`, with `sum` the weight of all
/// siblings.
pub open spec fn base_sum(ws: Seq<u32>, total: u16, sum: int) -> int
    decreases ws.len(),
{
    if ws.len() == 0 {
        0
    } else {
        base_sum(ws.drop_last(), total, sum) + base_extent(ws.last(), total, sum)
    }
}

/// What the base extents leave of `total`: one more unit goes to each of that many
/// first children.
pub open spec fn leftover(ws: Seq<u32>, total: u16) -> int {
    total - base_sum(ws, total, weight_sum(ws))
}

/// The extent of child `i`: its base extent, plus one when it is among the first
/// `leftover` children.
pub open spec fn child_extent(ws: Seq<u32>, total: u16, i: int) -> int {
    base_extent(ws[i], total, weight_sum(ws)) + if i < leftover(ws, total) {
        1int
    } else {
        0int
    }
}

spec fn rem_sum(ws: Seq<u32>, total: u16, sum: int) -> int
    decreases ws.len(),
{
    if ws.len() == 0 {
        0
    } else {
        rem_sum(ws.drop_last(), total, sum) + (ws.last() * total) % sum
    }
}

proof fn lemma_base_rem(ws: Seq<u32>, total: u16, sum: int)
    requires
        sum > 0,
    ensures
        sum * base_sum(ws, total, sum) + rem_sum(ws, total, sum) == total * weight_sum(ws),
        0 <= rem_sum(ws, total, sum) <= ws.len() * (sum - 1),
        0 <= base_sum(ws, total, sum),
        weight_sum(ws) >= 0,
    decreases ws.len(),
{
    if ws.len() > 0 {
        let p = ws.drop_last();
        lemma_base_rem(p, total, sum);
        let x = ws.last() * total;
        assert(x >= 0) by (nonlinear_arith)
            requires
                ws.last() >= 0,
                total >= 0,
                x == ws.last() * total,
        ;
        lemma_fundamental_div_mod(x, sum);
        lemma_mod_pos_bound(x, sum);
        lemma_div_pos_is_pos(x, sum);
        let bp = base_sum(p, total, sum);
        let rp = rem_sum(p, total, sum);
        let wp = weight_sum(p);
        assert(sum * (bp + x / sum) + (rp + x % sum) == total * (wp + ws.last())) by (nonlinear_arith)
            requires
                sum * bp + rp == total * wp,
                x == sum * (x / sum) + x % sum,
                x == ws.last() * total,
        ;
        assert(rp + x % sum <= ws.len() * (sum - 1)) by (nonlinear_arith)
            requires
                rp <= p.len() * (sum - 1),
                x % sum <= sum - 1,
                ws.len() == p.len() + 1,
        ;
    }
}

/// With positive total weight, the base extents never exceed the total and leave
/// fewer units than there are children.
proof fn lemma_leftover_bounds(ws: Seq<u32>, total: u16)
    requires
        weight_sum(ws) > 0,
    ensures
        0 <= leftover(ws, total) < ws.len(),
        0 <= base_sum(ws, total, weight_sum(ws)),
{
    let sum = weight_sum(ws);
    lemma_base_rem(ws, total, sum);
    if ws.len() == 0 {
        assert(weight_sum(ws) == 0);
    }
    let b = base_sum(ws, total, sum);
    let r = rem_sum(ws, total, sum);
    let n = ws.len() as int;
    assert(0 <= total - b < n) by (nonlinear_arith)
        requires
            sum * b + r == total * sum,
            0 <= r <= n * (sum - 1),
            sum > 0,
            n > 0,
    ;
}

/// Base extents of a prefix of the weights never exceed those of all of them.
proof fn lemma_base_sum_prefix(ws: Seq<u32>, total: u16, sum: int, i: int)
    requires
        sum > 0,
        0 <= i <= ws.len(),
    ensures
        base_sum(ws.take(i), total, sum) <= base_sum(ws, total, sum),
        0 <= base_extent(ws[i - 1], total, sum) || i == 0,
    decreases ws.len(),
{
    if i < ws.len() {
        let p = ws.drop_last();
        assert(p.take(i) =~= ws.take(i));
        lemma_base_sum_prefix(p, total, sum, i);
        lemma_div_pos_is_pos(ws.last() * total, sum);
        if i > 0 {
            assert(p[i - 1] == ws[i - 1]);
        }
    } else {
        assert(ws.take(i) =~= ws);
    }
    if i > 0 {
        assert(ws[i - 1] * total >= 0) by (nonlinear_arith)
            requires
                ws[i - 1] >= 0,
                total >= 0,
        ;
        lemma_div_pos_is_pos(ws[i - 1] * total, sum);
    }
}

/// Splits `total` cells among children of the given weights: each gets the floor of
/// its share, and the cells left over go one each to the first children in order.
/// The extents always add up to exactly `total`.
pub fn partition(weights: &Vec<u32>, total: u16) -> (r: Vec<u16>)
    requires
        weights@.len() > 0,
        forall|i: int| 0 <= i < weights@.len() ==> weights@[i] > 0,
    ensures
        weight_sum(weights@) > 0,
        r@.len() == weights@.len(),
        forall|i: int| 0 <= i < r@.len() ==> r@[i] == child_extent(weights@, total, i),
        extent_sum(r@) == total,
{
    let ghost ws = weights@;
    proof {
        lemma_weight_sum_first(ws);
    }
    let mut sum: u128 = 0;
    let mut i: usize = 0;
    while i < weights.len()
        invariant
            ws == weights@,
            i <= ws.len(),
            sum == weight_sum(ws.take(i as int)),
            sum <= i * 0xFFFF_FFFFu128,
        decreases ws.len() - i,
    {
        proof {
            assert(ws.take(i + 1).drop_last() =~= ws.take(i as int));
        }
        sum = sum + weights[i] as u128;
        i = i + 1;
    }
    assert(ws.take(i as int) =~= ws);
    proof {
        lemma_leftover_bounds(ws, total);
    }
    let ghost wsum = weight_sum(ws);
    let mut bases: Vec<u16> = Vec::new();
    let mut used: u16 = 0;
    i = 0;
    while i < weights.len()
        invariant
            ws == weights@,
            wsum == weight_sum(ws),
            sum == wsum,
            wsum > 0,
            i <= ws.len(),
            bases@.len() == i,
            forall|k: int| 0 <= k < i ==> bases@[k] == base_extent(ws[k], total, wsum),
            used == base_sum(ws.take(i as int), total, wsum),
            base_sum(ws, total, wsum) <= total,
        decreases ws.len() - i,
    {
        proof {
            assert(ws.take(i + 1).drop_last() =~= ws.take(i as int));
            lemma_base_sum_prefix(ws, total, wsum, i + 1);
        }
        assert(weights[i as int] as u128 * total as u128 <= 0xFFFF_FFFFu128 * 0xFFFFu128)
            by (nonlinear_arith)
            requires
                weights[i as int] <= 0xFFFF_FFFFu32,
                total <= 0xFFFFu16,
        ;
        let prod: u128 = weights[i] as u128 * total as u128;
        let b = (prod / sum) as u16;
        bases.push(b);
        used = used + b;
        i = i + 1;
    }
    assert(ws.take(i as int) =~= ws);
    let extra: u16 = total - used;
    let mut r: Vec<u16> = Vec::new();
    i = 0;
    while i < bases.len()
        invariant
            ws == weights@,
            wsum == weight_sum(ws),
            wsum > 0,
            bases@.len() == ws.len(),
            forall|k: int| 0 <= k < ws.len() ==> bases@[k] == base_extent(ws[k], total, wsum),
            extra == leftover(ws, total),
            extra < ws.len(),
            used + extra == total,
            used == base_sum(ws, total, wsum),
            i <= ws.len(),
            r@.len() == i,
            forall|k: int| 0 <= k < i ==> r@[k] == child_extent(ws, total, k),
            extent_sum(r@) == base_sum(ws.take(i as int), total, wsum) + if i < extra {
                i as int
            } else {
                extra as int
            },
        decreases ws.len() - i,
    {
        proof {
            assert(ws.take(i + 1).drop_last() =~= ws.take(i as int));
            lemma_base_sum_prefix(ws, total, wsum, i + 1);
            lemma_base_rem(ws.take(i as int), total, wsum);
        }
        let e = if i < extra as usize {
            bases[i] + 1
        } else {
            bases[i]
        };
        let ghost before = r@;
        r.push(e);
        proof {
            assert(r@.drop_last() =~= before);
        }
        i = i + 1;
    }
    assert(ws.take(i as int) =~= ws);
    r
}

/// Where child `i` starts along the split axis, relative to the container: the
/// extents of the children before it, added up.
pub open spec fn offset(ws: Seq<u32>, total: u16, i: int) -> int
    decreases i,
{
    if i <= 0 {
        0
    } else {
        offset(ws, total, i - 1) + child_extent(ws, total, i - 1)
    }
}

proof fn lemma_offset_base(ws: Seq<u32>, total: u16, i: int)
    requires
        weight_sum(ws) > 0,
        0 <= i <= ws.len(),
    ensures
        offset(ws, total, i) == base_sum(ws.take(i), total, weight_sum(ws)) + if i < leftover(ws, total) {
            i
        } else {
            leftover(ws, total)
        },
    decreases i,
{
    lemma_leftover_bounds(ws, total);
    if i > 0 {
        lemma_offset_base(ws, total, i - 1);
        assert(ws.take(i).drop_last() =~= ws.take(i - 1));
    } else {
        assert(ws.take(0) =~= seq![]);
    }
}

/// The children's extents are non-negative, start at offset 0 and, added up, come
/// to exactly `total`: no gaps, no overlap, no rounding loss.
proof fn lemma_offsets(ws: Seq<u32>, total: u16)
    requires
        weight_sum(ws) > 0,
    ensures
        offset(ws, total, 0) == 0,
        offset(ws, total, ws.len() as int) == total,
        forall|i: int| 0 <= i < ws.len() ==> 0 <= #[trigger] child_extent(ws, total, i),
        forall|i: int, j: int| 0 <= i <= j <= ws.len() ==> #[trigger] offset(ws, total, i) <= #[trigger] offset(ws, total, j),
{
    lemma_leftover_bounds(ws, total);
    lemma_offset_base(ws, total, ws.len() as int);
    assert(ws.take(ws.len() as int) =~= ws);
    assert forall|i: int| 0 <= i < ws.len() implies 0 <= #[trigger] child_extent(ws, total, i) by {
        lemma_base_sum_prefix(ws, total, weight_sum(ws), i + 1);
    }
    assert forall|i: int, j: int| 0 <= i <= j <= ws.len() implies #[trigger] offset(ws, total, i) <= #[trigger] offset(ws, total, j) by {
        lemma_offset_mono(ws, total, i, j);
    }
}

proof fn lemma_offset_mono(ws: Seq<u32>, total: u16, i: int, j: int)
    requires
        weight_sum(ws) > 0,
        0 <= i <= j <= ws.len(),
    ensures
        offset(ws, total, i) <= offset(ws, total, j),
    decreases j - i,
{
    if i < j {
        lemma_offset_mono(ws, total, i, j - 1);
        lemma_base_sum_prefix(ws, total, weight_sum(ws), j);
    }
}

/// A cell `x` along the axis, inside the first `k` children's span, lies in one of them.
proof fn lemma_offset_cover(ws: Seq<u32>, total: u16, x: int, k: int)
    requires
        weight_sum(ws) > 0,
        0 <= k <= ws.len(),
        0 <= x < offset(ws, total, k),
    ensures
        exists|i: int|
            0 <= i < k && #[trigger] offset(ws, total, i) <= x < offset(ws, total, i) + child_extent(ws, total, i),
    decreases k,
{
    if k > 0 {
        if x < offset(ws, total, k - 1) {
            lemma_offset_cover(ws, total, x, k - 1);
        } else {
            assert(offset(ws, total, k - 1) <= x < offset(ws, total, k - 1) + child_extent(ws, total, k - 1));
        }
    }
}

proof fn lemma_weight_sum_first(ws: Seq<u32>)
    requires
        ws.len() > 0,
    ensures
        weight_sum(ws) >= ws[0],
    decreases ws.len(),
{
    if ws.len() > 1 {
        lemma_weight_sum_first(ws.drop_last());
        assert(ws.drop_last()[0] == ws[0]);
    } else {
        assert(ws.drop_last() =~= seq![]);
        assert(weight_sum(ws.drop_last()) == 0);
    }
}

/// The commands of the parts, one part after the other. Each part is a child's
/// commands together with the cursor it leaves.
pub open spec fn parts_cmds(parts: Seq<(Seq<TermCmd>, (u16, u16))>) -> Seq<TermCmd>
    decreases parts.len(),
{
    if parts.len() == 0 {
        seq![]
    } else {
        parts_cmds(parts.drop_last()) + parts.last().0
    }
}

/// The cursor with which part `i` starts: `start` for the first, else the cursor
/// that the part before it leaves.
pub open spec fn part_start(parts: Seq<(Seq<TermCmd>, (u16, u16))>, start: (u16, u16), i: int) -> (
    u16,
    u16,
) {
    if i <= 0 {
        start
    } else {
        parts[i - 1].1
    }
}

/// Whether a container splits its region into rows (vertical) or columns.
pub enum ContainerOrientation {
    Vertical,
    Horizontal,
}

/// A node of the layout tree.
pub enum TileType<'a> {
    Window(Window<'a>),
    Container(Container<'a>),
}

/// An inner node of the layout: children that split its region along one axis in
/// proportion to their weights.
pub struct Container<'a> {
    pub tiles: Vec<TileType<'a>>,
    pub orientation: ContainerOrientation,
    pub rel_size: u32,
}

/// The extent along the split axis.
pub open spec fn axis_total(vertical: bool, size: (u16, u16)) -> u16 {
    if vertical {
        size.0
    } else {
        size.1
    }
}

/// The top-left corner of child `i` of a container with weights `ws` and region
/// (`origin`, `size`).
pub open spec fn child_origin(
    vertical: bool,
    ws: Seq<u32>,
    origin: (u16, u16),
    size: (u16, u16),
    i: int,
) -> (int, int) {
    let o = offset(ws, axis_total(vertical, size), i);
    if vertical {
        (origin.0 + o, origin.1 as int)
    } else {
        (origin.0 as int, origin.1 + o)
    }
}

/// The extent of child `i`: its share along the split axis, the container's whole
/// extent across it.
pub open spec fn child_size(vertical: bool, ws: Seq<u32>, size: (u16, u16), i: int) -> (int, int) {
    let e = child_extent(ws, axis_total(vertical, size), i);
    if vertical {
        (e, size.1 as int)
    } else {
        (size.0 as int, e)
    }
}

/// The children of a split region tile it: each lies inside it, no two share a
/// cell, and every cell of it lies in one of them.
pub proof fn children_tile_region(
    vertical: bool,
    ws: Seq<u32>,
    origin: (u16, u16),
    size: (u16, u16),
)
    requires
        weight_sum(ws) > 0,
    ensures
        forall|i: int, p: (int, int)|
            0 <= i < ws.len() && in_rect(p, child_origin(vertical, ws, origin, size, i), #[trigger] child_size(vertical, ws, size, i))
                ==> #[trigger] in_rect(p, at(origin), at(size)),
        forall|i: int, j: int, p: (int, int)|
            0 <= i < ws.len() && 0 <= j < ws.len() && i != j
                && #[trigger] in_rect(p, child_origin(vertical, ws, origin, size, i), child_size(vertical, ws, size, i))
                ==> !#[trigger] in_rect(p, child_origin(vertical, ws, origin, size, j), child_size(vertical, ws, size, j)),
        forall|p: (int, int)|
            #[trigger] in_rect(p, at(origin), at(size)) ==> exists|i: int|
                0 <= i < ws.len() && in_rect(p, child_origin(vertical, ws, origin, size, i), #[trigger] child_size(vertical, ws, size, i)),
{
    let t = axis_total(vertical, size);
    lemma_offsets(ws, t);
    assert forall|i: int, j: int| 0 <= i < j < ws.len() implies offset(ws, t, i) + child_extent(ws, t, i) <= offset(ws, t, j) by {
        assert(offset(ws, t, i + 1) <= offset(ws, t, j));
    }
    assert forall|i: int| 0 <= i < ws.len() implies offset(ws, t, i) + child_extent(ws, t, i) <= t by {
        assert(offset(ws, t, i + 1) <= offset(ws, t, ws.len() as int));
    }
    assert forall|p: (int, int)| #[trigger] in_rect(p, at(origin), at(size)) implies exists|i: int|
        0 <= i < ws.len() && in_rect(p, child_origin(vertical, ws, origin, size, i), #[trigger] child_size(vertical, ws, size, i)) by {
        let x = if vertical {
            p.0 - origin.0
        } else {
            p.1 - origin.1
        };
        lemma_offset_cover(ws, t, x, ws.len() as int);
        let i = choose|i: int|
            0 <= i < ws.len() && #[trigger] offset(ws, t, i) <= x < offset(ws, t, i) + child_extent(ws, t, i);
        assert(in_rect(p, child_origin(vertical, ws, origin, size, i), child_size(vertical, ws, size, i)));
    }
}

impl<'a> TileType<'a> {
    /// The node's size weight among its siblings.
    pub open spec fn weight(&self) -> u32 {
        match self {
            TileType::Window(w) => w.config.rel_size,
            TileType::Container(c) => c.rel_size,
        }
    }

    /// Every weight in the subtree is positive and every container has children.
    pub open spec fn wf(&self) -> bool
        decreases self,
    {
        match self {
            TileType::Window(w) => w.config.rel_size > 0,
            TileType::Container(c) => c.wf(),
        }
    }

    /// `cmds` is what drawing the node into (`origin`, `size`) can emit, starting
    /// with the cursor at `start` and leaving it at `end`: for a window, the
    /// interpretation of the actions its pane renders at the region's size; for a container, its
    /// children's drawings in order, each into its own share of the region.
    pub open spec fn drawn(
        &self,
        cmds: Seq<TermCmd>,
        start: (u16, u16),
        end: (u16, u16),
        origin: (u16, u16),
        size: (u16, u16),
    ) -> bool
        decreases self,
    {
        match self {
            TileType::Window(w) => actions_cmds(
                w.config.wrapping,
                origin,
                size,
                start,
                w.display.view_render(size),
            ) == (cmds, end),
            TileType::Container(c) => c.drawn(cmds, start, end, origin, size),
        }
    }

    fn weight_of(&self) -> (r: u32)
        ensures
            r == self.weight(),
    {
        match self {
            TileType::Window(w) => w.config.rel_size,
            TileType::Container(c) => c.rel_size,
        }
    }
}

/// The weights of a sequence of nodes.
pub open spec fn weights_of<'a>(tiles: Seq<TileType<'a>>) -> Seq<u32> {
    Seq::new(tiles.len(), |i: int| tiles[i].weight())
}

impl<'a> Container<'a> {
    /// Every weight in the tree is positive and every container has children.
    pub open spec fn wf(&self) -> bool
        decreases self,
    {
        &&& self.rel_size > 0
        &&& self.tiles@.len() > 0
        &&& forall|i: int| 0 <= i < self.tiles@.len() ==> (#[trigger] self.tiles@[i]).wf()
    }

    /// See [`TileType::drawn`].
    pub open spec fn drawn(
        &self,
        cmds: Seq<TermCmd>,
        start: (u16, u16),
        end: (u16, u16),
        origin: (u16, u16),
        size: (u16, u16),
    ) -> bool
        decreases self,
    {
        exists|parts: Seq<(Seq<TermCmd>, (u16, u16))>|
            {
                &&& #[trigger] parts_cmds(parts) == cmds
                &&& parts.len() == self.tiles@.len()
                &&& part_start(parts, start, parts.len() as int) == end
                &&& forall|i: int|
                    0 <= i < parts.len() ==> self.tiles@[i].drawn(
                        (#[trigger] parts[i]).0,
                        part_start(parts, start, i),
                        parts[i].1,
                        self.region_of(origin, size, i).0,
                        self.region_of(origin, size, i).1,
                    )
            }
    }

    /// The region (top-left corner, extent) of child `i` when the container fills
    /// (`origin`, `size`).
    pub open spec fn region_of(&self, origin: (u16, u16), size: (u16, u16), i: int) -> (
        (u16, u16),
        (u16, u16),
    ) {
        let o = self.child_origin(origin, size, i);
        let z = self.child_size(size, i);
        ((o.0 as u16, o.1 as u16), (z.0 as u16, z.1 as u16))
    }

    /// The container splits its region into rows.
    pub open spec fn is_vertical(&self) -> bool {
        self.orientation is Vertical
    }

    /// A container of the given children, split into rows when `vertical`, else into
    /// columns. A zero weight or an empty list of children is a configuration error,
    /// excluded here.
    pub fn new(tiles: Vec<TileType<'a>>, vertical: bool, rel_size: u32) -> (r: Container<'a>)
        requires
            rel_size > 0,
            tiles@.len() > 0,
            forall|i: int| 0 <= i < tiles@.len() ==> (#[trigger] tiles@[i]).wf(),
        ensures
            r.wf(),
            r.tiles@ == tiles@,
            r.is_vertical() == vertical,
            r.rel_size == rel_size,
    {
        Container {
            tiles,
            orientation: if vertical {
                ContainerOrientation::Vertical
            } else {
                ContainerOrientation::Horizontal
            },
            rel_size,
        }
    }

    proof fn lemma_weights_positive(&self)
        requires
            self.wf(),
        ensures
            weight_sum(weights_of(self.tiles@)) > 0,
    {
        let ws = weights_of(self.tiles@);
        assert(self.tiles@[0].wf());
        lemma_weight_sum_first(ws);
    }

    fn weights(&self) -> (r: Vec<u32>)
        requires
            self.wf(),
        ensures
            r@ == weights_of(self.tiles@),
            r@.len() > 0,
            forall|i: int| 0 <= i < r@.len() ==> r@[i] > 0,
    {
        let mut r: Vec<u32> = Vec::new();
        let mut i: usize = 0;
        while i < self.tiles.len()
            invariant
                self.wf(),
                i <= self.tiles@.len(),
                r@ == weights_of(self.tiles@.take(i as int)),
                forall|k: int| 0 <= k < i ==> r@[k] > 0,
            decreases self.tiles@.len() - i,
        {
            let w = self.tiles[i].weight_of();
            let ghost before = r@;
            r.push(w);
            proof {
                assert(r@.drop_last() =~= before);
                assert(r@ =~= weights_of(self.tiles@.take(i + 1)));
                assert(self.tiles@[i as int].wf());
                assert(w > 0);
            }
            i = i + 1;
        }
        assert(self.tiles@.take(i as int) =~= self.tiles@);
        r
    }

    /// The top-left corner of child `i` when the container fills (`origin`, `size`).
    pub open spec fn child_origin(&self, origin: (u16, u16), size: (u16, u16), i: int) -> (int, int) {
        child_origin(self.is_vertical(), weights_of(self.tiles@), origin, size, i)
    }

    /// The extent of child `i` when the container fills a region of extent `size`.
    pub open spec fn child_size(&self, size: (u16, u16), i: int) -> (int, int) {
        child_size(self.is_vertical(), weights_of(self.tiles@), size, i)
    }

    /// The region (top-left corner, extent) of each child when the container fills
    /// (`origin`, `size`).
    pub fn child_regions(&self, origin: (u16, u16), size: (u16, u16)) -> (r: Vec<((u16, u16), (u16, u16))>)
        requires
            self.wf(),
            region_fits(origin, size),
        ensures
            r@.len() == self.tiles@.len(),
            forall|i: int|
                0 <= i < r@.len() ==> {
                    &&& (#[trigger] r@[i]) == self.region_of(origin, size, i)
                    &&& at(r@[i].0) == self.child_origin(origin, size, i)
                    &&& at(r@[i].1) == self.child_size(size, i)
                    &&& region_fits(r@[i].0, r@[i].1)
                },
    {
        let vertical = match self.orientation {
            ContainerOrientation::Vertical => true,
            ContainerOrientation::Horizontal => false,
        };
        let total: u16 = if vertical {
            size.0
        } else {
            size.1
        };
        let ws = self.weights();
        let extents = partition(&ws, total);
        proof {
            lemma_offsets(ws@, total);
        }
        let mut r: Vec<((u16, u16), (u16, u16))> = Vec::new();
        let mut off: u16 = 0;
        let mut i: usize = 0;
        while i < extents.len()
            invariant
                region_fits(origin, size),
                vertical == self.is_vertical(),
                total == axis_total(vertical, size),
                ws@ == weights_of(self.tiles@),
                extents@.len() == ws@.len(),
                forall|k: int| 0 <= k < extents@.len() ==> extents@[k] == child_extent(ws@, total, k),
                offset(ws@, total, ws@.len() as int) == total,
                forall|a: int, b: int| 0 <= a <= b <= ws@.len() ==> #[trigger] offset(ws@, total, a) <= #[trigger] offset(ws@, total, b),
                i <= extents@.len(),
                off == offset(ws@, total, i as int),
                r@.len() == i,
                forall|k: int|
                    0 <= k < i ==> {
                        &&& (#[trigger] r@[k]) == self.region_of(origin, size, k)
                        &&& at(r@[k].0) == self.child_origin(origin, size, k)
                        &&& at(r@[k].1) == self.child_size(size, k)
                        &&& region_fits(r@[k].0, r@[k].1)
                    },
            decreases extents@.len() - i,
        {
            assert(offset(ws@, total, i + 1) <= offset(ws@, total, ws@.len() as int));
            let e = extents[i];
            let region = if vertical {
                ((origin.0 + off, origin.1), (e, size.1))
            } else {
                ((origin.0, origin.1 + off), (size.0, e))
            };
            r.push(region);
            off = off + e;
            i = i + 1;
        }
        r
    }

    /// Each of the first `parts.len()` children drew its part into its own region.
    #[verifier::opaque]
    spec fn parts_drawn(
        &self,
        parts: Seq<(Seq<TermCmd>, (u16, u16))>,
        start: (u16, u16),
        origin: (u16, u16),
        size: (u16, u16),
    ) -> bool {
        forall|k: int|
            0 <= k < parts.len() ==> self.tiles@[k].drawn(
                (#[trigger] parts[k]).0,
                part_start(parts, start, k),
                parts[k].1,
                self.region_of(origin, size, k).0,
                self.region_of(origin, size, k).1,
            )
    }

    proof fn lemma_push_part(
        &self,
        parts: Seq<(Seq<TermCmd>, (u16, u16))>,
        c: Seq<TermCmd>,
        end: (u16, u16),
        start: (u16, u16),
        origin: (u16, u16),
        size: (u16, u16),
    )
        requires
            parts.len() < self.tiles@.len(),
            self.parts_drawn(parts, start, origin, size),
            self.tiles@[parts.len() as int].drawn(
                c,
                part_start(parts, start, parts.len() as int),
                end,
                self.region_of(origin, size, parts.len() as int).0,
                self.region_of(origin, size, parts.len() as int).1,
            ),
        ensures
            parts_cmds(parts.push((c, end))) == parts_cmds(parts) + c,
            part_start(parts.push((c, end)), start, parts.len() + 1int) == end,
            self.parts_drawn(parts.push((c, end)), start, origin, size),
    {
        reveal(Container::parts_drawn);
        let next = parts.push((c, end));
        assert(next.drop_last() =~= parts);
        assert forall|k: int| 0 <= k <= parts.len() implies part_start(next, start, k)
            == part_start(parts, start, k) by {
            if k > 0 {
                assert(next[k - 1] == parts[k - 1]);
            }
        }
        assert forall|k: int| 0 <= k < next.len() implies self.tiles@[k].drawn(
            (#[trigger] next[k]).0,
            part_start(next, start, k),
            next[k].1,
            self.region_of(origin, size, k).0,
            self.region_of(origin, size, k).1,
        ) by {
            assert(part_start(next, start, k) == part_start(parts, start, k));
            if k < parts.len() {
                assert(next[k] == parts[k]);
            }
        }
    }

    /// Draws every child in order into its share of the region (`origin`, `size`).
    /// Whatever the panes return, the commands are the children's drawings one after
    /// the other, each in its own share; all of them print inside the region, and
    /// `*cursor` ends where the commands leave the terminal's cursor.
    pub fn write(
        &self,
        out: &mut Vec<TermCmd>,
        cursor: &mut (u16, u16),
        origin: (u16, u16),
        size: (u16, u16),
    )
        requires
            self.wf(),
            region_fits(origin, size),
        ensures
            final(out)@.len() >= old(out)@.len(),
            final(out)@.take(old(out)@.len() as int) == old(out)@,
            self.drawn(
                final(out)@.skip(old(out)@.len() as int),
                *old(cursor),
                *final(cursor),
                origin,
                size,
            ),
            prints_within(
                final(out)@.skip(old(out)@.len() as int),
                at(*old(cursor)),
                at(origin),
                at(size),
            ),
            cursor_after(final(out)@.skip(old(out)@.len() as int), at(*old(cursor))) == at(
                *final(cursor),
            ),
        decreases self,
    {
        let regions = self.child_regions(origin, size);
        let ghost start = *cursor;
        let ghost mut parts: Seq<(Seq<TermCmd>, (u16, u16))> = seq![];
        proof {
            assert(old(out)@ + parts_cmds(parts) =~= old(out)@);
            reveal(Container::parts_drawn);
            self.lemma_weights_positive();
            children_tile_region(self.is_vertical(), weights_of(self.tiles@), origin, size);
        }
        let mut i: usize = 0;
        while i < self.tiles.len()
            invariant
                self.wf(),
                region_fits(origin, size),
                weight_sum(weights_of(self.tiles@)) > 0,
                regions@.len() == self.tiles@.len(),
                forall|k: int|
                    0 <= k < regions@.len() ==> {
                        &&& (#[trigger] regions@[k]) == self.region_of(origin, size, k)
                        &&& at(regions@[k].0) == self.child_origin(origin, size, k)
                        &&& at(regions@[k].1) == self.child_size(size, k)
                        &&& region_fits(regions@[k].0, regions@[k].1)
                    },
                forall|k: int, p: (int, int)|
                    0 <= k < weights_of(self.tiles@).len() && in_rect(p, child_origin(self.is_vertical(), weights_of(self.tiles@), origin, size, k), #[trigger] child_size(self.is_vertical(), weights_of(self.tiles@), size, k))
                        ==> #[trigger] in_rect(p, at(origin), at(size)),
                i <= self.tiles@.len(),
                parts.len() == i,
                out@ == old(out)@ + parts_cmds(parts),
                *cursor == part_start(parts, start, i as int),
                self.parts_drawn(parts, start, origin, size),
                prints_within(parts_cmds(parts), at(start), at(origin), at(size)),
                cursor_after(parts_cmds(parts), at(start)) == at(*cursor),
            decreases self.tiles@.len() - i,
        {
            let (o, sz) = regions[i];
            let ghost before = out@;
            let ghost cur0 = *cursor;
            assert(self.tiles@[i as int].wf());
            match &self.tiles[i] {
                TileType::Window(w) => {
                    w.write(out, cursor, o, sz);
                    proof {
                        let a = actions_cmds(w.config.wrapping, o, sz, cur0, w.display.view_render(sz));
                        assert(out@.skip(before.len() as int) =~= a.0);
                        assert(out@ =~= before + out@.skip(before.len() as int));
                        assert(self.tiles@[i as int].drawn(out@.skip(before.len() as int), cur0, *cursor, o, sz));
                    }
                },
                TileType::Container(c) => {
                    assert(decreases_to!(self => self.tiles));
                    c.write(out, cursor, o, sz);
                    proof {
                        assert(out@ =~= before + out@.skip(before.len() as int));
                        assert(self.tiles@[i as int] == TileType::Container(*c));
                        assert(self.tiles@[i as int].drawn(out@.skip(before.len() as int), cur0, *cursor, o, sz));
                    }
                },
            }
            proof {
                let c = out@.skip(before.len() as int);
                assert(out@ =~= before + c);
                assert(self.tiles@[i as int].drawn(c, cur0, *cursor, o, sz));
                lemma_prints_within_inside(c, at(cur0), at(o), at(sz), at(origin), at(size));
                let acc = parts_cmds(parts);
                lemma_prints_within_concat(acc, c, at(start), at(origin), at(size));
                lemma_cursor_after_concat(acc, c, at(start));
                let next = parts.push((c, *cursor));
                self.lemma_push_part(parts, c, *cursor, start, origin, size);
                assert(out@ =~= old(out)@ + parts_cmds(next));
                parts = next;
            }
            i = i + 1;
        }
        proof {
            reveal(Container::parts_drawn);
            assert(out@.skip(old(out)@.len() as int) =~= parts_cmds(parts));
            assert(out@.take(old(out)@.len() as int) =~= old(out)@);
        }
    }

    /// Draws one frame: the whole tree into the region with top-left corner `corner`
    /// and extent `size`, starting from the terminal's cursor at `cursor`. Returns
    /// the frame's commands, to be sent to the terminal at once: the drawing of the
    /// tree, in which every character printed lands in the region.
    pub fn draw(&self, cursor: (u16, u16), corner: (u16, u16), size: (u16, u16)) -> (r: Vec<TermCmd>)
        requires
            self.wf(),
            region_fits(corner, size),
        ensures
            exists|end: (u16, u16)| #[trigger] self.drawn(r@, cursor, end, corner, size),
            prints_within(r@, at(cursor), at(corner), at(size)),
    {
        let mut out: Vec<TermCmd> = Vec::new();
        let mut cur = cursor;
        self.write(&mut out, &mut cur, corner, size);
        proof {
            assert(out@.skip(0) =~= out@);
            assert(self.drawn(out@, cursor, cur, corner, size));
        }
        out
    }
}

} // verus!
