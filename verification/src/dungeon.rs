use vstd::prelude::*;

verus! {

/// What occupies one cell of a floor.
#[derive(Debug, Clone, Copy, PartialEq, Eq, Structural)]
pub enum TileKind {
    Floor,
    Wall,
    Stairs,
    TreasureChest,
}

/// Rust's integer division by 2, which rounds toward zero.
pub open spec fn trunc_half(v: int) -> int {
    if v >= 0 { v / 2 } else { -((-v) / 2) }
}

pub open spec fn fits_i32(v: int) -> bool {
    i32::MIN <= v <= i32::MAX
}

/// An axis-aligned rectangle of floor cells.
#[derive(Debug, Clone, Copy, PartialEq, Eq, Structural)]
pub struct Room {
    pub x: i32,
    pub y: i32,
    pub width: i32,
    pub height: i32,
}

impl Room {
    pub open spec fn spec_center(self) -> (int, int) {
        (self.x + trunc_half(self.width as int), self.y + trunc_half(self.height as int))
    }

    /// Whether the cell lies inside the room.
    pub open spec fn contains(self, x: int, y: int) -> bool {
        self.x <= x < self.x + self.width && self.y <= y < self.y + self.height
    }

    pub fn center(&self) -> (r: (i32, i32))
        requires
            fits_i32(self.spec_center().0),
            fits_i32(self.spec_center().1),
        ensures
            r.0 == self.spec_center().0,
            r.1 == self.spec_center().1,
    {
        (self.x + self.width / 2, self.y + self.height / 2)
    }

    pub open spec fn spec_intersects(self, other: Room) -> bool {
        &&& self.x < other.x + other.width
        &&& self.x + self.width > other.x
        &&& self.y < other.y + other.height
        &&& self.y + self.height > other.y
    }

    pub fn intersects(&self, other: &Room) -> (r: bool)
        requires
            fits_i32(self.x + self.width),
            fits_i32(self.y + self.height),
            fits_i32(other.x + other.width),
            fits_i32(other.y + other.height),
        ensures
            r == self.spec_intersects(*other),
    {
        self.x < other.x + other.width
            && self.x + self.width > other.x
            && self.y < other.y + other.height
            && self.y + self.height > other.y
    }
}

/// Two non-empty rooms intersect exactly when some cell lies in both.
pub proof fn lemma_intersects_iff_common_cell(a: Room, b: Room)
    requires
        a.width > 0,
        a.height > 0,
        b.width > 0,
        b.height > 0,
    ensures
        a.spec_intersects(b) <==> exists|x: int, y: int| a.contains(x, y) && b.contains(x, y),
{
    if a.spec_intersects(b) {
        let x = if a.x > b.x { a.x as int } else { b.x as int };
        let y = if a.y > b.y { a.y as int } else { b.y as int };
        assert(a.contains(x, y) && b.contains(x, y));
    }
}

/// Intersection is symmetric.
pub proof fn lemma_intersects_symmetric(a: Room, b: Room)
    ensures
        a.spec_intersects(b) == b.spec_intersects(a),
{
}

/// A generated floor: a row-major grid of tiles plus where things are.
pub struct FloorMap {
    pub width: i32,
    pub height: i32,
    pub tiles: Vec<TileKind>,
    pub rooms: Vec<Room>,
    pub spawn_point: (i32, i32),
    pub stairs_position: Option<(i32, i32)>,
    pub treasure_chest_position: Option<(i32, i32)>,
}

pub open spec fn is_walkable_kind(kind: TileKind) -> bool {
    kind == TileKind::Floor || kind == TileKind::Stairs || kind == TileKind::TreasureChest
}

impl FloorMap {
    /// The tile grid has exactly `width * height` cells, a number that fits an `i32`.
    pub open spec fn wf(self) -> bool {
        &&& self.width * self.height <= i32::MAX
        &&& self.tiles@.len() == self.width * self.height
    }

    pub open spec fn in_bounds(self, x: int, y: int) -> bool {
        0 <= x < self.width && 0 <= y < self.height
    }

    pub open spec fn index_of(self, x: int, y: int) -> int {
        y * self.width + x
    }

    pub open spec fn spec_tile_at(self, x: int, y: int) -> Option<TileKind> {
        if self.in_bounds(x, y) {
            Some(self.tiles@[self.index_of(x, y)])
        } else {
            None
        }
    }

    pub open spec fn spec_is_walkable(self, x: int, y: int) -> bool {
        match self.spec_tile_at(x, y) {
            Some(k) => is_walkable_kind(k),
            None => false,
        }
    }

    pub fn tile_at(&self, x: i32, y: i32) -> (r: Option<TileKind>)
        requires
            self.wf(),
        ensures
            r == self.spec_tile_at(x as int, y as int),
    {
        if x < 0 || y < 0 || x >= self.width || y >= self.height {
            return None;
        }
        proof { lemma_index_in_grid(self.width as int, self.height as int, x as int, y as int); }
        Some(self.tiles[(y * self.width + x) as usize])
    }

    pub fn is_walkable(&self, x: i32, y: i32) -> (r: bool)
        requires
            self.wf(),
        ensures
            r == self.spec_is_walkable(x as int, y as int),
    {
        match self.tile_at(x, y) {
            Some(TileKind::Floor) | Some(TileKind::Stairs) | Some(TileKind::TreasureChest) => true,
            _ => false,
        }
    }
}

/// A cell inside a `w` by `h` grid has a row-major index inside the grid.
pub proof fn lemma_index_in_grid(w: int, h: int, x: int, y: int)
    requires
        0 <= x < w,
        0 <= y < h,
    ensures
        0 <= y * w + x < w * h,
        y * w + x <= (h - 1) * w + (w - 1),
{
    assert(y * w <= (h - 1) * w) by (nonlinear_arith)
        requires 0 <= y <= h - 1, 0 <= w;
    assert((h - 1) * w + w == w * h) by (nonlinear_arith);
    assert(0 <= y * w) by (nonlinear_arith)
        requires 0 <= y, 0 <= w;
}

/// Which floor the player is on; 0 before the first descent.
#[derive(Debug)]
pub struct CurrentFloor(pub u32);

impl Default for CurrentFloor {
    fn default() -> (r: Self)
        ensures
            r.0 == 0,
    {
        CurrentFloor(0)
    }
}

impl CurrentFloor {
    pub fn advance(&mut self)
        requires
            old(self).0 < u32::MAX,
        ensures
            final(self).0 == old(self).0 + 1,
    {
        self.0 = self.0 + 1;
    }

    pub fn number(&self) -> (r: u32)
        ensures
            r == self.0,
    {
        self.0
    }

    pub fn is_last(&self, max_floor: u32) -> (r: bool)
        ensures
            r == (self.0 >= max_floor),
    {
        self.0 >= max_floor
    }

    pub fn reset(&mut self)
        ensures
            final(self).0 == 0,
    {
        self.0 = 0;
    }
}

} // verus!

verus! {

/// Parameters of the Bresenham walk from `from` to `to`:
/// (dx, dy, sx, sy) with dx = |x1 - x0|, dy = -|y1 - y0| and unit steps.
pub open spec fn bres_params(from: (i32, i32), to: (i32, i32)) -> (int, int, int, int) {
    let dx = if to.0 >= from.0 { to.0 - from.0 } else { from.0 - to.0 };
    let dy = if to.1 >= from.1 { from.1 - to.1 } else { to.1 - from.1 };
    let sx = if from.0 < to.0 { 1int } else { -1int };
    let sy = if from.1 < to.1 { 1int } else { -1int };
    (dx, dy, sx, sy)
}

/// One step of the walk from state (x, y, err).
pub open spec fn bres_step(s: (int, int, int), p: (int, int, int, int)) -> (int, int, int) {
    let (x, y, err) = s;
    let (dx, dy, sx, sy) = p;
    let e2 = 2 * err;
    let (err1, x1) = if e2 >= dy { (err + dy, x + sx) } else { (err, x) };
    let (err2, y1) = if e2 <= dx { (err1 + dx, y + sy) } else { (err1, y) };
    (x1, y1, err2)
}

/// The state of the walk after `k` steps: the cell (x, y) and the error term.
pub open spec fn bres_state(from: (i32, i32), to: (i32, i32), k: nat) -> (int, int, int)
    decreases k,
{
    let p = bres_params(from, to);
    if k == 0 {
        (from.0 as int, from.1 as int, p.0 + p.1)
    } else {
        bres_step(bres_state(from, to, (k - 1) as nat), p)
    }
}

/// The `k`-th cell visited by the line from `from` toward `to`.
pub open spec fn line_cell(from: (i32, i32), to: (i32, i32), k: nat) -> (int, int) {
    let s = bres_state(from, to, k);
    (s.0, s.1)
}

impl FloorMap {
    /// Line of sight: the line reaches `to`, and every cell it visits up to
    /// and including that point is walkable.
    pub open spec fn spec_los(self, from: (i32, i32), to: (i32, i32)) -> bool {
        exists|n: nat|
            #![trigger line_cell(from, to, n)]
            line_cell(from, to, n) == (to.0 as int, to.1 as int)
            && forall|k: nat| k <= n ==> #[trigger] self.spec_is_walkable(
                line_cell(from, to, k).0,
                line_cell(from, to, k).1,
            )
    }

    /// Bresenham line of sight between two tile coordinates.
    pub fn has_line_of_sight_tiles(&self, from: (i32, i32), to: (i32, i32)) -> (r: bool)
        requires
            self.wf(),
        ensures
            r == self.spec_los(from, to),
    {
        let (fx, fy) = from;
        let (tx, ty) = to;
        let mut x0: i64 = fx as i64;
        let mut y0: i64 = fy as i64;
        let x1: i64 = tx as i64;
        let y1: i64 = ty as i64;
        let dx: i64 = if x1 >= x0 { x1 - x0 } else { x0 - x1 };
        let dy: i64 = if y1 >= y0 { y0 - y1 } else { y1 - y0 };
        let sx: i64 = if x0 < x1 { 1 } else { -1 };
        let sy: i64 = if y0 < y1 { 1 } else { -1 };
        let mut err: i64 = dx + dy;
        let ghost p = bres_params(from, to);
        let ghost mut k: nat = 0;
        let w = self.width as i64;
        let h = self.height as i64;
        assert(p == (dx as int, dy as int, sx as int, sy as int));
        loop
            invariant
                self.wf(),
                w == self.width,
                h == self.height,
                p == (dx as int, dy as int, sx as int, sy as int),
                p == bres_params(from, to),
                0 <= dx <= 0x1_0000_0000,
                -0x1_0000_0000 <= dy <= 0,
                sx == 1 || sx == -1,
                sy == 1 || sy == -1,
                x1 == tx,
                y1 == ty,
                tx == to.0,
                ty == to.1,
                bres_state(from, to, k) == (x0 as int, y0 as int, err as int),
                k > 0 ==> -1 <= x0 <= w && -1 <= y0 <= h,
                -2 * (dx - dy) <= err <= 2 * (dx - dy),
                forall|j: nat| #![trigger line_cell(from, to, j)] j < k
                    ==> self.spec_is_walkable(line_cell(from, to, j).0, line_cell(from, to, j).1),
                forall|j: nat| #![trigger line_cell(from, to, j)] j < k
                    ==> line_cell(from, to, j) != (tx as int, ty as int),
            decreases
                (if sx > 0 { w - x0 } else { x0 + 1 }) + (if sy > 0 { h - y0 } else { y0 + 1 }),
        {
            if x0 < 0 || y0 < 0 || x0 >= w || y0 >= h {
                proof { self.lemma_no_los_after(from, to, k); }
                return false;
            }
            let xi = x0 as i32;
            let yi = y0 as i32;
            if !self.is_walkable(xi, yi) {
                proof { self.lemma_no_los_after(from, to, k); }
                return false;
            }
            if x0 == x1 && y0 == y1 {
                proof {
                    assert(line_cell(from, to, k) == (tx as int, ty as int));
                    assert forall|j: nat| j <= k implies #[trigger] self.spec_is_walkable(
                        line_cell(from, to, j).0, line_cell(from, to, j).1) by {
                        if j < k {
                            assert(self.spec_is_walkable(line_cell(from, to, j).0, line_cell(from, to, j).1));
                        }
                    }
                }
                return true;
            }
            let ghost prev = (x0 as int, y0 as int, err as int);
            let e2 = 2 * err;
            if e2 >= dy {
                err = err + dy;
                x0 = x0 + sx;
            }
            if e2 <= dx {
                err = err + dx;
                y0 = y0 + sy;
            }
            proof {
                assert(bres_state(from, to, k + 1) == bres_step(bres_state(from, to, k), p));
                assert(e2 >= dy || e2 <= dx);
                k = k + 1;
            }
        }
    }

    /// Once the walk has reached a non-walkable cell before reaching `to`,
    /// there is no line of sight.
    proof fn lemma_no_los_after(self, from: (i32, i32), to: (i32, i32), k: nat)
        requires
            !self.spec_is_walkable(line_cell(from, to, k).0, line_cell(from, to, k).1),
            forall|j: nat| j < k ==> #[trigger] line_cell(from, to, j) != (to.0 as int, to.1 as int),
        ensures
            !self.spec_los(from, to),
    {
        if self.spec_los(from, to) {
            let n = choose|n: nat|
                #![trigger line_cell(from, to, n)]
                line_cell(from, to, n) == (to.0 as int, to.1 as int)
                && forall|k: nat| k <= n ==> #[trigger] self.spec_is_walkable(
                    line_cell(from, to, k).0,
                    line_cell(from, to, k).1,
                );
            if n < k {
                assert(line_cell(from, to, n) != (to.0 as int, to.1 as int));
            } else {
                assert(self.spec_is_walkable(line_cell(from, to, k).0, line_cell(from, to, k).1));
            }
        }
    }
}

} // verus!

verus! {

/// A cell can see itself exactly when it is walkable, and any line of sight
/// starts and ends on walkable cells.
pub proof fn lemma_los_endpoints(map: FloorMap, from: (i32, i32), to: (i32, i32))
    ensures
        map.spec_los(from, from) == map.spec_is_walkable(from.0 as int, from.1 as int),
        map.spec_los(from, to) ==> map.spec_is_walkable(from.0 as int, from.1 as int),
        map.spec_los(from, to) ==> map.spec_is_walkable(to.0 as int, to.1 as int),
{
    assert(line_cell(from, from, 0) == (from.0 as int, from.1 as int));
    assert(line_cell(from, to, 0) == (from.0 as int, from.1 as int));
    if map.spec_is_walkable(from.0 as int, from.1 as int) {
        assert forall|k: nat| k <= 0 implies #[trigger] map.spec_is_walkable(
            line_cell(from, from, k).0, line_cell(from, from, k).1) by {}
    }
    if map.spec_los(from, to) {
        let n = choose|n: nat|
            #![trigger line_cell(from, to, n)]
            line_cell(from, to, n) == (to.0 as int, to.1 as int)
            && forall|k: nat| k <= n ==> #[trigger] map.spec_is_walkable(
                line_cell(from, to, k).0,
                line_cell(from, to, k).1,
            );
        assert(map.spec_is_walkable(line_cell(from, to, 0).0, line_cell(from, to, 0).1));
        assert(map.spec_is_walkable(line_cell(from, to, n).0, line_cell(from, to, n).1));
    }
}

/// A cell is walkable exactly when it is inside the map and is floor,
/// stairs or the treasure chest.
pub proof fn lemma_walkable_kinds(map: FloorMap, x: int, y: int)
    ensures
        map.spec_is_walkable(x, y) <==> map.in_bounds(x, y) && (
            map.tiles@[map.index_of(x, y)] == TileKind::Floor
            || map.tiles@[map.index_of(x, y)] == TileKind::Stairs
            || map.tiles@[map.index_of(x, y)] == TileKind::TreasureChest),
        map.spec_tile_at(x, y) is None <==> !map.in_bounds(x, y),
{
}

} // verus!

verus! {

/// Steps taken so far along x and along y by the walk in state `s`, each
/// counted toward `to`.
pub open spec fn bres_progress(from: (i32, i32), to: (i32, i32), s: (int, int, int)) -> (int, int) {
    let p = bres_params(from, to);
    (if p.2 == 1 { s.0 - from.0 } else { from.0 - s.0 }, if p.3 == 1 { s.1 - from.1 } else { from.1 - s.1 })
}

/// The walk has not passed `to` on either axis, and its error term is
/// `dx + dy + a * dy + b * dx` for `a` and `b` steps taken.
pub open spec fn bres_inv(from: (i32, i32), to: (i32, i32), s: (int, int, int)) -> bool {
    let (dx, dy, sx, sy) = bres_params(from, to);
    let (a, b) = bres_progress(from, to, s);
    &&& 0 <= a <= dx
    &&& 0 <= b <= -dy
    &&& s.2 == dx + dy + a * dy + b * dx
}

/// A step from a state short of `to` stays within the box and moves closer.
proof fn lemma_bres_step(from: (i32, i32), to: (i32, i32), s: (int, int, int))
    requires
        bres_inv(from, to, s),
        (s.0, s.1) != (to.0 as int, to.1 as int),
    ensures
        bres_inv(from, to, bres_step(s, bres_params(from, to))),
        bres_progress(from, to, bres_step(s, bres_params(from, to))).0
            + bres_progress(from, to, bres_step(s, bres_params(from, to))).1
            >= bres_progress(from, to, s).0 + bres_progress(from, to, s).1 + 1,
{
    let (dx, dy, sx, sy) = bres_params(from, to);
    let (a, b) = bres_progress(from, to, s);
    let d = dx;
    let e = -dy;
    let err = s.2;
    assert(a * dy == -(a * e)) by (nonlinear_arith)
        requires e == -dy;
    assert(err == d - e - a * e + b * d);
    let xstep = 2 * err >= dy;
    let ystep = 2 * err <= dx;
    assert(a < d || b < e);
    if xstep && a == d {
        assert(b < e);
        assert(2 * (d - e - d * e + b * d) < -e) by (nonlinear_arith)
            requires 0 <= b < e, 0 <= d;
    }
    if ystep && b == e {
        assert(a < d);
        assert(2 * (d - e - a * e + e * d) > d) by (nonlinear_arith)
            requires 0 <= a < d, 0 <= e;
    }
    assert((a + 1) * dy == a * dy + dy) by (nonlinear_arith);
    assert((b + 1) * dx == b * dx + dx) by (nonlinear_arith);
    let s2 = bres_step(s, bres_params(from, to));
    let (a2, b2) = bres_progress(from, to, s2);
    assert(a2 == if xstep { a + 1 } else { a });
    assert(b2 == if ystep { b + 1 } else { b });
    assert(s2.2 == err + (if xstep { dy } else { 0 }) + (if ystep { dx } else { 0 }));
    assert(s2.2 == dx + dy + a2 * dy + b2 * dx);
}

/// Up to the first time it reaches `to`, the walk keeps the invariant and
/// has taken at least one step per move.
proof fn lemma_bres_before_hit(from: (i32, i32), to: (i32, i32), k: nat)
    requires
        forall|j: nat| j < k ==> #[trigger] line_cell(from, to, j) != (to.0 as int, to.1 as int),
    ensures
        bres_inv(from, to, bres_state(from, to, k)),
        bres_progress(from, to, bres_state(from, to, k)).0 + bres_progress(from, to, bres_state(from, to, k)).1 >= k,
    decreases k,
{
    if k == 0 {
        let (a, b) = bres_progress(from, to, bres_state(from, to, 0));
        assert(a == 0 && b == 0);
        assert(a * bres_params(from, to).1 == 0) by (nonlinear_arith)
            requires a == 0;
        assert(b * bres_params(from, to).0 == 0) by (nonlinear_arith)
            requires b == 0;
    } else {
        let k1 = (k - 1) as nat;
        lemma_bres_before_hit(from, to, k1);
        assert(line_cell(from, to, k1) != (to.0 as int, to.1 as int));
        lemma_bres_step(from, to, bres_state(from, to, k1));
    }
}

/// Some step at or before `m` reaches `to` when the walk is there at `m`;
/// then there is a first such step.
proof fn lemma_first_hit(from: (i32, i32), to: (i32, i32), m: nat) -> (n: nat)
    requires
        line_cell(from, to, m) == (to.0 as int, to.1 as int),
    ensures
        n <= m,
        line_cell(from, to, n) == (to.0 as int, to.1 as int),
        forall|j: nat| j < n ==> #[trigger] line_cell(from, to, j) != (to.0 as int, to.1 as int),
    decreases m,
{
    if m == 0 {
        0
    } else if exists|j: nat| j < m && #[trigger] line_cell(from, to, j) == (to.0 as int, to.1 as int) {
        let j = choose|j: nat| j < m && #[trigger] line_cell(from, to, j) == (to.0 as int, to.1 as int);
        lemma_first_hit(from, to, j)
    } else {
        m
    }
}

/// On a map where every cell inside it is walkable, any two cells inside it
/// see each other.
pub proof fn lemma_los_open_map(map: FloorMap, from: (i32, i32), to: (i32, i32))
    requires
        forall|x: int, y: int| map.in_bounds(x, y) ==> #[trigger] map.spec_is_walkable(x, y),
        map.in_bounds(from.0 as int, from.1 as int),
        map.in_bounds(to.0 as int, to.1 as int),
    ensures
        map.spec_los(from, to),
{
    let p = bres_params(from, to);
    let bound = (p.0 - p.1 + 1) as nat;
    if forall|j: nat| j < bound ==> #[trigger] line_cell(from, to, j) != (to.0 as int, to.1 as int) {
        lemma_bres_before_hit(from, to, bound);
        assert(false);
    }
    let m = choose|j: nat| j < bound && #[trigger] line_cell(from, to, j) == (to.0 as int, to.1 as int);
    let n = lemma_first_hit(from, to, m);
    assert forall|k: nat| k <= n implies #[trigger] map.spec_is_walkable(
        line_cell(from, to, k).0, line_cell(from, to, k).1) by {
        assert forall|j: nat| j < k implies #[trigger] line_cell(from, to, j) != (to.0 as int, to.1 as int) by {
            assert(j < n);
        }
        lemma_bres_before_hit(from, to, k);
        let c = line_cell(from, to, k);
        assert(map.in_bounds(c.0, c.1));
    }
}

} // verus!
