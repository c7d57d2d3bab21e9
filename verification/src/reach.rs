use vstd::prelude::*;
use crate::dungeon::TileKind;

verus! {

/// Cell `p` lies in the `w` by `h` grid and is not a wall.
pub open spec fn open_at(tiles: Seq<TileKind>, w: int, h: int, p: (int, int)) -> bool {
    &&& 0 <= p.0 < w
    &&& 0 <= p.1 < h
    &&& tiles[p.1 * w + p.0] != TileKind::Wall
}

/// `a` and `b` are 4-neighbours.
pub open spec fn adjacent(a: (int, int), b: (int, int)) -> bool {
    ||| (a.0 == b.0 && (a.1 - b.1 == 1 || b.1 - a.1 == 1))
    ||| (a.1 == b.1 && (a.0 - b.0 == 1 || b.0 - a.0 == 1))
}

/// Step `i` of `path` goes to a 4-neighbour.
pub open spec fn step_ok(path: Seq<(int, int)>, i: int) -> bool {
    adjacent(path[i], path[i + 1])
}

/// `path` is a walk through open cells, each step to a 4-neighbour.
pub open spec fn is_walk(tiles: Seq<TileKind>, w: int, h: int, path: Seq<(int, int)>) -> bool {
    &&& path.len() >= 1
    &&& forall|i: int| 0 <= i < path.len() ==> open_at(tiles, w, h, #[trigger] path[i])
    &&& forall|i: int| 0 <= i < path.len() - 1 ==> #[trigger] step_ok(path, i)
}

/// A walk through open cells leads from `a` to `b`.
pub open spec fn connected(tiles: Seq<TileKind>, w: int, h: int, a: (int, int), b: (int, int)) -> bool {
    exists|path: Seq<(int, int)>| #[trigger] is_walk(tiles, w, h, path) && path[0] == a && path.last() == b
}

/// Every cell open in `t1` is open in `t2`.
pub open spec fn opens_kept(t1: Seq<TileKind>, t2: Seq<TileKind>, w: int, h: int) -> bool {
    forall|p: (int, int)| open_at(t1, w, h, p) ==> #[trigger] open_at(t2, w, h, p)
}

pub proof fn lemma_connected_refl(tiles: Seq<TileKind>, w: int, h: int, a: (int, int))
    requires
        open_at(tiles, w, h, a),
    ensures
        connected(tiles, w, h, a, a),
{
    let path = seq![a];
    assert(is_walk(tiles, w, h, path));
}

pub proof fn lemma_connected_sym(tiles: Seq<TileKind>, w: int, h: int, a: (int, int), b: (int, int))
    requires
        connected(tiles, w, h, a, b),
    ensures
        connected(tiles, w, h, b, a),
{
    let path = choose|path: Seq<(int, int)>| #[trigger] is_walk(tiles, w, h, path) && path[0] == a && path.last() == b;
    let n = path.len();
    let rev = Seq::new(n, |i: int| path[n - 1 - i]);
    assert forall|i: int| 0 <= i < rev.len() implies open_at(tiles, w, h, #[trigger] rev[i]) by {
        assert(open_at(tiles, w, h, path[n - 1 - i]));
    }
    assert forall|i: int| 0 <= i < rev.len() - 1 implies #[trigger] step_ok(rev, i) by {
        assert(step_ok(path, n - 2 - i));
    }
    assert(is_walk(tiles, w, h, rev));
    assert(rev[0] == b && rev.last() == a);
}

pub proof fn lemma_connected_trans(tiles: Seq<TileKind>, w: int, h: int, a: (int, int), b: (int, int), c: (int, int))
    requires
        connected(tiles, w, h, a, b),
        connected(tiles, w, h, b, c),
    ensures
        connected(tiles, w, h, a, c),
{
    let p1 = choose|path: Seq<(int, int)>| #[trigger] is_walk(tiles, w, h, path) && path[0] == a && path.last() == b;
    let p2 = choose|path: Seq<(int, int)>| #[trigger] is_walk(tiles, w, h, path) && path[0] == b && path.last() == c;
    let tail = p2.drop_first();
    let p = p1 + tail;
    let n1 = p1.len();
    assert forall|i: int| 0 <= i < p.len() implies open_at(tiles, w, h, #[trigger] p[i]) by {
        if i < n1 {
            assert(p[i] == p1[i]);
        } else {
            assert(p[i] == p2[i - n1 + 1]);
        }
    }
    assert forall|i: int| 0 <= i < p.len() - 1 implies #[trigger] step_ok(p, i) by {
        if i < n1 - 1 {
            assert(step_ok(p1, i));
        } else if i == n1 - 1 {
            assert(p[i] == p1[n1 - 1]);
            assert(p[i + 1] == p2[1]);
            assert(step_ok(p2, 0));
        } else {
            assert(p[i] == p2[i - n1 + 1]);
            assert(p[i + 1] == p2[i - n1 + 2]);
            assert(step_ok(p2, i - n1 + 1));
        }
    }
    assert(is_walk(tiles, w, h, p));
    if p2.len() == 1 {
        assert(p.last() == p1.last());
    } else {
        assert(p.last() == p2.last());
    }
}

/// Opening more cells keeps every walk.
pub proof fn lemma_connected_mono(t1: Seq<TileKind>, t2: Seq<TileKind>, w: int, h: int, a: (int, int), b: (int, int))
    requires
        opens_kept(t1, t2, w, h),
        connected(t1, w, h, a, b),
    ensures
        connected(t2, w, h, a, b),
{
    let path = choose|path: Seq<(int, int)>| #[trigger] is_walk(t1, w, h, path) && path[0] == a && path.last() == b;
    assert forall|i: int| 0 <= i < path.len() implies open_at(t2, w, h, #[trigger] path[i]) by {
        assert(open_at(t1, w, h, path[i]));
    }
    assert(is_walk(t2, w, h, path));
}

/// Open cells along a row from `x1` to `x2` join its ends.
pub proof fn lemma_row_walk(tiles: Seq<TileKind>, w: int, h: int, y: int, x1: int, x2: int)
    requires
        forall|x: int| (x1 <= x <= x2 || x2 <= x <= x1) ==> #[trigger] open_at(tiles, w, h, (x, y)),
    ensures
        connected(tiles, w, h, (x1, y), (x2, y)),
{
    if x1 <= x2 {
        let path = Seq::new((x2 - x1 + 1) as nat, |i: int| (x1 + i, y));
        assert forall|i: int| 0 <= i < path.len() implies open_at(tiles, w, h, #[trigger] path[i]) by {
            assert(open_at(tiles, w, h, (x1 + i, y)));
        }
        assert forall|i: int| 0 <= i < path.len() - 1 implies #[trigger] step_ok(path, i) by {}
        assert(is_walk(tiles, w, h, path));
        assert(path[0] == (x1, y) && path.last() == (x2, y));
    } else {
        let path = Seq::new((x1 - x2 + 1) as nat, |i: int| (x1 - i, y));
        assert forall|i: int| 0 <= i < path.len() implies open_at(tiles, w, h, #[trigger] path[i]) by {
            assert(open_at(tiles, w, h, (x1 - i, y)));
        }
        assert forall|i: int| 0 <= i < path.len() - 1 implies #[trigger] step_ok(path, i) by {}
        assert(is_walk(tiles, w, h, path));
        assert(path[0] == (x1, y) && path.last() == (x2, y));
    }
}

/// Open cells along a column from `y1` to `y2` join its ends.
pub proof fn lemma_col_walk(tiles: Seq<TileKind>, w: int, h: int, x: int, y1: int, y2: int)
    requires
        forall|y: int| (y1 <= y <= y2 || y2 <= y <= y1) ==> #[trigger] open_at(tiles, w, h, (x, y)),
    ensures
        connected(tiles, w, h, (x, y1), (x, y2)),
{
    if y1 <= y2 {
        let path = Seq::new((y2 - y1 + 1) as nat, |i: int| (x, y1 + i));
        assert forall|i: int| 0 <= i < path.len() implies open_at(tiles, w, h, #[trigger] path[i]) by {
            assert(open_at(tiles, w, h, (x, y1 + i)));
        }
        assert forall|i: int| 0 <= i < path.len() - 1 implies #[trigger] step_ok(path, i) by {}
        assert(is_walk(tiles, w, h, path));
        assert(path[0] == (x, y1) && path.last() == (x, y2));
    } else {
        let path = Seq::new((y1 - y2 + 1) as nat, |i: int| (x, y1 - i));
        assert forall|i: int| 0 <= i < path.len() implies open_at(tiles, w, h, #[trigger] path[i]) by {
            assert(open_at(tiles, w, h, (x, y1 - i)));
        }
        assert forall|i: int| 0 <= i < path.len() - 1 implies #[trigger] step_ok(path, i) by {}
        assert(is_walk(tiles, w, h, path));
        assert(path[0] == (x, y1) && path.last() == (x, y2));
    }
}

/// Any two cells of a rectangle whose cells are all open are joined inside it.
pub proof fn lemma_rect_walk(
    tiles: Seq<TileKind>, w: int, h: int, rx0: int, ry0: int, rx1: int, ry1: int, a: (int, int), b: (int, int),
)
    requires
        forall|x: int, y: int| rx0 <= x < rx1 && ry0 <= y < ry1 ==> #[trigger] open_at(tiles, w, h, (x, y)),
        rx0 <= a.0 < rx1 && ry0 <= a.1 < ry1,
        rx0 <= b.0 < rx1 && ry0 <= b.1 < ry1,
    ensures
        connected(tiles, w, h, a, b),
{
    lemma_row_walk(tiles, w, h, a.1, a.0, b.0);
    lemma_col_walk(tiles, w, h, b.0, a.1, b.1);
    lemma_connected_trans(tiles, w, h, a, (b.0, a.1), b);
}

} // verus!
