use rand::rngs::StdRng;
use vstd::prelude::*;
use crate::dungeon::{FloorMap, Room, TileKind, trunc_half, lemma_index_in_grid};
use crate::reach::{
    connected, lemma_col_walk, lemma_connected_mono, lemma_connected_refl, lemma_connected_sym,
    lemma_connected_trans, lemma_rect_walk, lemma_row_walk, open_at, opens_kept,
};
use crate::rng::{random_range_i32, random_range_i32_inclusive, random_range_usize};

verus! {

/// A node of the binary space partition: a rectangle of the map that is
/// either split into two child rectangles or is a leaf that may hold a room.
struct BspNode {
    x: i32,
    y: i32,
    width: i32,
    height: i32,
    room: Option<Room>,
    left: Option<Box<BspNode>>,
    right: Option<Box<BspNode>>,
}

/// `inner` lies within the rectangle (x, y, w, h).
pub open spec fn rect_within(ix: int, iy: int, iw: int, ih: int, x: int, y: int, w: int, h: int) -> bool {
    x <= ix && ix + iw <= x + w && y <= iy && iy + ih <= y + h
}

/// Two rectangles share no cell.
pub open spec fn rects_apart(ax: int, ay: int, aw: int, ah: int, bx: int, by: int, bw: int, bh: int) -> bool {
    ax + aw <= bx || bx + bw <= ax || ay + ah <= by || by + bh <= ay
}

pub open spec fn rooms_apart(a: Room, b: Room) -> bool {
    rects_apart(a.x as int, a.y as int, a.width as int, a.height as int,
        b.x as int, b.y as int, b.width as int, b.height as int)
}

impl BspNode {
    spec fn within(self, x: int, y: int, w: int, h: int) -> bool {
        rect_within(self.x as int, self.y as int, self.width as int, self.height as int, x, y, w, h)
    }

    /// A room of a leaf keeps one cell of margin from the leaf's top and left edges.
    spec fn room_fits(self, r: Room, lo: int, hi: int) -> bool {
        &&& self.x + 1 <= r.x
        &&& r.x + r.width <= self.x + self.width
        &&& self.y + 1 <= r.y
        &&& r.y + r.height <= self.y + self.height
        &&& lo <= r.width <= hi
        &&& lo <= r.height <= hi
    }

    /// Shape of a partition tree: children come in pairs, lie inside their
    /// parent and apart from each other; only leaves hold rooms, which fit
    /// their leaf and have sides between `lo` and `hi`.
    spec fn wf(self, lo: int, hi: int) -> bool
        decreases self,
    {
        &&& self.width >= 0
        &&& self.height >= 0
        &&& (self.left is Some <==> self.right is Some)
        &&& (self.room matches Some(r) ==> self.left is None && self.room_fits(r, lo, hi))
        &&& (self.left matches Some(l) ==> self.right matches Some(r) ==> {
            &&& l.within(self.x as int, self.y as int, self.width as int, self.height as int)
            &&& r.within(self.x as int, self.y as int, self.width as int, self.height as int)
            &&& rects_apart(l.x as int, l.y as int, l.width as int, l.height as int,
                    r.x as int, r.y as int, r.width as int, r.height as int)
            &&& l.wf(lo, hi)
            &&& r.wf(lo, hi)
        })
    }

    /// No node holds a room yet.
    spec fn roomless(self) -> bool
        decreases self,
    {
        &&& self.room is None
        &&& (self.left matches Some(l) ==> l.roomless())
        &&& (self.right matches Some(r) ==> r.roomless())
    }

    /// The same rectangles with the same child structure.
    spec fn same_shape(self, other: BspNode) -> bool
        decreases self,
    {
        &&& self.x == other.x
        &&& self.y == other.y
        &&& self.width == other.width
        &&& self.height == other.height
        &&& (self.left is Some <==> other.left is Some)
        &&& (self.right is Some <==> other.right is Some)
        &&& (self.left matches Some(l) ==> other.left matches Some(ol) ==> l.same_shape(*ol))
        &&& (self.right matches Some(r) ==> other.right matches Some(or) ==> r.same_shape(*or))
    }

    /// The cut of a node whose sides are `w` and `h` runs horizontally when
    /// the width is too short to cut, vertically when the height is, and
    /// otherwise across the longer side (horizontally on a tie-breaking
    /// taller node).
    spec fn cuts_horizontally(w: int, h: int, min_node: int) -> bool {
        if w < min_node { true } else if h < min_node { false } else { h > w }
    }

    /// The node is cut as `split` cuts it, for rooms of side `m`: a node too
    /// small on both sides, or whose cut range is empty, stays a leaf;
    /// otherwise it has two children that share the cut line, which lies
    /// `m + 1` cells or more from either end, and each child is cut the same way.
    spec fn fully_split(self, m: int) -> bool
        decreases self,
    {
        let mn = 2 * m + 3;
        let (x, y, w, h) = (self.x as int, self.y as int, self.width as int, self.height as int);
        if w < mn && h < mn {
            self.left is None && self.right is None
        } else if BspNode::cuts_horizontally(w, h, mn) {
            if y + m + 1 >= y + h - m - 1 {
                self.left is None && self.right is None
            } else {
                &&& self.left matches Some(l)
                &&& self.right matches Some(r)
                &&& y + m + 1 <= r.y < y + h - m - 1
                &&& l.x == x && l.y == y && l.width == w && l.height == r.y - y
                &&& r.x == x && r.width == w && r.height == y + h - r.y
                &&& l.fully_split(m)
                &&& r.fully_split(m)
            }
        } else {
            if x + m + 1 >= x + w - m - 1 {
                self.left is None && self.right is None
            } else {
                &&& self.left matches Some(l)
                &&& self.right matches Some(r)
                &&& x + m + 1 <= r.x < x + w - m - 1
                &&& l.x == x && l.y == y && l.width == r.x - x && l.height == h
                &&& r.y == y && r.height == h && r.width == x + w - r.x
                &&& l.fully_split(m)
                &&& r.fully_split(m)
            }
        }
    }

    /// Rooms stand where `place_rooms` puts them: a leaf holds a room
    /// exactly when both its sides are at least `m + 2`.
    spec fn rooms_placed(self, m: int) -> bool
        decreases self,
    {
        &&& (self.left is None ==> (self.room is Some <==> (self.width - 2 >= m && self.height - 2 >= m)))
        &&& (self.left matches Some(l) ==> l.rooms_placed(m))
        &&& (self.right matches Some(r) ==> r.rooms_placed(m))
    }

    /// A tree of the same shape as a fully cut one is fully cut.
    proof fn lemma_fully_split_shape(self, s: BspNode, m: int)
        requires
            s.fully_split(m),
            self.same_shape(s),
        ensures
            self.fully_split(m),
        decreases self,
    {
        if let Some(l) = self.left {
            l.lemma_fully_split_shape(*s.left->0, m);
        }
        if let Some(r) = self.right {
            r.lemma_fully_split_shape(*s.right->0, m);
        }
    }

    /// A fully cut tree with rooms placed, both of whose sides are at least
    /// `m + 2`, holds a room: the second child of every cut keeps both sides
    /// at least `m + 2`, and so does an uncut leaf, which gets a room.
    proof fn lemma_has_room(self, m: int)
        requires
            self.fully_split(m),
            self.rooms_placed(m),
            self.width >= m + 2,
            self.height >= m + 2,
            m >= 1,
        ensures
            self.tree_rooms().len() >= 1,
        decreases self,
    {
        let own = match self.room {
            Some(r) => seq![r],
            None => Seq::<Room>::empty(),
        };
        let lr = match self.left {
            Some(l) => l.tree_rooms(),
            None => Seq::<Room>::empty(),
        };
        let rr = match self.right {
            Some(r) => r.tree_rooms(),
            None => Seq::<Room>::empty(),
        };
        assert(self.tree_rooms() =~= own + lr + rr);
        if let Some(r) = self.right {
            r.lemma_has_room(m);
        }
    }

    fn new(x: i32, y: i32, width: i32, height: i32) -> (r: Self)
        ensures
            r.x == x && r.y == y && r.width == width && r.height == height,
            r.room is None && r.left is None && r.right is None,
    {
        BspNode { x, y, width, height, room: None, left: None, right: None }
    }

    /// Recursively cuts the rectangle in two, along its longer side (or the
    /// only side long enough), while both halves can still hold a room.
    fn split(&mut self, rng: &mut StdRng, min_room_size: i32)
        requires
            old(self).room is None,
            old(self).left is None,
            old(self).right is None,
            old(self).x >= 0,
            old(self).y >= 0,
            old(self).width >= 0,
            old(self).height >= 0,
            old(self).x + old(self).width <= i32::MAX,
            old(self).y + old(self).height <= i32::MAX,
            1 <= min_room_size,
            min_room_size * 2 + 3 <= i32::MAX,
        ensures
            final(self).x == old(self).x,
            final(self).y == old(self).y,
            final(self).width == old(self).width,
            final(self).height == old(self).height,
            final(self).wf(0, 0),
            final(self).roomless(),
            final(self).fully_split(min_room_size as int),
        decreases old(self).width + old(self).height,
    {
        let min_node_size = min_room_size * 2 + 3;

        if self.width < min_node_size && self.height < min_node_size {
            return;
        }

        let split_horizontal = if self.width < min_node_size {
            true
        } else if self.height < min_node_size {
            false
        } else {
            self.height > self.width
        };

        if split_horizontal {
            let min_split = self.y + min_room_size + 1;
            let max_split = self.y + self.height - min_room_size - 1;
            if min_split >= max_split {
                return;
            }
            let split = random_range_i32(rng, min_split, max_split);
            let mut left = BspNode::new(self.x, self.y, self.width, split - self.y);
            let mut right = BspNode::new(self.x, split, self.width, self.y + self.height - split);
            left.split(rng, min_room_size);
            right.split(rng, min_room_size);
            self.left = Some(Box::new(left));
            self.right = Some(Box::new(right));
        } else {
            let min_split = self.x + min_room_size + 1;
            let max_split = self.x + self.width - min_room_size - 1;
            if min_split >= max_split {
                return;
            }
            let split = random_range_i32(rng, min_split, max_split);
            let mut left = BspNode::new(self.x, self.y, split - self.x, self.height);
            let mut right = BspNode::new(split, self.y, self.x + self.width - split, self.height);
            left.split(rng, min_room_size);
            right.split(rng, min_room_size);
            self.left = Some(Box::new(left));
            self.right = Some(Box::new(right));
        }
    }

    /// Puts a randomly sized and placed room into every leaf large enough
    /// for one: sides between `min_room_size` and `max_room_size`, at most
    /// two cells less than the leaf, one cell in from the leaf's top-left.
    fn place_rooms(&mut self, rng: &mut StdRng, min_room_size: i32, max_room_size: i32)
        requires
            old(self).wf(0, 0),
            old(self).roomless(),
            old(self).x >= 0,
            old(self).y >= 0,
            old(self).x + old(self).width <= i32::MAX,
            old(self).y + old(self).height <= i32::MAX,
            1 <= min_room_size <= max_room_size,
        ensures
            final(self).wf(min_room_size as int, max_room_size as int),
            final(self).same_shape(*old(self)),
            final(self).rooms_placed(min_room_size as int),
        decreases *old(self),
    {
        if self.left.is_some() || self.right.is_some() {
            let mut left = self.left.take().unwrap();
            let mut right = self.right.take().unwrap();
            left.place_rooms(rng, min_room_size, max_room_size);
            right.place_rooms(rng, min_room_size, max_room_size);
            self.left = Some(left);
            self.right = Some(right);
            return;
        }

        let max_w = if max_room_size < self.width - 2 { max_room_size } else { self.width - 2 };
        let max_h = if max_room_size < self.height - 2 { max_room_size } else { self.height - 2 };

        if max_w < min_room_size || max_h < min_room_size {
            return;
        }

        let room_w = if min_room_size >= max_w {
            min_room_size
        } else {
            random_range_i32_inclusive(rng, min_room_size, max_w)
        };
        let room_h = if min_room_size >= max_h {
            min_room_size
        } else {
            random_range_i32_inclusive(rng, min_room_size, max_h)
        };

        let room_x = if self.x + 1 >= self.x + self.width - room_w {
            self.x + 1
        } else {
            random_range_i32_inclusive(rng, self.x + 1, self.x + self.width - room_w)
        };
        let room_y = if self.y + 1 >= self.y + self.height - room_h {
            self.y + 1
        } else {
            random_range_i32_inclusive(rng, self.y + 1, self.y + self.height - room_h)
        };

        self.room = Some(Room { x: room_x, y: room_y, width: room_w, height: room_h });
    }

    /// Loosening the size bounds keeps a tree well formed.
    proof fn lemma_wf_weaken(self, lo: int, hi: int, lo2: int, hi2: int)
        requires
            self.wf(lo, hi),
            lo2 <= lo,
            hi <= hi2,
        ensures
            self.wf(lo2, hi2),
        decreases self,
    {
        if let Some(l) = self.left {
            l.lemma_wf_weaken(lo, hi, lo2, hi2);
            self.right.unwrap().lemma_wf_weaken(lo, hi, lo2, hi2);
        }
    }

    /// A tree holds no more rooms than its rectangle has cells.
    proof fn lemma_room_count(self, lo: int, hi: int)
        requires
            self.wf(lo, hi),
            lo >= 1,
        ensures
            self.tree_rooms().len() <= self.width * self.height,
        decreases self,
    {
        let own = match self.room {
            Some(r) => seq![r],
            None => Seq::<Room>::empty(),
        };
        reveal_with_fuel(BspNode::wf, 2);
        if let Some(l) = self.left {
            let r = self.right.unwrap();
            l.lemma_room_count(lo, hi);
            r.lemma_room_count(lo, hi);
            let lr = l.tree_rooms();
            let rr = r.tree_rooms();
            assert(self.tree_rooms() =~= lr + rr);
            let (lx, ly, lw, lh) = (l.x as int, l.y as int, l.width as int, l.height as int);
            let (rx, ry, rw, rh) = (r.x as int, r.y as int, r.width as int, r.height as int);
            let (x, y, w, h) = (self.x as int, self.y as int, self.width as int, self.height as int);
            if lx + lw <= rx || rx + rw <= lx {
                assert(lw * lh + rw * rh <= w * h) by (nonlinear_arith)
                    requires lw + rw <= w, 0 <= lw, 0 <= rw, 0 <= lh <= h, 0 <= rh <= h;
            } else {
                assert(lw * lh + rw * rh <= w * h) by (nonlinear_arith)
                    requires lh + rh <= h, 0 <= lh, 0 <= rh, 0 <= lw <= w, 0 <= rw <= w;
            }
        } else {
            assert(self.tree_rooms() =~= own);
            if let Some(rm) = self.room {
                assert(1 <= self.width * self.height) by (nonlinear_arith)
                    requires self.width >= 1, self.height >= 1;
            } else {
                assert(0 <= self.width * self.height) by (nonlinear_arith)
                    requires self.width >= 0, self.height >= 0;
            }
        }
    }

    /// The rooms of the tree in the order `collect_rooms` lists them: the
    /// node's own room, then those of the left subtree, then the right.
    spec fn tree_rooms(self) -> Seq<Room>
        decreases self,
    {
        let own = match self.room {
            Some(r) => seq![r],
            None => Seq::empty(),
        };
        let l = match self.left {
            Some(l) => l.tree_rooms(),
            None => Seq::empty(),
        };
        let r = match self.right {
            Some(r) => r.tree_rooms(),
            None => Seq::empty(),
        };
        own + l + r
    }

    /// Every room of a well-formed tree fits inside the root rectangle (one
    /// cell in from its top-left) with sides between `lo` and `hi`, and no two
    /// rooms overlap.
    proof fn lemma_tree_rooms(self, lo: int, hi: int)
        requires
            self.wf(lo, hi),
        ensures
            forall|i: int| 0 <= i < self.tree_rooms().len() ==> self.room_fits(#[trigger] self.tree_rooms()[i], lo, hi),
            forall|i: int, j: int| 0 <= i < self.tree_rooms().len() && 0 <= j < self.tree_rooms().len() && i != j
                ==> rooms_apart(#[trigger] self.tree_rooms()[i], #[trigger] self.tree_rooms()[j]),
        decreases self,
    {
        let rooms = self.tree_rooms();
        if let Some(l) = self.left {
            let r = self.right.unwrap();
            l.lemma_tree_rooms(lo, hi);
            r.lemma_tree_rooms(lo, hi);
            let lr = l.tree_rooms();
            let rr = r.tree_rooms();
            assert(self.room is None);
            assert(rooms =~= lr + rr);
            assert forall|i: int| 0 <= i < rooms.len() implies self.room_fits(#[trigger] rooms[i], lo, hi) by {
                if i < lr.len() {
                    assert(rooms[i] == lr[i]);
                    assert(l.room_fits(lr[i], lo, hi));
                } else {
                    assert(rooms[i] == rr[i - lr.len()]);
                    assert(r.room_fits(rr[i - lr.len()], lo, hi));
                }
            }
            assert forall|i: int, j: int| 0 <= i < rooms.len() && 0 <= j < rooms.len() && i != j
                implies rooms_apart(#[trigger] rooms[i], #[trigger] rooms[j]) by {
                if i < lr.len() && j < lr.len() {
                    assert(rooms[i] == lr[i] && rooms[j] == lr[j]);
                } else if i >= lr.len() && j >= lr.len() {
                    assert(rooms[i] == rr[i - lr.len()] && rooms[j] == rr[j - lr.len()]);
                } else if i < lr.len() {
                    assert(rooms[i] == lr[i] && rooms[j] == rr[j - lr.len()]);
                    assert(l.room_fits(lr[i], lo, hi));
                    assert(r.room_fits(rr[j - lr.len()], lo, hi));
                } else {
                    assert(rooms[j] == lr[j] && rooms[i] == rr[i - lr.len()]);
                    assert(l.room_fits(lr[j], lo, hi));
                    assert(r.room_fits(rr[i - lr.len()], lo, hi));
                }
            }
        } else {
            assert(self.right is None);
            match self.room {
                Some(rm) => assert(rooms =~= seq![rm]),
                None => assert(rooms =~= Seq::<Room>::empty()),
            }
        }
    }

    /// All rooms of the tree, own room first, then left, then right.
    fn collect_rooms(&self) -> (r: Vec<Room>)
        ensures
            r@ == self.tree_rooms(),
        decreases self,
    {
        let mut rooms: Vec<Room> = Vec::new();
        if let Some(room) = self.room {
            rooms.push(room);
        }
        if let Some(left) = &self.left {
            let mut lr = left.collect_rooms();
            rooms.append(&mut lr);
        }
        if let Some(right) = &self.right {
            let mut rr = right.collect_rooms();
            rooms.append(&mut rr);
        }
        proof {
            let own = match self.room {
                Some(r) => seq![r],
                None => Seq::<Room>::empty(),
            };
            assert(rooms@ =~= self.tree_rooms());
        }
        rooms
    }

    /// The first room found: the node's own, else the left subtree's, else the right's.
    spec fn any_room(self) -> Option<Room>
        decreases self,
    {
        if self.room is Some {
            self.room
        } else if self.left is Some && self.left->0.any_room() is Some {
            self.left->0.any_room()
        } else if self.right is Some {
            self.right->0.any_room()
        } else {
            None
        }
    }

    /// A room that `any_room` finds is one of the tree's rooms; it finds
    /// one whenever the tree has any.
    proof fn lemma_any_room(self)
        ensures
            self.any_room() matches Some(r) ==> self.tree_rooms().contains(r),
            self.any_room() is None <==> self.tree_rooms().len() == 0,
        decreases self,
    {
        let own = match self.room {
            Some(r) => seq![r],
            None => Seq::<Room>::empty(),
        };
        let lr = match self.left {
            Some(l) => l.tree_rooms(),
            None => Seq::<Room>::empty(),
        };
        let rr = match self.right {
            Some(r) => r.tree_rooms(),
            None => Seq::<Room>::empty(),
        };
        let all = self.tree_rooms();
        assert(all =~= own + lr + rr);
        if let Some(l) = self.left {
            l.lemma_any_room();
        }
        if let Some(r) = self.right {
            r.lemma_any_room();
        }
        if let Some(rm) = self.room {
            assert(all[0] == rm);
        } else if self.left is Some && self.left->0.any_room() is Some {
            let rm = self.left->0.any_room()->0;
            let k = choose|k: int| 0 <= k < lr.len() && lr[k] == rm;
            assert(all[k] == rm);
        } else if self.right is Some && self.right->0.any_room() is Some {
            let rm = self.right->0.any_room()->0;
            let k = choose|k: int| 0 <= k < rr.len() && rr[k] == rm;
            assert(all[lr.len() + k] == rm);
        }
    }

    fn get_any_room(&self) -> (r: Option<Room>)
        ensures
            r == self.any_room(),
        decreases self,
    {
        if let Some(room) = self.room {
            return Some(room);
        }
        if let Some(left) = &self.left {
            if let Some(room) = left.get_any_room() {
                return Some(room);
            }
        }
        if let Some(right) = &self.right {
            if let Some(room) = right.get_any_room() {
                return Some(room);
            }
        }
        None
    }

    /// Joins the two halves of every split node with an L-shaped corridor
    /// between a room of each half, children first. Afterwards the centres
    /// of all rooms of the tree are joined, and every open cell stays joined
    /// to the centre of a room of `all`, which holds every room of the tree.
    fn connect_rooms(
        &self,
        tiles: &mut Vec<TileKind>,
        map_width: i32,
        Ghost(map_height): Ghost<int>,
        Ghost(all): Ghost<Seq<Room>>,
    ) -> (pairs: Ghost<Seq<(Room, Room)>>)
        requires
            self.wf(1, i32::MAX as int),
            self.within(0, 0, map_width as int, map_height),
            map_width >= 0,
            0 <= map_height <= i32::MAX,
            map_width * map_height <= i32::MAX,
            old(tiles)@.len() == map_width * map_height,
            forall|i: int| 0 <= i < self.tree_rooms().len() ==> all.contains(#[trigger] self.tree_rooms()[i]),
            rooms_open(old(tiles)@, map_width as int, map_height, all),
            anchored(old(tiles)@, map_width as int, map_height, all),
        ensures
            only_opened(old(tiles)@, final(tiles)@),
            anchored(final(tiles)@, map_width as int, map_height, all),
            centers_linked(final(tiles)@, map_width as int, map_height, self.tree_rooms()),
            pairs_from(pairs@, self.tree_rooms()),
            pairs@.len() + (if self.tree_rooms().len() > 0 { 1int } else { 0 }) == self.tree_rooms().len(),
            opened_by(old(tiles)@, final(tiles)@, map_width as int, map_height, pairs@),
        decreases self,
    {
        let ghost w = map_width as int;
        let ghost h = map_height;
        proof { lemma_only_opened_refl(tiles@); }
        let ghost none = Seq::<(Room, Room)>::empty();
        if self.left.is_none() || self.right.is_none() {
            proof {
                let rooms = self.tree_rooms();
                if let Some(rm) = self.room {
                    assert(rooms =~= seq![rm]);
                    assert(all.contains(rooms[0]));
                    let k = choose|k: int| 0 <= k < all.len() && all[k] == rm;
                    assert(rm.contains(rm.spec_center().0, rm.spec_center().1));
                    assert(open_at(tiles@, w, h, rm.spec_center()));
                    lemma_connected_refl(tiles@, w, h, rm.spec_center());
                } else {
                    assert(rooms =~= Seq::<Room>::empty());
                }
                lemma_opened_by_none(tiles@, w, h);
            }
            return Ghost(none);
        }
        let left = self.left.as_ref().unwrap();
        let right = self.right.as_ref().unwrap();
        let ghost lrooms = left.tree_rooms();
        let ghost rrooms = right.tree_rooms();
        proof {
            assert(self.tree_rooms() =~= lrooms + rrooms);
            assert forall|i: int| 0 <= i < lrooms.len() implies all.contains(#[trigger] lrooms[i]) by {
                assert(self.tree_rooms()[i] == lrooms[i]);
            }
            assert forall|i: int| 0 <= i < rrooms.len() implies all.contains(#[trigger] rrooms[i]) by {
                assert(self.tree_rooms()[lrooms.len() + i] == rrooms[i]);
            }
        }

        let ghost t0 = tiles@;
        let Ghost(lp) = left.connect_rooms(tiles, map_width, Ghost(map_height), Ghost(all));
        let ghost t1 = tiles@;
        proof {
            lemma_only_opened_keeps(t0, t1, w, h);
            lemma_rooms_open_mono(t0, t1, w, h, all);
        }
        let Ghost(rp) = right.connect_rooms(tiles, map_width, Ghost(map_height), Ghost(all));
        let ghost t2 = tiles@;
        proof {
            lemma_opened_by_join(t0, t1, t2, w, h, lp, rp);
            lemma_pairs_from_join(lp, rp, lrooms, rrooms);
            lemma_only_opened_trans(t0, t1, t2);
            lemma_only_opened_keeps(t1, t2, w, h);
            lemma_linked_mono(t1, t2, w, h, lrooms);
        }

        let left_room = left.get_any_room();
        let right_room = right.get_any_room();
        proof {
            left.lemma_any_room();
            right.lemma_any_room();
        }

        if let (Some(lr), Some(rr)) = (left_room, right_room) {
            proof {
                left.lemma_tree_rooms(1, i32::MAX as int);
                right.lemma_tree_rooms(1, i32::MAX as int);
                let li = choose|i: int| 0 <= i < left.tree_rooms().len() && left.tree_rooms()[i] == lr;
                let ri = choose|i: int| 0 <= i < right.tree_rooms().len() && right.tree_rooms()[i] == rr;
                assert(left.room_fits(lr, 1, i32::MAX as int));
                assert(right.room_fits(rr, 1, i32::MAX as int));
                assert(left.within(self.x as int, self.y as int, self.width as int, self.height as int));
                assert(right.within(self.x as int, self.y as int, self.width as int, self.height as int));
                assert(0 <= lr.x && lr.x + lr.width <= map_width && 0 <= lr.y && lr.y + lr.height <= map_height);
                assert(0 <= rr.x && rr.x + rr.width <= map_width && 0 <= rr.y && rr.y + rr.height <= map_height);
            }
            let (lx, ly) = lr.center();
            let (rx, ry) = rr.center();
            carve_l_corridor(tiles, map_width, lx, ly, rx, ry, Ghost(map_height));
            let ghost t3 = tiles@;
            proof {
                lemma_only_opened_trans(t0, t2, t3);
                lemma_only_opened_keeps(t2, t3, w, h);
                lemma_linked_mono(t2, t3, w, h, lrooms);
                lemma_linked_mono(t2, t3, w, h, rrooms);
                let li = choose|i: int| 0 <= i < lrooms.len() && lrooms[i] == lr;
                let ri = choose|i: int| 0 <= i < rrooms.len() && rrooms[i] == rr;
                assert(on_l_path(lx as int, ly as int, rx as int, ry as int, rx as int, ry as int));
                lemma_l_path_walks(t3, w, h, lx as int, ly as int, rx as int, ry as int, rx as int, ry as int);
                lemma_link_halves(t3, w, h, lrooms, rrooms, li, ri);
                assert(all.contains(lrooms[li]));
                let k = choose|k: int| 0 <= k < all.len() && all[k] == lr;
                lemma_anchored_after_corridor(t2, t3, w, h, all, lx as int, ly as int, rx as int, ry as int, k);
                lemma_opened_by_corridor(t0, t2, t3, w, h, lp + rp, lr, rr);
                lemma_pairs_from_push(lp + rp, lrooms + rrooms, lr, rr, li, lrooms.len() + ri);
            }
            Ghost(lp + rp + seq![(lr, rr)])
        } else {
            proof {
                if lrooms.len() == 0 {
                    assert(self.tree_rooms() =~= rrooms);
                } else {
                    assert(rrooms.len() == 0);
                    assert(self.tree_rooms() =~= lrooms);
                }
            }
            Ghost(lp + rp)
        }
    }
}


/// The L-shaped corridor carved from the centre of the first room of `p`
/// to the centre of the second passes through (x, y).
pub open spec fn corridor_at(p: (Room, Room), x: int, y: int) -> bool {
    on_l_path(p.0.spec_center().0, p.0.spec_center().1, p.1.spec_center().0, p.1.spec_center().1, x, y)
}

/// One of the corridors of `pairs` passes through (x, y).
pub open spec fn on_corridor(pairs: Seq<(Room, Room)>, x: int, y: int) -> bool {
    exists|k: int| 0 <= k < pairs.len() && #[trigger] corridor_at(pairs[k], x, y)
}

/// Both rooms of every pair are among `rooms`.
pub open spec fn pairs_from(pairs: Seq<(Room, Room)>, rooms: Seq<Room>) -> bool {
    forall|k: int| 0 <= k < pairs.len() ==> rooms.contains((#[trigger] pairs[k]).0) && rooms.contains(pairs[k].1)
}

/// A cell of the grid is open in `new` exactly when it was open in `old`
/// or one of the corridors of `pairs` passes through it.
pub open spec fn opened_by(old: Seq<TileKind>, new: Seq<TileKind>, w: int, h: int, pairs: Seq<(Room, Room)>) -> bool {
    forall|a: int, b: int| 0 <= a < w && 0 <= b < h
        ==> (#[trigger] open_at(new, w, h, (a, b)) <==> open_at(old, w, h, (a, b)) || on_corridor(pairs, a, b))
}

proof fn lemma_opened_by_none(t: Seq<TileKind>, w: int, h: int)
    ensures
        opened_by(t, t, w, h, Seq::empty()),
{
}

proof fn lemma_on_corridor_concat(p1: Seq<(Room, Room)>, p2: Seq<(Room, Room)>, x: int, y: int)
    ensures
        on_corridor(p1 + p2, x, y) <==> on_corridor(p1, x, y) || on_corridor(p2, x, y),
{
    let p = p1 + p2;
    if on_corridor(p, x, y) {
        let k = choose|k: int| 0 <= k < p.len() && #[trigger] corridor_at(p[k], x, y);
        if k < p1.len() {
            assert(p[k] == p1[k]);
        } else {
            assert(p[k] == p2[k - p1.len()]);
        }
    }
    if on_corridor(p1, x, y) {
        let k = choose|k: int| 0 <= k < p1.len() && #[trigger] corridor_at(p1[k], x, y);
        assert(p[k] == p1[k]);
    }
    if on_corridor(p2, x, y) {
        let k = choose|k: int| 0 <= k < p2.len() && #[trigger] corridor_at(p2[k], x, y);
        assert(p[p1.len() + k] == p2[k]);
    }
}

proof fn lemma_opened_by_join(
    t0: Seq<TileKind>, t1: Seq<TileKind>, t2: Seq<TileKind>, w: int, h: int,
    p1: Seq<(Room, Room)>, p2: Seq<(Room, Room)>,
)
    requires
        opened_by(t0, t1, w, h, p1),
        opened_by(t1, t2, w, h, p2),
    ensures
        opened_by(t0, t2, w, h, p1 + p2),
{
    assert forall|a: int, b: int| 0 <= a < w && 0 <= b < h implies
        (#[trigger] open_at(t2, w, h, (a, b)) <==> open_at(t0, w, h, (a, b)) || on_corridor(p1 + p2, a, b)) by {
        assert(open_at(t1, w, h, (a, b)) <==> open_at(t0, w, h, (a, b)) || on_corridor(p1, a, b));
        assert(open_at(t2, w, h, (a, b)) <==> open_at(t1, w, h, (a, b)) || on_corridor(p2, a, b));
        lemma_on_corridor_concat(p1, p2, a, b);
    }
}

/// Carving the corridor between the centres of `lr` and `rr` after the
/// corridors of `p` opens exactly the cells of all of them.
proof fn lemma_opened_by_corridor(
    t0: Seq<TileKind>, t2: Seq<TileKind>, t3: Seq<TileKind>, w: int, h: int,
    p: Seq<(Room, Room)>, lr: Room, rr: Room,
)
    requires
        opened_by(t0, t2, w, h, p),
        forall|a: int, b: int| on_l_path(lr.spec_center().0, lr.spec_center().1, rr.spec_center().0, rr.spec_center().1, a, b)
            ==> #[trigger] open_at(t3, w, h, (a, b)),
        forall|a: int, b: int| 0 <= a < w && 0 <= b < h
            && !on_l_path(lr.spec_center().0, lr.spec_center().1, rr.spec_center().0, rr.spec_center().1, a, b)
            ==> #[trigger] cell(t3, w, a, b) == cell(t2, w, a, b),
    ensures
        opened_by(t0, t3, w, h, p + seq![(lr, rr)]),
{
    let one = seq![(lr, rr)];
    assert forall|a: int, b: int| 0 <= a < w && 0 <= b < h implies
        (#[trigger] open_at(t3, w, h, (a, b)) <==> open_at(t0, w, h, (a, b)) || on_corridor(p + one, a, b)) by {
        lemma_on_corridor_concat(p, one, a, b);
        assert(open_at(t2, w, h, (a, b)) <==> open_at(t0, w, h, (a, b)) || on_corridor(p, a, b));
        if corridor_at((lr, rr), a, b) {
            assert(corridor_at(one[0], a, b));
        } else {
            assert(cell(t3, w, a, b) == cell(t2, w, a, b));
            if on_corridor(one, a, b) {
                let k = choose|k: int| 0 <= k < one.len() && #[trigger] corridor_at(one[k], a, b);
                assert(k == 0);
            }
        }
    }
}

proof fn lemma_pairs_from_join(p1: Seq<(Room, Room)>, p2: Seq<(Room, Room)>, r1: Seq<Room>, r2: Seq<Room>)
    requires
        pairs_from(p1, r1),
        pairs_from(p2, r2),
    ensures
        pairs_from(p1 + p2, r1 + r2),
{
    let p = p1 + p2;
    let r = r1 + r2;
    assert forall|k: int| 0 <= k < p.len() implies r.contains((#[trigger] p[k]).0) && r.contains(p[k].1) by {
        if k < p1.len() {
            assert(p[k] == p1[k]);
            let i = choose|i: int| 0 <= i < r1.len() && r1[i] == p1[k].0;
            let j = choose|j: int| 0 <= j < r1.len() && r1[j] == p1[k].1;
            assert(r[i] == r1[i] && r[j] == r1[j]);
        } else {
            let k2 = k - p1.len();
            assert(p[k] == p2[k2]);
            let i = choose|i: int| 0 <= i < r2.len() && r2[i] == p2[k2].0;
            let j = choose|j: int| 0 <= j < r2.len() && r2[j] == p2[k2].1;
            assert(r[r1.len() + i] == r2[i] && r[r1.len() + j] == r2[j]);
        }
    }
}

proof fn lemma_pairs_from_push(p: Seq<(Room, Room)>, r: Seq<Room>, a: Room, b: Room, i: int, j: int)
    requires
        pairs_from(p, r),
        0 <= i < r.len(),
        0 <= j < r.len(),
        r[i] == a,
        r[j] == b,
    ensures
        pairs_from(p + seq![(a, b)], r),
{
    let q = p + seq![(a, b)];
    assert forall|k: int| 0 <= k < q.len() implies r.contains((#[trigger] q[k]).0) && r.contains(q[k].1) by {
        if k < p.len() {
            assert(q[k] == p[k]);
        } else {
            assert(q[k] == (a, b));
        }
    }
}

/// `new` differs from `old` only where a wall was opened into floor.
pub open spec fn only_opened(old: Seq<TileKind>, new: Seq<TileKind>) -> bool {
    &&& new.len() == old.len()
    &&& forall|i: int| 0 <= i < old.len() ==> #[trigger] new[i] == old[i]
        || (old[i] == TileKind::Wall && new[i] == TileKind::Floor)
}

pub proof fn lemma_only_opened_refl(t: Seq<TileKind>)
    ensures
        only_opened(t, t),
{
}

pub proof fn lemma_only_opened_trans(a: Seq<TileKind>, b: Seq<TileKind>, c: Seq<TileKind>)
    requires
        only_opened(a, b),
        only_opened(b, c),
    ensures
        only_opened(a, c),
{
    assert forall|i: int| 0 <= i < a.len() implies #[trigger] c[i] == a[i]
        || (a[i] == TileKind::Wall && c[i] == TileKind::Floor) by {
        assert(b[i] == a[i] || (a[i] == TileKind::Wall && b[i] == TileKind::Floor));
        assert(c[i] == b[i] || (b[i] == TileKind::Wall && c[i] == TileKind::Floor));
    }
}

/// Opening walls keeps every open cell open.
pub proof fn lemma_only_opened_keeps(t1: Seq<TileKind>, t2: Seq<TileKind>, w: int, h: int)
    requires
        only_opened(t1, t2),
        t1.len() == w * h,
    ensures
        opens_kept(t1, t2, w, h),
{
    assert forall|p: (int, int)| open_at(t1, w, h, p) implies #[trigger] open_at(t2, w, h, p) by {
        lemma_index_in_grid(w, h, p.0, p.1);
        assert(t2[p.1 * w + p.0] == t1[p.1 * w + p.0]
            || (t1[p.1 * w + p.0] == TileKind::Wall && t2[p.1 * w + p.0] == TileKind::Floor));
    }
}

/// A cell of the L-shaped corridor from (x1, y1) across to column x2 and
/// along it to (x2, y2).
pub open spec fn on_l_path(x1: int, y1: int, x2: int, y2: int, x: int, y: int) -> bool {
    ||| (y == y1 && (x1 <= x <= x2 || x2 <= x <= x1))
    ||| (x == x2 && (y1 <= y <= y2 || y2 <= y <= y1))
}

/// An open L-shaped corridor joins its start to each of its cells.
proof fn lemma_l_path_walks(tiles: Seq<TileKind>, w: int, h: int, x1: int, y1: int, x2: int, y2: int, x: int, y: int)
    requires
        forall|a: int, b: int| on_l_path(x1, y1, x2, y2, a, b) ==> #[trigger] open_at(tiles, w, h, (a, b)),
        on_l_path(x1, y1, x2, y2, x, y),
    ensures
        connected(tiles, w, h, (x1, y1), (x, y)),
{
    if y == y1 && (x1 <= x <= x2 || x2 <= x <= x1) {
        assert forall|a: int| (x1 <= a <= x || x <= a <= x1) implies #[trigger] open_at(tiles, w, h, (a, y1)) by {
            assert(on_l_path(x1, y1, x2, y2, a, y1));
        }
        lemma_row_walk(tiles, w, h, y1, x1, x);
    } else {
        assert forall|a: int| (x1 <= a <= x2 || x2 <= a <= x1) implies #[trigger] open_at(tiles, w, h, (a, y1)) by {
            assert(on_l_path(x1, y1, x2, y2, a, y1));
        }
        lemma_row_walk(tiles, w, h, y1, x1, x2);
        assert forall|b: int| (y1 <= b <= y || y <= b <= y1) implies #[trigger] open_at(tiles, w, h, (x2, b)) by {
            assert(on_l_path(x1, y1, x2, y2, x2, b));
        }
        lemma_col_walk(tiles, w, h, x2, y1, y);
        lemma_connected_trans(tiles, w, h, (x1, y1), (x2, y1), (x2, y));
    }
}

/// Every cell of every room is open.
pub open spec fn rooms_open(tiles: Seq<TileKind>, w: int, h: int, rooms: Seq<Room>) -> bool {
    forall|k: int, x: int, y: int| 0 <= k < rooms.len() && (#[trigger] rooms[k]).contains(x, y)
        ==> #[trigger] open_at(tiles, w, h, (x, y))
}

/// Every open cell is joined to the centre of some room.
pub open spec fn anchored(tiles: Seq<TileKind>, w: int, h: int, rooms: Seq<Room>) -> bool {
    forall|p: (int, int)| #[trigger] open_at(tiles, w, h, p) ==> exists|k: int|
        0 <= k < rooms.len() && #[trigger] connected(tiles, w, h, p, rooms[k].spec_center())
}

/// The centres of any two rooms are joined.
pub open spec fn centers_linked(tiles: Seq<TileKind>, w: int, h: int, rooms: Seq<Room>) -> bool {
    forall|i: int, j: int| 0 <= i < rooms.len() && 0 <= j < rooms.len()
        ==> #[trigger] connected(tiles, w, h, rooms[i].spec_center(), rooms[j].spec_center())
}

proof fn lemma_rooms_open_mono(t1: Seq<TileKind>, t2: Seq<TileKind>, w: int, h: int, rooms: Seq<Room>)
    requires
        opens_kept(t1, t2, w, h),
        rooms_open(t1, w, h, rooms),
    ensures
        rooms_open(t2, w, h, rooms),
{
    assert forall|k: int, x: int, y: int| 0 <= k < rooms.len() && (#[trigger] rooms[k]).contains(x, y)
        implies #[trigger] open_at(t2, w, h, (x, y)) by {
        assert(open_at(t1, w, h, (x, y)));
    }
}

proof fn lemma_linked_mono(t1: Seq<TileKind>, t2: Seq<TileKind>, w: int, h: int, rooms: Seq<Room>)
    requires
        opens_kept(t1, t2, w, h),
        centers_linked(t1, w, h, rooms),
    ensures
        centers_linked(t2, w, h, rooms),
{
    assert forall|i: int, j: int| 0 <= i < rooms.len() && 0 <= j < rooms.len()
        implies #[trigger] connected(t2, w, h, rooms[i].spec_center(), rooms[j].spec_center()) by {
        lemma_connected_mono(t1, t2, w, h, rooms[i].spec_center(), rooms[j].spec_center());
    }
}

/// Two groups of rooms, each linked within itself, and one corridor between
/// a room of each, link all their rooms.
proof fn lemma_link_halves(
    t: Seq<TileKind>, w: int, h: int, lrooms: Seq<Room>, rrooms: Seq<Room>, li: int, ri: int,
)
    requires
        centers_linked(t, w, h, lrooms),
        centers_linked(t, w, h, rrooms),
        0 <= li < lrooms.len(),
        0 <= ri < rrooms.len(),
        connected(t, w, h, lrooms[li].spec_center(), rrooms[ri].spec_center()),
    ensures
        centers_linked(t, w, h, lrooms + rrooms),
{
    let all = lrooms + rrooms;
    let n = lrooms.len() as int;
    let lc = lrooms[li].spec_center();
    let rc = rrooms[ri].spec_center();
    lemma_connected_sym(t, w, h, lc, rc);
    assert forall|i: int, j: int| 0 <= i < all.len() && 0 <= j < all.len()
        implies #[trigger] connected(t, w, h, all[i].spec_center(), all[j].spec_center()) by {
        let ci = all[i].spec_center();
        let cj = all[j].spec_center();
        if i < n && j < n {
            assert(connected(t, w, h, lrooms[i].spec_center(), lrooms[j].spec_center()));
        } else if i >= n && j >= n {
            assert(connected(t, w, h, rrooms[i - n].spec_center(), rrooms[j - n].spec_center()));
        } else if i < n {
            assert(connected(t, w, h, lrooms[i].spec_center(), lc));
            assert(connected(t, w, h, rc, rrooms[j - n].spec_center()));
            lemma_connected_trans(t, w, h, ci, lc, rc);
            lemma_connected_trans(t, w, h, ci, rc, cj);
        } else {
            assert(connected(t, w, h, rrooms[i - n].spec_center(), rc));
            assert(connected(t, w, h, lc, lrooms[j].spec_center()));
            lemma_connected_trans(t, w, h, ci, rc, lc);
            lemma_connected_trans(t, w, h, ci, lc, cj);
        }
    }
}

/// A corridor carved from the centre of one of the rooms keeps every open
/// cell joined to some room's centre.
proof fn lemma_anchored_after_corridor(
    t2: Seq<TileKind>, t3: Seq<TileKind>, w: int, h: int, rooms: Seq<Room>,
    x1: int, y1: int, x2: int, y2: int, k: int,
)
    requires
        anchored(t2, w, h, rooms),
        opens_kept(t2, t3, w, h),
        forall|a: int, b: int| on_l_path(x1, y1, x2, y2, a, b) ==> #[trigger] open_at(t3, w, h, (a, b)),
        forall|a: int, b: int| 0 <= a < w && 0 <= b < h && !on_l_path(x1, y1, x2, y2, a, b)
            ==> #[trigger] cell(t3, w, a, b) == cell(t2, w, a, b),
        0 <= k < rooms.len(),
        rooms[k].spec_center() == (x1, y1),
    ensures
        anchored(t3, w, h, rooms),
{
    assert forall|p: (int, int)| #[trigger] open_at(t3, w, h, p) implies exists|k2: int|
        0 <= k2 < rooms.len() && #[trigger] connected(t3, w, h, p, rooms[k2].spec_center()) by {
        if on_l_path(x1, y1, x2, y2, p.0, p.1) {
            lemma_l_path_walks(t3, w, h, x1, y1, x2, y2, p.0, p.1);
            lemma_connected_sym(t3, w, h, (x1, y1), (p.0, p.1));
            assert(connected(t3, w, h, p, rooms[k].spec_center()));
        } else {
            assert(cell(t3, w, p.0, p.1) == cell(t2, w, p.0, p.1));
            assert(open_at(t2, w, h, p));
            let k2 = choose|k2: int| 0 <= k2 < rooms.len() && #[trigger] connected(t2, w, h, p, rooms[k2].spec_center());
            lemma_connected_mono(t2, t3, w, h, p, rooms[k2].spec_center());
        }
    }
}

/// Cells inside the rooms opened on an all-wall grid: the rooms' cells are
/// open and each open cell is joined to its room's centre.
proof fn lemma_carved_anchored(t0: Seq<TileKind>, carved: Seq<TileKind>, w: int, h: int, rooms: Seq<Room>)
    requires
        t0.len() == w * h,
        forall|i: int| 0 <= i < t0.len() ==> #[trigger] t0[i] == TileKind::Wall,
        forall|k: int| 0 <= k < rooms.len() ==> room_in_map(#[trigger] rooms[k], w, h),
        forall|k: int, x: int, y: int| 0 <= k < rooms.len() && (#[trigger] rooms[k]).contains(x, y)
            ==> #[trigger] cell(carved, w, x, y) == TileKind::Floor,
        forall|a: int, b: int| 0 <= a < w && 0 <= b < h && !covered_upto(rooms, rooms.len() as int, a, b)
            ==> #[trigger] cell(carved, w, a, b) == cell(t0, w, a, b),
    ensures
        rooms_open(carved, w, h, rooms),
        anchored(carved, w, h, rooms),
{
    assert forall|k: int, x: int, y: int| 0 <= k < rooms.len() && (#[trigger] rooms[k]).contains(x, y)
        implies #[trigger] open_at(carved, w, h, (x, y)) by {
        assert(room_in_map(rooms[k], w, h));
        assert(cell(carved, w, x, y) == TileKind::Floor);
    }
    assert forall|p: (int, int)| #[trigger] open_at(carved, w, h, p) implies exists|k: int|
        0 <= k < rooms.len() && #[trigger] connected(carved, w, h, p, rooms[k].spec_center()) by {
        lemma_index_in_grid(w, h, p.0, p.1);
        assert(t0[p.1 * w + p.0] == TileKind::Wall);
        if !covered_upto(rooms, rooms.len() as int, p.0, p.1) {
            assert(cell(carved, w, p.0, p.1) == cell(t0, w, p.0, p.1));
        }
        let k = choose|k: int| 0 <= k < rooms.len() && (#[trigger] rooms[k]).contains(p.0, p.1);
        let rk = rooms[k];
        assert(room_in_map(rk, w, h));
        assert forall|x: int, y: int| rk.x <= x < rk.x + rk.width && rk.y <= y < rk.y + rk.height
            implies #[trigger] open_at(carved, w, h, (x, y)) by {
            assert(rk.contains(x, y));
        }
        lemma_rect_walk(carved, w, h, rk.x as int, rk.y as int, rk.x + rk.width, rk.y + rk.height, p, rk.spec_center());
    }
}

/// Changing an open cell into another open kind keeps the set of open cells.
proof fn lemma_reopen_cell(t: Seq<TileKind>, w: int, h: int, x: int, y: int, kind: TileKind)
    requires
        t.len() == w * h,
        0 <= x < w,
        0 <= y < h,
        cell(t, w, x, y) != TileKind::Wall,
        kind != TileKind::Wall,
    ensures
        opens_kept(t, t.update(y * w + x, kind), w, h),
        opens_kept(t.update(y * w + x, kind), t, w, h),
{
    let t2 = t.update(y * w + x, kind);
    lemma_index_in_grid(w, h, x, y);
    assert forall|p: (int, int)| open_at(t, w, h, p) implies #[trigger] open_at(t2, w, h, p) by {
        lemma_index_in_grid(w, h, p.0, p.1);
    }
    assert forall|p: (int, int)| open_at(t2, w, h, p) implies #[trigger] open_at(t, w, h, p) by {
        lemma_index_in_grid(w, h, p.0, p.1);
    }
}

/// With every open cell joined to some room's centre and all centres
/// joined, every open cell can be reached from the centre of room `s`; a
/// grid with the same open cells keeps that.
proof fn lemma_all_reachable(opened: Seq<TileKind>, ft: Seq<TileKind>, w: int, h: int, rooms: Seq<Room>, s: int)
    requires
        anchored(opened, w, h, rooms),
        centers_linked(opened, w, h, rooms),
        opens_kept(opened, ft, w, h),
        opens_kept(ft, opened, w, h),
        0 <= s < rooms.len(),
    ensures
        forall|p: (int, int)| #[trigger] open_at(ft, w, h, p) ==> connected(ft, w, h, rooms[s].spec_center(), p),
{
    let cs = rooms[s].spec_center();
    assert forall|p: (int, int)| #[trigger] open_at(ft, w, h, p) implies connected(ft, w, h, cs, p) by {
        assert(open_at(opened, w, h, p));
        let k = choose|k: int| 0 <= k < rooms.len() && #[trigger] connected(opened, w, h, p, rooms[k].spec_center());
        let ck = rooms[k].spec_center();
        assert(connected(opened, w, h, rooms[s].spec_center(), rooms[k].spec_center()));
        lemma_connected_sym(opened, w, h, p, ck);
        lemma_connected_trans(opened, w, h, cs, ck, p);
        lemma_connected_mono(opened, ft, w, h, cs, p);
    }
}

/// Opens walls into floor along row `y1` from `x1` to `x2`, then along
/// column `x2` from `y1` to `y2`. Only walls change, only to floor, and only
/// on that path; afterwards every cell of the path is open.
fn carve_l_corridor(
    tiles: &mut Vec<TileKind>,
    map_width: i32,
    x1: i32,
    y1: i32,
    x2: i32,
    y2: i32,
    Ghost(map_height): Ghost<int>,
)
    requires
        map_width >= 0,
        0 <= map_height <= i32::MAX,
        map_width * map_height <= i32::MAX,
        old(tiles)@.len() == map_width * map_height,
        0 <= x1 < map_width,
        0 <= x2 < map_width,
        0 <= y1 < map_height,
        0 <= y2 < map_height,
    ensures
        only_opened(old(tiles)@, final(tiles)@),
        forall|a: int, b: int| on_l_path(x1 as int, y1 as int, x2 as int, y2 as int, a, b)
            ==> #[trigger] open_at(final(tiles)@, map_width as int, map_height, (a, b)),
        forall|a: int, b: int| 0 <= a < map_width && 0 <= b < map_height
            && !on_l_path(x1 as int, y1 as int, x2 as int, y2 as int, a, b)
            ==> #[trigger] cell(final(tiles)@, map_width as int, a, b) == cell(old(tiles)@, map_width as int, a, b),
{
    let ghost w = map_width as int;
    let ghost h = map_height;
    proof { lemma_only_opened_refl(tiles@); }
    let min_x = if x1 < x2 { x1 } else { x2 };
    let max_x = if x1 < x2 { x2 } else { x1 };
    let mut x = min_x;
    while x <= max_x
        invariant
            min_x <= x <= max_x + 1,
            0 <= min_x,
            max_x < map_width,
            w == map_width,
            h == map_height,
            0 <= y1 < map_height,
            map_width * map_height <= i32::MAX,
            tiles@.len() == map_width * map_height,
            only_opened(old(tiles)@, tiles@),
            forall|a: int| min_x <= a < x ==> #[trigger] open_at(tiles@, w, h, (a, y1 as int)),
            forall|a: int, b: int| 0 <= a < w && 0 <= b < h && !(b == y1 && min_x <= a < x)
                ==> #[trigger] cell(tiles@, w, a, b) == cell(old(tiles)@, w, a, b),
        decreases max_x + 1 - x,
    {
        proof { lemma_index_in_grid(w, h, x as int, y1 as int); }
        let ghost prev = tiles@;
        let idx = (y1 * map_width + x) as usize;
        if idx < tiles.len() && tiles[idx] == TileKind::Wall {
            tiles[idx] = TileKind::Floor;
        }
        proof {
            assert(tiles@[idx as int] != TileKind::Wall);
            assert forall|a: int| min_x <= a < x + 1 implies #[trigger] open_at(tiles@, w, h, (a, y1 as int)) by {
                if a != x {
                    lemma_index_in_grid(w, h, a, y1 as int);
                    lemma_index_injective(w, h, a, y1 as int, x as int, y1 as int);
                    assert(open_at(prev, w, h, (a, y1 as int)));
                }
            }
            assert forall|a: int, b: int| 0 <= a < w && 0 <= b < h && !(b == y1 && min_x <= a < x + 1)
                implies #[trigger] cell(tiles@, w, a, b) == cell(old(tiles)@, w, a, b) by {
                lemma_index_in_grid(w, h, a, b);
                lemma_index_injective(w, h, a, b, x as int, y1 as int);
                assert(cell(prev, w, a, b) == cell(old(tiles)@, w, a, b));
            }
        }
        x = x + 1;
    }

    let min_y = if y1 < y2 { y1 } else { y2 };
    let max_y = if y1 < y2 { y2 } else { y1 };
    let mut y = min_y;
    while y <= max_y
        invariant
            min_y <= y <= max_y + 1,
            0 <= min_y,
            max_y < map_height,
            map_height <= i32::MAX,
            0 <= min_x,
            max_x < map_width,
            w == map_width,
            h == map_height,
            0 <= y1 < map_height,
            0 <= x2 < map_width,
            map_width * map_height <= i32::MAX,
            tiles@.len() == map_width * map_height,
            only_opened(old(tiles)@, tiles@),
            forall|a: int| min_x <= a <= max_x ==> #[trigger] open_at(tiles@, w, h, (a, y1 as int)),
            forall|b: int| min_y <= b < y ==> #[trigger] open_at(tiles@, w, h, (x2 as int, b)),
            forall|a: int, b: int| 0 <= a < w && 0 <= b < h && !(b == y1 && min_x <= a <= max_x)
                && !(a == x2 && min_y <= b < y)
                ==> #[trigger] cell(tiles@, w, a, b) == cell(old(tiles)@, w, a, b),
        decreases max_y + 1 - y,
    {
        proof { lemma_index_in_grid(w, h, x2 as int, y as int); }
        let ghost prev = tiles@;
        let idx = (y * map_width + x2) as usize;
        if idx < tiles.len() && tiles[idx] == TileKind::Wall {
            tiles[idx] = TileKind::Floor;
        }
        proof {
            assert(tiles@[idx as int] != TileKind::Wall);
            assert forall|a: int| min_x <= a <= max_x implies #[trigger] open_at(tiles@, w, h, (a, y1 as int)) by {
                if (a, y1 as int) != (x2 as int, y as int) {
                    lemma_index_in_grid(w, h, a, y1 as int);
                    lemma_index_injective(w, h, a, y1 as int, x2 as int, y as int);
                    assert(open_at(prev, w, h, (a, y1 as int)));
                }
            }
            assert forall|b: int| min_y <= b < y + 1 implies #[trigger] open_at(tiles@, w, h, (x2 as int, b)) by {
                if b != y {
                    lemma_index_in_grid(w, h, x2 as int, b);
                    lemma_index_injective(w, h, x2 as int, b, x2 as int, y as int);
                    assert(open_at(prev, w, h, (x2 as int, b)));
                }
            }
            assert forall|a: int, b: int| 0 <= a < w && 0 <= b < h && !(b == y1 && min_x <= a <= max_x)
                && !(a == x2 && min_y <= b < y + 1)
                implies #[trigger] cell(tiles@, w, a, b) == cell(old(tiles)@, w, a, b) by {
                lemma_index_in_grid(w, h, a, b);
                lemma_index_injective(w, h, a, b, x2 as int, y as int);
                assert(cell(prev, w, a, b) == cell(old(tiles)@, w, a, b));
            }
        }
        y = y + 1;
    }
}

/// A uniformly chosen room index other than `exclude_idx`; with at most one
/// room there is no other, and `exclude_idx` itself comes back.
pub fn select_different_room_index(rng: &mut StdRng, total_rooms: usize, exclude_idx: usize) -> (r: usize)
    requires
        total_rooms <= 1 || exclude_idx + total_rooms - 1 <= usize::MAX,
    ensures
        total_rooms <= 1 ==> r == exclude_idx,
        total_rooms > 1 ==> r < total_rooms && r != exclude_idx,
{
    if total_rooms <= 1 {
        return exclude_idx;
    }
    let offset = random_range_usize(rng, 1, total_rooms);
    let sum = exclude_idx + offset;
    proof {
        vstd::arithmetic::div_mod::lemma_mod_pos_bound(sum as int, total_rooms as int);
        if exclude_idx >= total_rooms {
        } else if sum < total_rooms {
            vstd::arithmetic::div_mod::lemma_small_mod(sum as nat, total_rooms as nat);
        } else {
            vstd::arithmetic::div_mod::lemma_mod_sub_multiples_vanish(sum as int, total_rooms as int);
            vstd::arithmetic::div_mod::lemma_small_mod((sum - total_rooms) as nat, total_rooms as nat);
        }
    }
    sum % total_rooms
}


/// The tile of cell (x, y) in a row-major grid of width `w`.
pub open spec fn cell(tiles: Seq<TileKind>, w: int, x: int, y: int) -> TileKind {
    tiles[y * w + x]
}

/// The room lies inside a `w` by `h` map and is not empty.
pub open spec fn room_in_map(r: Room, w: int, h: int) -> bool {
    &&& 0 <= r.x
    &&& r.x + r.width <= w
    &&& 0 <= r.y
    &&& r.y + r.height <= h
    &&& r.width >= 1
    &&& r.height >= 1
}

/// Some room of `rooms` contains the cell `p`.
pub open spec fn in_some_room(rooms: Seq<Room>, p: (i32, i32)) -> bool {
    exists|i: int| 0 <= i < rooms.len() && (#[trigger] rooms[i]).contains(p.0 as int, p.1 as int)
}

/// One of the first `n` rooms contains the cell (x, y).
pub open spec fn covered_upto(rooms: Seq<Room>, n: int, x: int, y: int) -> bool {
    exists|k: int| 0 <= k < n && (#[trigger] rooms[k]).contains(x, y)
}

/// Distinct cells of a grid have distinct row-major indices.
pub proof fn lemma_index_injective(w: int, h: int, x1: int, y1: int, x2: int, y2: int)
    requires
        0 <= x1 < w,
        0 <= x2 < w,
        0 <= y1 < h,
        0 <= y2 < h,
        (x1, y1) != (x2, y2),
    ensures
        y1 * w + x1 != y2 * w + x2,
{
    if y1 < y2 {
        assert((y1 + 1) * w <= y2 * w) by (nonlinear_arith)
            requires y1 + 1 <= y2, 0 <= w;
        assert((y1 + 1) * w == y1 * w + w) by (nonlinear_arith);
    } else if y2 < y1 {
        assert((y2 + 1) * w <= y1 * w) by (nonlinear_arith)
            requires y2 + 1 <= y1, 0 <= w;
        assert((y2 + 1) * w == y2 * w + w) by (nonlinear_arith);
    }
}

/// Every walkable cell of the floor can be reached on foot from the spawn point.
pub open spec fn walkable_reachable(f: FloorMap) -> bool {
    forall|x: int, y: int| #[trigger] f.spec_is_walkable(x, y) ==> connected(
        f.tiles@, f.width as int, f.height as int, (f.spawn_point.0 as int, f.spawn_point.1 as int), (x, y))
}

/// Every open cell joined to the spawn point makes every walkable cell reachable.
proof fn lemma_walkable_reachable(f: FloorMap)
    requires
        f.wf(),
        forall|p: (int, int)| #[trigger] open_at(f.tiles@, f.width as int, f.height as int, p) ==> connected(
            f.tiles@, f.width as int, f.height as int, (f.spawn_point.0 as int, f.spawn_point.1 as int), p),
    ensures
        walkable_reachable(f),
{
    assert forall|x: int, y: int| #[trigger] f.spec_is_walkable(x, y) implies connected(
        f.tiles@, f.width as int, f.height as int, (f.spawn_point.0 as int, f.spawn_point.1 as int), (x, y)) by {
        assert(open_at(f.tiles@, f.width as int, f.height as int, (x, y)));
    }
}

/// Smallest room side the generator uses: `min_room_size`, but at least 3.
pub open spec fn room_lo(min_room_size: i32) -> int {
    if min_room_size > 3 { min_room_size as int } else { 3 }
}

/// Largest room side the generator uses: `max_room_size`, but at least `room_lo`.
pub open spec fn room_hi(min_room_size: i32, max_room_size: i32) -> int {
    if max_room_size > room_lo(min_room_size) { max_room_size as int } else { room_lo(min_room_size) }
}

/// The map is large enough to partition: both sides at least twice the
/// smallest room plus three.
pub open spec fn partitionable(width: i32, height: i32, min_room_size: i32) -> bool {
    width >= 2 * room_lo(min_room_size) + 3 && height >= 2 * room_lo(min_room_size) + 3
}

/// The room's sides lie in `[lo, hi]` and it keeps two cells from the map's
/// top and left edges and one from its bottom and right edges.
pub open spec fn room_within_border(r: Room, width: int, height: int, lo: int, hi: int) -> bool {
    &&& 2 <= r.x
    &&& r.x + r.width <= width - 1
    &&& 2 <= r.y
    &&& r.y + r.height <= height - 1
    &&& lo <= r.width <= hi
    &&& lo <= r.height <= hi
}

/// Opening walls into floor keeps a grid of walls and floor.
proof fn lemma_plain_opened(t1: Seq<TileKind>, t2: Seq<TileKind>, w: int, h: int)
    requires
        t1.len() == w * h,
        plain_tiles(t1, w, h),
        only_opened(t1, t2),
    ensures
        plain_tiles(t2, w, h),
{
    assert forall|a: int, b: int| 0 <= a < w && 0 <= b < h
        implies #[trigger] cell(t2, w, a, b) == TileKind::Wall || cell(t2, w, a, b) == TileKind::Floor by {
        lemma_index_in_grid(w, h, a, b);
        assert(cell(t1, w, a, b) == TileKind::Wall || cell(t1, w, a, b) == TileKind::Floor);
    }
}

/// The floor's open cells are exactly its rooms and the L-shaped corridors
/// of `pairs`, one fewer than the rooms, each joining the centres of two of
/// its rooms; every other cell inside the map is a wall.
pub open spec fn floor_cells_exact(f: FloorMap, pairs: Seq<(Room, Room)>) -> bool {
    &&& pairs.len() + 1 == f.rooms@.len()
    &&& pairs_from(pairs, f.rooms@)
    &&& forall|x: int, y: int| #[trigger] f.in_bounds(x, y) ==> (f.spec_is_walkable(x, y)
        <==> covered_upto(f.rooms@, f.rooms@.len() as int, x, y) || on_corridor(pairs, x, y))
}

/// Rooms opened on an all-wall grid, corridors carved, and markers written
/// on open cells: the open cells are the rooms and the corridors.
proof fn lemma_cells_exact(
    blank: Seq<TileKind>, carved: Seq<TileKind>, opened: Seq<TileKind>, ft: Seq<TileKind>,
    w: int, h: int, rooms: Seq<Room>, pairs: Seq<(Room, Room)>,
)
    requires
        blank.len() == w * h,
        forall|i: int| 0 <= i < blank.len() ==> #[trigger] blank[i] == TileKind::Wall,
        forall|k: int| 0 <= k < rooms.len() ==> room_in_map(#[trigger] rooms[k], w, h),
        forall|k: int, x: int, y: int| 0 <= k < rooms.len() && (#[trigger] rooms[k]).contains(x, y)
            ==> #[trigger] cell(carved, w, x, y) == TileKind::Floor,
        forall|a: int, b: int| 0 <= a < w && 0 <= b < h && !covered_upto(rooms, rooms.len() as int, a, b)
            ==> #[trigger] cell(carved, w, a, b) == cell(blank, w, a, b),
        opened_by(carved, opened, w, h, pairs),
        opens_kept(opened, ft, w, h),
        opens_kept(ft, opened, w, h),
    ensures
        forall|a: int, b: int| 0 <= a < w && 0 <= b < h ==> (#[trigger] open_at(ft, w, h, (a, b))
            <==> covered_upto(rooms, rooms.len() as int, a, b) || on_corridor(pairs, a, b)),
{
    assert forall|a: int, b: int| 0 <= a < w && 0 <= b < h implies (#[trigger] open_at(ft, w, h, (a, b))
        <==> covered_upto(rooms, rooms.len() as int, a, b) || on_corridor(pairs, a, b)) by {
        lemma_index_in_grid(w, h, a, b);
        assert(open_at(opened, w, h, (a, b)) <==> open_at(carved, w, h, (a, b)) || on_corridor(pairs, a, b));
        if covered_upto(rooms, rooms.len() as int, a, b) {
            let k = choose|k: int| 0 <= k < rooms.len() && (#[trigger] rooms[k]).contains(a, b);
            assert(cell(carved, w, a, b) == TileKind::Floor);
        } else {
            assert(cell(carved, w, a, b) == cell(blank, w, a, b));
            assert(blank[b * w + a] == TileKind::Wall);
        }
        if open_at(ft, w, h, (a, b)) {
            assert(open_at(opened, w, h, (a, b)));
        }
        if open_at(opened, w, h, (a, b)) {
            assert(open_at(ft, w, h, (a, b)));
        }
    }
}

/// The floor's open cells being its rooms and corridors makes it
/// `floor_cells_exact`.
proof fn lemma_floor_cells(f: FloorMap, pairs: Seq<(Room, Room)>)
    requires
        f.wf(),
        pairs.len() + 1 == f.rooms@.len(),
        pairs_from(pairs, f.rooms@),
        forall|a: int, b: int| 0 <= a < f.width && 0 <= b < f.height ==> (#[trigger] open_at(f.tiles@, f.width as int, f.height as int, (a, b))
            <==> covered_upto(f.rooms@, f.rooms@.len() as int, a, b) || on_corridor(pairs, a, b)),
    ensures
        floor_cells_exact(f, pairs),
{
    assert forall|x: int, y: int| #[trigger] f.in_bounds(x, y) implies (f.spec_is_walkable(x, y)
        <==> covered_upto(f.rooms@, f.rooms@.len() as int, x, y) || on_corridor(pairs, x, y)) by {
        assert(open_at(f.tiles@, f.width as int, f.height as int, (x, y))
            <==> covered_upto(f.rooms@, f.rooms@.len() as int, x, y) || on_corridor(pairs, x, y));
    }
}

/// Every cell of the grid is wall or floor.
pub open spec fn plain_tiles(t: Seq<TileKind>, w: int, h: int) -> bool {
    forall|a: int, b: int| 0 <= a < w && 0 <= b < h
        ==> #[trigger] cell(t, w, a, b) == TileKind::Wall || cell(t, w, a, b) == TileKind::Floor
}

/// The floor's stairs tile and chest tile are exactly those at
/// `stairs_position` and `treasure_chest_position`: no other cell holds one.
pub open spec fn markers_exact(f: FloorMap) -> bool {
    forall|x: int, y: int| #[trigger] f.in_bounds(x, y) ==> {
        &&& (f.spec_tile_at(x, y) == Some(TileKind::Stairs) <==> f.stairs_position == Some((x as i32, y as i32)))
        &&& (f.spec_tile_at(x, y) == Some(TileKind::TreasureChest)
            <==> f.treasure_chest_position == Some((x as i32, y as i32)))
    }
}

/// The tile a floor gets from a grid of walls and floor with the stairs or
/// the chest written at its position when that lies inside the map.
pub open spec fn marked_tile(f: FloorMap, base: Seq<TileKind>, x: int, y: int) -> TileKind {
    if f.stairs_position == Some((x as i32, y as i32)) {
        TileKind::Stairs
    } else if f.treasure_chest_position == Some((x as i32, y as i32)) {
        TileKind::TreasureChest
    } else {
        cell(base, f.width as int, x, y)
    }
}

/// A floor whose tiles are walls and floor but for the one marker written
/// at its position has exactly that marker.
proof fn lemma_markers(f: FloorMap, base: Seq<TileKind>)
    requires
        f.wf(),
        base.len() == f.tiles@.len(),
        plain_tiles(base, f.width as int, f.height as int),
        !(f.stairs_position is Some && f.treasure_chest_position is Some),
        f.stairs_position is None && f.treasure_chest_position is None ==> f.tiles@ == base,
        f.stairs_position matches Some(p) ==> if f.in_bounds(p.0 as int, p.1 as int) {
            f.tiles@ == base.update(p.1 * f.width + p.0, TileKind::Stairs)
        } else {
            f.tiles@ == base
        },
        f.treasure_chest_position matches Some(p) ==> if f.in_bounds(p.0 as int, p.1 as int) {
            f.tiles@ == base.update(p.1 * f.width + p.0, TileKind::TreasureChest)
        } else {
            f.tiles@ == base
        },
    ensures
        markers_exact(f),
        forall|x: int, y: int| #[trigger] f.in_bounds(x, y) ==> f.spec_tile_at(x, y) == Some(marked_tile(f, base, x, y)),
{
    let w = f.width as int;
    let h = f.height as int;
    assert forall|x: int, y: int| #[trigger] f.in_bounds(x, y) implies
        f.spec_tile_at(x, y) == Some(marked_tile(f, base, x, y)) by {
        lemma_index_in_grid(w, h, x, y);
        let xy = (x as i32, y as i32);
        assert(xy.0 as int == x && xy.1 as int == y);
        let mk = if f.stairs_position is Some { f.stairs_position } else { f.treasure_chest_position };
        let kind = if f.stairs_position is Some { TileKind::Stairs } else { TileKind::TreasureChest };
        if let Some(p) = mk {
            if f.in_bounds(p.0 as int, p.1 as int) {
                assert(f.tiles@ == base.update(p.1 * w + p.0, kind));
                lemma_index_in_grid(w, h, p.0 as int, p.1 as int);
                if (x, y) != (p.0 as int, p.1 as int) {
                    lemma_index_injective(w, h, x, y, p.0 as int, p.1 as int);
                    assert(xy != p);
                    assert(f.tiles@[y * w + x] == base[y * w + x]);
                } else {
                    assert(xy == p);
                    assert(f.tiles@[y * w + x] == kind);
                }
            } else {
                assert(f.tiles@ == base);
                assert(xy != p);
            }
        } else {
            assert(f.tiles@ == base);
        }
    }
    assert forall|x: int, y: int| #[trigger] f.in_bounds(x, y) implies {
        &&& (f.spec_tile_at(x, y) == Some(TileKind::Stairs) <==> f.stairs_position == Some((x as i32, y as i32)))
        &&& (f.spec_tile_at(x, y) == Some(TileKind::TreasureChest)
            <==> f.treasure_chest_position == Some((x as i32, y as i32)))
    } by {
        assert(f.spec_tile_at(x, y) == Some(marked_tile(f, base, x, y)));
        assert(cell(base, w, x, y) == TileKind::Wall || cell(base, w, x, y) == TileKind::Floor);
    }
}

/// The single room of a map too small to partition: the map less a
/// two-cell margin on each side, but never under 3 by 3, centred.
pub open spec fn fallback_room(width: int, height: int) -> Room {
    let rw = if width - 4 > 3 { width - 4 } else { 3 };
    let rh = if height - 4 > 3 { height - 4 } else { 3 };
    Room {
        x: trunc_half(width - rw) as i32,
        y: trunc_half(height - rh) as i32,
        width: rw as i32,
        height: rh as i32,
    }
}

/// Stairs of the fallback floor: one cell in from the room's top-left corner.
pub open spec fn fallback_stairs(width: int, height: int) -> (i32, i32) {
    let fr = fallback_room(width, height);
    ((fr.x + 1) as i32, (fr.y + 1) as i32)
}

/// Treasure chest of the fallback floor: one cell in from the room's bottom-right corner.
pub open spec fn fallback_chest(width: int, height: int) -> (i32, i32) {
    let fr = fallback_room(width, height);
    ((fr.x + fr.width - 2) as i32, (fr.y + fr.height - 2) as i32)
}

/// The tile at (x, y) of the fallback floor: the stairs (or, on the last
/// floor, the chest) at its place, floor elsewhere in the room, wall outside.
pub open spec fn fallback_tile(width: int, height: int, is_last_floor: bool, x: int, y: int) -> TileKind {
    let s = fallback_stairs(width, height);
    let c = fallback_chest(width, height);
    if !is_last_floor && s.0 == x && s.1 == y {
        TileKind::Stairs
    } else if is_last_floor && c.0 == x && c.1 == y {
        TileKind::TreasureChest
    } else if fallback_room(width, height).contains(x, y) {
        TileKind::Floor
    } else {
        TileKind::Wall
    }
}

/// A floor with one room, for maps too small to partition.
#[verifier::rlimit(50)]
fn generate_fallback_floor(width: i32, height: i32, is_last_floor: bool) -> (r: FloorMap)
    requires
        0 <= width * height <= i32::MAX,
        width >= i32::MIN + 4,
        height >= i32::MIN + 4,
    ensures
        r.width == width,
        r.height == height,
        r.wf(),
        r.rooms@ == seq![fallback_room(width as int, height as int)],
        r.spawn_point.0 == fallback_room(width as int, height as int).spec_center().0,
        r.spawn_point.1 == fallback_room(width as int, height as int).spec_center().1,
        fallback_room(width as int, height as int).width >= 3,
        fallback_room(width as int, height as int).height >= 3,
        crate::dungeon::fits_i32(fallback_room(width as int, height as int).x + fallback_room(width as int, height as int).width),
        crate::dungeon::fits_i32(fallback_room(width as int, height as int).y + fallback_room(width as int, height as int).height),
        r.stairs_position == if is_last_floor { None } else { Some(fallback_stairs(width as int, height as int)) },
        r.treasure_chest_position == if is_last_floor { Some(fallback_chest(width as int, height as int)) } else { None },
        r.stairs_position matches Some(p) ==> r.in_bounds(p.0 as int, p.1 as int)
            ==> r.spec_tile_at(p.0 as int, p.1 as int) == Some(TileKind::Stairs),
        r.treasure_chest_position matches Some(p) ==> r.in_bounds(p.0 as int, p.1 as int)
            ==> r.spec_tile_at(p.0 as int, p.1 as int) == Some(TileKind::TreasureChest),
        walkable_reachable(r),
        markers_exact(r),
        forall|x: int, y: int| #[trigger] r.in_bounds(x, y)
            ==> r.spec_tile_at(x, y) == Some(fallback_tile(width as int, height as int, is_last_floor, x, y)),
{
    let ghost fr = fallback_room(width as int, height as int);
    let mut tiles = vec![TileKind::Wall; (width * height) as usize];

    let room_w = if width - 4 > 3 { width - 4 } else { 3 };
    let room_h = if height - 4 > 3 { height - 4 } else { 3 };
    let room_x = (width - room_w) / 2;
    let room_y = (height - room_h) / 2;

    let room = Room { x: room_x, y: room_y, width: room_w, height: room_h };
    assert(room == fr);
    assert(room.width >= 3 && room.height >= 3);
    assert(crate::dungeon::fits_i32(room.x + room.width));
    assert(crate::dungeon::fits_i32(room.y + room.height));

    let ghost w = width as int;
    let ghost h = height as int;
    proof {
        assert forall|a: int, b: int| 0 <= a < w && 0 <= b < h
            implies #[trigger] cell(tiles@, w, a, b) == TileKind::Wall by {
            lemma_index_in_grid(w, h, a, b);
        }
    }
    let mut y = room.y;
    while y < room.y + room.height
        invariant
            room.y <= y <= room.y + room.height,
            room == fr,
            room.width >= 3 && room.height >= 3,
            crate::dungeon::fits_i32(room.x + room.width),
            crate::dungeon::fits_i32(room.y + room.height),
            0 <= width * height <= i32::MAX,
            tiles@.len() == width * height,
            w == width,
            h == height,
            forall|a: int, b: int| 0 <= a < w && 0 <= b < h ==> #[trigger] cell(tiles@, w, a, b)
                == (if room.contains(a, b) && b < y { TileKind::Floor } else { TileKind::Wall }),
        decreases room.y + room.height - y,
    {
        let mut x = room.x;
        while x < room.x + room.width
            invariant
                room.x <= x <= room.x + room.width,
                room.y <= y < room.y + room.height,
                room == fr,
                room.width >= 3 && room.height >= 3,
                crate::dungeon::fits_i32(room.x + room.width),
                crate::dungeon::fits_i32(room.y + room.height),
                0 <= width * height <= i32::MAX,
                tiles@.len() == width * height,
                w == width,
                h == height,
                forall|a: int, b: int| 0 <= a < w && 0 <= b < h ==> #[trigger] cell(tiles@, w, a, b)
                    == (if room.contains(a, b) && (b < y || (b == y && a < x)) { TileKind::Floor } else { TileKind::Wall }),
            decreases room.x + room.width - x,
        {
            let ghost prev = tiles@;
            if x >= 0 && x < width && y >= 0 && y < height {
                proof { lemma_index_in_grid(w, h, x as int, y as int); }
                tiles[(y * width + x) as usize] = TileKind::Floor;
            }
            proof {
                assert forall|a: int, b: int| 0 <= a < w && 0 <= b < h implies #[trigger] cell(tiles@, w, a, b)
                    == (if room.contains(a, b) && (b < y || (b == y && a < x + 1)) { TileKind::Floor } else { TileKind::Wall }) by {
                    if (a, b) != (x as int, y as int) {
                        lemma_index_in_grid(w, h, a, b);
                        if 0 <= x < w && 0 <= y < h {
                            lemma_index_in_grid(w, h, x as int, y as int);
                            lemma_index_injective(w, h, a, b, x as int, y as int);
                        }
                        assert(cell(prev, w, a, b)
                            == (if room.contains(a, b) && (b < y || (b == y && a < x)) { TileKind::Floor } else { TileKind::Wall }));
                    }
                }
            }
            x = x + 1;
        }
        y = y + 1;
    }
    let ghost filled = tiles@;

    let spawn_point = room.center();
    let stairs_position = if is_last_floor {
        None
    } else {
        let pos = (room.x + 1, room.y + 1);
        if pos.0 >= 0 && pos.0 < width && pos.1 >= 0 && pos.1 < height {
            proof { lemma_index_in_grid(width as int, height as int, pos.0 as int, pos.1 as int); }
            tiles[(pos.1 * width + pos.0) as usize] = TileKind::Stairs;
            proof {
                assert(room.contains(pos.0 as int, pos.1 as int));
                assert(cell(filled, w, pos.0 as int, pos.1 as int) == TileKind::Floor);
                lemma_reopen_cell(filled, w, h, pos.0 as int, pos.1 as int, TileKind::Stairs);
            }
        }
        Some(pos)
    };

    let treasure_chest_position = if is_last_floor {
        let pos = (room.x + room.width - 2, room.y + room.height - 2);
        if pos.0 >= 0 && pos.0 < width && pos.1 >= 0 && pos.1 < height {
            proof { lemma_index_in_grid(width as int, height as int, pos.0 as int, pos.1 as int); }
            tiles[(pos.1 * width + pos.0) as usize] = TileKind::TreasureChest;
            proof {
                assert(room.contains(pos.0 as int, pos.1 as int));
                assert(cell(filled, w, pos.0 as int, pos.1 as int) == TileKind::Floor);
                lemma_reopen_cell(filled, w, h, pos.0 as int, pos.1 as int, TileKind::TreasureChest);
            }
        }
        Some(pos)
    } else {
        None
    };
    proof {
        if tiles@ == filled {
            lemma_opens_kept_refl(filled, w, h);
        }
        lemma_fallback_reachable(filled, tiles@, w, h);
    }

    let r = FloorMap {
        width,
        height,
        tiles,
        rooms: vec![room],
        spawn_point,
        stairs_position,
        treasure_chest_position,
    };
    proof {
        lemma_walkable_reachable(r);
        assert forall|a: int, b: int| 0 <= a < w && 0 <= b < h
            implies #[trigger] cell(filled, w, a, b) == TileKind::Wall || cell(filled, w, a, b) == TileKind::Floor by {
            assert(cell(filled, w, a, b) == (if fr.contains(a, b) { TileKind::Floor } else { TileKind::Wall }));
        }
        lemma_markers(r, filled);
        assert forall|x: int, y: int| #[trigger] r.in_bounds(x, y)
            implies r.spec_tile_at(x, y) == Some(fallback_tile(width as int, height as int, is_last_floor, x, y)) by {
            assert(r.spec_tile_at(x, y) == Some(marked_tile(r, filled, x, y)));
            assert(cell(filled, w, x, y) == (if fr.contains(x, y) { TileKind::Floor } else { TileKind::Wall }));
            let xy = (x as i32, y as i32);
            assert(xy.0 as int == x && xy.1 as int == y);
        }
    }
    r
}

proof fn lemma_opens_kept_refl(t: Seq<TileKind>, w: int, h: int)
    ensures
        opens_kept(t, t, w, h),
{
}

/// The open cells of the fallback floor are those of its room inside the
/// map, and all of them are reached from the room's centre.
proof fn lemma_fallback_reachable(filled: Seq<TileKind>, ft: Seq<TileKind>, w: int, h: int)
    requires
        filled.len() == w * h,
        forall|a: int, b: int| 0 <= a < w && 0 <= b < h ==> #[trigger] cell(filled, w, a, b)
            == (if fallback_room(w, h).contains(a, b) { TileKind::Floor } else { TileKind::Wall }),
        opens_kept(filled, ft, w, h),
        opens_kept(ft, filled, w, h),
    ensures
        forall|p: (int, int)| #[trigger] open_at(ft, w, h, p) ==> connected(ft, w, h, fallback_room(w, h).spec_center(), p),
{
    let fr = fallback_room(w, h);
    let c = fr.spec_center();
    assert forall|p: (int, int)| #[trigger] open_at(ft, w, h, p) implies connected(ft, w, h, c, p) by {
        assert(open_at(filled, w, h, p));
        assert(cell(filled, w, p.0, p.1) != TileKind::Wall);
        assert(fr.contains(p.0, p.1));
        assert(0 <= c.0 < w && 0 <= c.1 < h);
        let x0 = if fr.x > 0 { fr.x as int } else { 0 };
        let y0 = if fr.y > 0 { fr.y as int } else { 0 };
        let x1 = if fr.x + fr.width < w { fr.x + fr.width } else { w };
        let y1 = if fr.y + fr.height < h { fr.y + fr.height } else { h };
        assert forall|x: int, y: int| x0 <= x < x1 && y0 <= y < y1 implies #[trigger] open_at(filled, w, h, (x, y)) by {
            assert(cell(filled, w, x, y) == TileKind::Floor);
        }
        lemma_rect_walk(filled, w, h, x0, y0, x1, y1, c, p);
        lemma_connected_mono(filled, ft, w, h, c, p);
    }
}


/// Rooms for a single-room layout. The corridors already join everything,
/// so no room is ever added.
fn add_fallback_room_if_needed(
    tiles: &mut Vec<TileKind>,
    _width: i32,
    _height: i32,
    _existing_rooms: &Vec<Room>,
) -> (r: Vec<Room>)
    ensures
        r@.len() == 0,
        final(tiles)@ == old(tiles)@,
{
    let _ = tiles;
    Vec::new()
}

/// Generates a floor by binary space partition: the map inside a one-cell
/// border is cut recursively, a room is placed in each leaf, sibling halves
/// are joined by corridors, the player spawns at the centre of a random
/// room, and the stairs (or, on the last floor, the treasure chest) go to
/// the centre of another room. Maps too small to cut, or cuts that leave no
/// room, get the single-room fallback floor.
#[verifier::rlimit(60)]
pub fn generate_bsp_floor(
    width: i32,
    height: i32,
    rng: &mut StdRng,
    min_room_size: i32,
    max_room_size: i32,
    is_last_floor: bool,
) -> (r: FloorMap)
    requires
        0 <= width * height <= i32::MAX,
        width >= i32::MIN + 4,
        height >= i32::MIN + 4,
        min_room_size * 2 + 3 <= i32::MAX,
    ensures
        r.width == width,
        r.height == height,
        r.wf(),
        r.rooms@.len() >= 1,
        in_some_room(r.rooms@, r.spawn_point),
        r.stairs_position is Some <==> !is_last_floor,
        r.treasure_chest_position is Some <==> is_last_floor,
        r.stairs_position matches Some(p) ==> in_some_room(r.rooms@, p),
        r.treasure_chest_position matches Some(p) ==> in_some_room(r.rooms@, p),
        width >= 3 && height >= 3 ==> forall|i: int| 0 <= i < r.rooms@.len()
            ==> room_in_map(#[trigger] r.rooms@[i], width as int, height as int),
        r.stairs_position matches Some(p) ==> r.in_bounds(p.0 as int, p.1 as int)
            ==> r.spec_tile_at(p.0 as int, p.1 as int) == Some(TileKind::Stairs),
        r.treasure_chest_position matches Some(p) ==> r.in_bounds(p.0 as int, p.1 as int)
            ==> r.spec_tile_at(p.0 as int, p.1 as int) == Some(TileKind::TreasureChest),
        forall|i: int, j: int| 0 <= i < r.rooms@.len() && 0 <= j < r.rooms@.len() && i != j
            ==> rooms_apart(#[trigger] r.rooms@[i], #[trigger] r.rooms@[j]),
        walkable_reachable(r),
        markers_exact(r),
        partitionable(width, height, min_room_size) ==> exists|pairs: Seq<(Room, Room)>| #[trigger]
            floor_cells_exact(r, pairs),
        partitionable(width, height, min_room_size) ==> forall|i: int| 0 <= i < r.rooms@.len()
            ==> room_within_border(#[trigger] r.rooms@[i], width as int, height as int,
                room_lo(min_room_size), room_hi(min_room_size, max_room_size)),
        !partitionable(width, height, min_room_size) ==> {
            let fr = fallback_room(width as int, height as int);
            &&& r.rooms@ == seq![fr]
            &&& r.spawn_point.0 == fr.spec_center().0
            &&& r.spawn_point.1 == fr.spec_center().1
            &&& r.stairs_position == if is_last_floor { None } else { Some(fallback_stairs(width as int, height as int)) }
            &&& r.treasure_chest_position
                == if is_last_floor { Some(fallback_chest(width as int, height as int)) } else { None }
            &&& forall|x: int, y: int| #[trigger] r.in_bounds(x, y)
                ==> r.spec_tile_at(x, y) == Some(fallback_tile(width as int, height as int, is_last_floor, x, y))
        },
        r.rooms@.len() > 1 ==> {
            let lo = if min_room_size > 3 { min_room_size as int } else { 3 };
            let hi = if max_room_size > lo { max_room_size as int } else { lo };
            &&& forall|i: int| 0 <= i < r.rooms@.len() ==> {
                &&& lo <= (#[trigger] r.rooms@[i]).width <= hi
                &&& lo <= r.rooms@[i].height <= hi
            }
            &&& r.spec_tile_at(r.spawn_point.0 as int, r.spawn_point.1 as int) == Some(TileKind::Floor)
            &&& r.stairs_position matches Some(p) ==> p != r.spawn_point
            &&& r.treasure_chest_position matches Some(p) ==> p != r.spawn_point
        },
{
    let min_room = if min_room_size > 3 { min_room_size } else { 3 };
    let max_room = if max_room_size > min_room { max_room_size } else { min_room };

    let min_required = min_room * 2 + 3;
    if width < min_required || height < min_required {
        let r = generate_fallback_floor(width, height, is_last_floor);
        proof { fallback_facts(width as int, height as int, r); }
        return r;
    }
    proof {
        assert(width >= 9 && height >= 9);
        assert(width <= i32::MAX / 9) by (nonlinear_arith)
            requires width * height <= i32::MAX, height >= 9, width >= 9;
        assert(height <= i32::MAX / 9) by (nonlinear_arith)
            requires width * height <= i32::MAX, height >= 9, width >= 9;
    }

    let mut tiles = vec![TileKind::Wall; (width * height) as usize];

    let mut root = BspNode::new(1, 1, width - 2, height - 2);
    root.split(rng, min_room);
    let ghost cut = root;
    root.place_rooms(rng, min_room, max_room);
    proof {
        root.lemma_fully_split_shape(cut, min_room as int);
        root.lemma_has_room(min_room as int);
    }

    let rooms = root.collect_rooms();

    if rooms.len() == 0 {
        let r = generate_fallback_floor(width, height, is_last_floor);
        proof { fallback_facts(width as int, height as int, r); }
        return r;
    }

    proof { root.lemma_tree_rooms(min_room as int, max_room as int); }
    let ghost lo = min_room as int;
    let ghost hi = max_room as int;
    // every room lies two cells or more inside the map's edges
    assert forall|i: int| 0 <= i < rooms@.len() implies {
        &&& 2 <= (#[trigger] rooms@[i]).x
        &&& rooms@[i].x + rooms@[i].width <= width - 1
        &&& 2 <= rooms@[i].y
        &&& rooms@[i].y + rooms@[i].height <= height - 1
        &&& lo <= rooms@[i].width <= hi
        &&& lo <= rooms@[i].height <= hi
    } by {
        assert(root.room_fits(rooms@[i], lo, hi));
    }

    let ghost blank = tiles@;
    carve_rooms(&mut tiles, &rooms, width, height);

    let ghost carved = tiles@;
    proof {
        assert forall|i: int| 0 <= i < blank.len() implies #[trigger] blank[i] == TileKind::Wall by {}
        lemma_carved_anchored(blank, carved, width as int, height as int, rooms@);
        assert forall|a: int, b: int| 0 <= a < width && 0 <= b < height
            implies #[trigger] cell(carved, width as int, a, b) == TileKind::Wall
                || cell(carved, width as int, a, b) == TileKind::Floor by {
            lemma_index_in_grid(width as int, height as int, a, b);
            if covered_upto(rooms@, rooms@.len() as int, a, b) {
                let k = choose|k: int| 0 <= k < rooms@.len() && (#[trigger] rooms@[k]).contains(a, b);
                assert(cell(carved, width as int, a, b) == TileKind::Floor);
            } else {
                assert(cell(carved, width as int, a, b) == cell(blank, width as int, a, b));
            }
        }
    }
    proof { root.lemma_wf_weaken(min_room as int, max_room as int, 1, i32::MAX as int); }
    let Ghost(pairs) = root.connect_rooms(&mut tiles, width, Ghost(height as int), Ghost(rooms@));
    proof {
        assert forall|k: int, x: int, y: int| 0 <= k < rooms@.len() && (#[trigger] rooms@[k]).contains(x, y)
            implies #[trigger] cell(tiles@, width as int, x, y) == TileKind::Floor by {
            assert(cell(carved, width as int, x, y) == TileKind::Floor);
            lemma_index_in_grid(width as int, height as int, x, y);
        }
    }

    proof {
        root.lemma_room_count(min_room as int, max_room as int);
        assert((width - 2) * (height - 2) <= width * height) by (nonlinear_arith)
            requires width >= 9, height >= 9;
    }
    let spawn_idx = random_range_usize(rng, 0, rooms.len());
    let spawn_point = rooms[spawn_idx].center();
    let ghost opened = tiles@;
    proof { lemma_plain_opened(carved, opened, width as int, height as int); }
    let ghost spawn_room = rooms@[spawn_idx as int];
    proof {
        assert(spawn_room.contains(spawn_point.0 as int, spawn_point.1 as int));
        assert(cell(opened, width as int, spawn_point.0 as int, spawn_point.1 as int) == TileKind::Floor);
    }

    let stairs_position = if is_last_floor {
        None
    } else {
        let stairs_idx = select_different_room_index(rng, rooms.len(), spawn_idx);
        let pos = rooms[stairs_idx].center();
        proof {
            lemma_index_in_grid(width as int, height as int, pos.0 as int, pos.1 as int);
            lemma_index_in_grid(width as int, height as int, spawn_point.0 as int, spawn_point.1 as int);
            assert(rooms@[stairs_idx as int].contains(pos.0 as int, pos.1 as int));
            if rooms.len() > 1 {
                lemma_distinct_centers(spawn_room, rooms@[stairs_idx as int]);
                lemma_index_injective(width as int, height as int, pos.0 as int, pos.1 as int,
                    spawn_point.0 as int, spawn_point.1 as int);
            }
        }
        let idx = (pos.1 * width + pos.0) as usize;
        tiles[idx] = TileKind::Stairs;
        proof {
            lemma_reopen_cell(opened, width as int, height as int, pos.0 as int, pos.1 as int, TileKind::Stairs);
        }
        Some(pos)
    };

    let treasure_chest_position = if is_last_floor {
        let chest_idx = select_different_room_index(rng, rooms.len(), spawn_idx);
        let pos = rooms[chest_idx].center();
        proof {
            lemma_index_in_grid(width as int, height as int, pos.0 as int, pos.1 as int);
            lemma_index_in_grid(width as int, height as int, spawn_point.0 as int, spawn_point.1 as int);
            assert(rooms@[chest_idx as int].contains(pos.0 as int, pos.1 as int));
            if rooms.len() > 1 {
                lemma_distinct_centers(spawn_room, rooms@[chest_idx as int]);
                lemma_index_injective(width as int, height as int, pos.0 as int, pos.1 as int,
                    spawn_point.0 as int, spawn_point.1 as int);
            }
        }
        let idx = (pos.1 * width + pos.0) as usize;
        tiles[idx] = TileKind::TreasureChest;
        proof {
            lemma_reopen_cell(opened, width as int, height as int, pos.0 as int, pos.1 as int, TileKind::TreasureChest);
        }
        Some(pos)
    } else {
        None
    };
    proof {
        lemma_all_reachable(opened, tiles@, width as int, height as int, rooms@, spawn_idx as int);
        lemma_cells_exact(blank, carved, opened, tiles@, width as int, height as int, rooms@, pairs);
    }

    if rooms.len() <= 1 {
        let fallback_rooms = add_fallback_room_if_needed(&mut tiles, width, height, &rooms);
        let mut all_rooms = rooms;
        let mut extra = fallback_rooms;
        all_rooms.append(&mut extra);
        let r = FloorMap {
            width,
            height,
            tiles,
            rooms: all_rooms,
            spawn_point,
            stairs_position,
            treasure_chest_position,
        };
        proof {
            lemma_walkable_reachable(r);
            lemma_markers(r, opened);
            assert(r.rooms@ == rooms@);
            lemma_floor_cells(r, pairs);
        }
        return r;
    }

    let r = FloorMap {
        width,
        height,
        tiles,
        rooms,
        spawn_point,
        stairs_position,
        treasure_chest_position,
    };
    proof {
        lemma_walkable_reachable(r);
        lemma_markers(r, opened);
        lemma_floor_cells(r, pairs);
    }
    r
}


/// Opens every cell of every room into floor.
fn carve_rooms(tiles: &mut Vec<TileKind>, rooms: &Vec<Room>, width: i32, height: i32)
    requires
        9 <= width <= i32::MAX / 9,
        9 <= height <= i32::MAX / 9,
        width * height <= i32::MAX,
        old(tiles)@.len() == width * height,
        forall|k: int| 0 <= k < rooms@.len() ==> {
            &&& 2 <= (#[trigger] rooms@[k]).x
            &&& rooms@[k].x + rooms@[k].width <= width - 1
            &&& 2 <= rooms@[k].y
            &&& rooms@[k].y + rooms@[k].height <= height - 1
            &&& 3 <= rooms@[k].width
            &&& 3 <= rooms@[k].height
        },
    ensures
        final(tiles)@.len() == width * height,
        forall|k: int, x: int, y: int| 0 <= k < rooms@.len() && (#[trigger] rooms@[k]).contains(x, y)
            ==> #[trigger] cell(final(tiles)@, width as int, x, y) == TileKind::Floor,
        forall|a: int, b: int| 0 <= a < width && 0 <= b < height && !covered_upto(rooms@, rooms@.len() as int, a, b)
            ==> #[trigger] cell(final(tiles)@, width as int, a, b) == cell(old(tiles)@, width as int, a, b),
{
    let mut i: usize = 0;
    while i < rooms.len()
        invariant
            i <= rooms@.len(),
            9 <= width <= i32::MAX / 9,
            9 <= height <= i32::MAX / 9,
            width * height <= i32::MAX,
            tiles@.len() == width * height,
            forall|k: int| 0 <= k < rooms@.len() ==> {
                &&& 2 <= (#[trigger] rooms@[k]).x
                &&& rooms@[k].x + rooms@[k].width <= width - 1
                &&& 2 <= rooms@[k].y
                &&& rooms@[k].y + rooms@[k].height <= height - 1
                &&& 3 <= rooms@[k].width
                &&& 3 <= rooms@[k].height
            },
            forall|k: int, x: int, y: int| 0 <= k < i && (#[trigger] rooms@[k]).contains(x, y)
                ==> #[trigger] cell(tiles@, width as int, x, y) == TileKind::Floor,
            forall|a: int, b: int| 0 <= a < width && 0 <= b < height && !covered_upto(rooms@, i as int, a, b)
                ==> #[trigger] cell(tiles@, width as int, a, b) == cell(old(tiles)@, width as int, a, b),
        decreases rooms@.len() - i,
    {
        let room = rooms[i];
        let mut y = room.y;
        while y < room.y + room.height
            invariant
                i < rooms@.len(),
                room == rooms@[i as int],
                forall|k: int| 0 <= k < rooms@.len() ==> {
                    &&& 2 <= (#[trigger] rooms@[k]).x
                    &&& rooms@[k].x + rooms@[k].width <= width - 1
                    &&& 2 <= rooms@[k].y
                    &&& rooms@[k].y + rooms@[k].height <= height - 1
                    &&& 3 <= rooms@[k].width
                    &&& 3 <= rooms@[k].height
                },
                room.y <= y <= room.y + room.height,
                3 <= room.width,
                2 <= room.x,
                room.x + room.width <= width - 1,
                2 <= room.y,
                room.y + room.height <= height - 1,
                9 <= width <= i32::MAX / 9,
                9 <= height <= i32::MAX / 9,
                width * height <= i32::MAX,
                tiles@.len() == width * height,
                forall|k: int, x: int, yy: int| 0 <= k < i && (#[trigger] rooms@[k]).contains(x, yy)
                    ==> #[trigger] cell(tiles@, width as int, x, yy) == TileKind::Floor,
                forall|x: int, yy: int| room.contains(x, yy) && yy < y
                    ==> #[trigger] cell(tiles@, width as int, x, yy) == TileKind::Floor,
                forall|a: int, b: int| 0 <= a < width && 0 <= b < height && !covered_upto(rooms@, i + 1, a, b)
                    ==> #[trigger] cell(tiles@, width as int, a, b) == cell(old(tiles)@, width as int, a, b),
            decreases room.y + room.height - y,
        {
            let mut x = room.x;
            while x < room.x + room.width
                invariant
                    i < rooms@.len(),
                    room == rooms@[i as int],
                    forall|k: int| 0 <= k < rooms@.len() ==> {
                        &&& 2 <= (#[trigger] rooms@[k]).x
                        &&& rooms@[k].x + rooms@[k].width <= width - 1
                        &&& 2 <= rooms@[k].y
                        &&& rooms@[k].y + rooms@[k].height <= height - 1
                        &&& 3 <= rooms@[k].width
                        &&& 3 <= rooms@[k].height
                    },
                    room.x <= x <= room.x + room.width,
                    room.y <= y < room.y + room.height,
                    3 <= room.width,
                    2 <= room.x,
                    room.x + room.width <= width - 1,
                    2 <= room.y,
                    room.y + room.height <= height - 1,
                    9 <= width <= i32::MAX / 9,
                    9 <= height <= i32::MAX / 9,
                    width * height <= i32::MAX,
                    tiles@.len() == width * height,
                    forall|k: int, xx: int, yy: int| 0 <= k < i && (#[trigger] rooms@[k]).contains(xx, yy)
                        ==> #[trigger] cell(tiles@, width as int, xx, yy) == TileKind::Floor,
                    forall|xx: int, yy: int| room.contains(xx, yy) && yy < y
                        ==> #[trigger] cell(tiles@, width as int, xx, yy) == TileKind::Floor,
                    forall|xx: int| room.x <= xx < x
                        ==> #[trigger] cell(tiles@, width as int, xx, y as int) == TileKind::Floor,
                    forall|a: int, b: int| 0 <= a < width && 0 <= b < height && !covered_upto(rooms@, i + 1, a, b)
                        ==> #[trigger] cell(tiles@, width as int, a, b) == cell(old(tiles)@, width as int, a, b),
                decreases room.x + room.width - x,
            {
                let ghost prev = tiles@;
                if x >= 0 && x < width && y >= 0 && y < height {
                    proof { lemma_index_in_grid(width as int, height as int, x as int, y as int); }
                    tiles[(y * width + x) as usize] = TileKind::Floor;
                }
                proof {
                    assert forall|k: int, xx: int, yy: int| 0 <= k < i && (#[trigger] rooms@[k]).contains(xx, yy)
                        implies #[trigger] cell(tiles@, width as int, xx, yy) == TileKind::Floor by {
                        lemma_index_in_grid(width as int, height as int, xx, yy);
                        assert(cell(prev, width as int, xx, yy) == TileKind::Floor);
                    }
                    assert forall|xx: int, yy: int| room.contains(xx, yy) && yy < y
                        implies #[trigger] cell(tiles@, width as int, xx, yy) == TileKind::Floor by {
                        lemma_index_in_grid(width as int, height as int, xx, yy);
                        assert(cell(prev, width as int, xx, yy) == TileKind::Floor);
                    }
                    assert forall|xx: int| room.x <= xx < x + 1
                        implies #[trigger] cell(tiles@, width as int, xx, y as int) == TileKind::Floor by {
                        lemma_index_in_grid(width as int, height as int, xx, y as int);
                        if xx < x {
                            assert(cell(prev, width as int, xx, y as int) == TileKind::Floor);
                        }
                    }
                    assert(rooms@[i as int].contains(x as int, y as int));
                    assert(covered_upto(rooms@, i + 1, x as int, y as int));
                    assert forall|a: int, b: int| 0 <= a < width && 0 <= b < height && !covered_upto(rooms@, i + 1, a, b)
                        implies #[trigger] cell(tiles@, width as int, a, b) == cell(old(tiles)@, width as int, a, b) by {
                        lemma_index_in_grid(width as int, height as int, a, b);
                        lemma_index_in_grid(width as int, height as int, x as int, y as int);
                        lemma_index_injective(width as int, height as int, a, b, x as int, y as int);
                        assert(cell(prev, width as int, a, b) == cell(old(tiles)@, width as int, a, b));
                    }
                }
                x = x + 1;
            }
            proof {
                assert forall|xx: int, yy: int| room.contains(xx, yy) && yy < y + 1
                    implies #[trigger] cell(tiles@, width as int, xx, yy) == TileKind::Floor by {
                    if yy == y {
                        assert(cell(tiles@, width as int, xx, y as int) == TileKind::Floor);
                    }
                }
            }
            y = y + 1;
        }
        proof {
            assert forall|k: int, xx: int, yy: int| 0 <= k < i + 1 && (#[trigger] rooms@[k]).contains(xx, yy)
                implies #[trigger] cell(tiles@, width as int, xx, yy) == TileKind::Floor by {
                if k == i {
                    assert(room.contains(xx, yy));
                }
            }
        }
        i = i + 1;
    }

}

/// The centre of a room of sides at least 1 is one of its cells, so rooms
/// that share no cell have different centres.
pub proof fn lemma_distinct_centers(a: Room, b: Room)
    requires
        rooms_apart(a, b),
        a.width >= 1,
        a.height >= 1,
        b.width >= 1,
        b.height >= 1,
    ensures
        a.contains(a.spec_center().0, a.spec_center().1),
        b.contains(b.spec_center().0, b.spec_center().1),
        a.spec_center() != b.spec_center(),
{
}

/// The fallback floor meets the promises of `generate_bsp_floor`.
proof fn fallback_facts(width: int, height: int, r: FloorMap)
    requires
        r.rooms@ == seq![fallback_room(width, height)],
        r.spawn_point.0 == fallback_room(width, height).spec_center().0,
        r.spawn_point.1 == fallback_room(width, height).spec_center().1,
        fallback_room(width, height).width >= 3,
        fallback_room(width, height).height >= 3,
        crate::dungeon::fits_i32(fallback_room(width, height).x + fallback_room(width, height).width),
        crate::dungeon::fits_i32(fallback_room(width, height).y + fallback_room(width, height).height),
        r.stairs_position matches Some(p) ==> p == fallback_stairs(width, height),
        r.treasure_chest_position matches Some(p) ==> p == fallback_chest(width, height),
        width >= i32::MIN + 4,
        height >= i32::MIN + 4,
    ensures
        in_some_room(r.rooms@, r.spawn_point),
        r.stairs_position matches Some(p) ==> in_some_room(r.rooms@, p),
        r.treasure_chest_position matches Some(p) ==> in_some_room(r.rooms@, p),
        width >= 3 && height >= 3 ==> room_in_map(fallback_room(width, height), width, height),
{
    let fr = fallback_room(width, height);
    assert(r.rooms@[0] == fr);
    assert(fr.contains(r.spawn_point.0 as int, r.spawn_point.1 as int));
    if let Some(p) = r.stairs_position {
        assert(fr.contains(p.0 as int, p.1 as int));
    }
    if let Some(p) = r.treasure_chest_position {
        assert(fr.contains(p.0 as int, p.1 as int));
    }
}

} // verus!
