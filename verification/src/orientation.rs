use vstd::prelude::*;
use crate::bitset::Bitset;
use crate::coord::Coord;
use crate::minmax::imin;
use crate::minmax::imax;
use crate::minmax::lemma_minmax;
use crate::minmax::lemma_minmax_shift;
use crate::minmax::lemma_minmax_neg;
use crate::minmax::lemma_minmax_eq;

verus! {

/// Projection of a block sequence onto the x axis, as mathematical integers.
pub open spec fn xs(s: Seq<Coord>) -> Seq<int> {
    Seq::new(s.len(), |i: int| s[i].x as int)
}

/// Projection onto the y axis.
pub open spec fn ys(s: Seq<Coord>) -> Seq<int> {
    Seq::new(s.len(), |i: int| s[i].y as int)
}

/// Projection onto the z axis.
pub open spec fn zs(s: Seq<Coord>) -> Seq<int> {
    Seq::new(s.len(), |i: int| s[i].z as int)
}

/// The block `c` occurs somewhere in `s`.
pub open spec fn contains_coord(s: Seq<Coord>, c: Coord) -> bool {
    exists|j: int| 0 <= j < s.len() && s[j] == c
}

/// Every block of `a` occurs in `b`: `a`'s blocks are a subset of `b`'s.
pub open spec fn contains_all(a: Seq<Coord>, b: Seq<Coord>) -> bool {
    forall|i: int| 0 <= i < a.len() ==> contains_coord(b, a[i])
}

/// `t` is `s` translated so the least coordinate on each axis becomes 0:
/// the shape's bounding box is anchored at the origin.
pub open spec fn is_anchored_translate(t: Seq<Coord>, s: Seq<Coord>) -> bool {
    &&& t.len() == s.len()
    &&& forall|i: int|
        0 <= i < s.len() ==> t[i].x == s[i].x - imin(xs(s)) && t[i].y == s[i].y - imin(ys(s))
            && t[i].z == s[i].z - imin(zs(s))
}

/// The shape is anchored (least coordinate 0 on each axis) and fits in a
/// bounding cube of edge `e`.
pub open spec fn anchored_within(s: Seq<Coord>, e: int) -> bool {
    &&& imin(xs(s)) == 0 && imax(xs(s)) <= e
    &&& imin(ys(s)) == 0 && imax(ys(s)) <= e
    &&& imin(zs(s)) == 0 && imax(zs(s)) <= e
}

/// The shape translated so the least coordinate on each axis becomes 0.
pub open spec fn spec_normalise(s: Seq<Coord>) -> Seq<Coord> {
    Seq::new(
        s.len(),
        |i: int|
            Coord {
                x: (s[i].x - imin(xs(s))) as i32,
                y: (s[i].y - imin(ys(s))) as i32,
                z: (s[i].z - imin(zs(s))) as i32,
            },
    )
}

/// The quarter turn that reorients which face points in the reference
/// direction: (x, y, z) goes to (x, z, -y).
pub open spec fn spec_rot_next(s: Seq<Coord>) -> Seq<Coord> {
    Seq::new(s.len(), |i: int| Coord { x: s[i].x, y: s[i].z, z: (-(s[i].y as int)) as i32 })
}

/// The clockwise spin: (x, y, z) goes to (z, y, -x).
pub open spec fn spec_rot_clk(s: Seq<Coord>) -> Seq<Coord> {
    Seq::new(s.len(), |i: int| Coord { x: s[i].z, y: s[i].y, z: (-(s[i].x as int)) as i32 })
}

/// The counter-clockwise spin: (x, y, z) goes to (-z, y, x).
pub open spec fn spec_rot_cclk(s: Seq<Coord>) -> Seq<Coord> {
    Seq::new(s.len(), |i: int| Coord { x: (-(s[i].z as int)) as i32, y: s[i].y, z: s[i].x })
}

/// The kept list with the candidate appended iff it matches no kept shape.
pub open spec fn keep_if_new(kept: Seq<Seq<Coord>>, cand: Seq<Coord>) -> Seq<Seq<Coord>> {
    if forall|k: int| 0 <= k < kept.len() ==> !contains_all(kept[k], cand) {
        kept.push(cand)
    } else {
        kept
    }
}

/// Three spins about one axis, each re-anchored and novelty-checked.
pub open spec fn inner_spins(
    ori: Seq<Coord>,
    kept: Seq<Seq<Coord>>,
    clk: bool,
    rot: int,
) -> (Seq<Coord>, Seq<Seq<Coord>>)
    decreases 3 - rot,
{
    if rot < 0 || rot >= 3 {
        (ori, kept)
    } else {
        let o2 = spec_normalise(
            if clk {
                spec_rot_clk(ori)
            } else {
                spec_rot_cclk(ori)
            },
        );
        inner_spins(o2, keep_if_new(kept, o2), clk, rot + 1)
    }
}

/// The six outer reorientations of the enumeration, each preceded by three
/// inner spins with alternating spin direction.
pub open spec fn outer_steps(
    ori: Seq<Coord>,
    kept: Seq<Seq<Coord>>,
    clk: bool,
    d: int,
) -> Seq<Seq<Coord>>
    decreases 6 - d,
{
    if d < 0 || d >= 6 {
        kept
    } else {
        let p = inner_spins(ori, kept, clk, 0);
        let o2 = spec_normalise(spec_rot_next(p.0));
        outer_steps(o2, keep_if_new(p.1, o2), !clk, d + 1)
    }
}

/// The exact block lists the orientation enumeration returns, in order:
/// start from the anchored shape and run the six-by-four turn schedule,
/// keeping each position that matches no earlier kept one.
pub open spec fn spec_orientations(s: Seq<Coord>) -> Seq<Seq<Coord>> {
    outer_steps(spec_normalise(s), seq![spec_normalise(s)], true, 0)
}

/// The block lists of a list of orientations, in order.
pub open spec fn blocks_of(os: Seq<Orintaion>) -> Seq<Seq<Coord>> {
    os.map_values(|o: Orintaion| o.blocks@)
}

/// Longest edge of the shape's bounding box over the three axes.
pub open spec fn max_extent(s: Seq<Coord>) -> int {
    let ex = imax(xs(s)) - imin(xs(s));
    let ey = imax(ys(s)) - imin(ys(s));
    let ez = imax(zs(s)) - imin(zs(s));
    if ex >= ey && ex >= ez {
        ex
    } else if ey >= ez {
        ey
    } else {
        ez
    }
}

/// Cell (x, y, z) lies inside the cubic grid.
pub open spec fn in_grid(x: int, y: int, z: int) -> bool {
    0 <= x < 4 && 0 <= y < 4 && 0 <= z < 4
}

/// The occupancy-bit index of grid cell (x, y, z): z major, x minor.
pub open spec fn cell_index(x: int, y: int, z: int) -> int {
    16 * z + 4 * y + x
}

/// Every one of the blocks, shifted by the offset, stays inside the grid.
pub open spec fn valid_at(b: Seq<Coord>, dx: int, dy: int, dz: int) -> bool {
    forall|i: int| 0 <= i < b.len() ==> in_grid(b[i].x + dx, b[i].y + dy, b[i].z + dz)
}

/// Footprint mask of the first `n` blocks, shifted by the offset.
pub open spec fn mask_prefix(b: Seq<Coord>, n: int, dx: int, dy: int, dz: int) -> u64
    decreases n,
{
    if n <= 0 {
        0u64
    } else {
        mask_prefix(b, n - 1, dx, dy, dz) | (1u64 << (cell_index(
            b[n - 1].x + dx,
            b[n - 1].y + dy,
            b[n - 1].z + dz,
        ) as usize))
    }
}

/// Footprint mask of the whole shape at the offset.
pub open spec fn mask_at(b: Seq<Coord>, dx: int, dy: int, dz: int) -> u64 {
    mask_prefix(b, b.len() as int, dx, dy, dz)
}

/// The placement masks of the shape for the first `t` candidate translations,
/// offsets enumerated as (t/16, (t%16)/4, t%4): in-bounds ones kept in order,
/// out-of-bounds ones discarded entirely.
pub open spec fn placements_upto(b: Seq<Coord>, t: int) -> Seq<u64>
    decreases t,
{
    if t <= 0 {
        Seq::empty()
    } else {
        let p = placements_upto(b, t - 1);
        let dx = (t - 1) / 16;
        let dy = ((t - 1) % 16) / 4;
        let dz = (t - 1) % 4;
        if valid_at(b, dx, dy, dz) {
            p.push(mask_at(b, dx, dy, dz))
        } else {
            p
        }
    }
}

/// Every legal placement mask of the shape: one per orientation-preserving
/// translation that keeps all blocks inside the grid.
pub open spec fn spec_placements(b: Seq<Coord>) -> Seq<u64> {
    placements_upto(b, 64)
}

/// One primitive quarter turn: `Next` reorients which face points in the
/// reference direction; `Clk` and `CClk` spin about the vertical axis.
#[derive(Clone, Copy)]
enum Direction {
    Next,
    Clk,
    CClk,
}

/// An ordered list of block coordinates: one rotation of a piece's shape.
#[derive(Clone, Debug, PartialEq)]
pub struct Orintaion {
    pub blocks: Vec<Coord>,
}

impl Orintaion {
    pub fn new(blocks: Vec<Coord>) -> (r: Orintaion)
        ensures
            r.blocks@ == blocks@,
    {
        Orintaion { blocks }
    }

    /// A fresh orientation holding the same blocks.
    fn copy_of(&self) -> (r: Orintaion)
        ensures
            r.blocks@ == self.blocks@,
    {
        let mut blocks: Vec<Coord> = Vec::new();
        let mut i: usize = 0;
        while i < self.blocks.len()
            invariant
                i <= self.blocks@.len(),
                blocks@ == self.blocks@.take(i as int),
            decreases self.blocks@.len() - i,
        {
            blocks.push(self.blocks[i]);
            proof {
                assert(self.blocks@.take(i + 1) =~= self.blocks@.take(i as int).push(
                    self.blocks@[i as int],
                ));
            }
            i += 1;
        }
        proof {
            assert(self.blocks@.take(self.blocks@.len() as int) =~= self.blocks@);
        }
        Orintaion { blocks }
    }

    /// Translates the shape so its first block sits at the origin.
    #[allow(dead_code)]
    fn normalise_first(&self) -> (r: Orintaion)
        requires
            self.blocks@.len() > 0,
            forall|i: int| #![trigger self.blocks@[i]]
                0 <= i < self.blocks@.len() ==> i32::MIN <= self.blocks@[i].x
                    - self.blocks@[0].x <= i32::MAX && i32::MIN <= self.blocks@[i].y
                    - self.blocks@[0].y <= i32::MAX && i32::MIN <= self.blocks@[i].z
                    - self.blocks@[0].z <= i32::MAX,
        ensures
            r.blocks@.len() == self.blocks@.len(),
            forall|i: int| #![trigger r.blocks@[i]]
                0 <= i < self.blocks@.len() ==> r.blocks@[i].x == self.blocks@[i].x
                    - self.blocks@[0].x && r.blocks@[i].y == self.blocks@[i].y
                    - self.blocks@[0].y && r.blocks@[i].z == self.blocks@[i].z
                    - self.blocks@[0].z,
    {
        let first = self.blocks[0];
        let mut blocks: Vec<Coord> = Vec::new();
        let mut i: usize = 0;
        while i < self.blocks.len()
            invariant
                i <= self.blocks@.len(),
                first == self.blocks@[0],
                self.blocks@.len() > 0,
                blocks@.len() == i,
                forall|k: int| #![trigger blocks@[k]]
                    0 <= k < i ==> blocks@[k].x == self.blocks@[k].x - self.blocks@[0].x
                        && blocks@[k].y == self.blocks@[k].y - self.blocks@[0].y
                        && blocks@[k].z == self.blocks@[k].z - self.blocks@[0].z,
                forall|i: int| #![trigger self.blocks@[i]]
                    0 <= i < self.blocks@.len() ==> i32::MIN <= self.blocks@[i].x
                        - self.blocks@[0].x <= i32::MAX && i32::MIN <= self.blocks@[i].y
                        - self.blocks@[0].y <= i32::MAX && i32::MIN <= self.blocks@[i].z
                        - self.blocks@[0].z <= i32::MAX,
            decreases self.blocks@.len() - i,
        {
            let b = self.blocks[i];
            blocks.push(Coord { x: b.x - first.x, y: b.y - first.y, z: b.z - first.z });
            i += 1;
        }
        Orintaion { blocks }
    }

    /// Precomputes every legal placement of this orientation on the grid:
    /// tries all translation offsets in [0, 4) on each axis, and records the
    /// footprint mask of each offset that keeps every block in bounds.
    pub fn placements(&self) -> (r: Vec<Bitset>)
        requires
            forall|i: int|
                0 <= i < self.blocks@.len() ==> self.blocks@[i].x <= i32::MAX - 3
                    && self.blocks@[i].y <= i32::MAX - 3 && self.blocks@[i].z <= i32::MAX - 3,
        ensures
            r@.len() == spec_placements(self.blocks@).len(),
            forall|k: int| 0 <= k < r@.len() ==> r@[k].bits == spec_placements(self.blocks@)[k],
    {
        let ghost bs = self.blocks@;
        let mut r: Vec<Bitset> = Vec::new();
        let mut t: usize = 0;
        while t < 64
            invariant
                t <= 64,
                bs == self.blocks@,
                forall|i: int|
                    0 <= i < bs.len() ==> bs[i].x <= i32::MAX - 3 && bs[i].y <= i32::MAX - 3
                        && bs[i].z <= i32::MAX - 3,
                r@.len() == placements_upto(bs, t as int).len(),
                forall|k: int| 0 <= k < r@.len() ==> r@[k].bits == placements_upto(bs, t as int)[k],
            decreases 64 - t,
        {
            let x = (t / 16) as i32;
            let y = ((t % 16) / 4) as i32;
            let z = (t % 4) as i32;
            let ghost dx = x as int;
            let ghost dy = y as int;
            let ghost dz = z as int;
            proof {
                assert(dx == (t as int) / 16 && dy == ((t as int) % 16) / 4 && dz == (t as int)
                    % 4);
            }
            let mut valid = true;
            let mut bits = Bitset::empty();
            let mut i: usize = 0;
            while i < self.blocks.len()
                invariant
                    i <= bs.len(),
                    bs == self.blocks@,
                    forall|j: int|
                        0 <= j < bs.len() ==> bs[j].x <= i32::MAX - 3 && bs[j].y <= i32::MAX - 3
                            && bs[j].z <= i32::MAX - 3,
                    0 <= x <= 3 && 0 <= y <= 3 && 0 <= z <= 3,
                    dx == x as int && dy == y as int && dz == z as int,
                    valid ==> forall|k: int|
                        0 <= k < i ==> in_grid(bs[k].x + dx, bs[k].y + dy, bs[k].z + dz),
                    valid ==> bits.bits == mask_prefix(bs, i as int, dx, dy, dz),
                    !valid ==> !valid_at(bs, dx, dy, dz),
                decreases bs.len() - i,
            {
                if valid {
                    let b = self.blocks[i];
                    let cx = b.x + x;
                    let cy = b.y + y;
                    let cz = b.z + z;
                    if cx >= 0 && cx < (crate::SIZE as i32) && cy >= 0 && cy < (crate::SIZE as i32)
                        && cz >= 0 && cz < (crate::SIZE as i32) {
                        let index = 16 * cz + 4 * cy + cx;
                        proof {
                            assert(index as int == cell_index(
                                bs[i as int].x + dx,
                                bs[i as int].y + dy,
                                bs[i as int].z + dz,
                            ));
                            assert(0 <= index < 64);
                        }
                        bits.set(index as usize);
                        proof {
                            assert(mask_prefix(bs, i as int + 1, dx, dy, dz) == mask_prefix(
                                bs,
                                i as int,
                                dx,
                                dy,
                                dz,
                            ) | (1u64 << (cell_index(
                                bs[i as int].x + dx,
                                bs[i as int].y + dy,
                                bs[i as int].z + dz,
                            ) as usize)));
                        }
                    } else {
                        valid = false;
                        proof {
                            assert(!in_grid(bs[i as int].x + dx, bs[i as int].y + dy, bs[i as int].z
                                + dz));
                        }
                    }
                }
                i += 1;
            }
            proof {
                assert(placements_upto(bs, t as int + 1) == if valid_at(bs, dx, dy, dz) {
                    placements_upto(bs, t as int).push(mask_at(bs, dx, dy, dz))
                } else {
                    placements_upto(bs, t as int)
                });
            }
            if valid {
                r.push(bits);
            }
            t += 1;
        }
        r
    }

    /// Anchors the shape: translates all blocks so the minimum coordinate on
    /// each axis becomes 0.
    pub fn normalise(&self) -> (r: Orintaion)
        requires
            self.blocks@.len() > 0,
            imax(xs(self.blocks@)) - imin(xs(self.blocks@)) <= i32::MAX,
            imax(ys(self.blocks@)) - imin(ys(self.blocks@)) <= i32::MAX,
            imax(zs(self.blocks@)) - imin(zs(self.blocks@)) <= i32::MAX,
        ensures
            is_anchored_translate(r.blocks@, self.blocks@),
            imin(xs(r.blocks@)) == 0,
            imin(ys(r.blocks@)) == 0,
            imin(zs(r.blocks@)) == 0,
            imax(xs(r.blocks@)) == imax(xs(self.blocks@)) - imin(xs(self.blocks@)),
            imax(ys(r.blocks@)) == imax(ys(self.blocks@)) - imin(ys(self.blocks@)),
            imax(zs(r.blocks@)) == imax(zs(self.blocks@)) - imin(zs(self.blocks@)),
            r.blocks@ == spec_normalise(self.blocks@),
    {
        let ghost s = self.blocks@;
        let n = self.blocks.len();
        let mut min_x = self.blocks[0].x;
        let mut min_y = self.blocks[0].y;
        let mut min_z = self.blocks[0].z;
        let mut i: usize = 1;
        while i < n
            invariant
                1 <= i <= n,
                n == s.len(),
                s == self.blocks@,
                forall|k: int|
                    0 <= k < i ==> min_x <= s[k].x && min_y <= s[k].y && min_z <= s[k].z,
                exists|k: int| 0 <= k < i && min_x == s[k].x,
                exists|k: int| 0 <= k < i && min_y == s[k].y,
                exists|k: int| 0 <= k < i && min_z == s[k].z,
            decreases n - i,
        {
            if self.blocks[i].x < min_x {
                min_x = self.blocks[i].x;
            }
            if self.blocks[i].y < min_y {
                min_y = self.blocks[i].y;
            }
            if self.blocks[i].z < min_z {
                min_z = self.blocks[i].z;
            }
            i += 1;
        }
        proof {
            lemma_minmax(xs(s));
            lemma_minmax(ys(s));
            lemma_minmax(zs(s));
            let jx = choose|j: int| 0 <= j < xs(s).len() && xs(s)[j] == imin(xs(s));
            let jy = choose|j: int| 0 <= j < ys(s).len() && ys(s)[j] == imin(ys(s));
            let jz = choose|j: int| 0 <= j < zs(s).len() && zs(s)[j] == imin(zs(s));
            assert(xs(s)[jx] == s[jx].x && ys(s)[jy] == s[jy].y && zs(s)[jz] == s[jz].z);
            assert(min_x <= s[jx].x && min_y <= s[jy].y && min_z <= s[jz].z);
            let kx = choose|k: int| 0 <= k < s.len() && min_x == s[k].x;
            let ky = choose|k: int| 0 <= k < s.len() && min_y == s[k].y;
            let kz = choose|k: int| 0 <= k < s.len() && min_z == s[k].z;
            assert(xs(s)[kx] == s[kx].x && ys(s)[ky] == s[ky].y && zs(s)[kz] == s[kz].z);
            assert(imin(xs(s)) <= xs(s)[kx] && imin(ys(s)) <= ys(s)[ky] && imin(zs(s)) <= zs(
                s,
            )[kz]);
            assert(min_x as int == imin(xs(s)) && min_y as int == imin(ys(s)) && min_z as int
                == imin(zs(s)));
        }
        let mut out: Vec<Coord> = Vec::new();
        let mut i: usize = 0;
        while i < n
            invariant
                i <= n,
                n == s.len(),
                s == self.blocks@,
                s.len() > 0,
                min_x as int == imin(xs(s)),
                min_y as int == imin(ys(s)),
                min_z as int == imin(zs(s)),
                imax(xs(s)) - imin(xs(s)) <= i32::MAX,
                imax(ys(s)) - imin(ys(s)) <= i32::MAX,
                imax(zs(s)) - imin(zs(s)) <= i32::MAX,
                out@.len() == i,
                forall|k: int|
                    0 <= k < i ==> out@[k].x == s[k].x - imin(xs(s)) && out@[k].y == s[k].y - imin(
                        ys(s),
                    ) && out@[k].z == s[k].z - imin(zs(s)),
            decreases n - i,
        {
            let b = self.blocks[i];
            proof {
                lemma_minmax(xs(s));
                lemma_minmax(ys(s));
                lemma_minmax(zs(s));
                assert(xs(s)[i as int] == s[i as int].x && ys(s)[i as int] == s[i as int].y && zs(
                    s,
                )[i as int] == s[i as int].z);
            }
            out.push(Coord { x: b.x - min_x, y: b.y - min_y, z: b.z - min_z });
            i += 1;
        }
        let r = Orintaion { blocks: out };
        proof {
            lemma_minmax_shift(xs(s), xs(r.blocks@), -imin(xs(s)));
            lemma_minmax_shift(ys(s), ys(r.blocks@), -imin(ys(s)));
            lemma_minmax_shift(zs(s), zs(r.blocks@), -imin(zs(s)));
            assert forall|i: int| 0 <= i < s.len() implies r.blocks@[i] == spec_normalise(s)[i] by {
                assert(r.blocks@[i].x as int == s[i].x - imin(xs(s)));
                assert(r.blocks@[i].y as int == s[i].y - imin(ys(s)));
                assert(r.blocks@[i].z as int == s[i].z - imin(zs(s)));
            }
            assert(r.blocks@ =~= spec_normalise(s));
        }
        r
    }

    /// Applies one primitive quarter turn to every block: a coordinate
    /// permutation with one sign flip, depending on the direction.
    fn rotate(&self, dir: Direction) -> (r: Orintaion)
        requires
            forall|i: int|
                0 <= i < self.blocks@.len() ==> -0x7fff_ffff <= self.blocks@[i].x
                    && -0x7fff_ffff <= self.blocks@[i].y && -0x7fff_ffff <= self.blocks@[i].z,
        ensures
            r.blocks@.len() == self.blocks@.len(),
            dir is Next ==> forall|i: int|
                0 <= i < self.blocks@.len() ==> r.blocks@[i].x == self.blocks@[i].x
                    && r.blocks@[i].y == self.blocks@[i].z && r.blocks@[i].z == -self.blocks@[i].y,
            dir is Clk ==> forall|i: int|
                0 <= i < self.blocks@.len() ==> r.blocks@[i].x == self.blocks@[i].z
                    && r.blocks@[i].y == self.blocks@[i].y && r.blocks@[i].z == -self.blocks@[i].x,
            dir is CClk ==> forall|i: int|
                0 <= i < self.blocks@.len() ==> r.blocks@[i].x == -self.blocks@[i].z
                    && r.blocks@[i].y == self.blocks@[i].y && r.blocks@[i].z == self.blocks@[i].x,
    {
        let mut out: Vec<Coord> = Vec::new();
        let mut i: usize = 0;
        while i < self.blocks.len()
            invariant
                i <= self.blocks@.len(),
                out@.len() == i,
                forall|k: int|
                    0 <= k < self.blocks@.len() ==> -0x7fff_ffff <= self.blocks@[k].x
                        && -0x7fff_ffff <= self.blocks@[k].y && -0x7fff_ffff
                        <= self.blocks@[k].z,
                dir is Next ==> forall|k: int|
                    0 <= k < i ==> out@[k].x == self.blocks@[k].x && out@[k].y
                        == self.blocks@[k].z && out@[k].z == -self.blocks@[k].y,
                dir is Clk ==> forall|k: int|
                    0 <= k < i ==> out@[k].x == self.blocks@[k].z && out@[k].y
                        == self.blocks@[k].y && out@[k].z == -self.blocks@[k].x,
                dir is CClk ==> forall|k: int|
                    0 <= k < i ==> out@[k].x == -self.blocks@[k].z && out@[k].y
                        == self.blocks@[k].y && out@[k].z == self.blocks@[k].x,
            decreases self.blocks@.len() - i,
        {
            let b = self.blocks[i];
            let c = match dir {
                Direction::Next => Coord { x: b.x, y: b.z, z: -b.y },
                Direction::Clk => Coord { x: b.z, y: b.y, z: -b.x },
                Direction::CClk => Coord { x: -b.z, y: b.y, z: b.x },
            };
            out.push(c);
            i += 1;
        }
        Orintaion { blocks: out }
    }

    /// Whether every block of `self` has an exact coordinate match in
    /// `other`: the novelty check of the orientation enumeration.
    fn similar(&self, other: &Orintaion) -> (r: bool)
        ensures
            r == contains_all(self.blocks@, other.blocks@),
    {
        let mut count: usize = 0;
        let mut i: usize = 0;
        while i < self.blocks.len()
            invariant
                i <= self.blocks@.len(),
                count <= i,
                (count == i) == (forall|k: int|
                    0 <= k < i ==> contains_coord(other.blocks@, self.blocks@[k])),
            decreases self.blocks@.len() - i,
        {
            let mut found = false;
            let mut j: usize = 0;
            while j < other.blocks.len() && !found
                invariant
                    j <= other.blocks@.len(),
                    found ==> contains_coord(other.blocks@, self.blocks@[i as int]),
                    !found ==> forall|l: int|
                        0 <= l < j ==> other.blocks@[l] != self.blocks@[i as int],
                    i < self.blocks@.len(),
                decreases other.blocks@.len() - j,
            {
                if self.blocks[i] == other.blocks[j] {
                    found = true;
                }
                j += 1;
            }
            if found {
                count += 1;
            } else {
                proof {
                    assert(!contains_coord(other.blocks@, self.blocks@[i as int]));
                }
            }
            i += 1;
        }
        count == self.blocks.len()
    }

    /// One turn of the enumeration: rotate, then re-anchor. The shape stays
    /// anchored inside the same bounding cube, since a quarter turn only
    /// permutes (and possibly flips) the bounding box's edges.
    fn turn(&self, dir: Direction, Ghost(e): Ghost<int>) -> (r: Orintaion)
        requires
            self.blocks@.len() > 0,
            0 <= e <= 0x7fff_ffff,
            anchored_within(self.blocks@, e),
        ensures
            r.blocks@.len() == self.blocks@.len(),
            anchored_within(r.blocks@, e),
            dir is Next ==> r.blocks@ == spec_normalise(spec_rot_next(self.blocks@)),
            dir is Clk ==> r.blocks@ == spec_normalise(spec_rot_clk(self.blocks@)),
            dir is CClk ==> r.blocks@ == spec_normalise(spec_rot_cclk(self.blocks@)),
    {
        let ghost s = self.blocks@;
        proof {
            lemma_minmax(xs(s));
            lemma_minmax(ys(s));
            lemma_minmax(zs(s));
            assert forall|i: int| 0 <= i < s.len() implies -0x7fff_ffff <= s[i].x && -0x7fff_ffff
                <= s[i].y && -0x7fff_ffff <= s[i].z by {
                assert(xs(s)[i] == s[i].x && ys(s)[i] == s[i].y && zs(s)[i] == s[i].z);
            }
        }
        let rotated = self.rotate(dir);
        let ghost t = rotated.blocks@;
        proof {
            match dir {
                Direction::Next => {
                    // x' = x, y' = z, z' = -y
                    assert forall|i: int| 0 <= i < s.len() implies xs(t)[i] == xs(s)[i] && ys(t)[i]
                        == zs(s)[i] && zs(t)[i] == -ys(s)[i] by {}
                    lemma_minmax_eq(xs(s), xs(t));
                    lemma_minmax_eq(zs(s), ys(t));
                    lemma_minmax_neg(ys(s), zs(t));
                },
                Direction::Clk => {
                    // x' = z, y' = y, z' = -x
                    assert forall|i: int| 0 <= i < s.len() implies xs(t)[i] == zs(s)[i] && ys(t)[i]
                        == ys(s)[i] && zs(t)[i] == -xs(s)[i] by {}
                    lemma_minmax_eq(zs(s), xs(t));
                    lemma_minmax_eq(ys(s), ys(t));
                    lemma_minmax_neg(xs(s), zs(t));
                },
                Direction::CClk => {
                    // x' = -z, y' = y, z' = x
                    assert forall|i: int| 0 <= i < s.len() implies xs(t)[i] == -zs(s)[i] && ys(
                        t,
                    )[i] == ys(s)[i] && zs(t)[i] == xs(s)[i] by {}
                    lemma_minmax_neg(zs(s), xs(t));
                    lemma_minmax_eq(ys(s), ys(t));
                    lemma_minmax_eq(xs(s), zs(t));
                },
            }
        }
        proof {
            match dir {
                Direction::Next => {
                    assert forall|i: int| 0 <= i < s.len() implies t[i] == spec_rot_next(s)[i] by {
                        assert(t[i].z as int == -(s[i].y as int));
                    }
                    assert(t =~= spec_rot_next(s));
                },
                Direction::Clk => {
                    assert forall|i: int| 0 <= i < s.len() implies t[i] == spec_rot_clk(s)[i] by {
                        assert(t[i].z as int == -(s[i].x as int));
                    }
                    assert(t =~= spec_rot_clk(s));
                },
                Direction::CClk => {
                    assert forall|i: int| 0 <= i < s.len() implies t[i] == spec_rot_cclk(s)[i] by {
                        assert(t[i].x as int == -(s[i].z as int));
                    }
                    assert(t =~= spec_rot_cclk(s));
                },
            }
        }
        let r = rotated.normalise();
        r
    }

    /// Generates the complete, deduplicated list of the shape's rotations:
    /// starting from the anchored shape, six outer reorientations each with
    /// three inner spins (alternating spin direction), keeping each visited
    /// position that matches no earlier kept one. At most 25 positions are
    /// examined, so at most 25 are kept; group structure (24 rotations of
    /// 3-space) keeps the distinct count at 24 or fewer, which the tests
    /// observe on concrete shapes. The result is pinned exactly by
    /// `spec_orientations`.
    pub fn all_orintations(&self) -> (r: Vec<Orintaion>)
        requires
            self.blocks@.len() > 0,
            imax(xs(self.blocks@)) - imin(xs(self.blocks@)) <= i32::MAX,
            imax(ys(self.blocks@)) - imin(ys(self.blocks@)) <= i32::MAX,
            imax(zs(self.blocks@)) - imin(zs(self.blocks@)) <= i32::MAX,
        ensures
            1 <= r@.len() <= 25,
            forall|k: int| 0 <= k < r@.len() ==> r@[k].blocks@.len() == self.blocks@.len(),
            is_anchored_translate(r@[0].blocks@, self.blocks@),
            forall|k: int|
                0 <= k < r@.len() ==> anchored_within(r@[k].blocks@, max_extent(self.blocks@)),
            forall|a: int, b: int|
                0 <= a < b < r@.len() ==> !contains_all(r@[a].blocks@, r@[b].blocks@),
            blocks_of(r@) == spec_orientations(self.blocks@),
    {
        let ghost s = self.blocks@;
        let ghost n = self.blocks@.len();
        let mut orintations: Vec<Orintaion> = Vec::new();
        let mut ori = self.normalise();
        let ghost e = {
            let ex = imax(xs(self.blocks@)) - imin(xs(self.blocks@));
            let ey = imax(ys(self.blocks@)) - imin(ys(self.blocks@));
            let ez = imax(zs(self.blocks@)) - imin(zs(self.blocks@));
            if ex >= ey && ex >= ez {
                ex
            } else if ey >= ez {
                ey
            } else {
                ez
            }
        };
        proof {
            lemma_minmax(xs(s));
            lemma_minmax(ys(s));
            lemma_minmax(zs(s));
            assert(e == max_extent(s));
            assert(anchored_within(ori.blocks@, e));
        }
        orintations.push(ori.copy_of());
        proof {
            assert(blocks_of(orintations@) =~= seq![ori.blocks@]);
        }
        let mut clk = true;
        let mut d: usize = 0;
        while d < 6
            invariant
                d <= 6,
                n == s.len(),
                s == self.blocks@,
                n > 0,
                0 <= e <= 0x7fff_ffff,
                e == max_extent(s),
                ori.blocks@.len() == n,
                anchored_within(ori.blocks@, e),
                1 <= orintations@.len() <= 1 + 4 * d,
                is_anchored_translate(orintations@[0].blocks@, s),
                forall|k: int|
                    0 <= k < orintations@.len() ==> orintations@[k].blocks@.len() == n,
                forall|k: int|
                    0 <= k < orintations@.len() ==> anchored_within(orintations@[k].blocks@, e),
                forall|a: int, b: int|
                    0 <= a < b < orintations@.len() ==> !contains_all(
                        orintations@[a].blocks@,
                        orintations@[b].blocks@,
                    ),
                outer_steps(ori.blocks@, blocks_of(orintations@), clk, d as int)
                    == spec_orientations(s),
            decreases 6 - d,
        {
            let ghost ori0 = ori.blocks@;
            let ghost view0 = blocks_of(orintations@);
            let ghost clk0 = clk;
            let mut rot: usize = 0;
            while rot < 3
                invariant
                    rot <= 3,
                    d < 6,
                    n == s.len(),
                    s == self.blocks@,
                    n > 0,
                    0 <= e <= 0x7fff_ffff,
                    e == max_extent(s),
                    ori.blocks@.len() == n,
                    anchored_within(ori.blocks@, e),
                    1 <= orintations@.len() <= 1 + 4 * d + rot,
                    is_anchored_translate(orintations@[0].blocks@, s),
                    forall|k: int|
                        0 <= k < orintations@.len() ==> orintations@[k].blocks@.len() == n,
                    forall|k: int|
                        0 <= k < orintations@.len() ==> anchored_within(
                            orintations@[k].blocks@,
                            e,
                        ),
                    forall|a: int, b: int|
                        0 <= a < b < orintations@.len() ==> !contains_all(
                            orintations@[a].blocks@,
                            orintations@[b].blocks@,
                        ),
                    clk == clk0,
                    inner_spins(ori.blocks@, blocks_of(orintations@), clk0, rot as int)
                        == inner_spins(ori0, view0, clk0, 0),
                decreases 3 - rot,
            {
                let ghost pori = ori.blocks@;
                let ghost pview = blocks_of(orintations@);
                ori = if clk {
                    ori.turn(Direction::Clk, Ghost(e))
                } else {
                    ori.turn(Direction::CClk, Ghost(e))
                };
                keep_new(&mut orintations, &ori);
                proof {
                    assert(ori.blocks@ == spec_normalise(
                        if clk0 {
                            spec_rot_clk(pori)
                        } else {
                            spec_rot_cclk(pori)
                        },
                    ));
                    assert(blocks_of(orintations@) == keep_if_new(pview, ori.blocks@));
                    assert(inner_spins(pori, pview, clk0, rot as int) == inner_spins(
                        ori.blocks@,
                        blocks_of(orintations@),
                        clk0,
                        rot as int + 1,
                    ));
                }
                rot += 1;
            }
            let ghost p1 = ori.blocks@;
            let ghost v1 = blocks_of(orintations@);
            proof {
                assert(inner_spins(p1, v1, clk0, 3) == (p1, v1));
                assert(inner_spins(ori0, view0, clk0, 0) == (p1, v1));
            }
            ori = ori.turn(Direction::Next, Ghost(e));
            keep_new(&mut orintations, &ori);
            proof {
                assert(ori.blocks@ == spec_normalise(spec_rot_next(p1)));
                assert(blocks_of(orintations@) == keep_if_new(v1, ori.blocks@));
                assert(outer_steps(ori0, view0, clk0, d as int) == outer_steps(
                    ori.blocks@,
                    blocks_of(orintations@),
                    !clk0,
                    d as int + 1,
                ));
            }
            clk = !clk;
            d += 1;
        }
        proof {
            assert(outer_steps(ori.blocks@, blocks_of(orintations@), clk, 6)
                == blocks_of(orintations@));
        }
        orintations
    }
}

/// Law: when the block-subset check fails one way between two orientations,
/// their block sets differ, so the two are not equivalent. Together with
/// `all_orintations`'s pairwise clause this makes every kept pair of
/// orientations non-equivalent under normalized set equality.
pub proof fn lemma_not_contained_distinct_sets(a: Seq<Coord>, b: Seq<Coord>)
    requires
        !contains_all(a, b),
    ensures
        a.to_set() != b.to_set(),
{
    broadcast use vstd::set::group_set_axioms;

    let i = choose|i: int| 0 <= i < a.len() && !contains_coord(b, a[i]);
    assert(a.contains(a[i]));
    assert(a.to_set().contains(a[i]));
    if b.to_set().contains(a[i]) {
        assert(b.contains(a[i]));
        let j = choose|j: int| 0 <= j < b.len() && b[j] == a[i];
        assert(contains_coord(b, a[i]));
        assert(false);
    }
}

/// Law: a single unit cube anchored at the origin can be placed on every
/// grid cell and nowhere else: its placement count equals the grid's cell
/// count of 64.
pub proof fn lemma_unit_cube_placement_count(b: Seq<Coord>)
    requires
        b.len() == 1,
        b[0].x == 0 && b[0].y == 0 && b[0].z == 0,
    ensures
        spec_placements(b).len() == 64,
{
    lemma_unit_cube_upto(b, 64);
}

proof fn lemma_unit_cube_upto(b: Seq<Coord>, t: int)
    requires
        b.len() == 1,
        b[0].x == 0 && b[0].y == 0 && b[0].z == 0,
        0 <= t <= 64,
    ensures
        placements_upto(b, t).len() == t,
    decreases t,
{
    if t > 0 {
        lemma_unit_cube_upto(b, t - 1);
        let dx = (t - 1) / 16;
        let dy = ((t - 1) % 16) / 4;
        let dz = (t - 1) % 4;
        assert(0 <= dx <= 3 && 0 <= dy <= 3 && 0 <= dz <= 3);
        assert(valid_at(b, dx, dy, dz));
    }
}

/// Bit `t` is set in the footprint of the first `n` blocks iff one of those
/// shifted blocks sits on cell `t`.
proof fn lemma_mask_bit(b: Seq<Coord>, n: int, dx: int, dy: int, dz: int, t: usize)
    requires
        0 <= n <= b.len(),
        forall|i: int| 0 <= i < n ==> in_grid(b[i].x + dx, b[i].y + dy, b[i].z + dz),
        t < 64,
    ensures
        ((mask_prefix(b, n, dx, dy, dz) & (1u64 << t)) != 0) <==> (exists|i: int|
            0 <= i < n && cell_index(b[i].x + dx, b[i].y + dy, b[i].z + dz) == t),
    decreases n,
{
    if n <= 0 {
        assert((0u64 & (1u64 << t)) == 0) by (bit_vector);
    } else {
        lemma_mask_bit(b, n - 1, dx, dy, dz, t);
        let m = mask_prefix(b, n - 1, dx, dy, dz);
        let c = cell_index(b[n - 1].x + dx, b[n - 1].y + dy, b[n - 1].z + dz);
        assert(in_grid(b[n - 1].x + dx, b[n - 1].y + dy, b[n - 1].z + dz));
        assert(0 <= c < 64);
        let cc = c as usize;
        assert((((m | (1u64 << cc)) & (1u64 << t)) != 0) <==> (((m & (1u64 << t)) != 0) || cc
            == t)) by (bit_vector)
            requires
                cc < 64,
                t < 64,
        ;
        let whole = mask_prefix(b, n, dx, dy, dz);
        assert(whole == (m | (1u64 << cc)));
        if (whole & (1u64 << t)) != 0 {
            if cc == t {
                assert(cell_index(b[n - 1].x + dx, b[n - 1].y + dy, b[n - 1].z + dz) == t);
                assert(exists|i: int|
                    0 <= i < n && cell_index(b[i].x + dx, b[i].y + dy, b[i].z + dz) == t);
            } else {
                assert((m & (1u64 << t)) != 0);
                let i = choose|i: int|
                    0 <= i < n - 1 && cell_index(b[i].x + dx, b[i].y + dy, b[i].z + dz) == t;
                assert(exists|i: int|
                    0 <= i < n && cell_index(b[i].x + dx, b[i].y + dy, b[i].z + dz) == t);
            }
        }
        if exists|i: int| 0 <= i < n && cell_index(b[i].x + dx, b[i].y + dy, b[i].z + dz) == t {
            let i = choose|i: int|
                0 <= i < n && cell_index(b[i].x + dx, b[i].y + dy, b[i].z + dz) == t;
            if i == n - 1 {
                assert(cc == t);
                assert((whole & (1u64 << t)) != 0);
            } else {
                assert(exists|i2: int|
                    0 <= i2 < n - 1 && cell_index(b[i2].x + dx, b[i2].y + dy, b[i2].z + dz) == t);
                assert((m & (1u64 << t)) != 0);
                assert((whole & (1u64 << t)) != 0);
            }
        }
    }
}

/// Two in-grid cells with the same bit index are the same cell.
proof fn lemma_cell_index_injective(
    x1: int,
    y1: int,
    z1: int,
    x2: int,
    y2: int,
    z2: int,
)
    requires
        in_grid(x1, y1, z1),
        in_grid(x2, y2, z2),
        cell_index(x1, y1, z1) == cell_index(x2, y2, z2),
    ensures
        x1 == x2 && y1 == y2 && z1 == z2,
{
}

/// Law: two placements of the same shape whose masks are bitwise-equal cover
/// geometrically identical footprints: every block of the one placement
/// coincides with a block of the other, so equal masks are never a false
/// collision of distinct cell sets.
pub proof fn lemma_equal_masks_same_footprint(
    b: Seq<Coord>,
    dx1: int,
    dy1: int,
    dz1: int,
    dx2: int,
    dy2: int,
    dz2: int,
)
    requires
        valid_at(b, dx1, dy1, dz1),
        valid_at(b, dx2, dy2, dz2),
        mask_at(b, dx1, dy1, dz1) == mask_at(b, dx2, dy2, dz2),
    ensures
        forall|i: int| #![trigger b[i]]
            0 <= i < b.len() ==> exists|j: int|
                0 <= j < b.len() && b[j].x + dx2 == b[i].x + dx1 && b[j].y + dy2 == b[i].y + dy1
                    && b[j].z + dz2 == b[i].z + dz1,
{
    assert forall|i: int| #![trigger b[i]] 0 <= i < b.len() implies exists|j: int|
        0 <= j < b.len() && b[j].x + dx2 == b[i].x + dx1 && b[j].y + dy2 == b[i].y + dy1 && b[j].z
            + dz2 == b[i].z + dz1 by {
        let t = cell_index(b[i].x + dx1, b[i].y + dy1, b[i].z + dz1);
        assert(in_grid(b[i].x + dx1, b[i].y + dy1, b[i].z + dz1));
        assert(0 <= t < 64);
        lemma_mask_bit(b, b.len() as int, dx1, dy1, dz1, t as usize);
        lemma_mask_bit(b, b.len() as int, dx2, dy2, dz2, t as usize);
        assert((mask_at(b, dx1, dy1, dz1) & (1u64 << (t as usize))) != 0);
        let j = choose|j: int|
            0 <= j < b.len() && cell_index(b[j].x + dx2, b[j].y + dy2, b[j].z + dz2) == t as usize;
        lemma_cell_index_injective(
            b[j].x + dx2,
            b[j].y + dy2,
            b[j].z + dz2,
            b[i].x + dx1,
            b[i].y + dy1,
            b[i].z + dz1,
        );
    }
}

/// Keeps the candidate iff it matches no orientation already kept: the
/// novelty-checked push of the enumeration.
fn keep_new(list: &mut Vec<Orintaion>, ori: &Orintaion)
    ensures
        blocks_of(final(list)@) == keep_if_new(blocks_of(old(list)@), ori.blocks@),
        old(list)@.len() <= final(list)@.len() <= old(list)@.len() + 1,
        forall|k: int| 0 <= k < old(list)@.len() ==> final(list)@[k] == old(list)@[k],
        final(list)@.len() == old(list)@.len() + 1 ==> final(list)@.last().blocks@
            == ori.blocks@,
        (final(list)@.len() == old(list)@.len() + 1) <==> (forall|k: int|
            0 <= k < old(list)@.len() ==> !contains_all(old(list)@[k].blocks@, ori.blocks@)),
{
    if is_new(list, ori) {
        let c = ori.copy_of();
        list.push(c);
        proof {
            assert forall|k: int| 0 <= k < old(list)@.len() implies blocks_of(old(list)@)[k]
                == old(list)@[k].blocks@ by {}
            assert(blocks_of(list@) =~= blocks_of(old(list)@).push(ori.blocks@));
            assert(keep_if_new(blocks_of(old(list)@), ori.blocks@) == blocks_of(
                old(list)@,
            ).push(ori.blocks@));
        }
    } else {
        proof {
            let k = choose|k: int|
                0 <= k < list@.len() && contains_all(list@[k].blocks@, ori.blocks@);
            assert(blocks_of(list@)[k] == list@[k].blocks@);
            assert(!(forall|k2: int|
                0 <= k2 < blocks_of(list@).len() ==> !contains_all(
                    blocks_of(list@)[k2],
                    ori.blocks@,
                )));
            assert(keep_if_new(blocks_of(list@), ori.blocks@) == blocks_of(list@));
        }
    }
}

/// Whether the candidate matches no orientation already kept.
fn is_new(list: &Vec<Orintaion>, ori: &Orintaion) -> (r: bool)
    ensures
        r == (forall|k: int|
            0 <= k < list@.len() ==> !contains_all(list@[k].blocks@, ori.blocks@)),
{
    let mut k: usize = 0;
    while k < list.len()
        invariant
            k <= list@.len(),
            forall|l: int| 0 <= l < k ==> !contains_all(list@[l].blocks@, ori.blocks@),
        decreases list@.len() - k,
    {
        if list[k].similar(ori) {
            return false;
        }
        k += 1;
    }
    true
}

} // verus!
