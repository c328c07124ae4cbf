//! Hex-grid coordinates: the offset ("even-r") layout of the board and the
//! cube coordinates in which neighbours and straight lines are simple.

use vstd::prelude::*;

verus! {

/// Coordinates of the offset layout are handled up to this size, either way
/// from zero.
pub const COORD_LIMIT: i64 = 0x0400_0000_0000_0000;

/// Half of `z`, rounded up: the column shift of row `z` in the offset layout.
pub open spec fn half_up(z: int) -> int {
    (z + z % 2) / 2
}

/// A cell in the offset layout: every even row is shoved half a cell to the
/// right of every odd row.
#[derive(Clone, Copy, Debug, Eq, PartialEq, Structural)]
pub struct EvenR {
    pub col: i64,
    pub row: i64,
}

/// A cell in cube coordinates. On the grid, `x + y + z == 0`.
#[derive(Clone, Copy, Debug, Eq, PartialEq, Structural)]
pub struct Cube {
    pub x: i64,
    pub y: i64,
    pub z: i64,
}

/// The change of `x` on one step in direction `dir`.
pub open spec fn dir_dx(dir: int) -> int {
    if dir == 0 || dir == 1 {
        1
    } else if dir == 3 || dir == 4 {
        -1
    } else {
        0
    }
}

/// The change of `y` on one step in direction `dir`.
pub open spec fn dir_dy(dir: int) -> int {
    if dir == 2 || dir == 3 {
        1
    } else if dir == 0 || dir == 5 {
        -1
    } else {
        0
    }
}

/// The change of `z` on one step in direction `dir`.
pub open spec fn dir_dz(dir: int) -> int {
    if dir == 4 || dir == 5 {
        1
    } else if dir == 1 || dir == 2 {
        -1
    } else {
        0
    }
}

/// The cell `k` steps from column `col` of row `row` in direction `dir`, as
/// column and row.
pub open spec fn hex_step(col: int, row: int, dir: int, k: int) -> (int, int) {
    let x = col - half_up(row) + k * dir_dx(dir);
    let z = row + k * dir_dz(dir);
    (x + half_up(z), z)
}

impl EvenR {
    /// The cube coordinates of this cell.
    pub open spec fn cube(self) -> (int, int, int) {
        let x = self.col - half_up(self.row as int);
        (x, -(x + self.row), self.row as int)
    }

    /// The cell reached from this one by `k` steps in direction `dir`.
    pub open spec fn step(self, dir: int, k: int) -> (int, int) {
        hex_step(self.col as int, self.row as int, dir, k)
    }

    /// Column and row are small enough for the cube coordinates, and those
    /// of the cells around, to be computed.
    pub open spec fn in_range(self) -> bool {
        &&& -COORD_LIMIT <= self.col <= COORD_LIMIT
        &&& -COORD_LIMIT <= self.row <= COORD_LIMIT
    }

    /// The two cells share a cube coordinate, and so a straight line.
    pub open spec fn spec_in_line(self, rhs: EvenR) -> bool {
        ||| self.cube().0 == rhs.cube().0
        ||| self.cube().1 == rhs.cube().1
        ||| self.cube().2 == rhs.cube().2
    }

    /// The cell with the given cube coordinates.
    pub fn from_cube(cube: &Cube) -> (hex: EvenR)
        requires
            cube.in_range(),
        ensures
            hex.col == cube.x + half_up(cube.z as int),
            hex.row == cube.z,
    {
        let z = cube.z;
        let parity = z & 1;
        proof {
            assert(parity == 0 || parity == 1) by (bit_vector)
                requires
                    parity == z & 1,
            ;
            assert((parity == 1) == (z % 2 == 1)) by (bit_vector)
                requires
                    parity == z & 1,
            ;
        }
        let shift = (z + parity) / 2;
        EvenR { col: cube.x + shift, row: z }
    }

    /// Whether the two cells share a straight line of the grid.
    pub fn in_line(&self, rhs: &EvenR) -> (b: bool)
        requires
            self.in_range(),
            rhs.in_range(),
        ensures
            b == self.spec_in_line(*rhs),
    {
        Cube::from_evenr(self).in_line(&Cube::from_evenr(rhs))
    }

    /// The six adjacent cells, one per direction, starting east and going
    /// counter-clockwise.
    pub fn neighbors(&self) -> (n: [EvenR; 6])
        requires
            self.in_range(),
        ensures
            forall|d: int|
                0 <= d < 6 ==> (#[trigger] n[d]).col == self.step(d, 1).0 && n[d].row
                    == self.step(d, 1).1,
    {
        let c = Cube::from_evenr(self).neighbors();
        [
            EvenR::from_cube(&c[0]),
            EvenR::from_cube(&c[1]),
            EvenR::from_cube(&c[2]),
            EvenR::from_cube(&c[3]),
            EvenR::from_cube(&c[4]),
            EvenR::from_cube(&c[5]),
        ]
    }
}

impl Cube {
    /// The coordinates are small enough for a step to any side, and for the
    /// offset coordinates to be computed.
    pub open spec fn in_range(self) -> bool {
        &&& -8 * COORD_LIMIT <= self.x <= 8 * COORD_LIMIT
        &&& -8 * COORD_LIMIT <= self.y <= 8 * COORD_LIMIT
        &&& -8 * COORD_LIMIT <= self.z <= 8 * COORD_LIMIT
    }

    /// The cell one step away in direction `dir`.
    pub open spec fn spec_step(self, dir: int) -> Cube {
        Cube {
            x: (self.x + dir_dx(dir)) as i64,
            y: (self.y + dir_dy(dir)) as i64,
            z: (self.z + dir_dz(dir)) as i64,
        }
    }

    /// The cell of the offset layout with these coordinates.
    pub open spec fn evenr(self) -> EvenR {
        EvenR { col: (self.x + half_up(self.z as int)) as i64, row: self.z }
    }

    /// The three coordinates sum to zero.
    pub open spec fn on_grid(self) -> bool {
        self.x + self.y + self.z == 0
    }

    /// The two cells share a cube coordinate, and so a straight line.
    pub open spec fn spec_in_line(self, rhs: Cube) -> bool {
        self.x == rhs.x || self.y == rhs.y || self.z == rhs.z
    }

    /// The cube coordinates of a cell of the offset layout.
    pub fn from_evenr(hex: &EvenR) -> (cube: Cube)
        requires
            hex.in_range(),
        ensures
            cube.x == hex.cube().0,
            cube.y == hex.cube().1,
            cube.z == hex.cube().2,
            cube.on_grid(),
            cube.in_range(),
            -2 * COORD_LIMIT <= cube.x <= 2 * COORD_LIMIT,
            -3 * COORD_LIMIT <= cube.y <= 3 * COORD_LIMIT,
    {
        let row = hex.row;
        let parity = row & 1;
        proof {
            assert(parity == 0 || parity == 1) by (bit_vector)
                requires
                    parity == row & 1,
            ;
            assert((parity == 1) == (row % 2 == 1)) by (bit_vector)
                requires
                    parity == row & 1,
            ;
        }
        let shift = (row + parity) / 2;
        let x = hex.col - shift;
        let z = row;
        let y = -(x + z);
        Cube { x, y, z }
    }

    /// Whether the two cells share a coordinate, and so a straight line.
    pub fn in_line(&self, rhs: &Cube) -> (b: bool)
        ensures
            b == self.spec_in_line(*rhs),
    {
        self.x == rhs.x || self.y == rhs.y || self.z == rhs.z
    }

    /// The six adjacent cells, one per direction, starting east and going
    /// counter-clockwise.
    pub fn neighbors(&self) -> (n: [Cube; 6])
        requires
            self.in_range(),
        ensures
            forall|d: int|
                0 <= d < 6 ==> (#[trigger] n[d]).x == self.x + dir_dx(d) && n[d].y == self.y
                    + dir_dy(d) && n[d].z == self.z + dir_dz(d),
    {
        [
            Cube { x: self.x + 1, y: self.y - 1, z: self.z },
            Cube { x: self.x + 1, y: self.y, z: self.z - 1 },
            Cube { x: self.x, y: self.y + 1, z: self.z - 1 },
            Cube { x: self.x - 1, y: self.y + 1, z: self.z },
            Cube { x: self.x - 1, y: self.y, z: self.z + 1 },
            Cube { x: self.x, y: self.y - 1, z: self.z + 1 },
        ]
    }
}

/// Offset and cube coordinates are inverse to each other.
pub proof fn lemma_cube_round_trip(hex: EvenR, cube: Cube)
    requires
        hex.in_range(),
        cube.in_range(),
        cube.on_grid(),
    ensures
        (Cube {
            x: hex.cube().0 as i64,
            y: hex.cube().1 as i64,
            z: hex.cube().2 as i64,
        }).evenr() == hex,
        cube.evenr().cube() == (cube.x as int, cube.y as int, cube.z as int),
{
}

/// The direction in which `dst` lies from `src`, for two distinct cells on
/// one straight line.
pub open spec fn line_dir(src: EvenR, dst: EvenR) -> int {
    if src.cube().0 == dst.cube().0 {
        if src.cube().1 < dst.cube().1 {
            2
        } else {
            5
        }
    } else if src.cube().1 == dst.cube().1 {
        if src.cube().0 < dst.cube().0 {
            1
        } else {
            4
        }
    } else {
        if src.cube().0 < dst.cube().0 {
            0
        } else {
            3
        }
    }
}

/// The coordinate that every cell of a line shares.
#[derive(Clone, Copy, Debug, PartialEq, Eq, Structural)]
pub enum Axis {
    X,
    Y,
    Z,
}

/// A walk along a straight line of the grid, one cell per step, without end.
pub struct Iterator {
    constant: i64,
    axis: Axis,
    src: Cube,
    cur: Cube,
    dst: Cube,
}

/// The ray that starts at `src`, passes through `dst` and goes on without
/// end.
pub fn line(src: &EvenR, dst: &EvenR) -> (it: Iterator)
    requires
        src.in_range(),
        dst.in_range(),
        src != dst,
        src.spec_in_line(*dst),
    ensures
        it.wf(),
        it.cursor().evenr() == *src,
        it.cursor().x == src.cube().0,
        it.cursor().y == src.cube().1,
        it.cursor().z == src.cube().2,
        it.dir() == line_dir(*src, *dst),
{
    let src_cube = Cube::from_evenr(src);
    let dst_cube = Cube::from_evenr(dst);
    let (constant, axis) = if src_cube.x == dst_cube.x {
        (src_cube.x, Axis::X)
    } else if src_cube.y == dst_cube.y {
        (src_cube.y, Axis::Y)
    } else {
        (src_cube.z, Axis::Z)
    };
    Iterator { constant, axis, src: src_cube, cur: src_cube, dst: dst_cube }
}

impl Iterator {
    /// The coordinate that changes along the line.
    pub closed spec fn other(self, c: Cube) -> i64 {
        match self.axis {
            Axis::X => c.y,
            Axis::Y | Axis::Z => c.x,
        }
    }

    /// The walk stays on its line and on the grid, and has a direction.
    pub closed spec fn wf(self) -> bool {
        &&& self.src.on_grid() && self.cur.on_grid() && self.dst.on_grid()
        &&& self.other(self.src) != self.other(self.dst)
        &&& match self.axis {
            Axis::X => self.cur.x == self.constant,
            Axis::Y => self.cur.y == self.constant,
            Axis::Z => self.cur.z == self.constant,
        }
    }

    /// The cell that the next step hands out.
    pub closed spec fn cursor(self) -> Cube {
        self.cur
    }

    /// The direction of the walk.
    pub closed spec fn dir(self) -> int {
        match self.axis {
            Axis::X => if self.src.y < self.dst.y {
                2
            } else {
                5
            },
            Axis::Y => if self.src.x < self.dst.x {
                1
            } else {
                4
            },
            Axis::Z => if self.src.x < self.dst.x {
                0
            } else {
                3
            },
        }
    }

    /// The cell of the line at which the changing coordinate is `other`.
    pub fn make_cube(&self, other: i64) -> (c: Cube)
        requires
            -i64::MAX <= self.constant() + other <= i64::MAX,
        ensures
            c.on_grid(),
            match self.axis() {
                Axis::X => c.x == self.constant() && c.y == other,
                Axis::Y => c.y == self.constant() && c.x == other,
                Axis::Z => c.z == self.constant() && c.x == other,
            },
    {
        match self.axis {
            Axis::X => Cube { x: self.constant, y: other, z: -(self.constant + other) },
            Axis::Y => Cube { x: other, y: self.constant, z: -(other + self.constant) },
            Axis::Z => Cube { x: other, y: -(other + self.constant), z: self.constant },
        }
    }

    /// The coordinate that every cell of the line shares.
    pub closed spec fn constant(self) -> i64 {
        self.constant
    }

    /// Which coordinate every cell of the line shares.
    pub closed spec fn axis(self) -> Axis {
        self.axis
    }

    /// Hands out the cell under the cursor and moves the cursor one step
    /// on. There is always a next cell.
    pub fn next(&mut self) -> (r: Option<EvenR>)
        requires
            old(self).wf(),
            old(self).cursor().in_range(),
        ensures
            final(self).wf(),
            r == Some(old(self).cursor().evenr()),
            final(self).cursor() == old(self).cursor().spec_step(old(self).dir()),
            final(self).dir() == old(self).dir(),
    {
        let (src_other, cur_other, dst_other) = match self.axis {
            Axis::X => (self.src.y, self.cur.y, self.dst.y),
            Axis::Y | Axis::Z => (self.src.x, self.cur.x, self.dst.x),
        };
        let next_other = if src_other < dst_other {
            cur_other + 1
        } else {
            cur_other - 1
        };
        let ret = self.cur;
        self.cur = self.make_cube(next_other);
        Some(EvenR::from_cube(&ret))
    }
}

} // verus!
