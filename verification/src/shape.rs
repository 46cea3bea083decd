use vstd::prelude::*;

verus! {

/// The seven tetromino kinds.
#[derive(Clone, Copy, PartialEq, Eq, Debug, Structural)]
pub enum Shape {
    I,
    O,
    T,
    S,
    Z,
    J,
    L,
}

/// Every shape once, in a fixed order (the contents of one 7-bag).
pub const ALL: [Shape; 7] = [Shape::I, Shape::O, Shape::T, Shape::S, Shape::Z, Shape::J, Shape::L];

/// Side of the square box in which a shape rotates.
pub open spec fn spec_size(s: Shape) -> int {
    match s {
        Shape::I => 4,
        Shape::O => 2,
        _ => 3,
    }
}

/// The four cells (x, y) of a shape in its spawn orientation; y grows downward.
pub open spec fn base_cells(s: Shape) -> Seq<(int, int)> {
    match s {
        Shape::I => seq![(0, 1), (1, 1), (2, 1), (3, 1)],
        Shape::O => seq![(0, 0), (1, 0), (0, 1), (1, 1)],
        Shape::T => seq![(1, 0), (0, 1), (1, 1), (2, 1)],
        Shape::S => seq![(1, 0), (2, 0), (0, 1), (1, 1)],
        Shape::Z => seq![(0, 0), (1, 0), (1, 1), (2, 1)],
        Shape::J => seq![(0, 0), (0, 1), (1, 1), (2, 1)],
        Shape::L => seq![(2, 0), (0, 1), (1, 1), (2, 1)],
    }
}

/// A quarter turn clockwise inside an `n`-by-`n` box.
pub open spec fn turn(n: int, c: (int, int)) -> (int, int) {
    (n - 1 - c.1, c.0)
}

/// The cells of `s` after `r` quarter turns.
pub open spec fn turned(s: Shape, r: nat) -> Seq<(int, int)>
    decreases r,
{
    if r == 0 {
        base_cells(s)
    } else {
        let p = turned(s, (r - 1) as nat);
        let n = spec_size(s);
        seq![turn(n, p[0]), turn(n, p[1]), turn(n, p[2]), turn(n, p[3])]
    }
}

/// The cells of `s` in rotation state `rot` (only `rot % 4` matters).
pub open spec fn shape_cells(s: Shape, rot: u8) -> Seq<(int, int)> {
    turned(s, (rot % 4) as nat)
}

/// The integer view of a four-cell array.
pub open spec fn cells_view(a: [(i8, i8); 4]) -> Seq<(int, int)> {
    seq![
        (a[0].0 as int, a[0].1 as int),
        (a[1].0 as int, a[1].1 as int),
        (a[2].0 as int, a[2].1 as int),
        (a[3].0 as int, a[3].1 as int),
    ]
}

/// Every cell of a rotation state lies inside the shape's rotation box.
pub open spec fn in_box(s: Shape, cs: Seq<(int, int)>) -> bool {
    &&& cs.len() == 4
    &&& forall|i: int|
        0 <= i < 4 ==> 0 <= #[trigger] cs[i].0 < spec_size(s) && 0 <= cs[i].1 < spec_size(s)
}

/// Any number of quarter turns keeps a shape inside its rotation box.
pub proof fn lemma_turned_in_box(s: Shape, r: nat)
    ensures
        in_box(s, turned(s, r)),
    decreases r,
{
    if r > 0 {
        lemma_turned_in_box(s, (r - 1) as nat);
    }
}

/// Four quarter turns bring every shape back to where it started.
pub proof fn lemma_four_turns_identity(s: Shape, r: nat)
    ensures
        turned(s, r + 4) == turned(s, r),
    decreases r,
{
    if r == 0 {
        reveal_with_fuel(turned, 5);
        assert(turned(s, 4) =~= turned(s, 0));
    } else {
        lemma_four_turns_identity(s, (r - 1) as nat);
        assert(turned(s, r + 4) =~= turned(s, r));
    }
}

impl Shape {
    /// Side of the square box in which this shape rotates.
    fn size(self) -> (n: i8)
        ensures
            n == spec_size(self),
    {
        match self {
            Shape::I => 4,
            Shape::O => 2,
            _ => 3,
        }
    }

    /// The four cells (x, y) of this shape in rotation state `rot`, y downward.
    pub fn cells(self, rot: u8) -> (c: [(i8, i8); 4])
        ensures
            cells_view(c) == shape_cells(self, rot),
    {
        let base: [(i8, i8); 4] = match self {
            Shape::I => [(0, 1), (1, 1), (2, 1), (3, 1)],
            Shape::O => [(0, 0), (1, 0), (0, 1), (1, 1)],
            Shape::T => [(1, 0), (0, 1), (1, 1), (2, 1)],
            Shape::S => [(1, 0), (2, 0), (0, 1), (1, 1)],
            Shape::Z => [(0, 0), (1, 0), (1, 1), (2, 1)],
            Shape::J => [(0, 0), (0, 1), (1, 1), (2, 1)],
            Shape::L => [(2, 0), (0, 1), (1, 1), (2, 1)],
        };
        let n = self.size();
        let mut c = base;
        assert(cells_view(c) =~= turned(self, 0));
        let turns: u8 = rot % 4;
        let mut k: u8 = 0;
        while k < turns
            invariant
                k <= turns,
                turns == rot % 4,
                n == spec_size(self),
                cells_view(c) == turned(self, k as nat),
            decreases turns - k,
        {
            proof {
                lemma_turned_in_box(self, k as nat);
            }
            c = [
                (n - 1 - c[0].1, c[0].0),
                (n - 1 - c[1].1, c[1].0),
                (n - 1 - c[2].1, c[2].0),
                (n - 1 - c[3].1, c[3].0),
            ];
            k = k + 1;
            assert(cells_view(c) =~= turned(self, k as nat));
        }
        c
    }
}

} // verus!
