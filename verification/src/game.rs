use vstd::prelude::*;
use crate::atoms::{cell_index, lemma_index_in_range, lemma_index_injective, lemma_size_cast, Atom, AtomType, AtomWorld, Grid, Kinetics, spawned_as};
use crate::random::chance;
use crate::odds::{drawn_box, paint_box};
use crate::editor::selected_after;

verus! {

/// The tool the player paints atoms with.
pub struct BrushTool {
    pub atom_type: AtomType,
    pub size: i32,
    pub is_active: bool,
}

impl Default for BrushTool {
    fn default() -> (r: Self)
        ensures
            r.atom_type == AtomType::Sand,
            r.size == 3,
            !r.is_active,
    {
        BrushTool { atom_type: AtomType::Sand, size: 3, is_active: false }
    }
}

impl BrushTool {
    /// The digit keys `1` to `5` pick sand, water, stone, acid or fire (the
    /// last pressed wins); the brush paints while the left mouse button is
    /// held.
    pub fn apply_keys(&mut self, digits: [bool; 5], left_button_held: bool)
        ensures
            final(self).atom_type == selected_after(old(self).atom_type, digits@),
            final(self).size == old(self).size,
            final(self).is_active == left_button_held,
    {
        let ghost start = self.atom_type;
        let mut i: usize = 0;
        while i < 5
            invariant
                0 <= i <= 5,
                digits@.len() == 5,
                self.size == old(self).size,
                self.atom_type == selected_after(start, digits@.take(i as int)),
            decreases 5 - i,
        {
            if digits[i] {
                self.atom_type = match i {
                    0 => AtomType::Sand,
                    1 => AtomType::Water,
                    2 => AtomType::Stone,
                    3 => AtomType::Acid,
                    _ => AtomType::Fire,
                };
            }
            assert(digits@.take(i + 1).drop_last() =~= digits@.take(i as int));
            i = i + 1;
        }
        assert(digits@.take(5) =~= digits@);
        self.is_active = left_button_held;
    }
}

/// (x, y) lies within distance `size` of (cx, cy).
pub open spec fn in_disk(cx: i32, cy: i32, size: i32, x: i32, y: i32) -> bool {
    size >= 0 && (x - cx) * (x - cx) + (y - cy) * (y - cy) <= size * size
}

/// (x, y) is within the disk and comes before the point (dx, dy) of the
/// painting order: columns left to right, each from top to bottom.
pub open spec fn painted_before(cx: i32, cy: i32, size: i32, dx: int, dy: int, x: i32, y: i32) -> bool {
    in_disk(cx, cy, size, x, y) && ((x - cx) < dx || ((x - cx) == dx && (y - cy) < dy))
}

/// Every cell of `after` inside `before`'s grid holds an atom that `placed`
/// accepts where `p` holds, and is unchanged elsewhere.
pub open spec fn painted<K>(
    before: Grid<K>,
    after: Grid<K>,
    placed: spec_fn(Atom<K>) -> bool,
    p: spec_fn(i32, i32) -> bool,
) -> bool {
    &&& after.wf()
    &&& after.width == before.width
    &&& after.height == before.height
    &&& after.updated == before.updated
    &&& forall|x: i32, y: i32|
        before.in_bounds(x, y) ==> if p(x, y) {
            placed(#[trigger] after.at(x, y))
        } else {
            after.at(x, y) == before.at(x, y)
        }
}

/// What a brush of type `t` leaves in a cell: an empty cell at rest for
/// `Empty`, else a new atom of type `t` without lifetime at 20 degrees.
pub open spec fn brush_atom<K: Kinetics>(a: Atom<K>, t: AtomType) -> bool {
    if t == AtomType::Empty {
        a.atom_type == AtomType::Empty && call_ensures(K::at_rest, (), a.kinetics)
    } else {
        spawned_as(a, t, None, 20)
    }
}

/// Painting one more cell (x0, y0) with an atom that `placed` accepts extends the
/// painted cells by it.
pub proof fn lemma_paint_step<K>(
    before: Grid<K>,
    g: Grid<K>,
    placed: spec_fn(Atom<K>) -> bool,
    p: spec_fn(i32, i32) -> bool,
    q: spec_fn(i32, i32) -> bool,
    x0: i32,
    y0: i32,
    a: Atom<K>,
)
    requires
        painted(before, g, placed, p),
        placed(a),
        forall|x: i32, y: i32| #[trigger] q(x, y) == (p(x, y) || (x == x0 && y == y0)),
    ensures
        painted(before, g.set(x0, y0, a), placed, q),
{
    let g2 = g.set(x0, y0, a);
    if g.in_bounds(x0, y0) {
        lemma_index_in_range(g, x0, y0);
    }
    assert forall|x: i32, y: i32| before.in_bounds(x, y) implies if q(x, y) {
        placed(#[trigger] g2.at(x, y))
    } else {
        g2.at(x, y) == before.at(x, y)
    } by {
        lemma_index_in_range(g, x, y);
        if g.in_bounds(x0, y0) && cell_index(g.width, x, y) == cell_index(g.width, x0, y0) {
            lemma_index_injective(g, x, y, x0, y0);
        }
    }
}

/// Paints a disk of radius `brush.size` around (atom_x, atom_y) with the
/// brush's atom type; painting with the empty type erases. The disk test is
/// exact; radii are kept to 2896, below which every squared distance
/// compared is under 2^24 and so also exact in single precision.
pub fn paint_brush<K: Kinetics>(world: &mut AtomWorld<K>, atom_x: i32, atom_y: i32, brush: &BrushTool)
    requires
        old(world).wf(),
        -2896 <= brush.size <= 2896,
        brush.size >= 0 ==> i32::MIN + brush.size <= atom_x <= i32::MAX - brush.size,
        brush.size >= 0 ==> i32::MIN + brush.size <= atom_y <= i32::MAX - brush.size,
    ensures
        painted(old(world)@, final(world)@, |a: Atom<K>| brush_atom(a, brush.atom_type), |x: i32, y: i32| in_disk(atom_x, atom_y, brush.size, x, y)),
{
    let size = brush.size;
    let ghost start = world@;
    let mut dx: i32 = -size;
    assert(painted(start, world@, |a: Atom<K>| brush_atom(a, brush.atom_type), |x: i32, y: i32| painted_before(atom_x, atom_y, size, dx as int, -size as int, x, y))) by {
        assert forall|x: i32, y: i32| start.in_bounds(x, y) && painted_before(atom_x, atom_y, size, dx as int, -size as int, x, y) implies false by {
            assert((x - atom_x) * (x - atom_x) >= 0) by (nonlinear_arith);
            assert((y - atom_y) * (y - atom_y) >= 0) by (nonlinear_arith);
            if x - atom_x < -size {
                assert((x - atom_x) * (x - atom_x) > size * size) by (nonlinear_arith)
                    requires
                        x - atom_x < -size,
                        size >= 0,
                ;
            } else {
                assert((y - atom_y) * (y - atom_y) > size * size) by (nonlinear_arith)
                    requires
                        y - atom_y < -size,
                        size >= 0,
                ;
            }
        }
    }
    while dx <= size
        invariant
            world.wf(),
            -2896 <= size <= 2896,
            size == brush.size,
            -size <= dx <= size + 1 || size < 0,
            dx == -size || -size <= dx,
            size >= 0 ==> i32::MIN + size <= atom_x <= i32::MAX - size,
            size >= 0 ==> i32::MIN + size <= atom_y <= i32::MAX - size,
            painted(start, world@, |a: Atom<K>| brush_atom(a, brush.atom_type), |x: i32, y: i32| painted_before(atom_x, atom_y, size, dx as int, -size as int, x, y)),
        decreases size + 1 - dx,
    {
        let mut dy: i32 = -size;
        while dy <= size
            invariant
                world.wf(),
                -2896 <= size <= 2896,
                size == brush.size,
                -size <= dx <= size,
                -size <= dy <= size + 1,
                size >= 0 ==> i32::MIN + size <= atom_x <= i32::MAX - size,
                size >= 0 ==> i32::MIN + size <= atom_y <= i32::MAX - size,
                painted(start, world@, |a: Atom<K>| brush_atom(a, brush.atom_type), |x: i32, y: i32| painted_before(atom_x, atom_y, size, dx as int, dy as int, x, y)),
            decreases size + 1 - dy,
        {
            assert(dx * dx <= 2896 * 2896) by (nonlinear_arith)
                requires
                    -2896 <= dx <= 2896,
            ;
            assert(dy * dy <= 2896 * 2896) by (nonlinear_arith)
                requires
                    -2896 <= dy <= 2896,
            ;
            assert(0 <= dx * dx && 0 <= dy * dy) by (nonlinear_arith);
            assert(size * size <= 2896 * 2896) by (nonlinear_arith)
                requires
                    -2896 <= size <= 2896,
            ;
            let dist = dx * dx + dy * dy;
            let x = atom_x + dx;
            let y = atom_y + dy;
            let ghost before = world@;
            let ghost p = |x: i32, y: i32| painted_before(atom_x, atom_y, size, dx as int, dy as int, x, y);
            let ghost q = |x: i32, y: i32| painted_before(atom_x, atom_y, size, dx as int, dy + 1, x, y);
            if dist <= size * size {
                let atom = if brush.atom_type == AtomType::Empty {
                    Atom::default()
                } else {
                    Atom::spawn(brush.atom_type, None, 20)
                };
                proof {
                    assert forall|x2: i32, y2: i32| #[trigger] q(x2, y2) == (p(x2, y2) || (x2 == x && y2 == y)) by {}
                    lemma_paint_step(start, before, |a: Atom<K>| brush_atom(a, brush.atom_type), p, q, x, y, atom);
                }
                world.set_atom(x, y, atom);
            } else {
                assert forall|x2: i32, y2: i32| start.in_bounds(x2, y2) implies (q(x2, y2) == p(x2, y2)) by {
                    if x2 == x && y2 == y {
                        assert(!in_disk(atom_x, atom_y, size, x2, y2));
                    }
                }
                assert(painted(start, world@, |a: Atom<K>| brush_atom(a, brush.atom_type), q));
            }
            dy = dy + 1;
        }
        proof {
            let p = |x: i32, y: i32| painted_before(atom_x, atom_y, size, dx as int, dy as int, x, y);
            let q = |x: i32, y: i32| painted_before(atom_x, atom_y, size, dx + 1, -size as int, x, y);
            assert forall|x2: i32, y2: i32| start.in_bounds(x2, y2) implies q(x2, y2) == p(x2, y2) by {
                if in_disk(atom_x, atom_y, size, x2, y2) && x2 - atom_x == dx {
                    if y2 - atom_y > size {
                        assert((y2 - atom_y) * (y2 - atom_y) > size * size) by (nonlinear_arith)
                            requires
                                y2 - atom_y > size,
                                size >= 0,
                        ;
                        assert((x2 - atom_x) * (x2 - atom_x) >= 0) by (nonlinear_arith);
                    }
                }
                if in_disk(atom_x, atom_y, size, x2, y2) && x2 - atom_x == dx + 1 && y2 - atom_y < -size {
                    assert((y2 - atom_y) * (y2 - atom_y) > size * size) by (nonlinear_arith)
                        requires
                            y2 - atom_y < -size,
                            size >= 0,
                    ;
                    assert((x2 - atom_x) * (x2 - atom_x) >= 0) by (nonlinear_arith);
                }
            }
            assert(painted(start, world@, |a: Atom<K>| brush_atom(a, brush.atom_type), q));
        }
        dx = dx + 1;
    }
    proof {
        let p = |x: i32, y: i32| painted_before(atom_x, atom_y, size, dx as int, -size as int, x, y);
        let q = |x: i32, y: i32| in_disk(atom_x, atom_y, size, x, y);
        assert forall|x2: i32, y2: i32| start.in_bounds(x2, y2) implies q(x2, y2) == p(x2, y2) by {
            if in_disk(atom_x, atom_y, size, x2, y2) && x2 - atom_x >= dx {
                assert((x2 - atom_x) * (x2 - atom_x) > size * size) by (nonlinear_arith)
                    requires
                        x2 - atom_x > size,
                        size >= 0,
                ;
                assert((y2 - atom_y) * (y2 - atom_y) >= 0) by (nonlinear_arith);
            }
        }
        assert(painted(start, world@, |a: Atom<K>| brush_atom(a, brush.atom_type), q));
    }
}

/// (x, y) lies in the `w` by `h` box whose lowest corner is (x0, y0).
pub open spec fn in_box(x0: int, y0: int, w: int, h: int, x: i32, y: i32) -> bool {
    x0 <= x < x0 + w && y0 <= y < y0 + h
}

/// Cells of `after` where `p` holds are new atoms of type t without lifetime at
/// 20 degrees, or, unless `always`,
/// unchanged; every other cell of `before`'s grid is unchanged.
pub open spec fn box_painted<K: Kinetics>(before: Grid<K>, after: Grid<K>, t: AtomType, always: bool, p: spec_fn(i32, i32) -> bool) -> bool {
    &&& after.wf()
    &&& after.width == before.width
    &&& after.height == before.height
    &&& after.updated == before.updated
    &&& forall|x: i32, y: i32|
        before.in_bounds(x, y) ==> if p(x, y) {
            (spawned_as(#[trigger] after.at(x, y), t, None, 20) || (!always && after.at(x, y) == before.at(x, y)))
        } else {
            after.at(x, y) == before.at(x, y)
        }
}

pub proof fn lemma_box_step<K: Kinetics>(
    before: Grid<K>,
    g: Grid<K>,
    t: AtomType,
    always: bool,
    p: spec_fn(i32, i32) -> bool,
    q: spec_fn(i32, i32) -> bool,
    x0: i32,
    y0: i32,
    a: Option<Atom<K>>,
)
    requires
        box_painted(before, g, t, always, p),
        a matches Some(b) ==> spawned_as(b, t, None, 20),
        always ==> a is Some,
        !p(x0, y0),
        forall|x: i32, y: i32| #[trigger] q(x, y) == (p(x, y) || (x == x0 && y == y0)),
    ensures
        box_painted(before, if a is Some { g.set(x0, y0, a->0) } else { g }, t, always, q),
{
    let g2 = if a is Some { g.set(x0, y0, a->0) } else { g };
    if g.in_bounds(x0, y0) {
        lemma_index_in_range(g, x0, y0);
    }
    assert forall|x: i32, y: i32| before.in_bounds(x, y) implies if q(x, y) {
        (spawned_as(#[trigger] g2.at(x, y), t, None, 20) || (!always && g2.at(x, y) == before.at(x, y)))
    } else {
        g2.at(x, y) == before.at(x, y)
    } by {
        lemma_index_in_range(g, x, y);
        if g.in_bounds(x0, y0) && cell_index(g.width, x, y) == cell_index(g.width, x0, y0) {
            lemma_index_injective(g, x, y, x0, y0);
        }
    }
}

/// The demo terrain: a stone floor ten cells deep across the whole width, a
/// heap of sand (each cell of its box with chance 7 in 10) and a pool of
/// water (each cell with chance 4 in 5), each a new atom without lifetime at
/// 20 degrees; everything else is left as it was.
pub open spec fn demo_terrain<K: Kinetics>(before: Grid<K>, after: Grid<K>) -> bool {
    &&& after.wf()
    &&& after.width == before.width
    &&& after.height == before.height
    &&& after.updated == before.updated
    &&& forall|x: i32, y: i32|
        before.in_bounds(x, y) ==> if y < 10 {
            spawned_as(#[trigger] after.at(x, y), AtomType::Stone, None, 20)
        } else if in_box(50, 10, 30, 15, x, y) {
            after.at(x, y) == before.at(x, y) || spawned_as(after.at(x, y), AtomType::Sand, None, 20)
        } else if in_box(120, 10, 20, 10, x, y) {
            after.at(x, y) == before.at(x, y) || spawned_as(after.at(x, y), AtomType::Water, None, 20)
        } else {
            after.at(x, y) == before.at(x, y)
        }
}

/// Lays out the demo terrain (see `demo_terrain`).
pub fn create_demo_terrain<K: Kinetics>(world: &mut AtomWorld<K>)
    requires
        old(world).wf(),
        old(world)@.addressable(),
    ensures
        demo_terrain(old(world)@, final(world)@),
        exists|floor: Grid<K>, heaped: Grid<K>|
            #![trigger drawn_box(old(world)@, floor, 0, 0, old(world).width as int, 10, AtomType::Stone, true, 1, 1), drawn_box(heaped, final(world)@, 120, 10, 20, 10, AtomType::Water, false, 4, 5)]
            drawn_box(old(world)@, floor, 0, 0, old(world).width as int, 10, AtomType::Stone, true, 1, 1) && drawn_box(
                floor,
                heaped,
                50,
                10,
                30,
                15,
                AtomType::Sand,
                false,
                7,
                10,
            ) && drawn_box(heaped, final(world)@, 120, 10, 20, 10, AtomType::Water, false, 4, 5),
{
    let ghost g0 = world@;
    let width = world.width;
    paint_box(world, 0, 0, width, 10, AtomType::Stone, true, 1, 1);
    let ghost g1 = world@;
    paint_box(world, 50, 10, 30, 15, AtomType::Sand, false, 7, 10);
    let ghost g2 = world@;
    paint_box(world, 120, 10, 20, 10, AtomType::Water, false, 4, 5);
    let ghost g3 = world@;
    assert forall|x: i32, y: i32| g0.in_bounds(x, y) implies if y < 10 {
        spawned_as(#[trigger] g3.at(x, y), AtomType::Stone, None, 20)
    } else if in_box(50, 10, 30, 15, x, y) {
        g3.at(x, y) == g0.at(x, y) || spawned_as(g3.at(x, y), AtomType::Sand, None, 20)
    } else if in_box(120, 10, 20, 10, x, y) {
        g3.at(x, y) == g0.at(x, y) || spawned_as(g3.at(x, y), AtomType::Water, None, 20)
    } else {
        g3.at(x, y) == g0.at(x, y)
    } by {
        lemma_size_cast(width);
        assert(g1.at(x, y) == g0.at(x, y) || in_box(0, 0, width as int, 10, x, y));
        assert(g2.at(x, y) == g1.at(x, y) || in_box(50, 10, 30, 15, x, y));
        assert(g3.at(x, y) == g2.at(x, y) || in_box(120, 10, 20, 10, x, y));
    }
}

/// Where the demo keys drop their atoms: sand, water, fire and acid side by
/// side at height 50.
pub open spec fn demo_spot(k: int) -> (i32, i32) {
    ((100 + 5 * k) as i32, 50i32)
}

pub open spec fn demo_kind(k: int) -> AtomType {
    if k == 0 {
        AtomType::Sand
    } else if k == 1 {
        AtomType::Water
    } else if k == 2 {
        AtomType::Fire
    } else {
        AtomType::Acid
    }
}

/// How long a demo atom of slot `k` burns: fire for 5 seconds, the others
/// without end.
pub open spec fn demo_lifetime(k: int) -> Option<u32> {
    if k == 2 {
        Some(5u32)
    } else {
        None
    }
}

/// The temperature a demo atom of slot `k` starts at.
pub open spec fn demo_temperature(k: int) -> i32 {
    if k == 2 {
        800i32
    } else {
        20i32
    }
}

/// The demo atom of slot `k` is at `a`, freshly placed.
pub open spec fn demo_placed<K: Kinetics>(k: int, a: Atom<K>) -> bool {
    spawned_as(a, demo_kind(k), demo_lifetime(k), demo_temperature(k))
}

/// Drops a sand, water, fire or acid atom at its spot for each of the keys
/// `Q`, `W`, `E`, `R` held (in that order); fire burns for 5 seconds at 800
/// degrees, the others sit at 20.
pub fn spawn_demo_atoms<K: Kinetics>(world: &mut AtomWorld<K>, held: [bool; 4])
    requires
        old(world).wf(),
    ensures
        final(world).wf(),
        final(world).width == old(world).width,
        final(world).height == old(world).height,
        final(world)@.updated == old(world)@.updated,
        forall|x: i32, y: i32|
            old(world)@.in_bounds(x, y) ==> if exists|k: int| 0 <= k < 4 && held@[k] && demo_spot(k) == (x, y) {
                demo_placed((x - 100) / 5, #[trigger] final(world)@.at(x, y))
            } else {
                final(world)@.at(x, y) == old(world)@.at(x, y)
            },
{
    let ghost start = world@;
    let mut k: usize = 0;
    while k < 4
        invariant
            0 <= k <= 4,
            world.wf(),
            world.width == start.width,
            world.height == start.height,
            world@.updated == start.updated,
            forall|x: i32, y: i32|
                start.in_bounds(x, y) ==> if exists|j: int| 0 <= j < k && held@[j] && demo_spot(j) == (x, y) {
                    demo_placed((x - 100) / 5, #[trigger] world@.at(x, y))
                } else {
                    world@.at(x, y) == start.at(x, y)
                },
        decreases 4 - k,
    {
        if held[k] {
            let x: i32 = 100 + 5 * (k as i32);
            let atom = match k {
                0 => Atom::spawn(AtomType::Sand, None, 20),
                1 => Atom::spawn(AtomType::Water, None, 20),
                2 => Atom::spawn(AtomType::Fire, Some(5), 800),
                _ => Atom::spawn(AtomType::Acid, None, 20),
            };
            let ghost before = world@;
            world.set_atom(x, 50, atom);
            proof {
                assert((x - 100) / 5 == k);
                if before.in_bounds(x, 50) {
                    lemma_index_in_range(before, x, 50);
                }
                assert forall|cx: i32, cy: i32| start.in_bounds(cx, cy) implies if exists|j: int| 0 <= j < k + 1 && held@[j] && demo_spot(j) == (cx, cy) {
                    demo_placed((cx - 100) / 5, #[trigger] world@.at(cx, cy))
                } else {
                    world@.at(cx, cy) == start.at(cx, cy)
                } by {
                    lemma_index_in_range(before, cx, cy);
                    if cx == x && cy == 50 {
                        assert(demo_spot(k as int) == (cx, cy));
                    } else {
                        if before.in_bounds(x, 50) && cell_index(before.width, cx, cy) == cell_index(before.width, x, 50) {
                            lemma_index_injective(before, cx, cy, x, 50);
                        }
                        assert(world@.at(cx, cy) == before.at(cx, cy));
                        if exists|j: int| 0 <= j < k + 1 && held@[j] && demo_spot(j) == (cx, cy) {
                            let j = choose|j: int| 0 <= j < k + 1 && held@[j] && demo_spot(j) == (cx, cy);
                            assert(j != k);
                        }
                    }
                }
            }
        } else {
            proof {
                assert forall|cx: i32, cy: i32| start.in_bounds(cx, cy) implies if exists|j: int| 0 <= j < k + 1 && held@[j] && demo_spot(j) == (cx, cy) {
                    demo_placed((cx - 100) / 5, #[trigger] world@.at(cx, cy))
                } else {
                    world@.at(cx, cy) == start.at(cx, cy)
                } by {
                    if exists|j: int| 0 <= j < k + 1 && held@[j] && demo_spot(j) == (cx, cy) {
                        let j = choose|j: int| 0 <= j < k + 1 && held@[j] && demo_spot(j) == (cx, cy);
                        assert(j != k);
                    }
                }
            }
        }
        k = k + 1;
    }
}

} // verus!
