use vstd::prelude::*;
use noise::Perlin;
use crate::atoms::{cell_index, lemma_index_in_range, lemma_index_injective, spawned_as, Atom, AtomType, AtomWorld, Grid, Kinetics};
use crate::random::chance;
use crate::odds::{drawn_mix, drawn_square, mix_square, scatter_square};

verus! {

/// `noise::Perlin`, the seeded noise generator the terrain is shaped from;
/// nothing inside it is visible here.
#[verifier::external_type_specification]
#[verifier::external_body]
pub struct ExPerlin(noise::Perlin);

/// `noise::Perlin::new`: Perlin noise seeded with `seed`. The generator is
/// opaque here; nothing is claimed of it.
pub assume_specification[ noise::Perlin::new ](seed: u32) -> Perlin;

/// The kinds of level the generator builds.
#[derive(Debug, Clone, Copy, PartialEq, Eq, Structural)]
pub enum LevelType {
    Cave,
    Island,
    Mountain,
    Volcano,
    Laboratory,
}

/// Procedural level generation from seeded Perlin noise.
pub struct LevelGenerator {
    seed: u32,
    perlin: Perlin,
}

impl LevelGenerator {
    pub closed spec fn spec_seed(&self) -> u32 {
        self.seed
    }

    /// A generator whose noise is seeded with `seed`.
    pub fn new(seed: u32) -> (r: Self)
        ensures
            r.spec_seed() == seed,
    {
        LevelGenerator { seed, perlin: Perlin::new(seed) }
    }

    /// The seed the noise was made with.
    pub fn seed(&self) -> (r: u32)
        ensures
            r == self.spec_seed(),
    {
        self.seed
    }

    /// The noise generator this generator holds.
    pub closed spec fn spec_perlin(&self) -> Perlin {
        self.perlin
    }

    /// The noise generator the terrain is shaped from.
    pub fn perlin(&self) -> (r: &Perlin)
        ensures
            *r == self.spec_perlin(),
    {
        &self.perlin
    }

    /// Each cell of the square of side `size` at (start_x, start_y) becomes,
    /// with chance `numerator / denominator`, a new atom of `atom_type`: every
    /// one of them when the chance is certain, none when it is nil.
    fn scatter<K: Kinetics>(
        &self,
        world: &mut AtomWorld<K>,
        start_x: usize,
        start_y: usize,
        size: usize,
        numerator: u32,
        denominator: u32,
        atom_type: AtomType,
        lifetime_secs: Option<u32>,
        temperature: i32,
    )
        requires
            old(world).wf(),
            start_x + size <= i32::MAX,
            start_y + size <= i32::MAX,
            0 < denominator,
            numerator <= denominator,
        ensures
            scattered(
                old(world)@,
                final(world)@,
                start_x as int,
                start_y as int,
                size as int,
                |a: Atom<K>| spawned_as(a, atom_type, lifetime_secs, temperature),
            ),
            numerator == denominator ==> forall|x: i32, y: i32|
                old(world)@.in_bounds(x, y) && in_square(start_x as int, start_y as int, size as int, x, y)
                    ==> spawned_as(#[trigger] final(world)@.at(x, y), atom_type, lifetime_secs, temperature),
            numerator == 0 ==> final(world)@ == old(world)@,
            drawn_square(
                old(world)@,
                final(world)@,
                start_x as int,
                start_y as int,
                size as int,
                atom_type,
                lifetime_secs,
                temperature,
                numerator,
                denominator,
            ),
    {
        scatter_square(world, start_x, start_y, size, numerator, denominator, atom_type, lifetime_secs, temperature);
    }

    /// Acid fills each cell of the square with chance 3 in 5.
    pub fn add_acid_experiment<K: Kinetics>(&self, world: &mut AtomWorld<K>, start_x: usize, start_y: usize, size: usize)
        requires
            old(world).wf(),
            start_x + size <= i32::MAX,
            start_y + size <= i32::MAX,
        ensures
            scattered(old(world)@, final(world)@, start_x as int, start_y as int, size as int, |a: Atom<K>| spawned_as(a, AtomType::Acid, None, 20)),
            drawn_square(
                old(world)@,
                final(world)@,
                start_x as int,
                start_y as int,
                size as int,
                AtomType::Acid,
                None,
                20,
                3,
                5,
            ),
    {
        self.scatter(world, start_x, start_y, size, 3, 5, AtomType::Acid, None, 20);
    }

    /// Fire, burning for 10 s at 800 degrees, fills each cell of the square
    /// with chance 2 in 5.
    pub fn add_fire_experiment<K: Kinetics>(&self, world: &mut AtomWorld<K>, start_x: usize, start_y: usize, size: usize)
        requires
            old(world).wf(),
            start_x + size <= i32::MAX,
            start_y + size <= i32::MAX,
        ensures
            scattered(old(world)@, final(world)@, start_x as int, start_y as int, size as int, |a: Atom<K>| spawned_as(a, AtomType::Fire, Some(10), 800)),
            drawn_square(
                old(world)@,
                final(world)@,
                start_x as int,
                start_y as int,
                size as int,
                AtomType::Fire,
                Some(10),
                800,
                2,
                5,
            ),
    {
        self.scatter(world, start_x, start_y, size, 2, 5, AtomType::Fire, Some(10), 800);
    }

    /// Water fills each cell of the square with chance 7 in 10.
    pub fn add_water_experiment<K: Kinetics>(&self, world: &mut AtomWorld<K>, start_x: usize, start_y: usize, size: usize)
        requires
            old(world).wf(),
            start_x + size <= i32::MAX,
            start_y + size <= i32::MAX,
        ensures
            scattered(old(world)@, final(world)@, start_x as int, start_y as int, size as int, |a: Atom<K>| spawned_as(a, AtomType::Water, None, 20)),
            drawn_square(
                old(world)@,
                final(world)@,
                start_x as int,
                start_y as int,
                size as int,
                AtomType::Water,
                None,
                20,
                7,
                10,
            ),
    {
        self.scatter(world, start_x, start_y, size, 7, 10, AtomType::Water, None, 20);
    }

    /// Every cell of the square becomes water, acid, fire (burning for 8 s at
    /// 700 degrees) or sand, each with chance 1 in 4.
    pub fn add_mixed_experiment<K: Kinetics>(&self, world: &mut AtomWorld<K>, start_x: usize, start_y: usize, size: usize)
        requires
            old(world).wf(),
            start_x + size <= i32::MAX,
            start_y + size <= i32::MAX,
        ensures
            scattered(old(world)@, final(world)@, start_x as int, start_y as int, size as int, |a: Atom<K>| mixed_atom(a)),
            forall|x: i32, y: i32|
                old(world)@.in_bounds(x, y) && in_square(start_x as int, start_y as int, size as int, x, y)
                    ==> mixed_atom(#[trigger] final(world)@.at(x, y)),
            drawn_mix(old(world)@, final(world)@, start_x as int, start_y as int, size as int, (1, 4), (1, 3), (1, 2)),
    {
        mix_square(world, start_x, start_y, size, (1, 4), (1, 3), (1, 2));
    }

    /// The stone border of the 40 by 30 room at (sx, sy).
    fn build_walls<K: Kinetics>(&self, world: &mut AtomWorld<K>, sx: usize, sy: usize)
        requires
            old(world).wf(),
            old(world)@.addressable(),
            sx + 40 <= old(world).width,
            sy + 30 <= old(world).height,
        ensures
            final(world).wf(),
            final(world).width == old(world).width,
            final(world).height == old(world).height,
            final(world)@.updated == old(world)@.updated,
            forall|x: i32, y: i32|
                old(world)@.in_bounds(x, y) ==> if in_rect(sx as int, sy as int, x, y) && on_border(sx as int, sy as int, x, y) {
                    spawned_as(#[trigger] final(world)@.at(x, y), AtomType::Stone, None, 20)
                } else {
                    final(world)@.at(x, y) == old(world)@.at(x, y)
                },
    {
        let ghost start = world@;
        let mut x = sx;
        while x < sx + 40
            invariant
                world.wf(),
                world@.addressable(),
                world.width == start.width,
                world.height == start.height,
                world@.updated == start.updated,
                sx + 40 <= start.width,
                sy + 30 <= start.height,
                sx <= x <= sx + 40,
                forall|px: i32, py: i32|
                    start.in_bounds(px, py) ==> if in_rect(sx as int, sy as int, px, py) && on_border(sx as int, sy as int, px, py) && px < x {
                        spawned_as(#[trigger] world@.at(px, py), AtomType::Stone, None, 20)
                    } else {
                        world@.at(px, py) == start.at(px, py)
                    },
            decreases sx + 40 - x,
        {
            let mut y = sy;
            while y < sy + 30
                invariant
                    world.wf(),
                    world@.addressable(),
                    world.width == start.width,
                    world.height == start.height,
                    world@.updated == start.updated,
                    sx + 40 <= start.width,
                    sy + 30 <= start.height,
                    sx <= x < sx + 40,
                    sy <= y <= sy + 30,
                    forall|px: i32, py: i32|
                        start.in_bounds(px, py) ==> if in_rect(sx as int, sy as int, px, py) && on_border(sx as int, sy as int, px, py) && (px < x || (px == x && py < y)) {
                            spawned_as(#[trigger] world@.at(px, py), AtomType::Stone, None, 20)
                        } else {
                            world@.at(px, py) == start.at(px, py)
                        },
                decreases sy + 30 - y,
            {
                let is_wall = x == sx || x == sx + 40 - 1 || y == sy || y == sy + 30 - 1;
                if is_wall {
                    let ghost g = world@;
                    let xi = x as i32;
                    let yi = y as i32;
                    world.set_atom(xi, yi, Atom::spawn(AtomType::Stone, None, 20));
                    proof {
                        lemma_index_in_range(g, xi, yi);
                        assert forall|px: i32, py: i32| start.in_bounds(px, py) implies if in_rect(sx as int, sy as int, px, py) && on_border(sx as int, sy as int, px, py) && (px < x || (px == x && py < y + 1)) {
                            spawned_as(#[trigger] world@.at(px, py), AtomType::Stone, None, 20)
                        } else {
                            world@.at(px, py) == start.at(px, py)
                        } by {
                            lemma_index_in_range(g, px, py);
                            if !(px == xi && py == yi) {
                                if cell_index(g.width, px, py) == cell_index(g.width, xi, yi) {
                                    lemma_index_injective(g, px, py, xi, yi);
                                }
                                assert(world@.at(px, py) == g.at(px, py));
                            }
                        }
                    }
                }
                y = y + 1;
            }
            x = x + 1;
        }
    }

    /// The room at room column `room_x` and row `room_y`: its stone border,
    /// then its experiment.
    fn build_room<K: Kinetics>(&self, world: &mut AtomWorld<K>, room_x: usize, room_y: usize)
        requires
            old(world).wf(),
            old(world)@.addressable(),
            room_x * 40 + 40 <= old(world).width,
            room_y * 30 + 30 <= old(world).height,
        ensures
            final(world).wf(),
            final(world).width == old(world).width,
            final(world).height == old(world).height,
            final(world)@.updated == old(world)@.updated,
            forall|x: i32, y: i32|
                old(world)@.in_bounds(x, y) ==> if in_rect(room_x * 40, room_y * 30, x, y) {
                    room_cell(old(world)@, final(world)@, room_x * 40, room_y * 30, ((room_x + room_y) % 4) as int, x, y)
                } else {
                    #[trigger] final(world)@.at(x, y) == old(world)@.at(x, y)
                },
    {
        let ghost start = world@;
        let start_x = room_x * 40;
        let start_y = room_y * 30;
        self.build_walls(world, start_x, start_y);
        let ghost walled = world@;
        let experiment_type = (room_x + room_y) % 4;
        let ghost e = experiment_type as int;
        match experiment_type {
            0 => self.add_acid_experiment(world, start_x + 5, start_y + 5, 10),
            1 => self.add_fire_experiment(world, start_x + 5, start_y + 5, 10),
            2 => self.add_water_experiment(world, start_x + 5, start_y + 5, 10),
            3 => self.add_mixed_experiment(world, start_x + 5, start_y + 5, 10),
            _ => {},
        }
        assert(scattered(walled, world@, start_x + 5, start_y + 5, 10, |a: Atom<K>| experiment_atom(e, a)));
        assert forall|x: i32, y: i32| start.in_bounds(x, y) implies if in_rect(start_x as int, start_y as int, x, y) {
            room_cell(start, world@, start_x as int, start_y as int, e, x, y)
        } else {
            #[trigger] world@.at(x, y) == start.at(x, y)
        } by {
            assert(walled.at(x, y) == start.at(x, y) || (in_rect(start_x as int, start_y as int, x, y) && on_border(start_x as int, start_y as int, x, y)));
            assert(world@.at(x, y) == walled.at(x, y) || (in_square(start_x + 5, start_y + 5, 10, x, y) && experiment_atom(e, world@.at(x, y))));
        }
    }

    /// Tiles the grid with 40 by 30 rooms from the top-left corner, row by row:
    /// each gets a stone border and an experiment (see `lab_cell`).
    pub fn generate_laboratory_level<K: Kinetics>(&self, world: &mut AtomWorld<K>)
        requires
            old(world).wf(),
            old(world)@.addressable(),
        ensures
            final(world).wf(),
            final(world).width == old(world).width,
            final(world).height == old(world).height,
            final(world)@.updated == old(world)@.updated,
            forall|x: i32, y: i32| old(world)@.in_bounds(x, y) ==> #[trigger] lab_cell(old(world)@, final(world)@, x, y),
    {
        let ghost start = world@;
        let room_width: usize = 40;
        let room_height: usize = 30;
        let rooms_y = world.height / room_height;
        let rooms_x = world.width / room_width;
        let mut room_y: usize = 0;
        while room_y < rooms_y
            invariant
                world.wf(),
                world@.addressable(),
                world.width == start.width,
                world.height == start.height,
                world@.updated == start.updated,
                rooms_x == start.width / 40,
                rooms_y == start.height / 30,
                room_y <= rooms_y,
                forall|x: i32, y: i32|
                    start.in_bounds(x, y) ==> if x / 40 < rooms_x && y / 30 < room_y {
                        lab_cell(start, world@, x, y)
                    } else {
                        #[trigger] world@.at(x, y) == start.at(x, y)
                    },
            decreases rooms_y - room_y,
        {
            let mut room_x: usize = 0;
            while room_x < rooms_x
                invariant
                    world.wf(),
                    world@.addressable(),
                    world.width == start.width,
                    world.height == start.height,
                    world@.updated == start.updated,
                    rooms_x == start.width / 40,
                    rooms_y == start.height / 30,
                    room_y < rooms_y,
                    room_x <= rooms_x,
                    forall|x: i32, y: i32|
                        start.in_bounds(x, y) ==> if x / 40 < rooms_x && (y / 30 < room_y || (y / 30 == room_y && x / 40 < room_x)) {
                            lab_cell(start, world@, x, y)
                        } else {
                            #[trigger] world@.at(x, y) == start.at(x, y)
                        },
                decreases rooms_x - room_x,
            {
                assert(room_x * 40 + 40 <= start.width) by (nonlinear_arith)
                    requires
                        room_x < rooms_x,
                        rooms_x == start.width / 40,
                ;
                assert(room_y * 30 + 30 <= start.height) by (nonlinear_arith)
                    requires
                        room_y < rooms_y,
                        rooms_y == start.height / 30,
                ;
                let ghost before = world@;
                self.build_room(world, room_x, room_y);
                assert forall|x: i32, y: i32| start.in_bounds(x, y) implies if x / 40 < rooms_x && (y / 30 < room_y || (y / 30 == room_y && x / 40 < room_x + 1)) {
                    lab_cell(start, world@, x, y)
                } else {
                    #[trigger] world@.at(x, y) == start.at(x, y)
                } by {
                    lemma_room_coords(x, y, room_x as int, room_y as int);
                }
                room_x = room_x + 1;
            }
            room_y = room_y + 1;
        }
        assert forall|x: i32, y: i32| start.in_bounds(x, y) implies #[trigger] lab_cell(start, world@, x, y) by {
            assert(world@.at(x, y) == start.at(x, y) || (x / 40 < rooms_x && y / 30 < rooms_y));
        }
    }

    /// Each empty cell becomes water with chance `numerator / denominator`.
    pub fn add_water_features<K: Kinetics>(&self, world: &mut AtomWorld<K>, numerator: u32, denominator: u32)
        requires
            old(world).wf(),
            old(world)@.addressable(),
            0 < denominator,
            numerator <= denominator,
        ensures
            final(world).wf(),
            final(world).width == old(world).width,
            final(world).height == old(world).height,
            final(world)@.updated == old(world)@.updated,
            forall|x: i32, y: i32|
                old(world)@.in_bounds(x, y) ==> #[trigger] final(world)@.at(x, y) == old(world)@.at(x, y) || (old(
                    world,
                )@.kind(x, y) == AtomType::Empty && spawned_as(final(world)@.at(x, y), AtomType::Water, None, 20)),
            numerator == denominator ==> forall|x: i32, y: i32|
                old(world)@.in_bounds(x, y) && old(world)@.kind(x, y) == AtomType::Empty ==> spawned_as(
                    #[trigger] final(world)@.at(x, y),
                    AtomType::Water,
                    None,
                    20,
                ),
            numerator == 0 ==> final(world)@ == old(world)@,
    {
        let ghost start = world@;
        let mut y: usize = 0;
        while y < world.height
            invariant
                world.wf(),
                world@.addressable(),
                world.width == start.width,
                world.height == start.height,
                world@.updated == start.updated,
                0 < denominator,
                numerator <= denominator,
                y <= world.height,
                forall|px: i32, py: i32|
                    start.in_bounds(px, py) ==> #[trigger] world@.at(px, py) == start.at(px, py) || (start.kind(px, py)
                        == AtomType::Empty && spawned_as(world@.at(px, py), AtomType::Water, None, 20)),
                forall|px: i32, py: i32|
                    start.in_bounds(px, py) && py >= y ==> #[trigger] world@.at(px, py) == start.at(px, py),
                numerator == denominator ==> forall|px: i32, py: i32|
                    start.in_bounds(px, py) && py < y && start.kind(px, py) == AtomType::Empty ==> spawned_as(#[trigger] world@.at(px, py), AtomType::Water, None, 20),
                numerator == 0 ==> world@ == start,
            decreases start.height - y,
        {
            let mut x: usize = 0;
            while x < world.width
                invariant
                    world.wf(),
                    world@.addressable(),
                    world.width == start.width,
                    world.height == start.height,
                    world@.updated == start.updated,
                    0 < denominator,
                    numerator <= denominator,
                    y < world.height,
                    x <= world.width,
                    forall|px: i32, py: i32|
                        start.in_bounds(px, py) ==> #[trigger] world@.at(px, py) == start.at(px, py) || (start.kind(
                            px,
                            py,
                        ) == AtomType::Empty && spawned_as(world@.at(px, py), AtomType::Water, None, 20)),
                    forall|px: i32, py: i32|
                        start.in_bounds(px, py) && (py > y || (py == y && px >= x)) ==> #[trigger] world@.at(px, py)
                            == start.at(px, py),
                    numerator == denominator ==> forall|px: i32, py: i32|
                        start.in_bounds(px, py) && (py < y || (py == y && px < x)) && start.kind(px, py) == AtomType::Empty
                            ==> spawned_as(#[trigger] world@.at(px, py), AtomType::Water, None, 20),
                    numerator == 0 ==> world@ == start,
                decreases start.width - x,
            {
                let xi = x as i32;
                let yi = y as i32;
                if world.is_empty(xi, yi) {
                    if chance(numerator, denominator) {
                        let atom = Atom::spawn(AtomType::Water, None, 20);
                        let ghost g = world@;
                        world.set_atom(xi, yi, atom);
                        proof {
                            lemma_index_in_range(g, xi, yi);
                            assert forall|px: i32, py: i32| start.in_bounds(px, py) implies #[trigger] world@.at(px, py)
                                == start.at(px, py) || (start.kind(px, py) == AtomType::Empty && spawned_as(world@.at(px, py), AtomType::Water, None, 20)) by {
                                lemma_index_in_range(g, px, py);
                                if cell_index(g.width, px, py) == cell_index(g.width, xi, yi) {
                                    lemma_index_injective(g, px, py, xi, yi);
                                    assert(g.at(px, py) == start.at(px, py));
                                } else {
                                    assert(world@.at(px, py) == g.at(px, py));
                                }
                            }
                            assert forall|px: i32, py: i32|
                                start.in_bounds(px, py) && (py > y || (py == y && px >= x + 1)) implies #[trigger] world@.at(
                                px,
                                py,
                            ) == start.at(px, py) by {
                                lemma_index_in_range(g, px, py);
                                if cell_index(g.width, px, py) == cell_index(g.width, xi, yi) {
                                    lemma_index_injective(g, px, py, xi, yi);
                                }
                                assert(world@.at(px, py) == g.at(px, py));
                            }
                            if numerator == denominator {
                                assert forall|px: i32, py: i32|
                                    start.in_bounds(px, py) && (py < y || (py == y && px < x + 1)) && start.kind(px, py)
                                        == AtomType::Empty implies spawned_as(#[trigger] world@.at(px, py), AtomType::Water, None, 20) by {
                                    lemma_index_in_range(g, px, py);
                                    if cell_index(g.width, px, py) == cell_index(g.width, xi, yi) {
                                        lemma_index_injective(g, px, py, xi, yi);
                                    } else {
                                        assert(world@.at(px, py) == g.at(px, py));
                                        assert(spawned_as(g.at(px, py), AtomType::Water, None, 20));
                                    }
                                }
                            }
                        }
                    }
                } else {
                    proof {
                        if numerator == denominator {
                            assert forall|px: i32, py: i32|
                                start.in_bounds(px, py) && (py < y || (py == y && px < x + 1)) && start.kind(px, py)
                                    == AtomType::Empty implies spawned_as(#[trigger] world@.at(px, py), AtomType::Water, None, 20) by {
                                if px == xi && py == yi {
                                    assert(world@.at(px, py) == start.at(px, py));
                                }
                            }
                        }
                    }
                }
                x = x + 1;
            }
            y = y + 1;
        }
    }
}

/// (x, y) lies in the 40 by 30 room whose top-left corner is (sx, sy).
pub open spec fn in_rect(sx: int, sy: int, x: i32, y: i32) -> bool {
    sx <= x < sx + 40 && sy <= y < sy + 30
}

/// (x, y) lies on the outermost ring of the room at (sx, sy).
pub open spec fn on_border(sx: int, sy: int, x: i32, y: i32) -> bool {
    x == sx || x == sx + 39 || y == sy || y == sy + 29
}

/// Rooms of 40 by 30 cells: a cell lies in the room at (rx, ry) exactly when
/// its quotients by the room size are rx and ry.
proof fn lemma_room_coords(x: i32, y: i32, rx: int, ry: int)
    requires
        0 <= x,
        0 <= y,
        0 <= rx,
        0 <= ry,
    ensures
        in_rect(rx * 40, ry * 30, x, y) <==> (x / 40 == rx && y / 30 == ry),
        x / 40 == rx ==> x % 40 == x - rx * 40,
        y / 30 == ry ==> y % 30 == y - ry * 30,
{
    let xi = x as int;
    let yi = y as int;
    assert(rx * 40 <= xi < rx * 40 + 40 <==> xi / 40 == rx) by (nonlinear_arith)
        requires
            0 <= xi,
            0 <= rx,
    ;
    assert(ry * 30 <= yi < ry * 30 + 30 <==> yi / 30 == ry) by (nonlinear_arith)
        requires
            0 <= yi,
            0 <= ry,
    ;
    assert(xi / 40 == rx ==> xi % 40 == xi - rx * 40) by (nonlinear_arith)
        requires
            0 <= xi,
    ;
    assert(yi / 30 == ry ==> yi % 30 == yi - ry * 30) by (nonlinear_arith)
        requires
            0 <= yi,
    ;
}

/// A cell of the room at (sx, sy) once built with an experiment of kind `e`.
pub open spec fn room_cell<K: Kinetics>(before: Grid<K>, after: Grid<K>, sx: int, sy: int, e: int, x: i32, y: i32) -> bool {
    if on_border(sx, sy, x, y) {
        spawned_as(after.at(x, y), AtomType::Stone, None, 20)
    } else if in_square(sx + 5, sy + 5, 10, x, y) {
        if e == 3 {
            mixed_atom(after.at(x, y))
        } else {
            after.at(x, y) == before.at(x, y) || experiment_atom(e, after.at(x, y))
        }
    } else {
        after.at(x, y) == before.at(x, y)
    }
}

/// What the experiment of kind `e` places: new acid, fire (burning for 10 s
/// at 800 degrees), water, or an atom of the mix.
pub open spec fn experiment_atom<K: Kinetics>(e: int, a: Atom<K>) -> bool {
    if e == 0 {
        spawned_as(a, AtomType::Acid, None, 20)
    } else if e == 1 {
        spawned_as(a, AtomType::Fire, Some(10), 800)
    } else if e == 2 {
        spawned_as(a, AtomType::Water, None, 20)
    } else {
        mixed_atom(a)
    }
}

/// The laboratory at cell (x, y): rooms of 40 by 30 cells tile the grid from
/// the top-left corner. A room's border is stone; the 10 by 10 square 5 cells
/// in from its corner holds its experiment, of kind (room column + room row)
/// mod 4 (acid, fire, water, mix; the mix fills every cell); every other cell,
/// and every cell outside the whole rooms, is as it was.
pub open spec fn lab_cell<K: Kinetics>(before: Grid<K>, after: Grid<K>, x: i32, y: i32) -> bool {
    let rooms_x = before.width as int / 40;
    let rooms_y = before.height as int / 30;
    let bx = x % 40;
    let by = y % 30;
    if x / 40 < rooms_x && y / 30 < rooms_y {
        if bx == 0 || bx == 39 || by == 0 || by == 29 {
            spawned_as(after.at(x, y), AtomType::Stone, None, 20)
        } else if 5 <= bx < 15 && 5 <= by < 15 {
            let e = (x / 40 + y / 30) % 4;
            if e == 3 {
                mixed_atom(after.at(x, y))
            } else {
                after.at(x, y) == before.at(x, y) || experiment_atom(e, after.at(x, y))
            }
        } else {
            after.at(x, y) == before.at(x, y)
        }
    } else {
        after.at(x, y) == before.at(x, y)
    }
}

/// The types the mixed experiment places.
pub open spec fn mixed_type(t: AtomType) -> bool {
    t == AtomType::Water || t == AtomType::Acid || t == AtomType::Fire || t == AtomType::Sand
}

/// A new atom of the mix: water, acid or sand at 20 degrees without
/// lifetime, or fire burning for 8 s at 700 degrees.
pub open spec fn mixed_atom<K: Kinetics>(a: Atom<K>) -> bool {
    &&& mixed_type(a.atom_type)
    &&& spawned_as(
        a,
        a.atom_type,
        if a.atom_type == AtomType::Fire {
            Some(8u32)
        } else {
            None
        },
        if a.atom_type == AtomType::Fire {
            700i32
        } else {
            20i32
        },
    )
}

/// (x, y) lies in the square of side `size` whose top-left corner is (sx, sy).
pub open spec fn in_square(sx: int, sy: int, size: int, x: i32, y: i32) -> bool {
    sx <= x < sx + size && sy <= y < sy + size
}

/// `after` is `before` with some cells of the square at (sx, sy) replaced by
/// atoms that `allowed` accepts; every other cell is unchanged.
pub open spec fn scattered<K>(
    before: Grid<K>,
    after: Grid<K>,
    sx: int,
    sy: int,
    size: int,
    allowed: spec_fn(Atom<K>) -> bool,
) -> bool {
    &&& after.wf()
    &&& after.width == before.width
    &&& after.height == before.height
    &&& after.updated == before.updated
    &&& forall|x: i32, y: i32|
        before.in_bounds(x, y) ==> #[trigger] after.at(x, y) == before.at(x, y) || (in_square(sx, sy, size, x, y)
            && allowed(after.at(x, y)))
}

pub proof fn lemma_scatter_step<K>(
    before: Grid<K>,
    g: Grid<K>,
    sx: int,
    sy: int,
    size: int,
    allowed: spec_fn(Atom<K>) -> bool,
    x0: i32,
    y0: i32,
    a: Atom<K>,
)
    requires
        scattered(before, g, sx, sy, size, allowed),
        in_square(sx, sy, size, x0, y0),
        allowed(a),
    ensures
        scattered(before, g.set(x0, y0, a), sx, sy, size, allowed),
{
    let g2 = g.set(x0, y0, a);
    if g.in_bounds(x0, y0) {
        lemma_index_in_range(g, x0, y0);
    }
    assert forall|x: i32, y: i32| before.in_bounds(x, y) implies #[trigger] g2.at(x, y) == before.at(x, y) || (
    in_square(sx, sy, size, x, y) && allowed(g2.at(x, y))) by {
        lemma_index_in_range(g, x, y);
        if g.in_bounds(x0, y0) && cell_index(g.width, x, y) == cell_index(g.width, x0, y0) {
            lemma_index_injective(g, x, y, x0, y0);
        } else {
            assert(g2.at(x, y) == g.at(x, y));
        }
    }
}

/// The level after `current` in a cycle of `count`.
pub open spec fn next_index(current: int, count: int) -> int {
    (current + 1) % count
}

/// The level before `current` in a cycle of `count`.
pub open spec fn previous_index(current: int, count: int) -> int {
    if current == 0 {
        count - 1
    } else {
        current - 1
    }
}

/// Which level is being played, in a cycle of level types.
pub struct LevelManager {
    pub current_level: usize,
    pub generator: LevelGenerator,
    pub level_types: Vec<LevelType>,
}

impl Default for LevelManager {
    /// Starts at the first of cave, island, mountain, volcano and laboratory,
    /// with seed 12345.
    fn default() -> (r: Self)
        ensures
            r.current_level == 0,
            r.generator.spec_seed() == 12345,
            r.level_types@ == seq![
                LevelType::Cave,
                LevelType::Island,
                LevelType::Mountain,
                LevelType::Volcano,
                LevelType::Laboratory,
            ],
    {
        let level_types = vec![
            LevelType::Cave,
            LevelType::Island,
            LevelType::Mountain,
            LevelType::Volcano,
            LevelType::Laboratory,
        ];
        assert(level_types@ =~= seq![
            LevelType::Cave,
            LevelType::Island,
            LevelType::Mountain,
            LevelType::Volcano,
            LevelType::Laboratory,
        ]);
        LevelManager { current_level: 0, generator: LevelGenerator::new(12345), level_types }
    }
}

impl LevelManager {
    /// Moves to the next level type, wrapping around after the last.
    pub fn next_level(&mut self) -> (r: LevelType)
        requires
            old(self).level_types@.len() > 0,
            old(self).current_level < usize::MAX,
        ensures
            final(self).current_level == next_index(old(self).current_level as int, old(self).level_types@.len() as int),
            final(self).level_types@ == old(self).level_types@,
            final(self).generator == old(self).generator,
            r == final(self).level_types@[final(self).current_level as int],
    {
        let n = self.level_types.len();
        self.current_level = (self.current_level + 1) % n;
        proof {
            lemma_mod_in_range(old(self).current_level as int + 1, n as int);
        }
        self.level_types[self.current_level]
    }

    /// Moves to the previous level type, wrapping around before the first.
    pub fn previous_level(&mut self) -> (r: LevelType)
        requires
            old(self).level_types@.len() > 0,
            old(self).current_level <= old(self).level_types@.len(),
        ensures
            final(self).current_level == previous_index(old(self).current_level as int, old(self).level_types@.len() as int),
            final(self).level_types@ == old(self).level_types@,
            final(self).generator == old(self).generator,
            r == final(self).level_types@[final(self).current_level as int],
    {
        if self.current_level == 0 {
            self.current_level = self.level_types.len() - 1;
        } else {
            self.current_level = self.current_level - 1;
        }
        self.level_types[self.current_level]
    }

    /// The type of the level being played.
    pub fn get_current_level_type(&self) -> (r: LevelType)
        requires
            self.current_level < self.level_types@.len(),
        ensures
            r == self.level_types@[self.current_level as int],
    {
        self.level_types[self.current_level]
    }
}

proof fn lemma_mod_in_range(a: int, n: int)
    requires
        0 <= a,
        0 < n,
    ensures
        0 <= a % n < n,
{
    assert(0 <= a % n < n) by (nonlinear_arith)
        requires
            0 <= a,
            0 < n,
    ;
}

/// Stepping back after stepping forward, or forward after back, returns to the
/// same level; the index always stays within the cycle.
pub proof fn lemma_level_cycle(current: int, count: int)
    requires
        0 <= current < count,
    ensures
        0 <= next_index(current, count) < count,
        0 <= previous_index(current, count) < count,
        previous_index(next_index(current, count), count) == current,
        next_index(previous_index(current, count), count) == current,
{
    assert((current + 1) % count == if current + 1 < count { current + 1 } else { 0 }) by (nonlinear_arith)
        requires
            0 <= current < count,
    ;
    let p = previous_index(current, count);
    assert((p + 1) % count == if p + 1 < count { p + 1 } else { 0 }) by (nonlinear_arith)
        requires
            0 <= p < count,
    ;
}

} // verus!
