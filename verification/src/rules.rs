use vstd::prelude::*;
use crate::atoms::{occupied, cell_index, lemma_size_cast, lemma_count_prefix_update, lemma_count_prefix_le, lemma_count_prefix_same, lemma_count_swap, lemma_index_in_range, spec_can_burn, Atom, AtomType, AtomWorld, Drift, Grid, Kinetics};
use crate::random::chance;
use crate::odds::{draw_side, drawn_ignition, drawn_side, spread_fire};

verus! {

/// x - 1 and x + 1 (and the same for y) stay within `i32`.
pub open spec fn nudgeable(x: i32, y: i32) -> bool {
    i32::MIN < x < i32::MAX && i32::MIN < y < i32::MAX
}

/// Sand falls straight down; failing that it slides the way it drifts; failing
/// that it slides down to the left, then down to the right. Rows grow
/// downwards.
pub open spec fn sand_rule<K>(g: Grid<K>, x: i32, y: i32, d: Drift) -> Grid<K> {
    let left = (x - 1) as i32;
    let right = (x + 1) as i32;
    let below = (y + 1) as i32;
    if g.empty_at(x, below) {
        g.swap(x, y, x, below)
    } else if d == Drift::Right && g.empty_at(right, y) {
        g.swap(x, y, right, y)
    } else if d == Drift::Left && g.empty_at(left, y) {
        g.swap(x, y, left, y)
    } else if g.empty_at(left, below) {
        g.swap(x, y, left, below)
    } else if g.empty_at(right, below) {
        g.swap(x, y, right, below)
    } else {
        g
    }
}

/// Liquids fall straight down; failing that they flow sideways, first towards
/// `dir` (-1 or 1), then the other way.
pub open spec fn liquid_rule<K>(g: Grid<K>, x: i32, y: i32, dir: i32) -> Grid<K> {
    let below = (y + 1) as i32;
    let ahead = (x + dir) as i32;
    let behind = (x - dir) as i32;
    if g.empty_at(x, below) {
        g.swap(x, y, x, below)
    } else if g.empty_at(ahead, y) {
        g.swap(x, y, ahead, y)
    } else if g.empty_at(behind, y) {
        g.swap(x, y, behind, y)
    } else {
        g
    }
}

/// Gases and fire rise straight up; failing that they rise diagonally, first
/// towards `dir` (-1 or 1), then the other way.
pub open spec fn rising_rule<K>(g: Grid<K>, x: i32, y: i32, dir: i32) -> Grid<K> {
    let above = (y - 1) as i32;
    let ahead = (x + dir) as i32;
    let behind = (x - dir) as i32;
    if g.empty_at(x, above) {
        g.swap(x, y, x, above)
    } else if g.empty_at(ahead, above) {
        g.swap(x, y, ahead, above)
    } else if g.empty_at(behind, above) {
        g.swap(x, y, behind, above)
    } else {
        g
    }
}

/// Moves the sand atom at (x, y) given the way it drifts.
pub fn sand_step<K: Kinetics>(world: &mut AtomWorld<K>, x: i32, y: i32, drift: Drift)
    requires
        old(world).wf(),
        nudgeable(x, y),
    ensures
        final(world)@ == sand_rule(old(world)@, x, y, drift),
        final(world).wf(),
        final(world)@.count() == old(world)@.count(),
{
    proof {
        let g = world@;
        lemma_count_swap(g, x, y, x, (y + 1) as i32);
        lemma_count_swap(g, x, y, x, (y - 1) as i32);
        lemma_count_swap(g, x, y, (x + 1) as i32, y);
        lemma_count_swap(g, x, y, (x - 1) as i32, y);
        lemma_count_swap(g, x, y, (x - 1) as i32, (y + 1) as i32);
        lemma_count_swap(g, x, y, (x + 1) as i32, (y + 1) as i32);
        lemma_count_swap(g, x, y, (x - 1) as i32, (y - 1) as i32);
        lemma_count_swap(g, x, y, (x + 1) as i32, (y - 1) as i32);
    }
    if world.is_empty(x, y + 1) {
        world.swap_atoms(x, y, x, y + 1);
    } else if drift == Drift::Right && world.is_empty(x + 1, y) {
        world.swap_atoms(x, y, x + 1, y);
    } else if drift == Drift::Left && world.is_empty(x - 1, y) {
        world.swap_atoms(x, y, x - 1, y);
    } else if world.is_empty(x - 1, y + 1) {
        world.swap_atoms(x, y, x - 1, y + 1);
    } else if world.is_empty(x + 1, y + 1) {
        world.swap_atoms(x, y, x + 1, y + 1);
    }
}

/// A sand atom whose cell below lies inside the grid and is empty falls into
/// it, whichever way it drifts: the cell below gets the sand's atom and its
/// own cell is left empty.
pub proof fn lemma_sand_falls<K>(g: Grid<K>, x: i32, y: i32, d: Drift)
    requires
        g.wf(),
        nudgeable(x, y),
        g.in_bounds(x, y),
        g.in_bounds(x, (y + 1) as i32),
        g.kind(x, (y + 1) as i32) == AtomType::Empty,
    ensures
        sand_rule(g, x, y, d).at(x, (y + 1) as i32) == g.at(x, y),
        sand_rule(g, x, y, d).kind(x, y) == AtomType::Empty,
{
    let below = (y + 1) as i32;
    lemma_index_in_range(g, x, y);
    lemma_index_in_range(g, x, below);
    if cell_index(g.width, x, y) == cell_index(g.width, x, below) {
        crate::atoms::lemma_index_injective(g, x, y, x, below);
    }
    assert(g.empty_at(x, below));
    assert(sand_rule(g, x, y, d) == g.swap(x, y, x, below));
}

/// A gas or fire atom whose cell above lies inside the grid and is empty
/// rises into it, whichever side it would try first: the cell above gets its
/// atom and its own cell is left empty.
pub proof fn lemma_gas_rises<K>(g: Grid<K>, x: i32, y: i32, dir: i32)
    requires
        g.wf(),
        nudgeable(x, y),
        g.in_bounds(x, y),
        g.in_bounds(x, (y - 1) as i32),
        g.kind(x, (y - 1) as i32) == AtomType::Empty,
    ensures
        rising_rule(g, x, y, dir).at(x, (y - 1) as i32) == g.at(x, y),
        rising_rule(g, x, y, dir).kind(x, y) == AtomType::Empty,
{
    let above = (y - 1) as i32;
    lemma_index_in_range(g, x, y);
    lemma_index_in_range(g, x, above);
    if cell_index(g.width, x, y) == cell_index(g.width, x, above) {
        crate::atoms::lemma_index_injective(g, x, y, x, above);
    }
    assert(g.empty_at(x, above));
    assert(rising_rule(g, x, y, dir) == g.swap(x, y, x, above));
}

/// Sand moves at most one cell and never up, and only into an empty cell:
/// the rule either leaves the grid as it was or exchanges (x, y) with an
/// empty cell just below it, below it diagonally, or beside it.
pub proof fn lemma_sand_moves_down_or_aside<K>(g: Grid<K>, x: i32, y: i32, d: Drift)
    requires
        nudgeable(x, y),
    ensures
        sand_rule(g, x, y, d) == g || exists|tx: i32, ty: i32|
            -1 <= tx - x <= 1 && (ty == y + 1 || (ty == y && tx != x)) && g.empty_at(tx, ty) && #[trigger] g.swap(
                x,
                y,
                tx,
                ty,
            ) == sand_rule(g, x, y, d),
{
    let l = (x - 1) as i32;
    let r = (x + 1) as i32;
    let b = (y + 1) as i32;
    if g.empty_at(x, b) {
        assert(g.swap(x, y, x, b) == sand_rule(g, x, y, d));
    } else if d == Drift::Right && g.empty_at(r, y) {
        assert(g.swap(x, y, r, y) == sand_rule(g, x, y, d));
    } else if d == Drift::Left && g.empty_at(l, y) {
        assert(g.swap(x, y, l, y) == sand_rule(g, x, y, d));
    } else if g.empty_at(l, b) {
        assert(g.swap(x, y, l, b) == sand_rule(g, x, y, d));
    } else if g.empty_at(r, b) {
        assert(g.swap(x, y, r, b) == sand_rule(g, x, y, d));
    }
}

/// A liquid moves at most one cell, straight down or sideways, and only into
/// an empty cell: the rule either leaves the grid as it was or exchanges
/// (x, y) with the empty cell below it or an empty cell beside it.
pub proof fn lemma_liquid_moves_down_or_aside<K>(g: Grid<K>, x: i32, y: i32, dir: i32)
    requires
        nudgeable(x, y),
        dir == 1 || dir == -1,
    ensures
        liquid_rule(g, x, y, dir) == g || exists|tx: i32, ty: i32|
            ((tx == x && ty == y + 1) || (ty == y && (tx == x - 1 || tx == x + 1))) && g.empty_at(tx, ty)
                && #[trigger] g.swap(x, y, tx, ty) == liquid_rule(g, x, y, dir),
{
    let a = (x + dir) as i32;
    let bh = (x - dir) as i32;
    let b = (y + 1) as i32;
    if g.empty_at(x, b) {
        assert(g.swap(x, y, x, b) == liquid_rule(g, x, y, dir));
    } else if g.empty_at(a, y) {
        assert(g.swap(x, y, a, y) == liquid_rule(g, x, y, dir));
    } else if g.empty_at(bh, y) {
        assert(g.swap(x, y, bh, y) == liquid_rule(g, x, y, dir));
    }
}

/// Gases and fire move at most one cell and only up, and only into an empty
/// cell: the rule either leaves the grid as it was or exchanges (x, y) with
/// an empty cell of the row above, straight above or diagonally.
pub proof fn lemma_gas_moves_up<K>(g: Grid<K>, x: i32, y: i32, dir: i32)
    requires
        nudgeable(x, y),
        dir == 1 || dir == -1,
    ensures
        rising_rule(g, x, y, dir) == g || exists|tx: i32, ty: i32|
            -1 <= tx - x <= 1 && ty == y - 1 && g.empty_at(tx, ty) && #[trigger] g.swap(x, y, tx, ty) == rising_rule(
                g,
                x,
                y,
                dir,
            ),
{
    let a = (x + dir) as i32;
    let bh = (x - dir) as i32;
    let u = (y - 1) as i32;
    if g.empty_at(x, u) {
        assert(g.swap(x, y, x, u) == rising_rule(g, x, y, dir));
    } else if g.empty_at(a, u) {
        assert(g.swap(x, y, a, u) == rising_rule(g, x, y, dir));
    } else if g.empty_at(bh, u) {
        assert(g.swap(x, y, bh, u) == rising_rule(g, x, y, dir));
    }
}

/// Moves the sand atom at (x, y), reading its drift from its velocity.
pub fn update_sand<K: Kinetics>(world: &mut AtomWorld<K>, x: i32, y: i32)
    requires
        old(world).wf(),
        old(world)@.in_bounds(x, y),
        nudgeable(x, y),
    ensures
        exists|d: Drift| final(world)@ == sand_rule(old(world)@, x, y, d),
        old(world)@.in_bounds(x, (y + 1) as i32) && old(world)@.kind(x, (y + 1) as i32) == AtomType::Empty
            ==> final(world)@.at(x, (y + 1) as i32) == old(world)@.at(x, y) && final(world)@.kind(x, y)
            == AtomType::Empty,
        final(world).wf(),
        final(world)@.count() == old(world)@.count(),
{
    let idx = world.get_index(x, y).unwrap();
    let drift = world.atoms[idx].kinetics.drift();
    sand_step(world, x, y, drift);
    proof {
        if old(world)@.in_bounds(x, (y + 1) as i32) && old(world)@.kind(x, (y + 1) as i32) == AtomType::Empty {
            lemma_sand_falls(old(world)@, x, y, drift);
        }
    }
}

/// Moves the liquid atom at (x, y) given the side it tries first.
pub fn liquid_step<K: Kinetics>(world: &mut AtomWorld<K>, x: i32, y: i32, dir: i32)
    requires
        old(world).wf(),
        nudgeable(x, y),
        dir == 1 || dir == -1,
    ensures
        final(world)@ == liquid_rule(old(world)@, x, y, dir),
        final(world).wf(),
        final(world)@.count() == old(world)@.count(),
{
    proof {
        let g = world@;
        lemma_count_swap(g, x, y, x, (y + 1) as i32);
        lemma_count_swap(g, x, y, x, (y - 1) as i32);
        lemma_count_swap(g, x, y, (x + 1) as i32, y);
        lemma_count_swap(g, x, y, (x - 1) as i32, y);
        lemma_count_swap(g, x, y, (x - 1) as i32, (y + 1) as i32);
        lemma_count_swap(g, x, y, (x + 1) as i32, (y + 1) as i32);
        lemma_count_swap(g, x, y, (x - 1) as i32, (y - 1) as i32);
        lemma_count_swap(g, x, y, (x + 1) as i32, (y - 1) as i32);
        lemma_count_swap(g, x, y, (x + dir) as i32, y);
        lemma_count_swap(g, x, y, (x - dir) as i32, y);
        lemma_count_swap(g, x, y, (x + dir) as i32, (y - 1) as i32);
        lemma_count_swap(g, x, y, (x - dir) as i32, (y - 1) as i32);
    }
    if world.is_empty(x, y + 1) {
        world.swap_atoms(x, y, x, y + 1);
    } else if world.is_empty(x + dir, y) {
        world.swap_atoms(x, y, x + dir, y);
    } else if world.is_empty(x - dir, y) {
        world.swap_atoms(x, y, x - dir, y);
    }
}

/// Moves the gas or fire atom at (x, y) given the side it tries first.
pub fn rising_step<K: Kinetics>(world: &mut AtomWorld<K>, x: i32, y: i32, dir: i32)
    requires
        old(world).wf(),
        nudgeable(x, y),
        dir == 1 || dir == -1,
    ensures
        final(world)@ == rising_rule(old(world)@, x, y, dir),
        final(world).wf(),
        final(world)@.count() == old(world)@.count(),
{
    proof {
        let g = world@;
        lemma_count_swap(g, x, y, x, (y + 1) as i32);
        lemma_count_swap(g, x, y, x, (y - 1) as i32);
        lemma_count_swap(g, x, y, (x + 1) as i32, y);
        lemma_count_swap(g, x, y, (x - 1) as i32, y);
        lemma_count_swap(g, x, y, (x - 1) as i32, (y + 1) as i32);
        lemma_count_swap(g, x, y, (x + 1) as i32, (y + 1) as i32);
        lemma_count_swap(g, x, y, (x - 1) as i32, (y - 1) as i32);
        lemma_count_swap(g, x, y, (x + 1) as i32, (y - 1) as i32);
        lemma_count_swap(g, x, y, (x + dir) as i32, y);
        lemma_count_swap(g, x, y, (x - dir) as i32, y);
        lemma_count_swap(g, x, y, (x + dir) as i32, (y - 1) as i32);
        lemma_count_swap(g, x, y, (x - dir) as i32, (y - 1) as i32);
    }
    if world.is_empty(x, y - 1) {
        world.swap_atoms(x, y, x, y - 1);
    } else if world.is_empty(x + dir, y - 1) {
        world.swap_atoms(x, y, x + dir, y - 1);
    } else if world.is_empty(x - dir, y - 1) {
        world.swap_atoms(x, y, x - dir, y - 1);
    }
}

/// A fair coin for the side tried first: -1 or 1.
fn random_side() -> (dir: i32)
    ensures
        dir == 1 || dir == -1,
        drawn_side(dir, 1, 2),
{
    draw_side(1, 2)
}

/// A liquid whose cell below lies inside the grid and is empty falls into it,
/// whichever side it would try first: the cell below gets the liquid's atom
/// and its own cell is left empty.
pub proof fn lemma_liquid_falls<K>(g: Grid<K>, x: i32, y: i32, dir: i32)
    requires
        g.wf(),
        nudgeable(x, y),
        g.in_bounds(x, y),
        g.in_bounds(x, (y + 1) as i32),
        g.kind(x, (y + 1) as i32) == AtomType::Empty,
    ensures
        liquid_rule(g, x, y, dir).at(x, (y + 1) as i32) == g.at(x, y),
        liquid_rule(g, x, y, dir).at(x, y) == g.at(x, (y + 1) as i32),
        liquid_rule(g, x, y, dir).kind(x, y) == AtomType::Empty,
{
    let below = (y + 1) as i32;
    lemma_index_in_range(g, x, y);
    lemma_index_in_range(g, x, below);
    if cell_index(g.width, x, y) == cell_index(g.width, x, below) {
        crate::atoms::lemma_index_injective(g, x, y, x, below);
    }
    let h = g.swap(x, y, x, below);
    assert(g.empty_at(x, below));
    assert(liquid_rule(g, x, y, dir) == h);
}

/// Water falls, or flows to a side chosen at random.
pub fn update_water<K: Kinetics>(world: &mut AtomWorld<K>, x: i32, y: i32)
    requires
        old(world).wf(),
        nudgeable(x, y),
    ensures
        exists|dir: i32| (dir == 1 || dir == -1) && final(world)@ == liquid_rule(old(world)@, x, y, dir),
        old(world)@.in_bounds(x, y) && old(world)@.in_bounds(x, (y + 1) as i32) && old(world)@.kind(x, (y + 1) as i32)
            == AtomType::Empty ==> final(world)@.at(x, (y + 1) as i32) == old(world)@.at(x, y) && final(world)@.kind(
            x,
            y,
        ) == AtomType::Empty,
        !old(world)@.empty_at(x, (y + 1) as i32) ==> exists|dir: i32|
            drawn_side(dir, 1, 2) && #[trigger] liquid_rule(old(world)@, x, y, dir) == final(world)@,
        final(world).wf(),
        final(world)@.count() == old(world)@.count(),
{
    if world.is_empty(x, y + 1) {
        proof {
            lemma_count_swap(world@, x, y, x, (y + 1) as i32);
        }
        world.swap_atoms(x, y, x, y + 1);
        assert(final(world)@ == liquid_rule(old(world)@, x, y, 1));
        proof {
            if old(world)@.in_bounds(x, y) && old(world)@.in_bounds(x, (y + 1) as i32) {
                lemma_liquid_falls(old(world)@, x, y, 1);
            }
        }
    } else {
        let dir = random_side();
        liquid_step(world, x, y, dir);
        assert(liquid_rule(old(world)@, x, y, dir) == final(world)@);
    }
}

/// Acid moves as water does.
pub fn update_acid<K: Kinetics>(world: &mut AtomWorld<K>, x: i32, y: i32)
    requires
        old(world).wf(),
        nudgeable(x, y),
    ensures
        exists|dir: i32| (dir == 1 || dir == -1) && final(world)@ == liquid_rule(old(world)@, x, y, dir),
        old(world)@.in_bounds(x, y) && old(world)@.in_bounds(x, (y + 1) as i32) && old(world)@.kind(x, (y + 1) as i32)
            == AtomType::Empty ==> final(world)@.at(x, (y + 1) as i32) == old(world)@.at(x, y) && final(world)@.kind(
            x,
            y,
        ) == AtomType::Empty,
        !old(world)@.empty_at(x, (y + 1) as i32) ==> exists|dir: i32|
            drawn_side(dir, 1, 2) && #[trigger] liquid_rule(old(world)@, x, y, dir) == final(world)@,
        final(world).wf(),
        final(world)@.count() == old(world)@.count(),
{
    update_water(world, x, y);
}

/// Poison moves as water does.
pub fn update_poison<K: Kinetics>(world: &mut AtomWorld<K>, x: i32, y: i32)
    requires
        old(world).wf(),
        nudgeable(x, y),
    ensures
        exists|dir: i32| (dir == 1 || dir == -1) && final(world)@ == liquid_rule(old(world)@, x, y, dir),
        old(world)@.in_bounds(x, y) && old(world)@.in_bounds(x, (y + 1) as i32) && old(world)@.kind(x, (y + 1) as i32)
            == AtomType::Empty ==> final(world)@.at(x, (y + 1) as i32) == old(world)@.at(x, y) && final(world)@.kind(
            x,
            y,
        ) == AtomType::Empty,
        !old(world)@.empty_at(x, (y + 1) as i32) ==> exists|dir: i32|
            drawn_side(dir, 1, 2) && #[trigger] liquid_rule(old(world)@, x, y, dir) == final(world)@,
        final(world).wf(),
        final(world)@.count() == old(world)@.count(),
{
    update_water(world, x, y);
}

/// Smoke and steam rise, straight up or to a side chosen at random.
pub fn update_gas<K: Kinetics>(world: &mut AtomWorld<K>, x: i32, y: i32)
    requires
        old(world).wf(),
        nudgeable(x, y),
    ensures
        exists|dir: i32| (dir == 1 || dir == -1) && final(world)@ == rising_rule(old(world)@, x, y, dir),
        old(world)@.in_bounds(x, y) && old(world)@.in_bounds(x, (y - 1) as i32) && old(world)@.kind(x, (y - 1) as i32)
            == AtomType::Empty ==> final(world)@.at(x, (y - 1) as i32) == old(world)@.at(x, y) && final(world)@.kind(
            x,
            y,
        ) == AtomType::Empty,
        !old(world)@.empty_at(x, (y - 1) as i32) ==> exists|dir: i32|
            drawn_side(dir, 1, 2) && #[trigger] rising_rule(old(world)@, x, y, dir) == final(world)@,
        final(world).wf(),
        final(world)@.count() == old(world)@.count(),
{
    if world.is_empty(x, y - 1) {
        proof {
            lemma_count_swap(world@, x, y, x, (y - 1) as i32);
        }
        world.swap_atoms(x, y, x, y - 1);
        assert(final(world)@ == rising_rule(old(world)@, x, y, 1));
        proof {
            if old(world)@.in_bounds(x, y) && old(world)@.in_bounds(x, (y - 1) as i32) {
                lemma_gas_rises(old(world)@, x, y, 1);
            }
        }
    } else {
        let dir = random_side();
        rising_step(world, x, y, dir);
        assert(rising_rule(old(world)@, x, y, dir) == final(world)@);
    }
}


/// (px, py) is one of the eight cells around (x, y).
pub open spec fn is_neighbour(x: i32, y: i32, px: i32, py: i32) -> bool {
    -1 <= px - x <= 1 && -1 <= py - y <= 1 && !(px == x && py == y)
}

/// `after` is `before` with some burnable neighbours of (x, y) set on fire,
/// their state given a lifetime of 5 s (`Kinetics::with_lifetime`): every
/// other cell is unchanged.
pub open spec fn ignites_around<K: Kinetics>(before: Grid<K>, after: Grid<K>, x: i32, y: i32) -> bool {
    &&& after.width == before.width
    &&& after.height == before.height
    &&& after.atoms.len() == before.atoms.len()
    &&& after.updated == before.updated
    &&& forall|i: int|
        0 <= i < before.atoms.len() ==> #[trigger] after.atoms[i] == before.atoms[i] || (spec_can_burn(
            before.atoms[i].atom_type) && after.atoms[i].atom_type == AtomType::Fire && call_ensures(
            K::with_lifetime,
            (before.atoms[i].kinetics, 5u32),
            after.atoms[i].kinetics,
        ))
    &&& forall|px: i32, py: i32|
        before.in_bounds(px, py) ==> #[trigger] after.at(px, py) == before.at(px, py) || (is_neighbour(x, y, px, py)
            && spec_can_burn(before.kind(px, py)) && after.kind(px, py) == AtomType::Fire)
}


/// Fire rises, straight up or to a side chosen at random, then may set its
/// burnable neighbours on fire.
pub fn update_fire<K: Kinetics>(world: &mut AtomWorld<K>, x: i32, y: i32)
    requires
        old(world).wf(),
        nudgeable(x, y),
    ensures
        final(world).wf(),
        exists|dir: i32|
            (dir == 1 || dir == -1) && ignites_around(#[trigger] rising_rule(old(world)@, x, y, dir), final(world)@, x, y),
        exists|dir: i32|
            (dir == 1 || dir == -1) && drawn_ignition(#[trigger] rising_rule(old(world)@, x, y, dir), final(world)@, x, y, 1, 100),
        !old(world)@.empty_at(x, (y - 1) as i32) ==> exists|dir: i32|
            drawn_side(dir, 1, 2) && drawn_ignition(#[trigger] rising_rule(old(world)@, x, y, dir), final(world)@, x, y, 1, 100),
        old(world)@.in_bounds(x, y) && old(world)@.kind(x, y) == AtomType::Fire && old(world)@.in_bounds(x, (y - 1) as i32)
            && old(world)@.kind(x, (y - 1) as i32) == AtomType::Empty ==> final(world)@.at(x, (y - 1) as i32) == old(
            world,
        )@.at(x, y) && final(world)@.kind(x, y) == AtomType::Empty,
        final(world)@.count() == old(world)@.count(),
{
    let ghost mut dir_g: i32 = 1;
    if world.is_empty(x, y - 1) {
        proof {
            lemma_count_swap(world@, x, y, x, (y - 1) as i32);
        }
        world.swap_atoms(x, y, x, y - 1);
    } else {
        let dir = random_side();
        proof {
            dir_g = dir;
        }
        rising_step(world, x, y, dir);
    }
    assert(!old(world)@.empty_at(x, (y - 1) as i32) ==> drawn_side(dir_g, 1, 2));
    let ghost moved = world@;
    assert(moved == rising_rule(old(world)@, x, y, dir_g));
    spread_fire(world, x, y, 1, 100);
    assert(ignites_around(rising_rule(old(world)@, x, y, dir_g), final(world)@, x, y));
    assert(drawn_ignition(rising_rule(old(world)@, x, y, dir_g), final(world)@, x, y, 1, 100));
    proof {
        let g0 = old(world)@;
        if g0.in_bounds(x, y) && g0.kind(x, y) == AtomType::Fire && g0.in_bounds(x, (y - 1) as i32) && g0.kind(
            x,
            (y - 1) as i32,
        ) == AtomType::Empty {
            lemma_gas_rises(g0, x, y, dir_g);
            lemma_index_in_range(moved, x, y);
            lemma_index_in_range(moved, x, (y - 1) as i32);
            assert(final(world)@.at(x, (y - 1) as i32) == moved.at(x, (y - 1) as i32) || (is_neighbour(x, y, x, (y - 1) as i32) && spec_can_burn(moved.kind(x, (y - 1) as i32))));
            assert(final(world)@.at(x, y) == moved.at(x, y) || spec_can_burn(moved.kind(x, y)));
        }
    }
}


/// `after` is `before` once the atom at (x, y) has moved by the rule of its
/// type, whatever the random side and the drift were: sand falls or slides;
/// water, acid and poison fall or flow; smoke and steam rise; fire rises and
/// may ignite its neighbours; stone stays.
pub open spec fn moved_by_rule<K: Kinetics>(before: Grid<K>, after: Grid<K>, x: i32, y: i32) -> bool {
    match before.kind(x, y) {
        AtomType::Sand => exists|d: Drift| after == #[trigger] sand_rule(before, x, y, d),
        AtomType::Water | AtomType::Acid | AtomType::Poison => exists|dir: i32|
            (dir == 1 || dir == -1) && after == #[trigger] liquid_rule(before, x, y, dir),
        AtomType::Smoke | AtomType::Steam => exists|dir: i32|
            (dir == 1 || dir == -1) && after == #[trigger] rising_rule(before, x, y, dir),
        AtomType::Fire => exists|dir: i32|
            (dir == 1 || dir == -1) && ignites_around(#[trigger] rising_rule(before, x, y, dir), after, x, y),
        _ => after == before,
    }
}

/// `after` is `before` once the atom at (x, y) has aged by `step`
/// (`Kinetics::aged`): it keeps its type with the aged state or, its lifetime
/// over, becomes an empty cell at rest; every other cell is unchanged.
pub open spec fn aged_at<K: Kinetics>(before: Grid<K>, after: Grid<K>, x: i32, y: i32, step: &K::Step) -> bool {
    &&& after.width == before.width
    &&& after.height == before.height
    &&& after.updated == before.updated
    &&& after.atoms.len() == before.atoms.len()
    &&& forall|i: int|
        0 <= i < before.atoms.len() && i != cell_index(before.width, x, y) ==> #[trigger] after.atoms[i]
            == before.atoms[i]
    &&& (after.kind(x, y) == before.kind(x, y) || after.kind(x, y) == AtomType::Empty)
    &&& before.in_bounds(x, y) ==> {
        ||| after.kind(x, y) == before.kind(x, y) && call_ensures(
            K::aged,
            (before.at(x, y).kinetics, step),
            Some(after.at(x, y).kinetics),
        )
        ||| after.kind(x, y) == AtomType::Empty && call_ensures(K::aged, (before.at(x, y).kinetics, step), None)
            && call_ensures(K::at_rest, (), after.at(x, y).kinetics)
    }
}

/// What updating the cell (x, y) may make of `before`: nothing, when the cell
/// lies outside, was already moved this step or is empty; otherwise its atom
/// moves by the rule of its type and the atom then at (x, y) ages.
pub open spec fn atom_updated<K: Kinetics>(before: Grid<K>, after: Grid<K>, x: i32, y: i32, step: &K::Step) -> bool {
    if !before.in_bounds(x, y) || before.updated[cell_index(before.width, x, y)] || before.kind(x, y) == AtomType::Empty {
        after == before
    } else {
        exists|mid: Grid<K>| moved_by_rule(before, mid, x, y) && #[trigger] aged_at(mid, after, x, y, step)
    }
}

/// Updates the atom at (x, y) unless it lies outside, was already moved this
/// step or is empty: it moves by the rule of its type, then the atom now at
/// (x, y) ages by `step`.
pub fn update_atom<K: Kinetics>(world: &mut AtomWorld<K>, x: i32, y: i32, step: &K::Step)
    requires
        old(world).wf(),
        old(world)@.addressable(),
    ensures
        final(world).wf(),
        !old(world)@.in_bounds(x, y) ==> final(world)@ == old(world)@,
        old(world)@.in_bounds(x, y) && (old(world)@.updated[cell_index(old(world).width, x, y)]
            || old(world)@.kind(x, y) == AtomType::Empty) ==> final(world)@ == old(world)@,
        old(world)@.in_bounds(x, y) && !old(world)@.updated[cell_index(old(world).width, x, y)]
            && old(world)@.kind(x, y) != AtomType::Empty ==> exists|mid: Grid<K>|
            moved_by_rule(old(world)@, mid, x, y) && #[trigger] aged_at(mid, final(world)@, x, y, step),
        atom_updated(old(world)@, final(world)@, x, y, step),
        final(world)@.count() <= old(world)@.count(),
{
    let idx = match world.get_index(x, y) {
        Some(idx) => idx,
        None => return ,
    };
    proof {
        lemma_index_in_range(world@, x, y);
    }
    if world.updated[idx] {
        return ;
    }
    let atom = world.atoms[idx];
    if atom.atom_type == AtomType::Empty {
        return ;
    }
    match atom.atom_type {
        AtomType::Sand => update_sand(world, x, y),
        AtomType::Water => update_water(world, x, y),
        AtomType::Acid => update_acid(world, x, y),
        AtomType::Fire => update_fire(world, x, y),
        AtomType::Smoke | AtomType::Steam => update_gas(world, x, y),
        AtomType::Poison => update_poison(world, x, y),
        _ => {},
    }
    let ghost mid = world@;
    assert(moved_by_rule(old(world)@, mid, x, y));
    let current = world.atoms[idx];
    match current.kinetics.aged(step) {
        Some(kinetics) => world.atoms.set(idx, Atom { atom_type: current.atom_type, kinetics }),
        None => world.atoms.set(idx, Atom::default()),
    }
    assert(aged_at(mid, world@, x, y, step));
    proof {
        let f = world@;
        assert forall|i: int| 0 <= i < f.atoms.len() implies occupied(#[trigger] f.atoms[i]) <= occupied(mid.atoms[i]) by {
            if i != idx as int {
                assert(f.atoms[i] == mid.atoms[i]);
            }
        }
        lemma_count_prefix_le(f, mid, f.atoms.len() as int);
    }
}

/// The k-th cell a sweep visits in a `w` by `h` grid: rows from the last up,
/// each row from right to left.
pub open spec fn sweep_cell(w: int, h: int, k: int) -> (i32, i32) {
    ((w - 1 - k % w) as i32, (h - 1 - k / w) as i32)
}

/// Each grid of `trace` is the one before it with the next cell of the sweep
/// updated.
pub open spec fn swept<K: Kinetics>(trace: Seq<Grid<K>>, w: int, h: int, step: &K::Step) -> bool {
    forall|k: int|
        0 <= k < trace.len() - 1 ==> atom_updated(
            #[trigger] trace[k],
            trace[k + 1],
            sweep_cell(w, h, k).0,
            sweep_cell(w, h, k).1,
            step,
        )
}

/// Updates every cell once, rows from the bottom up and each row from right to
/// left, so that falling atoms move before the atoms above them. Atoms only
/// move, catch fire or expire: the number of non-empty cells never grows.
pub fn update_cells<K: Kinetics>(world: &mut AtomWorld<K>, step: &K::Step)
    requires
        old(world).wf(),
        old(world)@.addressable(),
    ensures
        final(world).wf(),
        final(world).width == old(world).width,
        final(world).height == old(world).height,
        exists|trace: Seq<Grid<K>>|
            trace.len() == old(world).width * old(world).height + 1 && trace[0] == old(world)@ && trace.last()
                == final(world)@ && #[trigger] swept(trace, old(world).width as int, old(world).height as int, step),
        final(world)@.count() <= old(world)@.count(),
{
    let ghost w = world.width as int;
    let ghost h = world.height as int;
    let ghost mut trace: Seq<Grid<K>> = seq![world@];
    let mut y = world.height;
    while y > 0
        invariant
            world.wf(),
            world@.addressable(),
            world.width == old(world).width,
            world.height == old(world).height,
            w == world.width,
            h == world.height,
            y <= world.height,
            trace.len() == (h - y) * w + 1,
            trace[0] == old(world)@,
            trace.last() == world@,
            swept(trace, w, h, step),
            world@.count() <= old(world)@.count(),
        decreases y,
    {
        y = y - 1;
        let mut x = world.width;
        proof {
            assert((h - (y + 1)) * w + w == (h - y) * w) by (nonlinear_arith);
        }
        while x > 0
            invariant
                world.wf(),
                world@.addressable(),
                world.width == old(world).width,
                world.height == old(world).height,
                w == world.width,
                h == world.height,
                y < world.height,
                x <= world.width,
                trace.len() == (h - 1 - y) * w + (w - x) + 1,
                trace[0] == old(world)@,
                trace.last() == world@,
                swept(trace, w, h, step),
                world@.count() <= old(world)@.count(),
            decreases x,
        {
            x = x - 1;
            let ghost k = (h - 1 - y) * w + (w - 1 - x);
            let ghost before = world@;
            update_atom(world, x as i32, y as i32, step);
            proof {
                assert(0 <= (h - 1 - y) * w) by (nonlinear_arith)
                    requires
                        y < h,
                        0 <= w,
                ;
                vstd::arithmetic::div_mod::lemma_fundamental_div_mod_converse(k, w, h - 1 - y, w - 1 - x);
                assert(sweep_cell(w, h, k) == (x as i32, y as i32));
                let t2 = trace.push(world@);
                assert forall|j: int| 0 <= j < t2.len() - 1 implies atom_updated(
                    #[trigger] t2[j],
                    t2[j + 1],
                    sweep_cell(w, h, j).0,
                    sweep_cell(w, h, j).1,
                    step,
                ) by {
                    if j < k {
                        assert(t2[j] == trace[j] && t2[j + 1] == trace[j + 1]);
                    } else {
                        assert(t2[j] == before);
                    }
                }
                trace = t2;
            }
        }
    }
    proof {
        assert(h * w == w * h) by (nonlinear_arith);
    }
}

/// A planned move: the atom at the first two coordinates goes to the last two.
pub type Movement = (usize, usize, i32, i32);

/// `after` is `before` once the move m is tried: an atom on the grid whose
/// target is empty or outside the grid lands there (and is gone when the
/// target is outside), leaving its cell empty; an atom whose target is taken
/// stays, bounced. Every other cell is unchanged.
pub open spec fn moved<K: Kinetics>(before: Grid<K>, after: Grid<K>, m: Movement) -> bool {
    let x = m.0 as i32;
    let y = m.1 as i32;
    let tx = m.2;
    let ty = m.3;
    if !before.in_bounds(x, y) {
        after == before
    } else {
        let a = before.at(x, y);
        &&& after.wf()
        &&& after.width == before.width
        &&& after.height == before.height
        &&& after.updated == before.updated
        &&& if before.empty_at(tx, ty) {
            &&& (before.in_bounds(tx, ty) ==> after.at(tx, ty) == a)
            &&& ((tx, ty) != (x, y) ==> after.kind(x, y) == AtomType::Empty && call_ensures(
                K::at_rest,
                (),
                after.at(x, y).kinetics,
            ))
            &&& forall|cx: i32, cy: i32|
                before.in_bounds(cx, cy) && (cx, cy) != (x, y) && (cx, cy) != (tx, ty) ==> #[trigger] after.at(cx, cy)
                    == before.at(cx, cy)
        } else {
            &&& after.kind(x, y) == a.atom_type
            &&& call_ensures(K::bounced, (a.kinetics,), after.at(x, y).kinetics)
            &&& forall|cx: i32, cy: i32|
                before.in_bounds(cx, cy) && (cx, cy) != (x, y) ==> #[trigger] after.at(cx, cy) == before.at(cx, cy)
        }
    }
}

/// Each grid of `trace` is the one before it once the next move is tried.
pub open spec fn moves_applied<K: Kinetics>(trace: Seq<Grid<K>>, moves: Seq<Movement>) -> bool {
    &&& trace.len() == moves.len() + 1
    &&& forall|k: int| 0 <= k < moves.len() ==> moved(#[trigger] trace[k], trace[k + 1], moves[k])
}

/// Tries one move (see `moved`).
fn apply_movement<K: Kinetics>(world: &mut AtomWorld<K>, m: Movement)
    requires
        old(world).wf(),
        m.0 <= i32::MAX,
        m.1 <= i32::MAX,
    ensures
        final(world).wf(),
        moved(old(world)@, final(world)@, m),
        final(world)@.count() <= old(world)@.count(),
{
    let (fx, fy, tx, ty) = m;
    let x = fx as i32;
    let y = fy as i32;
    let ghost g = world@;
    let idx = match world.get_index(x, y) {
        Some(idx) => idx,
        None => return ,
    };
    let atom = world.atoms[idx];
    proof {
        lemma_index_in_range(g, x, y);
        if g.in_bounds(tx, ty) {
            lemma_index_in_range(g, tx, ty);
        }
    }
    if world.is_empty(tx, ty) {
        let blank: Atom<K> = Atom::default();
        world.set_atom(x, y, blank);
        let ghost mid = world@;
        world.set_atom(tx, ty, atom);
        proof {
            let n = g.atoms.len() as int;
            let i = cell_index(g.width, x, y);
            lemma_count_prefix_update(g, i, blank, n);
            if g.in_bounds(tx, ty) {
                let j = cell_index(g.width, tx, ty);
                lemma_count_prefix_update(mid, j, atom, n);
                if i != j {
                    assert(mid.atoms[j] == g.atoms[j]);
                }
            }
            assert forall|cx: i32, cy: i32|
                g.in_bounds(cx, cy) && (cx, cy) != (x, y) && (cx, cy) != (tx, ty) implies #[trigger] world@.at(cx, cy)
                    == g.at(cx, cy) by {
                lemma_index_in_range(g, cx, cy);
                if cell_index(g.width, cx, cy) == cell_index(g.width, x, y) {
                    crate::atoms::lemma_index_injective(g, cx, cy, x, y);
                }
                if g.in_bounds(tx, ty) && cell_index(g.width, cx, cy) == cell_index(g.width, tx, ty) {
                    crate::atoms::lemma_index_injective(g, cx, cy, tx, ty);
                }
                assert(mid.at(cx, cy) == g.at(cx, cy));
            }
            if (tx, ty) != (x, y) && g.in_bounds(tx, ty) {
                if cell_index(g.width, x, y) == cell_index(g.width, tx, ty) {
                    crate::atoms::lemma_index_injective(g, x, y, tx, ty);
                }
            }
        }
    } else {
        let bounced = Atom { atom_type: atom.atom_type, kinetics: atom.kinetics.bounced() };
        world.atoms.set(idx, bounced);
        proof {
            lemma_count_prefix_update(g, idx as int, bounced, g.atoms.len() as int);
            assert forall|cx: i32, cy: i32| g.in_bounds(cx, cy) && (cx, cy) != (x, y) implies #[trigger] world@.at(cx, cy)
                == g.at(cx, cy) by {
                lemma_index_in_range(g, cx, cy);
                if cell_index(g.width, cx, cy) == cell_index(g.width, x, y) {
                    crate::atoms::lemma_index_injective(g, cx, cy, x, y);
                }
            }
        }
    }
}

/// Tries the planned moves in order: an atom moves into an empty target (and
/// is gone when the target lies outside), or bounces where it is. Moving
/// never adds atoms.
pub fn apply_movements<K: Kinetics>(world: &mut AtomWorld<K>, moves: &Vec<Movement>)
    requires
        old(world).wf(),
        forall|k: int| 0 <= k < moves@.len() ==> (#[trigger] moves@[k]).0 <= i32::MAX && moves@[k].1 <= i32::MAX,
    ensures
        final(world).wf(),
        exists|trace: Seq<Grid<K>>|
            trace[0] == old(world)@ && trace.last() == final(world)@ && #[trigger] moves_applied(trace, moves@),
        final(world)@.count() <= old(world)@.count(),
{
    let ghost mut trace: Seq<Grid<K>> = seq![world@];
    let mut i: usize = 0;
    while i < moves.len()
        invariant
            0 <= i <= moves@.len(),
            world.wf(),
            forall|k: int| 0 <= k < moves@.len() ==> (#[trigger] moves@[k]).0 <= i32::MAX && moves@[k].1 <= i32::MAX,
            trace.len() == i + 1,
            trace[0] == old(world)@,
            trace.last() == world@,
            forall|k: int| 0 <= k < i ==> moved(#[trigger] trace[k], trace[k + 1], moves@[k]),
            world@.count() <= old(world)@.count(),
        decreases moves@.len() - i,
    {
        let ghost before = world@;
        let m = moves[i];
        apply_movement(world, m);
        proof {
            let t2 = trace.push(world@);
            assert forall|k: int| 0 <= k < i + 1 implies moved(#[trigger] t2[k], t2[k + 1], moves@[k]) by {
                if k < i {
                    assert(t2[k] == trace[k] && t2[k + 1] == trace[k + 1]);
                } else {
                    assert(t2[k] == before);
                }
            }
            trace = t2;
        }
        i = i + 1;
    }
    assert(moves_applied(trace, moves@));
}

/// Two atoms that may push each other: a cell and one of its neighbours.
pub type InteractionPair = ((usize, usize), (i32, i32));

/// The pair of (x, y) with the cell at offset (dx, dy), when that cell is
/// another non-empty cell inside the grid.
pub open spec fn pair_at<K>(g: Grid<K>, x: usize, y: usize, dx: int, dy: int) -> Seq<InteractionPair> {
    let nx = (x + dx) as i32;
    let ny = (y + dy) as i32;
    if !(dx == 0 && dy == 0) && g.in_bounds(nx, ny) && g.kind(nx, ny) != AtomType::Empty {
        seq![((x, y), (nx, ny))]
    } else {
        Seq::empty()
    }
}

/// The pairs of (x, y) with the first n cells of the column at offset dx,
/// from offset -2 downwards.
pub open spec fn column_pairs<K>(g: Grid<K>, x: usize, y: usize, dx: int, n: int) -> Seq<InteractionPair>
    decreases n,
{
    if n <= 0 {
        Seq::empty()
    } else {
        column_pairs(g, x, y, dx, n - 1) + pair_at(g, x, y, dx, n - 3)
    }
}

/// The pairs of (x, y) with its neighbours up to two cells away, column by
/// column from offset -2, over the first m columns.
pub open spec fn around_pairs<K>(g: Grid<K>, x: usize, y: usize, m: int) -> Seq<InteractionPair>
    decreases m,
{
    if m <= 0 {
        Seq::empty()
    } else {
        around_pairs(g, x, y, m - 1) + column_pairs(g, x, y, m - 3, 5)
    }
}

/// The pairs found among the first n cells (row-major): each non-empty cell
/// marked active pairs with its non-empty neighbours up to two cells away.
pub open spec fn pairs_upto<K>(g: Grid<K>, active: Seq<bool>, n: int) -> Seq<InteractionPair>
    decreases n,
{
    if n <= 0 {
        Seq::empty()
    } else {
        pairs_upto(g, active, n - 1) + if g.atoms[n - 1].atom_type != AtomType::Empty && active[n - 1] {
            around_pairs(g, ((n - 1) % (g.width as int)) as usize, ((n - 1) / (g.width as int)) as usize, 5)
        } else {
            Seq::empty()
        }
    }
}

/// Lists, row by row, each non-empty cell marked in `active` (moving, or
/// near something that moves) with every non-empty neighbour up to two cells
/// away, keeping the first `max_pairs` pairs.
pub fn find_interaction_pairs<K: Kinetics>(world: &AtomWorld<K>, active: &Vec<bool>, max_pairs: usize) -> (r: Vec<
    InteractionPair,
>)
    requires
        world.wf(),
        world@.addressable(),
        active@.len() == world.atoms@.len(),
    ensures
        r@ == {
            let all = pairs_upto(world@, active@, world.atoms@.len() as int);
            if all.len() > max_pairs {
                all.take(max_pairs as int)
            } else {
                all
            }
        },
{
    let ghost g = world@;
    let mut pairs: Vec<InteractionPair> = Vec::new();
    let mut y: usize = 0;
    while y < world.height
        invariant
            g == world@,
            world.wf(),
            world@.addressable(),
            active@.len() == world.atoms@.len(),
            y <= world.height,
            pairs@ == pairs_upto(g, active@, y * world.width),
        decreases world.height - y,
    {
        let mut x: usize = 0;
        while x < world.width
            invariant
                g == world@,
                world.wf(),
                world@.addressable(),
                active@.len() == world.atoms@.len(),
                y < world.height,
                x <= world.width,
                pairs@ == pairs_upto(g, active@, y * world.width + x),
            decreases world.width - x,
        {
            proof {
                lemma_size_cast(world.width);
                lemma_size_cast(world.height);
            }
            let ghost p = y * world.width + x;
            let idx = world.get_index(x as i32, y as i32).unwrap();
            proof {
                vstd::arithmetic::div_mod::lemma_fundamental_div_mod_converse(p, world.width as int, y as int, x as int);
            }
            let ghost before = pairs@;
            if world.atoms[idx].atom_type != AtomType::Empty && active[idx] {
                let mut dx: i32 = -2;
                while dx <= 2
                    invariant
                        g == world@,
                        world.wf(),
                        world@.addressable(),
                        x < world.width,
                        y < world.height,
                        -2 <= dx <= 3,
                        pairs@ == before + around_pairs(g, x, y, dx + 2),
                    decreases 3 - dx,
                {
                    let ghost col = pairs@;
                    let mut dy: i32 = -2;
                    while dy <= 2
                        invariant
                            g == world@,
                            world.wf(),
                            world@.addressable(),
                            x < world.width,
                            y < world.height,
                            -2 <= dx <= 2,
                            -2 <= dy <= 3,
                            pairs@ == col + column_pairs(g, x, y, dx as int, dy + 2),
                        decreases 3 - dy,
                    {
                        let nx = x as i32 + dx;
                        let ny = y as i32 + dy;
                        let ghost here = pairs@;
                        if !(dx == 0 && dy == 0) {
                            match world.get_atom(nx, ny) {
                                Some(neighbor) => {
                                    if neighbor.atom_type != AtomType::Empty {
                                        pairs.push(((x, y), (nx, ny)));
                                    }
                                },
                                None => {},
                            }
                        }
                        assert(pairs@ =~= here + pair_at(g, x, y, dx as int, dy as int));
                        assert(pairs@ =~= col + column_pairs(g, x, y, dx as int, dy + 3));
                        dy = dy + 1;
                    }
                    assert(pairs@ =~= before + around_pairs(g, x, y, dx + 3));
                    dx = dx + 1;
                }
            }
            assert(pairs@ =~= pairs_upto(g, active@, p + 1));
            x = x + 1;
        }
        proof {
            let w = world.width as int;
            assert(y * w + w == (y + 1) * w) by (nonlinear_arith);
        }
        y = y + 1;
    }
    proof {
        let w = world.width as int;
        let h = world.height as int;
        assert(h * w == w * h) by (nonlinear_arith);
    }
    pairs.truncate(max_pairs);
    pairs
}

/// Some cell within five cells of (x, y) in both directions lies inside the
/// grid and is marked in `fast`.
pub open spec fn near_fast<K>(g: Grid<K>, fast: Seq<bool>, x: usize, y: usize) -> bool {
    exists|dx: int, dy: int|
        -5 <= dx <= 5 && -5 <= dy <= 5 && g.in_bounds((x + dx) as i32, (y + dy) as i32) && #[trigger] fast[cell_index(
            g.width,
            (x + dx) as i32,
            (y + dy) as i32,
        )]
}

/// Whether an atom moving fast (as marked in `fast`) lies within five cells
/// of (x, y).
pub fn is_near_moving_object<K: Kinetics>(world: &AtomWorld<K>, fast: &Vec<bool>, x: usize, y: usize) -> (r: bool)
    requires
        world.wf(),
        world@.addressable(),
        fast@.len() == world.atoms@.len(),
        x < world.width,
        y < world.height,
        x + 5 <= i32::MAX,
        y + 5 <= i32::MAX,
    ensures
        r == near_fast(world@, fast@, x, y),
{
    let ghost g = world@;
    proof {
        lemma_size_cast(world.width);
        lemma_size_cast(world.height);
    }
    let mut dx: i32 = -5;
    while dx <= 5
        invariant
            g == world@,
            world.wf(),
            world@.addressable(),
            fast@.len() == world.atoms@.len(),
            x < world.width,
            y < world.height,
            x + 5 <= i32::MAX,
            y + 5 <= i32::MAX,
            -5 <= dx <= 6,
            forall|ex: int, ey: int|
                -5 <= ex < dx && -5 <= ey <= 5 && g.in_bounds((x + ex) as i32, (y + ey) as i32) ==> !#[trigger] fast@[cell_index(
                    g.width,
                    (x + ex) as i32,
                    (y + ey) as i32,
                )],
        decreases 6 - dx,
    {
        let mut dy: i32 = -5;
        while dy <= 5
            invariant
                g == world@,
                world.wf(),
                world@.addressable(),
                fast@.len() == world.atoms@.len(),
                x < world.width,
                y < world.height,
                x + 5 <= i32::MAX,
                y + 5 <= i32::MAX,
                -5 <= dx <= 5,
                -5 <= dy <= 6,
                forall|ex: int, ey: int|
                    (-5 <= ex < dx && -5 <= ey <= 5 || ex == dx && -5 <= ey < dy) && g.in_bounds(
                        (x + ex) as i32,
                        (y + ey) as i32,
                    ) ==> !#[trigger] fast@[cell_index(g.width, (x + ex) as i32, (y + ey) as i32)],
            decreases 6 - dy,
        {
            let nx = x as i32 + dx;
            let ny = y as i32 + dy;
            if let Some(idx) = world.get_index(nx, ny) {
                if fast[idx] {
                    assert(fast@[cell_index(g.width, (x + dx) as i32, (y + dy) as i32)]);
                    return true;
                }
            }
            dy = dy + 1;
        }
        dx = dx + 1;
    }
    false
}

} // verus!
