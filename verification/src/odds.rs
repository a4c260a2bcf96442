use vstd::prelude::*;
use crate::atoms::{cell_index, lemma_count_prefix_same, lemma_index_in_range, lemma_index_injective, occupied, spawned_as, spec_can_burn, Atom, AtomType, AtomWorld, Grid, Kinetics};
use crate::level::{in_square, lemma_scatter_step, mixed_atom, scattered};
use crate::random::chance;
use crate::game::{box_painted, in_box, lemma_box_step};
use crate::rules::{ignites_around, is_neighbour, nudgeable};

verus! {

/// The square of side `size` at (sx, sy) after each of its cells was drawn
/// with odds `numerator` in `denominator` (`chance`), a cell whose draw
/// succeeded becoming a new atom of `t` with the given lifetime and
/// temperature. What each draw gives is left to chance, so what can be seen
/// of the odds is stated by `lemma_drawn_square`: a certain draw fills every
/// cell of the square, a nil one none, and other odds some of them. The odds
/// themselves stay part of the statement, which names them; it is kept
/// closed so that it is only read through that lemma.
pub closed spec fn drawn_square<K: Kinetics>(
    before: Grid<K>,
    after: Grid<K>,
    sx: int,
    sy: int,
    size: int,
    t: AtomType,
    lifetime_secs: Option<u32>,
    temperature: i32,
    numerator: u32,
    denominator: u32,
) -> bool {
    &&& 0 < denominator
    &&& numerator <= denominator
    &&& scattered(before, after, sx, sy, size, |a: Atom<K>| spawned_as(a, t, lifetime_secs, temperature))
    &&& numerator == denominator ==> forall|x: i32, y: i32|
        before.in_bounds(x, y) && in_square(sx, sy, size, x, y) ==> spawned_as(
            #[trigger] after.at(x, y),
            t,
            lifetime_secs,
            temperature,
        )
    &&& numerator == 0 ==> after == before
}

/// What a square drawn with given odds is: every cell of the grid outside
/// the square is unchanged and every changed cell of the square holds a new
/// atom of `t`; with a certain draw every cell of the square inside the grid
/// holds one, with a nil draw nothing changes.
pub proof fn lemma_drawn_square<K: Kinetics>(
    before: Grid<K>,
    after: Grid<K>,
    sx: int,
    sy: int,
    size: int,
    t: AtomType,
    lifetime_secs: Option<u32>,
    temperature: i32,
    numerator: u32,
    denominator: u32,
)
    requires
        drawn_square(before, after, sx, sy, size, t, lifetime_secs, temperature, numerator, denominator),
    ensures
        0 < denominator,
        numerator <= denominator,
        after.wf(),
        after.width == before.width,
        after.height == before.height,
        forall|x: i32, y: i32|
            before.in_bounds(x, y) ==> #[trigger] after.at(x, y) == before.at(x, y) || (in_square(sx, sy, size, x, y)
                && spawned_as(after.at(x, y), t, lifetime_secs, temperature)),
        numerator == denominator ==> forall|x: i32, y: i32|
            before.in_bounds(x, y) && in_square(sx, sy, size, x, y) ==> spawned_as(
                #[trigger] after.at(x, y),
                t,
                lifetime_secs,
                temperature,
            ),
        numerator == 0 ==> after == before,
{
}

/// Each cell of the square of side `size` at (start_x, start_y) becomes,
/// with chance `numerator / denominator`, a new atom of `atom_type`: every
/// one of them when the chance is certain, none when it is nil.
pub fn scatter_square<K: Kinetics>(
    world: &mut AtomWorld<K>,
    start_x: usize,
    start_y: usize,
    size: usize,
    numerator: u32,
    denominator: u32,
    atom_type: AtomType,
    lifetime_secs: Option<u32>,
    temperature: i32,
)
    requires
        old(world).wf(),
        start_x + size <= i32::MAX,
        start_y + size <= i32::MAX,
        0 < denominator,
        numerator <= denominator,
    ensures
        scattered(
            old(world)@,
            final(world)@,
            start_x as int,
            start_y as int,
            size as int,
            |a: Atom<K>| spawned_as(a, atom_type, lifetime_secs, temperature),
        ),
        numerator == denominator ==> forall|x: i32, y: i32|
            old(world)@.in_bounds(x, y) && in_square(start_x as int, start_y as int, size as int, x, y)
                ==> spawned_as(#[trigger] final(world)@.at(x, y), atom_type, lifetime_secs, temperature),
        numerator == 0 ==> final(world)@ == old(world)@,
        drawn_square(
            old(world)@,
            final(world)@,
            start_x as int,
            start_y as int,
            size as int,
            atom_type,
            lifetime_secs,
            temperature,
            numerator,
            denominator,
        ),
{
    let ghost allowed = |a: Atom<K>| spawned_as(a, atom_type, lifetime_secs, temperature);
    let ghost start = world@;
    let mut x = start_x;
    while x < start_x + size
        invariant
            start_x <= x <= start_x + size,
            start_x + size <= i32::MAX,
            start_y + size <= i32::MAX,
            0 < denominator,
            numerator <= denominator,
            allowed == (|a: Atom<K>| spawned_as(a, atom_type, lifetime_secs, temperature)),
            scattered(start, world@, start_x as int, start_y as int, size as int, allowed),
            numerator == denominator ==> forall|px: i32, py: i32|
                start.in_bounds(px, py) && in_square(start_x as int, start_y as int, size as int, px, py) && px < x
                    ==> spawned_as(#[trigger] world@.at(px, py), atom_type, lifetime_secs, temperature),
            numerator == 0 ==> world@ == start,
        decreases start_x + size - x,
    {
        let mut y = start_y;
        while y < start_y + size
            invariant
                start_x <= x < start_x + size,
                start_y <= y <= start_y + size,
                start_x + size <= i32::MAX,
                start_y + size <= i32::MAX,
                0 < denominator,
                numerator <= denominator,
                allowed == (|a: Atom<K>| spawned_as(a, atom_type, lifetime_secs, temperature)),
                scattered(start, world@, start_x as int, start_y as int, size as int, allowed),
                numerator == denominator ==> forall|px: i32, py: i32|
                    start.in_bounds(px, py) && in_square(start_x as int, start_y as int, size as int, px, py) && (px
                        < x || (px == x && py < y)) ==> spawned_as(#[trigger] world@.at(px, py), atom_type, lifetime_secs, temperature),
                numerator == 0 ==> world@ == start,
            decreases start_y + size - y,
        {
            if chance(numerator, denominator) {
                let atom = Atom::spawn(atom_type, lifetime_secs, temperature);
                let ghost g = world@;
                proof {
                    lemma_scatter_step(start, world@, start_x as int, start_y as int, size as int, allowed, x as i32, y as i32, atom);
                }
                world.set_atom(x as i32, y as i32, atom);
                proof {
                    if numerator == denominator {
                        assert forall|px: i32, py: i32|
                            start.in_bounds(px, py) && in_square(start_x as int, start_y as int, size as int, px, py)
                                && (px < x || (px == x && py < y + 1)) implies spawned_as(
                            #[trigger] world@.at(px, py),
                            atom_type,
                            lifetime_secs,
                            temperature,
                        ) by {
                            lemma_index_in_range(g, px, py);
                            if g.in_bounds(x as i32, y as i32) {
                                lemma_index_in_range(g, x as i32, y as i32);
                                if !(px == x && py == y) {
                                    if cell_index(g.width, px, py) == cell_index(g.width, x as i32, y as i32) {
                                        lemma_index_injective(g, px, py, x as i32, y as i32);
                                    }
                                    assert(world@.at(px, py) == g.at(px, py));
                                } else {
                                    assert(world@.at(px, py) == atom);
                                }
                            }
                        }
                    }
                }
            }
            y = y + 1;
        }
        x = x + 1;
    }
}

/// The box of `w` by `h` cells whose lowest corner is (x0, y0) after each
/// of its cells was drawn: always, or else with odds `numerator` in
/// `denominator` (`chance`), a cell whose draw succeeded becoming a new atom
/// of `t` without lifetime at 20 degrees. What a draw gives is left to
/// chance, so what can be seen of the odds is stated by `lemma_drawn_box`;
/// the odds stay part of the statement, which names them, and it is closed
/// so that it is only read through that lemma.
pub closed spec fn drawn_box<K: Kinetics>(
    before: Grid<K>,
    after: Grid<K>,
    x0: int,
    y0: int,
    w: int,
    h: int,
    t: AtomType,
    always: bool,
    numerator: u32,
    denominator: u32,
) -> bool {
    &&& 0 < denominator
    &&& numerator <= denominator
    &&& box_painted(before, after, t, always, |x: i32, y: i32| in_box(x0, y0, w, h, x, y))
    &&& (always || numerator == denominator) ==> forall|x: i32, y: i32|
        before.in_bounds(x, y) && in_box(x0, y0, w, h, x, y) ==> spawned_as(#[trigger] after.at(x, y), t, None, 20)
    &&& !always && numerator == 0 ==> after == before
}

/// What a box drawn with given odds is: every cell outside the box is
/// unchanged and every changed cell of the box holds a new atom of `t`; a
/// box drawn always, or with a certain draw, is filled, and one drawn with a
/// nil draw is left as it was.
pub proof fn lemma_drawn_box<K: Kinetics>(
    before: Grid<K>,
    after: Grid<K>,
    x0: int,
    y0: int,
    w: int,
    h: int,
    t: AtomType,
    always: bool,
    numerator: u32,
    denominator: u32,
)
    requires
        drawn_box(before, after, x0, y0, w, h, t, always, numerator, denominator),
    ensures
        0 < denominator,
        numerator <= denominator,
        box_painted(before, after, t, always, |x: i32, y: i32| in_box(x0, y0, w, h, x, y)),
        always || numerator == denominator ==> forall|x: i32, y: i32|
            before.in_bounds(x, y) && in_box(x0, y0, w, h, x, y) ==> spawned_as(#[trigger] after.at(x, y), t, None, 20),
        !always && numerator == 0 ==> after == before,
{
}

/// Visits the box column by column, each from its lowest cell up, and puts a
/// new atom of type t in each cell: always, or else with chance
/// `numerator / denominator`.
pub fn paint_box<K: Kinetics>(
    world: &mut AtomWorld<K>,
    x0: usize,
    y0: usize,
    w: usize,
    h: usize,
    t: AtomType,
    always: bool,
    numerator: u32,
    denominator: u32,
)
    requires
        old(world).wf(),
        x0 + w <= i32::MAX,
        y0 + h <= i32::MAX,
        0 < denominator,
        numerator <= denominator,
    ensures
        box_painted(old(world)@, final(world)@, t, always, |x: i32, y: i32| in_box(x0 as int, y0 as int, w as int, h as int, x, y)),
        drawn_box(old(world)@, final(world)@, x0 as int, y0 as int, w as int, h as int, t, always, numerator, denominator),
{
    let ghost start = world@;
    let mut x = x0;
    while x < x0 + w
        invariant
            x0 <= x <= x0 + w,
            x0 + w <= i32::MAX,
            y0 + h <= i32::MAX,
            0 < denominator,
            numerator <= denominator,
            box_painted(start, world@, t, always, |cx: i32, cy: i32| in_box(x0 as int, y0 as int, x - x0, h as int, cx, cy)),
            always || numerator == denominator ==> box_painted(start, world@, t, true, |cx: i32, cy: i32| in_box(x0 as int, y0 as int, x - x0, h as int, cx, cy)),
            !always && numerator == 0 ==> world@ == start,
        decreases x0 + w - x,
    {
        let mut y = y0;
        while y < y0 + h
            invariant
                x0 <= x < x0 + w,
                y0 <= y <= y0 + h,
                x0 + w <= i32::MAX,
                y0 + h <= i32::MAX,
                0 < denominator,
                numerator <= denominator,
                box_painted(start, world@, t, always, |cx: i32, cy: i32| in_box(x0 as int, y0 as int, x - x0, h as int, cx, cy)
                    || (cx == x && y0 <= cy < y)),
                always || numerator == denominator ==> box_painted(start, world@, t, true, |cx: i32, cy: i32| in_box(x0 as int, y0 as int, x - x0, h as int, cx, cy)
                    || (cx == x && y0 <= cy < y)),
                !always && numerator == 0 ==> world@ == start,
            decreases y0 + h - y,
        {
            let ghost p = |cx: i32, cy: i32| in_box(x0 as int, y0 as int, x - x0, h as int, cx, cy) || (cx == x && y0 <= cy < y);
            let ghost q = |cx: i32, cy: i32| in_box(x0 as int, y0 as int, x - x0, h as int, cx, cy) || (cx == x && y0 <= cy < y + 1);
            let ghost before = world@;
            let placed = if always || chance(numerator, denominator) {
                Some(Atom::spawn(t, None, 20))
            } else {
                None
            };
            proof {
                assert forall|cx: i32, cy: i32| #[trigger] q(cx, cy) == (p(cx, cy) || (cx == x as i32 && cy == y as i32)) by {}
                lemma_box_step(start, before, t, always, p, q, x as i32, y as i32, placed);
                if always || numerator == denominator {
                    lemma_box_step(start, before, t, true, p, q, x as i32, y as i32, placed);
                }
            }
            if let Some(a) = placed {
                world.set_atom(x as i32, y as i32, a);
            }
            y = y + 1;
        }
        proof {
            let p = |cx: i32, cy: i32| in_box(x0 as int, y0 as int, x - x0, h as int, cx, cy) || (cx == x && y0 <= cy < y);
            let q = |cx: i32, cy: i32| in_box(x0 as int, y0 as int, x + 1 - x0, h as int, cx, cy);
            assert forall|cx: i32, cy: i32| #[trigger] q(cx, cy) == p(cx, cy) by {}
            assert(box_painted(start, world@, t, always, q));
            if always || numerator == denominator {
                assert(box_painted(start, world@, t, true, q));
            }
        }
        x = x + 1;
    }
    proof {
        let p = |x: i32, y: i32| in_box(x0 as int, y0 as int, w as int, h as int, x, y);
        assert(box_painted(start, world@, t, always, p));
        if always || numerator == denominator {
            assert(box_painted(start, world@, t, true, p));
        }
    }
}

/// The odds of a draw: a denominator above 0 and a numerator not above it.
pub open spec fn odds_ok(odds: (u32, u32)) -> bool {
    0 < odds.1 && odds.0 <= odds.1
}

/// Which type a cell of the mix can get given the odds of its draws, made
/// in turn until one succeeds: water on the first, acid on the second, fire
/// on the third, sand when none does. A type can come only when its own
/// draw can succeed and every draw before it can fail.
pub open spec fn possible_mix(t: AtomType, water: (u32, u32), acid: (u32, u32), fire: (u32, u32)) -> bool {
    if t == AtomType::Water {
        water.0 > 0
    } else if t == AtomType::Acid {
        water.0 < water.1 && acid.0 > 0
    } else if t == AtomType::Fire {
        water.0 < water.1 && acid.0 < acid.1 && fire.0 > 0
    } else {
        t == AtomType::Sand && water.0 < water.1 && acid.0 < acid.1 && fire.0 < fire.1
    }
}

/// The square of side `size` at (sx, sy) after each of its cells was drawn
/// into the mix with the given odds (see `possible_mix`), every cell a new
/// atom of the mix (see `mixed_atom`). What the draws give is left to
/// chance; what can be seen of the odds is stated by `lemma_drawn_mix`, and
/// the odds stay part of the statement, which names them and is closed so
/// that it is only read through that lemma.
pub closed spec fn drawn_mix<K: Kinetics>(
    before: Grid<K>,
    after: Grid<K>,
    sx: int,
    sy: int,
    size: int,
    water: (u32, u32),
    acid: (u32, u32),
    fire: (u32, u32),
) -> bool {
    &&& odds_ok(water) && odds_ok(acid) && odds_ok(fire)
    &&& scattered(before, after, sx, sy, size, |a: Atom<K>| mixed_atom(a))
    &&& forall|x: i32, y: i32|
        before.in_bounds(x, y) && in_square(sx, sy, size, x, y) ==> mixed_atom(#[trigger] after.at(x, y))
            && possible_mix(after.kind(x, y), water, acid, fire)
}

/// What a square drawn into the mix is: every cell outside the square is
/// unchanged, and every cell of the square inside the grid holds a new atom
/// of the mix of a type its odds allow (see `possible_mix`).
pub proof fn lemma_drawn_mix<K: Kinetics>(
    before: Grid<K>,
    after: Grid<K>,
    sx: int,
    sy: int,
    size: int,
    water: (u32, u32),
    acid: (u32, u32),
    fire: (u32, u32),
)
    requires
        drawn_mix(before, after, sx, sy, size, water, acid, fire),
    ensures
        odds_ok(water) && odds_ok(acid) && odds_ok(fire),
        scattered(before, after, sx, sy, size, |a: Atom<K>| mixed_atom(a)),
        forall|x: i32, y: i32|
            before.in_bounds(x, y) && in_square(sx, sy, size, x, y) ==> mixed_atom(#[trigger] after.at(x, y))
                && possible_mix(after.kind(x, y), water, acid, fire),
{
}

/// Fills every cell of the square of side `size` at (start_x, start_y) with
/// a new atom of the mix, drawing its type with the given odds: water,
/// failing that acid, failing that fire (burning for 8 s at 700 degrees),
/// failing that sand.
pub fn mix_square<K: Kinetics>(
    world: &mut AtomWorld<K>,
    start_x: usize,
    start_y: usize,
    size: usize,
    water: (u32, u32),
    acid: (u32, u32),
    fire: (u32, u32),
)
    requires
        old(world).wf(),
        start_x + size <= i32::MAX,
        start_y + size <= i32::MAX,
        odds_ok(water) && odds_ok(acid) && odds_ok(fire),
    ensures
        scattered(old(world)@, final(world)@, start_x as int, start_y as int, size as int, |a: Atom<K>| mixed_atom(a)),
        forall|x: i32, y: i32|
            old(world)@.in_bounds(x, y) && in_square(start_x as int, start_y as int, size as int, x, y)
                ==> mixed_atom(#[trigger] final(world)@.at(x, y)),
        drawn_mix(old(world)@, final(world)@, start_x as int, start_y as int, size as int, water, acid, fire),
{
    let ghost allowed = |a: Atom<K>| mixed_atom(a);
    let ghost start = world@;
    let mut x = start_x;
    while x < start_x + size
        invariant
            start_x <= x <= start_x + size,
            start_x + size <= i32::MAX,
            start_y + size <= i32::MAX,
            allowed == (|a: Atom<K>| mixed_atom(a)),
            odds_ok(water) && odds_ok(acid) && odds_ok(fire),
            scattered(start, world@, start_x as int, start_y as int, size as int, allowed),
            forall|px: i32, py: i32|
                start.in_bounds(px, py) && in_square(start_x as int, start_y as int, size as int, px, py) && px < x
                    ==> mixed_atom(#[trigger] world@.at(px, py)) && possible_mix(world@.kind(px, py), water, acid, fire),
        decreases start_x + size - x,
    {
        let mut y = start_y;
        while y < start_y + size
            invariant
                start_x <= x < start_x + size,
                start_y <= y <= start_y + size,
                start_x + size <= i32::MAX,
                start_y + size <= i32::MAX,
                allowed == (|a: Atom<K>| mixed_atom(a)),
                odds_ok(water) && odds_ok(acid) && odds_ok(fire),
                scattered(start, world@, start_x as int, start_y as int, size as int, allowed),
                forall|px: i32, py: i32|
                    start.in_bounds(px, py) && in_square(start_x as int, start_y as int, size as int, px, py) && (px
                        < x || (px == x && py < y)) ==> mixed_atom(#[trigger] world@.at(px, py)) && possible_mix(
                        world@.kind(px, py),
                        water,
                        acid,
                        fire,
                    ),
            decreases start_y + size - y,
        {
            let atom_type = if chance(water.0, water.1) {
                AtomType::Water
            } else if chance(acid.0, acid.1) {
                AtomType::Acid
            } else if chance(fire.0, fire.1) {
                AtomType::Fire
            } else {
                AtomType::Sand
            };
            let atom = if atom_type == AtomType::Fire {
                Atom::spawn(atom_type, Some(8), 700)
            } else {
                Atom::spawn(atom_type, None, 20)
            };
            let ghost g = world@;
            assert(mixed_atom(atom));
            proof {
                lemma_scatter_step(start, g, start_x as int, start_y as int, size as int, allowed, x as i32, y as i32, atom);
            }
            world.set_atom(x as i32, y as i32, atom);
            proof {
                assert forall|px: i32, py: i32|
                    start.in_bounds(px, py) && in_square(start_x as int, start_y as int, size as int, px, py) && (px
                        < x || (px == x && py < y + 1)) implies mixed_atom(#[trigger] world@.at(px, py)) && possible_mix(
                        world@.kind(px, py),
                        water,
                        acid,
                        fire,
                    ) by {
                    lemma_index_in_range(g, px, py);
                    if g.in_bounds(x as i32, y as i32) {
                        lemma_index_in_range(g, x as i32, y as i32);
                        if !(px == x && py == y) {
                            if cell_index(g.width, px, py) == cell_index(g.width, x as i32, y as i32) {
                                lemma_index_injective(g, px, py, x as i32, y as i32);
                            }
                            assert(world@.at(px, py) == g.at(px, py));
                        } else {
                            assert(world@.at(px, py) == atom);
                        }
                    }
                }
            }
            y = y + 1;
        }
        x = x + 1;
    }
}

/// The cells around (x, y) after each burnable neighbour's draw of odds
/// `numerator` in `denominator` (`chance`), a neighbour whose draw succeeded
/// catching fire (see `ignites_around`). What a draw gives is left to
/// chance; what can be seen of the odds is stated by `lemma_drawn_ignition`,
/// and the odds stay part of the statement, which names them and is closed
/// so that it is only read through that lemma.
pub closed spec fn drawn_ignition<K: Kinetics>(
    before: Grid<K>,
    after: Grid<K>,
    x: i32,
    y: i32,
    numerator: u32,
    denominator: u32,
) -> bool {
    &&& 0 < denominator
    &&& numerator <= denominator
    &&& ignites_around(before, after, x, y)
    &&& numerator == denominator ==> forall|qx: i32, qy: i32|
        is_neighbour(x, y, qx, qy) && before.in_bounds(qx, qy) && spec_can_burn(before.kind(qx, qy))
            ==> #[trigger] after.kind(qx, qy) == AtomType::Fire
    &&& numerator == 0 ==> after == before
}

/// What fire spreading with given odds does: only burnable neighbours of
/// (x, y) change, each catching fire; with a certain draw every one of them
/// catches fire, with a nil draw none does.
pub proof fn lemma_drawn_ignition<K: Kinetics>(
    before: Grid<K>,
    after: Grid<K>,
    x: i32,
    y: i32,
    numerator: u32,
    denominator: u32,
)
    requires
        drawn_ignition(before, after, x, y, numerator, denominator),
    ensures
        0 < denominator,
        numerator <= denominator,
        ignites_around(before, after, x, y),
        numerator == denominator ==> forall|qx: i32, qy: i32|
            is_neighbour(x, y, qx, qy) && before.in_bounds(qx, qy) && spec_can_burn(before.kind(qx, qy))
                ==> #[trigger] after.kind(qx, qy) == AtomType::Fire,
        numerator == 0 ==> after == before,
{
}

/// Each burnable neighbour of (x, y) catches fire, for 5 s, with chance
/// `numerator / denominator`.
pub fn spread_fire<K: Kinetics>(world: &mut AtomWorld<K>, x: i32, y: i32, numerator: u32, denominator: u32)
    requires
        old(world).wf(),
        nudgeable(x, y),
        0 < denominator,
        numerator <= denominator,
    ensures
        final(world).wf(),
        ignites_around(old(world)@, final(world)@, x, y),
        drawn_ignition(old(world)@, final(world)@, x, y, numerator, denominator),
        final(world)@.count() == old(world)@.count(),
{
    let ghost m = world@;
    let mut dx: i32 = -1;
    while dx <= 1
        invariant
            world.wf(),
            nudgeable(x, y),
            -1 <= dx <= 2,
            0 < denominator,
            numerator <= denominator,
            ignites_around(m, world@, x, y),
            forall|qx: i32, qy: i32|
                is_neighbour(x, y, qx, qy) && m.in_bounds(qx, qy) && qx - x >= dx ==> #[trigger] world@.at(qx, qy) == m.at(qx, qy),
            numerator == denominator ==> forall|qx: i32, qy: i32|
                is_neighbour(x, y, qx, qy) && qx - x < dx && m.in_bounds(qx, qy) && spec_can_burn(m.kind(qx, qy))
                    ==> #[trigger] world@.kind(qx, qy) == AtomType::Fire,
            numerator == 0 ==> world@ == m,
        decreases 2 - dx,
    {
        let mut dy: i32 = -1;
        while dy <= 1
            invariant
                world.wf(),
                nudgeable(x, y),
                -1 <= dx <= 1,
                -1 <= dy <= 2,
                0 < denominator,
                numerator <= denominator,
                ignites_around(m, world@, x, y),
                forall|qx: i32, qy: i32|
                    is_neighbour(x, y, qx, qy) && m.in_bounds(qx, qy) && (qx - x > dx || (qx - x == dx && qy - y >= dy)) ==> #[trigger] world@.at(
                        qx,
                        qy,
                    ) == m.at(qx, qy),
                numerator == denominator ==> forall|qx: i32, qy: i32|
                    is_neighbour(x, y, qx, qy) && (qx - x < dx || (qx - x == dx && qy - y < dy)) && m.in_bounds(qx, qy)
                        && spec_can_burn(m.kind(qx, qy)) ==> #[trigger] world@.kind(qx, qy) == AtomType::Fire,
                numerator == 0 ==> world@ == m,
            decreases 2 - dy,
        {
            let ghost wb = world@;
            if !(dx == 0 && dy == 0) {
                let px = x + dx;
                let py = y + dy;
                let burnable = match world.get_atom(px, py) {
                    Some(atom) => atom.atom_type.can_burn(),
                    None => false,
                };
                if burnable && chance(numerator, denominator) {
                    let ghost w0 = world@;
                    if let Some(a) = world.get_atom_mut(px, py) {
                        a.atom_type = AtomType::Fire;
                        a.kinetics = a.kinetics.with_lifetime(5);
                    }
                    proof {
                        lemma_index_in_range(w0, px, py);
                        assert forall|qx: i32, qy: i32| m.in_bounds(qx, qy) implies #[trigger] world@.at(qx, qy)
                            == m.at(qx, qy) || (is_neighbour(x, y, qx, qy) && spec_can_burn(m.kind(qx, qy))
                            && world@.kind(qx, qy) == AtomType::Fire) by {
                            lemma_index_in_range(w0, qx, qy);
                            if cell_index(w0.width, qx, qy) == cell_index(w0.width, px, py) {
                                lemma_index_injective(w0, qx, qy, px, py);
                                assert(w0.at(px, py) == m.at(px, py));
                            } else {
                                assert(world@.at(qx, qy) == w0.at(qx, qy));
                            }
                        }
                        assert forall|qx: i32, qy: i32| m.in_bounds(qx, qy) && (qx, qy) != (px, py) implies #[trigger] world@.at(
                            qx,
                            qy,
                        ) == w0.at(qx, qy) by {
                            lemma_index_in_range(w0, qx, qy);
                            if cell_index(w0.width, qx, qy) == cell_index(w0.width, px, py) {
                                lemma_index_injective(w0, qx, qy, px, py);
                            }
                        }
                        assert(world@.kind(px, py) == AtomType::Fire);
                        let pi = cell_index(w0.width, px, py);
                        assert forall|i: int| 0 <= i < m.atoms.len() implies #[trigger] world@.atoms[i] == m.atoms[i] || (
                        spec_can_burn(m.atoms[i].atom_type) && world@.atoms[i].atom_type == AtomType::Fire) by {
                            if i == pi {
                                assert(w0.atoms[i] == w0.at(px, py));
                            } else {
                                assert(world@.atoms[i] == w0.atoms[i]);
                            }
                        }
                    }
                }
            }
            proof {
                let px = (x + dx) as i32;
                let py = (y + dy) as i32;
                assert(forall|qx: i32, qy: i32| m.in_bounds(qx, qy) && (qx, qy) != (px, py) ==> #[trigger] world@.at(qx, qy)
                    == wb.at(qx, qy));
                assert(numerator == 0 ==> world@ == wb);
                if numerator == denominator && !(dx == 0 && dy == 0) && m.in_bounds(px, py) && spec_can_burn(m.kind(px, py)) {
                    assert(wb.at(px, py) == m.at(px, py));
                    assert(world@.kind(px, py) == AtomType::Fire);
                }
            }
            dy = dy + 1;
        }
        dx = dx + 1;
    }
    proof {
        let f = world@;
        assert forall|i: int| 0 <= i < f.atoms.len() implies occupied(#[trigger] f.atoms[i]) == occupied(m.atoms[i]) by {
            assert(f.atoms[i] == m.atoms[i] || (spec_can_burn(m.atoms[i].atom_type) && f.atoms[i].atom_type == AtomType::Fire));
        }
        lemma_count_prefix_same(f, m, f.atoms.len() as int);
    }
}

/// A side drawn with odds `numerator` in `denominator` (`chance`): -1 when
/// the draw succeeded, 1 when it failed. What the draw gives is left to
/// chance; `lemma_drawn_side` states which sides the odds allow, and the odds
/// stay part of the statement, which names them and is closed so that it is
/// only read through that lemma.
pub closed spec fn drawn_side(dir: i32, numerator: u32, denominator: u32) -> bool {
    &&& 0 < denominator
    &&& numerator <= denominator
    &&& (dir == -1 && 0 < numerator) || (dir == 1 && numerator < denominator)
}

/// A drawn side is -1 or 1; -1 only when the draw can succeed, 1 only when it
/// can fail.
pub proof fn lemma_drawn_side(dir: i32, numerator: u32, denominator: u32)
    requires
        drawn_side(dir, numerator, denominator),
    ensures
        dir == 1 || dir == -1,
        dir == -1 ==> 0 < numerator,
        dir == 1 ==> numerator < denominator,
{
}

/// Draws a side: -1 with chance `numerator / denominator`, else 1.
pub fn draw_side(numerator: u32, denominator: u32) -> (dir: i32)
    requires
        0 < denominator,
        numerator <= denominator,
    ensures
        dir == 1 || dir == -1,
        drawn_side(dir, numerator, denominator),
{
    if chance(numerator, denominator) {
        -1
    } else {
        1
    }
}

} // verus!
