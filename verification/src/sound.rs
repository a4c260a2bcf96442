use vstd::prelude::*;
use crate::atoms::{lemma_size_cast, AtomType, AtomWorld, Grid, Kinetics};

verus! {

/// The optional per-cell mask as a sequence.
pub open spec fn mask_view(mask: Option<&Vec<bool>>) -> Option<Seq<bool>> {
    match mask {
        Some(m) => Some(m@),
        None => None,
    }
}

/// Cell `i` is of type `kind` and, where there is a mask, marked in it.
pub open spec fn counted<K>(g: Grid<K>, kind: AtomType, mask: Option<Seq<bool>>, i: int) -> bool {
    g.atoms[i].atom_type == kind && match mask {
        Some(m) => m[i],
        None => true,
    }
}

/// How many of the first `n` cells (in row-major order) are counted.
pub open spec fn count_cells<K>(g: Grid<K>, kind: AtomType, mask: Option<Seq<bool>>, n: int) -> nat
    decreases n,
{
    if n <= 0 {
        0
    } else {
        count_cells(g, kind, mask, n - 1) + if counted(g, kind, mask, n - 1) {
            1nat
        } else {
            0nat
        }
    }
}

/// The coordinates of cell `i` of a grid `w` cells wide.
pub open spec fn cell_at(w: usize, i: int) -> (i32, i32) {
    ((i % (w as int)) as i32, (i / (w as int)) as i32)
}

/// Among the first `n` cells, the positions of every `every`-th counted cell.
pub open spec fn samples<K>(g: Grid<K>, kind: AtomType, mask: Option<Seq<bool>>, every: nat, n: int) -> Seq<(i32, i32)>
    decreases n,
{
    if n <= 0 {
        Seq::empty()
    } else {
        samples(g, kind, mask, every, n - 1) + if counted(g, kind, mask, n - 1) && count_cells(g, kind, mask, n) % every == 0 {
            seq![cell_at(g.width, n - 1)]
        } else {
            Seq::empty()
        }
    }
}

/// Counts the cells of type `kind` (those marked in `mask`, where given),
/// row by row, and keeps the position of every `every`-th of them; the
/// positions come back when more than `threshold` cells were counted.
pub fn sample_reaction_cells<K: Kinetics>(
    world: &AtomWorld<K>,
    kind: AtomType,
    every: usize,
    threshold: usize,
    mask: Option<&Vec<bool>>,
) -> (r: Option<Vec<(i32, i32)>>)
    requires
        world.wf(),
        world@.addressable(),
        every > 0,
        mask matches Some(m) ==> m.len() == world.atoms.len(),
    ensures
        r is Some <==> count_cells(world@, kind, mask_view(mask), world.atoms.len() as int) > threshold,
        r matches Some(s) ==> s@ == samples(world@, kind, mask_view(mask), every as nat, world.atoms.len() as int),
{
    let ghost g = world@;
    let ghost mv = mask_view(mask);
    let mut count: usize = 0;
    let mut positions: Vec<(i32, i32)> = Vec::new();
    let mut y: usize = 0;
    while y < world.height
        invariant
            g == world@,
            world.wf(),
            world@.addressable(),
            every > 0,
            mv == mask_view(mask),
            mask matches Some(m) ==> m.len() == world.atoms.len(),
            y <= world.height,
            count == count_cells(g, kind, mv, y * world.width),
            count <= y * world.width,
            positions@ == samples(g, kind, mv, every as nat, y * world.width),
        decreases world.height - y,
    {
        let mut x: usize = 0;
        while x < world.width
            invariant
                g == world@,
                world.wf(),
                world@.addressable(),
                every > 0,
                mv == mask_view(mask),
                mask matches Some(m) ==> m.len() == world.atoms.len(),
                y < world.height,
                x <= world.width,
                count == count_cells(g, kind, mv, y * world.width + x),
                count <= y * world.width + x,
                positions@ == samples(g, kind, mv, every as nat, y * world.width + x),
            decreases world.width - x,
        {
            proof {
                lemma_size_cast(world.width);
                lemma_size_cast(world.height);
            }
            let ghost p = y * world.width + x;
            let idx = world.get_index(x as i32, y as i32).unwrap();
            assert(idx == p);
            proof {
                vstd::arithmetic::div_mod::lemma_fundamental_div_mod_converse(p, world.width as int, y as int, x as int);
                assert(cell_at(world.width, p) == (x as i32, y as i32));
            }
            let mut hit = world.atoms[idx].atom_type == kind;
            if hit {
                if let Some(m) = mask {
                    hit = m[idx];
                }
            }
            assert(hit == counted(g, kind, mv, p));
            if hit {
                count = count + 1;
                if count % every == 0 {
                    positions.push((x as i32, y as i32));
                }
            }
            assert(positions@ =~= samples(g, kind, mv, every as nat, p + 1));
            x = x + 1;
        }
        proof {
            let w = world.width as int;
            assert(y * w + w == (y + 1) * w) by (nonlinear_arith);
        }
        y = y + 1;
    }
    proof {
        let w = world.width as int;
        let h = world.height as int;
        assert(h * w == w * h) by (nonlinear_arith);
    }
    if count > threshold {
        Some(positions)
    } else {
        None
    }
}

/// Burning cells: more than ten of them call for the fire sound, heard at the
/// average of every fiftieth one.
pub fn check_fire_reactions<K: Kinetics>(world: &AtomWorld<K>) -> (r: Option<Vec<(i32, i32)>>)
    requires
        world.wf(),
        world@.addressable(),
    ensures
        r is Some <==> count_cells(world@, AtomType::Fire, None, world.atoms.len() as int) > 10,
        r matches Some(s) ==> s@ == samples(world@, AtomType::Fire, None, 50, world.atoms.len() as int),
{
    sample_reaction_cells(world, AtomType::Fire, 50, 10, None)
}

/// Acid cells: more than five call for the corrosion sound, heard at the
/// average of every thirtieth one.
pub fn check_acid_reactions<K: Kinetics>(world: &AtomWorld<K>) -> (r: Option<Vec<(i32, i32)>>)
    requires
        world.wf(),
        world@.addressable(),
    ensures
        r is Some <==> count_cells(world@, AtomType::Acid, None, world.atoms.len() as int) > 5,
        r matches Some(s) ==> s@ == samples(world@, AtomType::Acid, None, 30, world.atoms.len() as int),
{
    sample_reaction_cells(world, AtomType::Acid, 30, 5, None)
}

/// Water cells marked as moving fast in `moving`: more than three call for
/// the splash sound, heard at the average of every twentieth one.
pub fn check_water_reactions<K: Kinetics>(world: &AtomWorld<K>, moving: &Vec<bool>) -> (r: Option<Vec<(i32, i32)>>)
    requires
        world.wf(),
        world@.addressable(),
        moving.len() == world.atoms.len(),
    ensures
        r is Some <==> count_cells(world@, AtomType::Water, Some(moving@), world.atoms.len() as int) > 3,
        r matches Some(s) ==> s@ == samples(world@, AtomType::Water, Some(moving@), 20, world.atoms.len() as int),
{
    sample_reaction_cells(world, AtomType::Water, 20, 3, Some(moving))
}

/// Kinds of ambient sound.
#[derive(Debug, Clone, Copy, PartialEq, Eq, Structural)]
pub enum AmbientType {
    FireCrackle,
    WaterFlow,
    Wind,
    CaveEcho,
}

/// A 20 by 20 block of the world in which one kind of atom fills more than
/// 30% of the block's 400 cells: the block's lowest corner, the sound it
/// gives off, and how many cells of that kind it holds.
#[derive(Debug, Clone, Copy, PartialEq, Eq, Structural)]
pub struct AmbientSpot {
    pub sound_type: AmbientType,
    pub base_x: usize,
    pub base_y: usize,
    pub count: usize,
}

/// Cells of type `kind` in row y between columns x0 (included) and x1.
pub open spec fn row_count<K>(g: Grid<K>, kind: AtomType, y: int, x0: int, x1: int) -> nat
    decreases x1 - x0,
{
    if x1 <= x0 {
        0
    } else {
        row_count(g, kind, y, x0, x1 - 1) + if g.kind((x1 - 1) as i32, y as i32) == kind {
            1nat
        } else {
            0nat
        }
    }
}

/// Cells of type `kind` in the box of columns x0..x1 and rows y0..y1.
pub open spec fn box_count<K>(g: Grid<K>, kind: AtomType, x0: int, x1: int, y0: int, y1: int) -> nat
    decreases y1 - y0,
{
    if y1 <= y0 {
        0
    } else {
        box_count(g, kind, x0, x1, y0, y1 - 1) + row_count(g, kind, y1 - 1, x0, x1)
    }
}

pub open spec fn min_int(a: int, b: int) -> int {
    if a < b {
        a
    } else {
        b
    }
}

/// Cells of type `kind` in the block at (bx, by), cut off at the world's edge.
pub open spec fn block_count<K>(g: Grid<K>, kind: AtomType, bx: int, by: int) -> nat {
    box_count(g, kind, bx, min_int(bx + 20, g.width as int), by, min_int(by + 20, g.height as int))
}

/// The ambient sounds of the block at (bx, by): fire crackles where more than
/// 120 of its cells burn, water flows where more than 120 hold water.
pub open spec fn block_spots<K>(g: Grid<K>, bx: int, by: int) -> Seq<AmbientSpot> {
    let fire = block_count(g, AtomType::Fire, bx, by);
    let water = block_count(g, AtomType::Water, bx, by);
    (if fire > 120 {
        seq![AmbientSpot { sound_type: AmbientType::FireCrackle, base_x: bx as usize, base_y: by as usize, count: fire as usize }]
    } else {
        Seq::empty()
    }) + (if water > 120 {
        seq![AmbientSpot { sound_type: AmbientType::WaterFlow, base_x: bx as usize, base_y: by as usize, count: water as usize }]
    } else {
        Seq::empty()
    })
}

/// The sounds of the first k blocks of the block row at height by.
pub open spec fn row_spots<K>(g: Grid<K>, by: int, k: int) -> Seq<AmbientSpot>
    decreases k,
{
    if k <= 0 {
        Seq::empty()
    } else {
        row_spots(g, by, k - 1) + block_spots(g, 20 * (k - 1), by)
    }
}

/// The sounds of the first j block rows, each row left to right.
pub open spec fn ambient_spots<K>(g: Grid<K>, j: int) -> Seq<AmbientSpot>
    decreases j,
{
    if j <= 0 {
        Seq::empty()
    } else {
        ambient_spots(g, j - 1) + row_spots(g, 20 * (j - 1), (g.width as int + 19) / 20)
    }
}

/// Counts fire and water in the block of columns bx..x_end, rows by..y_end.
fn count_block<K: Kinetics>(world: &AtomWorld<K>, bx: usize, x_end: usize, by: usize, y_end: usize) -> (r: (usize, usize))
    requires
        world.wf(),
        world@.addressable(),
        bx <= x_end <= world.width,
        by <= y_end <= world.height,
        x_end - bx <= 20,
        y_end - by <= 20,
    ensures
        r.0 == box_count(world@, AtomType::Fire, bx as int, x_end as int, by as int, y_end as int),
        r.1 == box_count(world@, AtomType::Water, bx as int, x_end as int, by as int, y_end as int),
{
    let ghost g = world@;
    let mut fire: usize = 0;
    let mut water: usize = 0;
    let mut y = by;
    while y < y_end
        invariant
            g == world@,
            world.wf(),
            world@.addressable(),
            bx <= x_end <= world.width,
            by <= y <= y_end <= world.height,
            x_end - bx <= 20,
            y_end - by <= 20,
            fire == box_count(g, AtomType::Fire, bx as int, x_end as int, by as int, y as int),
            water == box_count(g, AtomType::Water, bx as int, x_end as int, by as int, y as int),
            fire <= (y - by) * 20,
            water <= (y - by) * 20,
        decreases y_end - y,
    {
        let mut x = bx;
        let ghost fire0 = fire;
        let ghost water0 = water;
        while x < x_end
            invariant
                g == world@,
                world.wf(),
                world@.addressable(),
                bx <= x <= x_end <= world.width,
                by <= y < y_end <= world.height,
                x_end - bx <= 20,
                y_end - by <= 20,
                fire == fire0 + row_count(g, AtomType::Fire, y as int, bx as int, x as int),
                water == water0 + row_count(g, AtomType::Water, y as int, bx as int, x as int),
                fire0 <= (y - by) * 20,
                water0 <= (y - by) * 20,
                fire <= fire0 + (x - bx),
                water <= water0 + (x - bx),
            decreases x_end - x,
        {
            proof {
                lemma_size_cast(world.width);
                lemma_size_cast(world.height);
            }
            let idx = world.get_index(x as i32, y as i32).unwrap();
            let t = world.atoms[idx].atom_type;
            if t == AtomType::Fire {
                fire = fire + 1;
            } else if t == AtomType::Water {
                water = water + 1;
            }
            x = x + 1;
        }
        y = y + 1;
    }
    (fire, water)
}

/// Splits the world into 20 by 20 blocks, rows of blocks from the bottom up
/// and each row left to right, and lists for each block the fire and then the
/// water sound where that kind fills more than 30% of the block's 400 cells.
pub fn update_ambient_sounds<K: Kinetics>(world: &AtomWorld<K>) -> (spots: Vec<AmbientSpot>)
    requires
        world.wf(),
        world@.addressable(),
    ensures
        spots@ == ambient_spots(world@, (world.height as int + 19) / 20),
{
    let ghost g = world@;
    let mut spots: Vec<AmbientSpot> = Vec::new();
    let mut base_y: usize = 0;
    let ghost mut j: int = 0;
    while base_y < world.height
        invariant
            g == world@,
            world.wf(),
            world@.addressable(),
            base_y == 20 * j,
            0 <= j,
            20 * j <= world.height + 19,
            spots@ == ambient_spots(g, j),
        decreases world.height + 20 - base_y,
    {
        let mut base_x: usize = 0;
        let ghost mut k: int = 0;
        let y_end = if base_y + 20 < world.height { base_y + 20 } else { world.height };
        while base_x < world.width
            invariant
                g == world@,
                world.wf(),
                world@.addressable(),
                base_y == 20 * j,
                base_y < world.height,
                y_end == min_int(base_y + 20, world.height as int),
                base_x == 20 * k,
                0 <= k,
                20 * k <= world.width + 19,
                spots@ == ambient_spots(g, j) + row_spots(g, base_y as int, k),
            decreases world.width + 20 - base_x,
        {
            let x_end = if base_x + 20 < world.width { base_x + 20 } else { world.width };
            let (fire, water) = count_block(world, base_x, x_end, base_y, y_end);
            let ghost before = spots@;
            if fire > 120 {
                spots.push(AmbientSpot { sound_type: AmbientType::FireCrackle, base_x, base_y, count: fire });
            }
            if water > 120 {
                spots.push(AmbientSpot { sound_type: AmbientType::WaterFlow, base_x, base_y, count: water });
            }
            proof {
                assert(spots@ =~= before + block_spots(g, base_x as int, base_y as int));
                assert(row_spots(g, base_y as int, k + 1) == row_spots(g, base_y as int, k) + block_spots(g, 20 * k, base_y as int));
                assert(spots@ =~= ambient_spots(g, j) + row_spots(g, base_y as int, k + 1));
                k = k + 1;
            }
            base_x = base_x + 20;
        }
        proof {
            assert(k == (world.width as int + 19) / 20);
            assert(spots@ =~= ambient_spots(g, j + 1));
            j = j + 1;
        }
        base_y = base_y + 20;
    }
    proof {
        assert(j == (world.height as int + 19) / 20);
    }
    spots
}

} // verus!
