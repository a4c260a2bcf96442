use noita_demo::atoms::{Atom, AtomType, AtomWorld, Drift, Kinetics};
use noita_demo::regions::{find_solid_regions, is_solid};

#[derive(Clone, Copy, Debug, PartialEq)]
struct Still;

impl Kinetics for Still {
    type Step = ();

    fn at_rest() -> Self {
        Still
    }

    fn spawned(_atom_type: AtomType, _lifetime_secs: Option<u32>, _temperature: i32) -> Self {
        Still
    }

    fn with_lifetime(self, _lifetime_secs: u32) -> Self {
        self
    }

    fn drift(&self) -> Drift {
        Drift::Still
    }

    fn aged(self, _step: &()) -> Option<Self> {
        Some(self)
    }

    fn bounced(self) -> Self {
        self
    }
}

fn world_from(rows: &[&str]) -> AtomWorld<Still> {
    let mut world = AtomWorld::new(rows[0].len(), rows.len());
    for (y, row) in rows.iter().enumerate() {
        for (x, c) in row.chars().enumerate() {
            let t = match c {
                '#' => AtomType::Stone,
                's' => AtomType::Sand,
                'w' => AtomType::Water,
                _ => AtomType::Empty,
            };
            world.set_atom(x as i32, y as i32, Atom { atom_type: t, kinetics: Still });
        }
    }
    world
}

fn sorted(mut cells: Vec<(i32, i32)>) -> Vec<(i32, i32)> {
    cells.sort();
    cells
}

#[test]
fn stone_and_sand_are_solid() {
    assert!(is_solid(AtomType::Stone));
    assert!(is_solid(AtomType::Sand));
    assert!(!is_solid(AtomType::Water));
    assert!(!is_solid(AtomType::Empty));
}

#[test]
fn regions_join_at_corners_and_drop_small_ones() {
    let world = world_from(&[
        "##....",
        ".s..w.",
        "......",
        "#....#",
        ".#...#",
        "..#...",
    ]);
    let regions = find_solid_regions(&world);
    assert_eq!(regions.len(), 2);
    assert_eq!(regions[0][0], (0, 0));
    assert_eq!(sorted(regions[0].clone()), vec![(0, 0), (1, 0), (1, 1)]);
    assert_eq!(regions[1][0], (0, 3));
    assert_eq!(sorted(regions[1].clone()), vec![(0, 3), (1, 4), (2, 5)]);
}

#[test]
fn each_region_lists_every_cell_once() {
    let world = world_from(&["####", "#..#", "####"]);
    let regions = find_solid_regions(&world);
    assert_eq!(regions.len(), 1);
    let cells = sorted(regions[0].clone());
    let mut unique = cells.clone();
    unique.dedup();
    assert_eq!(cells, unique);
    assert_eq!(cells.len(), 10);
}

#[test]
fn no_solid_cells_no_regions() {
    let world = world_from(&["ww..", "...."]);
    assert!(find_solid_regions(&world).is_empty());
}

#[test]
fn region_cells_come_in_depth_first_order() {
    let world = world_from(&["##", "##"]);
    let regions = find_solid_regions(&world);
    assert_eq!(regions, vec![vec![(0, 0), (1, 1), (1, 0), (0, 1)]]);
    let row = world_from(&["###"]);
    assert_eq!(find_solid_regions(&row), vec![vec![(0, 0), (1, 0), (2, 0)]]);
}
