use noita_demo::atoms::{Atom, AtomType, AtomWorld, Drift, Kinetics};
use noita_demo::game::{create_demo_terrain, paint_brush, spawn_demo_atoms, BrushTool};

#[derive(Clone, Copy, Debug, PartialEq)]
struct Motion {
    lifetime: Option<f32>,
    temperature: f32,
}

impl Kinetics for Motion {
    type Step = f32;

    fn at_rest() -> Self {
        Motion { lifetime: None, temperature: 20.0 }
    }

    fn spawned(_atom_type: AtomType, lifetime_secs: Option<u32>, temperature: i32) -> Self {
        Motion { lifetime: lifetime_secs.map(|s| s as f32), temperature: temperature as f32 }
    }

    fn with_lifetime(self, lifetime_secs: u32) -> Self {
        Motion { lifetime: Some(lifetime_secs as f32), ..self }
    }

    fn drift(&self) -> Drift {
        Drift::Still
    }

    fn aged(self, _step: &f32) -> Option<Self> {
        Some(self)
    }

    fn bounced(self) -> Self {
        self
    }
}

type World = AtomWorld<Motion>;

fn kind(world: &World, x: i32, y: i32) -> AtomType {
    world.get_atom(x, y).unwrap().atom_type
}

#[test]
fn brush_defaults_to_small_sand() {
    let brush = BrushTool::default();
    assert_eq!(brush.atom_type, AtomType::Sand);
    assert_eq!(brush.size, 3);
    assert!(!brush.is_active);
}

#[test]
fn digit_keys_pick_the_brush_type() {
    let mut brush = BrushTool::default();
    brush.apply_keys([false, false, true, false, false], true);
    assert_eq!(brush.atom_type, AtomType::Stone);
    assert!(brush.is_active);
    brush.apply_keys([false, true, false, false, true], false);
    assert_eq!(brush.atom_type, AtomType::Fire);
    assert!(!brush.is_active);
    brush.apply_keys([false; 5], false);
    assert_eq!(brush.atom_type, AtomType::Fire);
}

#[test]
fn the_brush_paints_a_disk() {
    let mut world = World::new(9, 9);
    let brush = BrushTool { atom_type: AtomType::Water, size: 2, is_active: true };
    paint_brush(&mut world, 4, 4, &brush);
    for x in 0..9 {
        for y in 0..9 {
            let d2 = (x - 4) * (x - 4) + (y - 4) * (y - 4);
            let expected = if d2 <= 4 { AtomType::Water } else { AtomType::Empty };
            assert_eq!(kind(&world, x, y), expected);
        }
    }
    assert_eq!(world.atoms.iter().filter(|a| a.atom_type == AtomType::Water).count(), 13);
}

#[test]
fn the_empty_brush_erases() {
    let mut world = World::new(3, 3);
    for x in 0..3 {
        for y in 0..3 {
            world.set_atom(x, y, Atom::spawn(AtomType::Stone, None, 20));
        }
    }
    let brush = BrushTool { atom_type: AtomType::Empty, size: 1, is_active: true };
    paint_brush(&mut world, 0, 0, &brush);
    assert_eq!(kind(&world, 0, 0), AtomType::Empty);
    assert_eq!(kind(&world, 1, 0), AtomType::Empty);
    assert_eq!(kind(&world, 0, 1), AtomType::Empty);
    assert_eq!(kind(&world, 1, 1), AtomType::Stone);
}

#[test]
fn demo_terrain_has_floor_sand_and_water() {
    let mut world = World::new(200, 150);
    create_demo_terrain(&mut world);
    for x in 0..200 {
        for y in 0..150 {
            let t = kind(&world, x, y);
            if y < 10 {
                assert_eq!(t, AtomType::Stone);
            } else if (50..80).contains(&x) && (10..25).contains(&y) {
                assert!(t == AtomType::Sand || t == AtomType::Empty);
            } else if (120..140).contains(&x) && (10..20).contains(&y) {
                assert!(t == AtomType::Water || t == AtomType::Empty);
            } else {
                assert_eq!(t, AtomType::Empty);
            }
        }
    }
    let sand = world.atoms.iter().filter(|a| a.atom_type == AtomType::Sand).count();
    assert!(sand > 0 && sand < 450);
    assert!(world
        .atoms
        .iter()
        .all(|a| a.kinetics == Motion { lifetime: None, temperature: 20.0 }));
}

#[test]
fn demo_terrain_in_a_small_world() {
    let mut world = World::new(5, 4);
    create_demo_terrain(&mut world);
    assert!(world.atoms.iter().all(|a| a.atom_type == AtomType::Stone));
}

#[test]
fn demo_keys_drop_atoms_side_by_side() {
    let mut world = World::new(120, 60);
    spawn_demo_atoms(&mut world, [true, false, true, true]);
    assert_eq!(kind(&world, 100, 50), AtomType::Sand);
    assert_eq!(kind(&world, 105, 50), AtomType::Empty);
    assert_eq!(kind(&world, 110, 50), AtomType::Fire);
    assert_eq!(world.get_atom(110, 50).unwrap().kinetics, Motion { lifetime: Some(5.0), temperature: 800.0 });
    assert_eq!(kind(&world, 115, 50), AtomType::Acid);
    assert_eq!(world.atoms.iter().filter(|a| a.atom_type != AtomType::Empty).count(), 3);
}

#[test]
fn demo_keys_outside_the_world_do_nothing() {
    let mut world = World::new(50, 50);
    spawn_demo_atoms(&mut world, [true; 4]);
    assert!(world.atoms.iter().all(|a| a.atom_type == AtomType::Empty));
}
