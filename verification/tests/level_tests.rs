use noita_demo::atoms::{Atom, AtomType, AtomWorld, Drift, Kinetics};
use noita_demo::level::{LevelGenerator, LevelManager, LevelType};

#[derive(Clone, Copy, Debug, PartialEq)]
struct Motion {
    lifetime: Option<f32>,
    temperature: f32,
}

impl Kinetics for Motion {
    type Step = f32;

    fn at_rest() -> Self {
        Motion { lifetime: None, temperature: 20.0 }
    }

    fn spawned(_atom_type: AtomType, lifetime_secs: Option<u32>, temperature: i32) -> Self {
        Motion { lifetime: lifetime_secs.map(|s| s as f32), temperature: temperature as f32 }
    }

    fn with_lifetime(self, lifetime_secs: u32) -> Self {
        Motion { lifetime: Some(lifetime_secs as f32), ..self }
    }

    fn drift(&self) -> Drift {
        Drift::Still
    }

    fn aged(self, _step: &f32) -> Option<Self> {
        Some(self)
    }

    fn bounced(self) -> Self {
        self
    }
}

type World = AtomWorld<Motion>;

fn kind(world: &World, x: i32, y: i32) -> AtomType {
    world.get_atom(x, y).unwrap().atom_type
}

fn square(x0: i32, y0: i32, size: i32) -> Vec<(i32, i32)> {
    let mut cells = Vec::new();
    for x in x0..x0 + size {
        for y in y0..y0 + size {
            cells.push((x, y));
        }
    }
    cells
}

#[test]
fn generator_keeps_its_seed() {
    let generator = LevelGenerator::new(7);
    assert_eq!(generator.seed(), 7);
    let _noise = generator.perlin();
}

#[test]
fn manager_starts_at_the_cave() {
    let manager = LevelManager::default();
    assert_eq!(manager.current_level, 0);
    assert_eq!(manager.generator.seed(), 12345);
    assert_eq!(manager.level_types.len(), 5);
    assert!(matches!(manager.get_current_level_type(), LevelType::Cave));
}

#[test]
fn next_level_cycles_through_all_five() {
    let mut manager = LevelManager::default();
    assert!(matches!(manager.next_level(), LevelType::Island));
    assert!(matches!(manager.next_level(), LevelType::Mountain));
    assert!(matches!(manager.next_level(), LevelType::Volcano));
    assert!(matches!(manager.next_level(), LevelType::Laboratory));
    assert!(matches!(manager.next_level(), LevelType::Cave));
    assert_eq!(manager.current_level, 0);
}

#[test]
fn previous_level_wraps_to_the_last() {
    let mut manager = LevelManager::default();
    assert!(matches!(manager.previous_level(), LevelType::Laboratory));
    assert_eq!(manager.current_level, 4);
    assert!(matches!(manager.previous_level(), LevelType::Volcano));
}

#[test]
fn next_then_previous_returns() {
    let mut manager = LevelManager::default();
    for start in 0..5 {
        manager.current_level = start;
        manager.next_level();
        manager.previous_level();
        assert_eq!(manager.current_level, start);
        manager.previous_level();
        manager.next_level();
        assert_eq!(manager.current_level, start);
    }
}

#[test]
fn laboratory_rooms_have_stone_walls_and_experiments() {
    let generator = LevelGenerator::new(1);
    let mut world = World::new(170, 35);
    generator.generate_laboratory_level(&mut world);
    for room in 0..4 {
        let sx = room * 40;
        for x in sx..sx + 40 {
            assert_eq!(kind(&world, x, 0), AtomType::Stone);
            assert_eq!(kind(&world, x, 29), AtomType::Stone);
        }
        for y in 0..30 {
            assert_eq!(kind(&world, sx, y), AtomType::Stone);
            assert_eq!(kind(&world, sx + 39, y), AtomType::Stone);
        }
        assert_eq!(kind(&world, sx + 20, 20), AtomType::Empty);
        let allowed: &[AtomType] = match room {
            0 => &[AtomType::Empty, AtomType::Acid],
            1 => &[AtomType::Empty, AtomType::Fire],
            2 => &[AtomType::Empty, AtomType::Water],
            _ => &[AtomType::Water, AtomType::Acid, AtomType::Fire, AtomType::Sand],
        };
        for (x, y) in square(sx + 5, 5, 10) {
            assert!(allowed.contains(&kind(&world, x, y)));
        }
    }
    // Cells beyond the last whole room, and rows below the rooms, are untouched.
    for x in 160..170 {
        for y in 0..35 {
            assert_eq!(kind(&world, x, y), AtomType::Empty);
        }
    }
    for x in 0..170 {
        assert_eq!(kind(&world, x, 32), AtomType::Empty);
    }
}

#[test]
fn a_world_smaller_than_a_room_stays_empty() {
    let generator = LevelGenerator::new(1);
    let mut world = World::new(39, 60);
    generator.generate_laboratory_level(&mut world);
    assert!(world.atoms.iter().all(|a| a.atom_type == AtomType::Empty));
}

#[test]
fn certain_water_fills_every_empty_cell() {
    let generator = LevelGenerator::new(3);
    let mut world = World::new(4, 3);
    world.set_atom(1, 1, Atom::spawn(AtomType::Stone, None, 20));
    generator.add_water_features(&mut world, 1, 1);
    for x in 0..4 {
        for y in 0..3 {
            let expected = if (x, y) == (1, 1) { AtomType::Stone } else { AtomType::Water };
            assert_eq!(kind(&world, x, y), expected);
        }
    }
}

#[test]
fn impossible_water_changes_nothing() {
    let generator = LevelGenerator::new(3);
    let mut world = World::new(4, 3);
    generator.add_water_features(&mut world, 0, 7);
    assert!(world.atoms.iter().all(|a| a.atom_type == AtomType::Empty));
}

#[test]
fn experiments_stay_in_their_square() {
    let generator = LevelGenerator::new(9);
    let mut world = World::new(30, 30);
    generator.add_acid_experiment(&mut world, 2, 2, 5);
    generator.add_fire_experiment(&mut world, 10, 2, 5);
    generator.add_water_experiment(&mut world, 2, 10, 5);
    generator.add_mixed_experiment(&mut world, 10, 10, 5);
    for x in 0..30 {
        for y in 0..30 {
            let t = kind(&world, x, y);
            let inside = |x0: i32, y0: i32| x0 <= x && x < x0 + 5 && y0 <= y && y < y0 + 5;
            if inside(2, 2) {
                assert!(t == AtomType::Empty || t == AtomType::Acid);
            } else if inside(10, 2) {
                assert!(t == AtomType::Empty || t == AtomType::Fire);
                if t == AtomType::Fire {
                    let k = world.get_atom(x, y).unwrap().kinetics;
                    assert_eq!((k.lifetime, k.temperature), (Some(10.0), 800.0));
                }
            } else if inside(2, 10) {
                assert!(t == AtomType::Empty || t == AtomType::Water);
            } else if inside(10, 10) {
                assert!(matches!(t, AtomType::Water | AtomType::Acid | AtomType::Fire | AtomType::Sand));
            } else {
                assert_eq!(t, AtomType::Empty);
            }
        }
    }
}
