use noita_demo::atoms::{Atom, AtomType, AtomWorld, Drift, Kinetics};
use noita_demo::reactions::{check_reaction, process_reactions};
use noita_demo::rules::{apply_movements, find_interaction_pairs, is_near_moving_object, liquid_step, rising_step, sand_step, update_atom, update_cells, update_sand};

#[derive(Clone, Copy, Debug, PartialEq)]
struct Motion {
    vx: f32,
    lifetime: Option<f32>,
    temperature: f32,
}

impl Kinetics for Motion {
    type Step = f32;

    fn at_rest() -> Self {
        Motion { vx: 0.0, lifetime: None, temperature: 20.0 }
    }

    fn spawned(_atom_type: AtomType, lifetime_secs: Option<u32>, temperature: i32) -> Self {
        Motion { vx: 0.0, lifetime: lifetime_secs.map(|s| s as f32), temperature: temperature as f32 }
    }

    fn with_lifetime(self, lifetime_secs: u32) -> Self {
        Motion { lifetime: Some(lifetime_secs as f32), ..self }
    }

    fn drift(&self) -> Drift {
        if self.vx > 0.1 {
            Drift::Right
        } else if self.vx < -0.1 {
            Drift::Left
        } else {
            Drift::Still
        }
    }

    fn aged(self, step: &f32) -> Option<Self> {
        match self.lifetime {
            Some(l) => {
                let left = l - step;
                if left <= 0.0 {
                    None
                } else {
                    Some(Motion { lifetime: Some(left), ..self })
                }
            }
            None => Some(self),
        }
    }

    fn bounced(self) -> Self {
        Motion { vx: self.vx * -0.5, ..self }
    }
}

type World = AtomWorld<Motion>;

fn put(world: &mut World, x: i32, y: i32, t: AtomType) {
    world.set_atom(x, y, Atom::spawn(t, None, 20));
}

fn kind(world: &World, x: i32, y: i32) -> AtomType {
    world.get_atom(x, y).unwrap().atom_type
}

fn filled(world: &World) -> usize {
    world.atoms.iter().filter(|a| a.atom_type != AtomType::Empty).count()
}

#[test]
fn new_world_is_empty() {
    let world = World::new(4, 3);
    assert_eq!(world.atoms.len(), 12);
    assert_eq!(world.updated.len(), 12);
    assert!(world.atoms.iter().all(|a| a.atom_type == AtomType::Empty));
    assert!(world.updated.iter().all(|u| !u));
}

#[test]
fn index_is_row_major_and_bounded() {
    let world = World::new(4, 3);
    assert_eq!(world.get_index(1, 2), Some(9));
    assert_eq!(world.get_index(3, 0), Some(3));
    assert_eq!(world.get_index(4, 0), None);
    assert_eq!(world.get_index(0, 3), None);
    assert_eq!(world.get_index(-1, 0), None);
    assert!(world.get_atom(5, 5).is_none());
    assert!(world.is_empty(-1, -1));
}

#[test]
fn set_atom_outside_is_ignored() {
    let mut world = World::new(2, 2);
    put(&mut world, 7, 7, AtomType::Sand);
    assert_eq!(filled(&world), 0);
    put(&mut world, 1, 0, AtomType::Sand);
    assert_eq!(kind(&world, 1, 0), AtomType::Sand);
    assert!(!world.is_empty(1, 0));
}

#[test]
fn swap_marks_both_cells_moved() {
    let mut world = World::new(3, 1);
    put(&mut world, 0, 0, AtomType::Water);
    world.swap_atoms(0, 0, 2, 0);
    assert_eq!(kind(&world, 2, 0), AtomType::Water);
    assert_eq!(kind(&world, 0, 0), AtomType::Empty);
    assert!(world.updated[0] && world.updated[2] && !world.updated[1]);
    world.swap_atoms(0, 0, 5, 0);
    assert_eq!(kind(&world, 2, 0), AtomType::Water);
    world.clear_updated();
    assert!(world.updated.iter().all(|u| !u));
}

#[test]
fn get_atom_mut_writes_through() {
    let mut world = World::new(2, 2);
    if let Some(a) = world.get_atom_mut(1, 1) {
        a.atom_type = AtomType::Stone;
    }
    assert_eq!(kind(&world, 1, 1), AtomType::Stone);
    assert!(world.get_atom_mut(2, 1).is_none());
}

#[test]
fn atom_type_classes() {
    assert!(AtomType::Water.is_fluid() && AtomType::Steam.is_fluid() && !AtomType::Sand.is_fluid());
    assert!(AtomType::Fire.is_gas() && AtomType::Smoke.is_gas() && !AtomType::Water.is_gas());
    assert!(AtomType::Sand.can_burn() && AtomType::Stone.can_burn() && !AtomType::Water.can_burn());
    let a: Atom<Motion> = Atom::default();
    assert_eq!(a.atom_type, AtomType::Empty);
}

#[test]
fn reactions_table() {
    assert_eq!(check_reaction(AtomType::Fire, AtomType::Water), Some(vec![(AtomType::Steam, Some(3))]));
    assert_eq!(check_reaction(AtomType::Water, AtomType::Fire), Some(vec![(AtomType::Steam, Some(3))]));
    assert_eq!(check_reaction(AtomType::Acid, AtomType::Water), Some(vec![(AtomType::Poison, None)]));
    assert_eq!(check_reaction(AtomType::Sand, AtomType::Fire), Some(vec![(AtomType::Smoke, Some(2))]));
    assert_eq!(check_reaction(AtomType::Sand, AtomType::Water), None);
    assert_eq!(check_reaction(AtomType::Fire, AtomType::Fire), None);
}

#[test]
fn fire_and_water_make_steam() {
    // Both atoms find the reaction on the world as it was; each places a
    // product in the first free cell of every column around its first atom,
    // then both reacting cells empty.
    let mut world = World::new(3, 3);
    put(&mut world, 1, 1, AtomType::Fire);
    put(&mut world, 2, 1, AtomType::Water);
    process_reactions(&mut world);
    for x in 0..3 {
        assert_eq!(kind(&world, x, 0), AtomType::Steam);
        let steam = world.get_atom(x, 0).unwrap();
        assert_eq!(steam.kinetics.lifetime, Some(3.0));
        assert_eq!(steam.kinetics.temperature, 20.0);
        assert_eq!(kind(&world, x, 1), AtomType::Empty);
        assert_eq!(kind(&world, x, 2), AtomType::Empty);
    }
}

#[test]
fn acid_and_water_make_poison() {
    let mut world = World::new(2, 2);
    put(&mut world, 0, 1, AtomType::Acid);
    put(&mut world, 1, 1, AtomType::Water);
    process_reactions(&mut world);
    assert_eq!(kind(&world, 0, 0), AtomType::Poison);
    assert_eq!(kind(&world, 1, 0), AtomType::Poison);
    assert_eq!(world.get_atom(0, 0).unwrap().kinetics.lifetime, None);
    assert_eq!(kind(&world, 0, 1), AtomType::Empty);
    assert_eq!(kind(&world, 1, 1), AtomType::Empty);
}

#[test]
fn reactions_in_a_one_row_world_only_consume() {
    // Every column's first free place lies outside the world (the row above),
    // so no product lands; both reactants are still emptied.
    let mut world = World::new(2, 1);
    put(&mut world, 0, 0, AtomType::Fire);
    put(&mut world, 1, 0, AtomType::Sand);
    process_reactions(&mut world);
    assert_eq!(filled(&world), 0);
}

#[test]
fn fire_and_sand_make_smoke_above() {
    let mut world = World::new(2, 3);
    put(&mut world, 0, 2, AtomType::Fire);
    put(&mut world, 1, 2, AtomType::Sand);
    process_reactions(&mut world);
    assert_eq!(kind(&world, 0, 1), AtomType::Smoke);
    assert_eq!(kind(&world, 1, 1), AtomType::Smoke);
    assert_eq!(world.get_atom(0, 1).unwrap().kinetics.lifetime, Some(2.0));
    assert_eq!(kind(&world, 0, 2), AtomType::Empty);
    assert_eq!(kind(&world, 1, 2), AtomType::Empty);
    assert_eq!(filled(&world), 2);
}

#[test]
fn unrelated_atoms_do_not_react() {
    let mut world = World::new(3, 3);
    put(&mut world, 0, 0, AtomType::Stone);
    put(&mut world, 1, 0, AtomType::Water);
    put(&mut world, 2, 2, AtomType::Fire);
    let before: Vec<AtomType> = world.atoms.iter().map(|a| a.atom_type).collect();
    process_reactions(&mut world);
    let after: Vec<AtomType> = world.atoms.iter().map(|a| a.atom_type).collect();
    assert_eq!(before, after);
}

#[test]
fn sand_falls_down() {
    let mut world = World::new(3, 3);
    put(&mut world, 1, 0, AtomType::Sand);
    sand_step(&mut world, 1, 0, Drift::Still);
    assert_eq!(kind(&world, 1, 1), AtomType::Sand);
    assert_eq!(kind(&world, 1, 0), AtomType::Empty);
}

#[test]
fn sand_slides_the_way_it_drifts() {
    let mut world = World::new(3, 2);
    put(&mut world, 1, 0, AtomType::Sand);
    put(&mut world, 1, 1, AtomType::Stone);
    sand_step(&mut world, 1, 0, Drift::Right);
    assert_eq!(kind(&world, 2, 0), AtomType::Sand);
    let mut world = World::new(3, 2);
    put(&mut world, 1, 0, AtomType::Sand);
    put(&mut world, 1, 1, AtomType::Stone);
    sand_step(&mut world, 1, 0, Drift::Still);
    assert_eq!(kind(&world, 0, 1), AtomType::Sand);
}

#[test]
fn sand_resting_on_the_floor_stays() {
    let mut world = World::new(1, 1);
    put(&mut world, 0, 0, AtomType::Sand);
    update_sand(&mut world, 0, 0);
    assert_eq!(kind(&world, 0, 0), AtomType::Sand);
}

#[test]
fn liquid_flows_ahead_then_behind() {
    let mut world = World::new(3, 2);
    put(&mut world, 1, 0, AtomType::Water);
    put(&mut world, 1, 1, AtomType::Stone);
    put(&mut world, 2, 0, AtomType::Stone);
    liquid_step(&mut world, 1, 0, 1);
    assert_eq!(kind(&world, 0, 0), AtomType::Water);
}

#[test]
fn gas_rises() {
    let mut world = World::new(3, 3);
    put(&mut world, 1, 2, AtomType::Smoke);
    put(&mut world, 1, 1, AtomType::Stone);
    rising_step(&mut world, 1, 2, -1);
    assert_eq!(kind(&world, 0, 1), AtomType::Smoke);
}

#[test]
fn updated_or_outside_cells_are_left_alone() {
    let mut world = World::new(2, 2);
    put(&mut world, 0, 0, AtomType::Sand);
    world.updated[0] = true;
    update_atom(&mut world, 0, 0, &0.1);
    assert_eq!(kind(&world, 0, 0), AtomType::Sand);
    update_atom(&mut world, 9, 9, &0.1);
    assert_eq!(filled(&world), 1);
}

#[test]
fn expired_atoms_vanish() {
    let mut world = World::new(1, 1);
    world.set_atom(0, 0, Atom::spawn(AtomType::Smoke, Some(1), 20));
    update_atom(&mut world, 0, 0, &0.5);
    assert_eq!(kind(&world, 0, 0), AtomType::Smoke);
    assert_eq!(world.atoms[0].kinetics.lifetime, Some(0.5));
    update_atom(&mut world, 0, 0, &0.5);
    assert_eq!(kind(&world, 0, 0), AtomType::Empty);
}

#[test]
fn sweep_never_adds_atoms() {
    let mut world = World::new(6, 6);
    put(&mut world, 2, 0, AtomType::Sand);
    put(&mut world, 3, 1, AtomType::Water);
    put(&mut world, 1, 5, AtomType::Steam);
    put(&mut world, 4, 5, AtomType::Stone);
    world.set_atom(0, 3, Atom::spawn(AtomType::Fire, Some(1), 800));
    let before = filled(&world);
    for _ in 0..10 {
        world.clear_updated();
        update_cells(&mut world, &0.25);
        assert!(filled(&world) <= before);
    }
    assert_eq!(kind(&world, 4, 5), AtomType::Stone);
}

#[test]
fn moves_land_in_empty_cells_or_bounce() {
    let mut world = World::new(4, 1);
    world.set_atom(0, 0, Atom { atom_type: AtomType::Sand, kinetics: Motion { vx: 2.0, lifetime: None, temperature: 20.0 } });
    world.set_atom(3, 0, Atom::spawn(AtomType::Stone, None, 20));
    world.set_atom(1, 0, Atom { atom_type: AtomType::Water, kinetics: Motion { vx: 4.0, lifetime: None, temperature: 20.0 } });
    // Sand moves to the free cell 2; water's target (the stone) is taken, so it bounces.
    apply_movements(&mut world, &vec![(0, 0, 2, 0), (1, 0, 3, 0)]);
    assert_eq!(kind(&world, 0, 0), AtomType::Empty);
    assert_eq!(kind(&world, 2, 0), AtomType::Sand);
    assert_eq!(world.get_atom(2, 0).unwrap().kinetics.vx, 2.0);
    assert_eq!(kind(&world, 1, 0), AtomType::Water);
    assert_eq!(world.get_atom(1, 0).unwrap().kinetics.vx, -2.0);
    assert_eq!(kind(&world, 3, 0), AtomType::Stone);
}

#[test]
fn atoms_moving_out_of_the_world_are_gone() {
    let mut world = World::new(2, 2);
    put(&mut world, 1, 1, AtomType::Sand);
    apply_movements(&mut world, &vec![(1, 1, 1, 5), (7, 7, 0, 0)]);
    assert_eq!(filled(&world), 0);
}

#[test]
fn swapping_twice_puts_atoms_back() {
    let mut world = World::new(3, 2);
    put(&mut world, 0, 0, AtomType::Acid);
    put(&mut world, 2, 1, AtomType::Stone);
    let before: Vec<AtomType> = world.atoms.iter().map(|a| a.atom_type).collect();
    world.swap_atoms(0, 0, 2, 1);
    assert_eq!(kind(&world, 2, 1), AtomType::Acid);
    world.swap_atoms(0, 0, 2, 1);
    let after: Vec<AtomType> = world.atoms.iter().map(|a| a.atom_type).collect();
    assert_eq!(before, after);
    assert!(world.updated[0] && world.updated[5]);
}

#[test]
fn interaction_pairs_are_listed_in_scan_order() {
    let mut world = World::new(4, 1);
    put(&mut world, 0, 0, AtomType::Sand);
    put(&mut world, 1, 0, AtomType::Water);
    put(&mut world, 3, 0, AtomType::Stone);
    let active = vec![true, true, false, true];
    let pairs = find_interaction_pairs(&world, &active, 1000);
    assert_eq!(
        pairs,
        vec![
            ((0, 0), (1, 0)),
            ((1, 0), (0, 0)),
            ((1, 0), (3, 0)),
            ((3, 0), (1, 0)),
        ]
    );
    assert_eq!(find_interaction_pairs(&world, &active, 2), vec![((0, 0), (1, 0)), ((1, 0), (0, 0))]);
    assert!(find_interaction_pairs(&world, &vec![false; 4], 1000).is_empty());
}

#[test]
fn fast_atoms_are_noticed_within_five_cells() {
    let world = World::new(12, 3);
    let mut fast = vec![false; 36];
    fast[11] = true; // (11, 0)
    assert!(is_near_moving_object(&world, &fast, 6, 2));
    assert!(!is_near_moving_object(&world, &fast, 5, 0));
    assert!(!is_near_moving_object(&world, &vec![false; 36], 11, 0));
}
