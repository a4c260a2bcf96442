use noita_demo::atoms::{Atom, AtomType, AtomWorld, Drift, Kinetics};
use noita_demo::sound::{
    check_acid_reactions, check_fire_reactions, check_water_reactions, sample_reaction_cells, update_ambient_sounds,
    AmbientSpot, AmbientType,
};

#[derive(Clone, Copy, Debug, PartialEq)]
struct Still;

impl Kinetics for Still {
    type Step = ();

    fn at_rest() -> Self {
        Still
    }

    fn spawned(_atom_type: AtomType, _lifetime_secs: Option<u32>, _temperature: i32) -> Self {
        Still
    }

    fn with_lifetime(self, _lifetime_secs: u32) -> Self {
        self
    }

    fn drift(&self) -> Drift {
        Drift::Still
    }

    fn aged(self, _step: &()) -> Option<Self> {
        Some(self)
    }

    fn bounced(self) -> Self {
        self
    }
}

type World = AtomWorld<Still>;

fn fill_first(world: &mut World, n: usize, t: AtomType) {
    let w = world.width;
    for i in 0..n {
        world.set_atom((i % w) as i32, (i / w) as i32, Atom { atom_type: t, kinetics: Still });
    }
}

#[test]
fn fire_sound_needs_more_than_ten_fires() {
    let mut world = World::new(30, 4);
    fill_first(&mut world, 10, AtomType::Fire);
    assert_eq!(check_fire_reactions(&world), None);
    fill_first(&mut world, 11, AtomType::Fire);
    assert_eq!(check_fire_reactions(&world), Some(vec![]));
}

#[test]
fn every_fiftieth_fire_is_sampled() {
    let mut world = World::new(30, 4);
    fill_first(&mut world, 101, AtomType::Fire);
    assert_eq!(check_fire_reactions(&world), Some(vec![(19, 1), (9, 3)]));
}

#[test]
fn acid_sound_samples_every_thirtieth() {
    let mut world = World::new(10, 10);
    fill_first(&mut world, 5, AtomType::Acid);
    assert_eq!(check_acid_reactions(&world), None);
    fill_first(&mut world, 65, AtomType::Acid);
    assert_eq!(check_acid_reactions(&world), Some(vec![(9, 2), (9, 5)]));
}

#[test]
fn only_moving_water_splashes() {
    let mut world = World::new(5, 5);
    fill_first(&mut world, 25, AtomType::Water);
    let mut moving = vec![false; 25];
    for i in 0..3 {
        moving[i] = true;
    }
    assert_eq!(check_water_reactions(&world, &moving), None);
    for i in 0..20 {
        moving[i] = true;
    }
    assert_eq!(check_water_reactions(&world, &moving), Some(vec![(4, 3)]));
}

#[test]
fn sampling_counts_the_masked_type_only() {
    let mut world = World::new(4, 1);
    fill_first(&mut world, 2, AtomType::Sand);
    world.set_atom(3, 0, Atom { atom_type: AtomType::Sand, kinetics: Still });
    let mask = vec![true, false, true, true];
    assert_eq!(sample_reaction_cells(&world, AtomType::Sand, 2, 0, Some(&mask)), Some(vec![(3, 0)]));
    assert_eq!(sample_reaction_cells(&world, AtomType::Sand, 1, 0, None), Some(vec![(0, 0), (1, 0), (3, 0)]));
    assert_eq!(sample_reaction_cells(&world, AtomType::Sand, 1, 3, None), None);
}

#[test]
fn ambient_sound_needs_more_than_thirty_percent() {
    let mut world = World::new(20, 20);
    fill_first(&mut world, 120, AtomType::Fire);
    assert!(update_ambient_sounds(&world).is_empty());
    fill_first(&mut world, 121, AtomType::Fire);
    assert_eq!(
        update_ambient_sounds(&world),
        vec![AmbientSpot { sound_type: AmbientType::FireCrackle, base_x: 0, base_y: 0, count: 121 }]
    );
}

#[test]
fn ambient_blocks_scan_rows_then_columns() {
    let mut world = World::new(45, 40);
    for x in 20..40 {
        for y in 0..20 {
            let t = if y < 10 { AtomType::Fire } else { AtomType::Water };
            world.set_atom(x, y, Atom { atom_type: t, kinetics: Still });
        }
    }
    for x in 0..20 {
        for y in 20..40 {
            world.set_atom(x, y, Atom { atom_type: AtomType::Water, kinetics: Still });
        }
    }
    // The last column of blocks is 5 cells wide and never loud enough.
    for x in 40..45 {
        for y in 0..40 {
            world.set_atom(x, y, Atom { atom_type: AtomType::Fire, kinetics: Still });
        }
    }
    assert_eq!(
        update_ambient_sounds(&world),
        vec![
            AmbientSpot { sound_type: AmbientType::FireCrackle, base_x: 20, base_y: 0, count: 200 },
            AmbientSpot { sound_type: AmbientType::WaterFlow, base_x: 20, base_y: 0, count: 200 },
            AmbientSpot { sound_type: AmbientType::WaterFlow, base_x: 0, base_y: 20, count: 400 },
        ]
    );
}
