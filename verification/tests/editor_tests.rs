use noita_demo::atoms::{Atom, AtomType, AtomWorld, Drift, Kinetics};
use noita_demo::editor::{
    count_atoms, draw_cells, flood_fill_area, painted_atom, validate_level, EditorHistory, EditorKeys, EditorMode,
    EditorStroke, LevelEditor, LevelReport,
};

#[derive(Clone, Copy, Debug, PartialEq)]
struct Motion {
    lifetime: Option<f32>,
    temperature: f32,
}

impl Kinetics for Motion {
    type Step = f32;

    fn at_rest() -> Self {
        Motion { lifetime: None, temperature: 20.0 }
    }

    fn spawned(_atom_type: AtomType, lifetime_secs: Option<u32>, temperature: i32) -> Self {
        Motion { lifetime: lifetime_secs.map(|s| s as f32), temperature: temperature as f32 }
    }

    fn with_lifetime(self, lifetime_secs: u32) -> Self {
        Motion { lifetime: Some(lifetime_secs as f32), ..self }
    }

    fn drift(&self) -> Drift {
        Drift::Still
    }

    fn aged(self, _step: &f32) -> Option<Self> {
        Some(self)
    }

    fn bounced(self) -> Self {
        self
    }
}

type World = AtomWorld<Motion>;

const W: AtomType = AtomType::Water;
const E: AtomType = AtomType::Empty;
const S: AtomType = AtomType::Sand;
const A: AtomType = AtomType::Acid;
const ST: AtomType = AtomType::Stone;

fn kinds(world: &World) -> Vec<AtomType> {
    world.atoms.iter().map(|a| a.atom_type).collect()
}

fn snapshot(world: &World) -> Vec<(AtomType, Motion)> {
    world.atoms.iter().map(|a| (a.atom_type, a.kinetics)).collect()
}

fn put(world: &mut World, x: i32, y: i32, t: AtomType) {
    world.set_atom(x, y, Atom::spawn(t, None, 20));
}

fn no_keys() -> EditorKeys {
    EditorKeys {
        grow: false,
        shrink: false,
        digits: [false; 5],
        draw: false,
        erase: false,
        fill: false,
        wheel_up: false,
        wheel_down: false,
    }
}

#[test]
fn painted_fire_burns_hot() {
    let fire: Atom<Motion> = painted_atom(AtomType::Fire);
    assert_eq!(fire.atom_type, AtomType::Fire);
    assert_eq!(fire.kinetics.lifetime, Some(10.0));
    assert_eq!(fire.kinetics.temperature, 700.0);
    let sand: Atom<Motion> = painted_atom(AtomType::Sand);
    assert_eq!(sand.kinetics.lifetime, None);
    assert_eq!(sand.kinetics.temperature, 20.0);
}

#[test]
fn flood_fill_replaces_the_side_connected_region() {
    // S S .
    // . S .
    // S . S   (the bottom corners touch the region only diagonally)
    let mut world = World::new(3, 3);
    put(&mut world, 0, 0, AtomType::Sand);
    put(&mut world, 1, 0, AtomType::Sand);
    put(&mut world, 1, 1, AtomType::Sand);
    put(&mut world, 0, 2, AtomType::Sand);
    put(&mut world, 2, 2, AtomType::Sand);
    flood_fill_area(&mut world, 0, 0, AtomType::Water);
    assert_eq!(kinds(&world), vec![W, W, E, E, W, E, S, E, S]);
}

#[test]
fn flood_fill_of_empty_space_fills_it() {
    let mut world = World::new(3, 2);
    put(&mut world, 1, 0, AtomType::Stone);
    put(&mut world, 1, 1, AtomType::Stone);
    flood_fill_area(&mut world, 0, 0, AtomType::Acid);
    assert_eq!(kinds(&world), vec![A, ST, E, A, ST, E]);
}

#[test]
fn flood_fill_with_the_same_type_or_outside_does_nothing() {
    let mut world = World::new(2, 2);
    put(&mut world, 0, 0, AtomType::Sand);
    let before = kinds(&world);
    flood_fill_area(&mut world, 0, 0, AtomType::Sand);
    assert_eq!(kinds(&world), before);
    flood_fill_area(&mut world, 5, 5, AtomType::Water);
    assert_eq!(kinds(&world), before);
}

#[test]
fn undo_then_redo_restores_the_edit() {
    let mut world = World::new(2, 2);
    put(&mut world, 0, 0, AtomType::Stone);
    let mut history: EditorHistory<Motion> = EditorHistory::default();
    assert_eq!(history.max_history, 50);
    // The batch holds what the cells looked like before an edit.
    history.undo_stack.push(vec![(0, 0, Atom::default()), (1, 1, painted_atom(AtomType::Water))]);
    let edited = kinds(&world);
    history.undo(&mut world);
    assert_eq!(kinds(&world), vec![AtomType::Empty, AtomType::Empty, AtomType::Empty, AtomType::Water]);
    assert_eq!(history.undo_stack.len(), 0);
    assert_eq!(history.redo_stack.len(), 1);
    history.redo(&mut world);
    assert_eq!(kinds(&world), edited);
    assert_eq!(history.undo_stack.len(), 1);
    assert_eq!(history.redo_stack.len(), 0);
}

#[test]
fn undo_with_nothing_recorded_changes_nothing() {
    let mut world = World::new(2, 1);
    put(&mut world, 1, 0, AtomType::Sand);
    let mut history: EditorHistory<Motion> = EditorHistory::default();
    history.undo(&mut world);
    history.redo(&mut world);
    assert_eq!(kinds(&world), vec![AtomType::Empty, AtomType::Sand]);
    assert!(history.undo_stack.is_empty() && history.redo_stack.is_empty());
}

#[test]
fn undo_records_cells_outside_as_empty() {
    let mut world = World::new(1, 1);
    let mut history: EditorHistory<Motion> = EditorHistory::default();
    history.undo_stack.push(vec![(4, 4, painted_atom(AtomType::Sand))]);
    history.undo(&mut world);
    assert_eq!(history.redo_stack[0][0].2.atom_type, AtomType::Empty);
    assert_eq!(kinds(&world), vec![AtomType::Empty]);
}

#[test]
fn editor_defaults_and_toggle() {
    let mut editor = LevelEditor::default();
    assert!(!editor.is_active);
    assert_eq!(editor.selected_atom_type, AtomType::Stone);
    assert_eq!(editor.brush_size, 3);
    assert_eq!(editor.mode, EditorMode::Draw);
    editor.toggle();
    assert!(editor.is_active);
    editor.toggle();
    assert!(!editor.is_active);
}

#[test]
fn editor_keys_are_ignored_while_hidden() {
    let mut editor = LevelEditor::default();
    let mut keys = no_keys();
    keys.grow = true;
    keys.digits[1] = true;
    keys.fill = true;
    editor.apply_keys(keys);
    assert_eq!(editor.brush_size, 3);
    assert_eq!(editor.selected_atom_type, AtomType::Stone);
    assert_eq!(editor.mode, EditorMode::Draw);
}

#[test]
fn editor_keys_pick_size_type_and_mode() {
    let mut editor = LevelEditor::default();
    editor.toggle();
    let mut keys = no_keys();
    keys.grow = true;
    keys.digits[0] = true;
    keys.digits[3] = true;
    keys.erase = true;
    keys.draw = true;
    editor.apply_keys(keys);
    assert_eq!(editor.brush_size, 4);
    assert_eq!(editor.selected_atom_type, AtomType::Acid);
    assert_eq!(editor.mode, EditorMode::Erase);
    assert_eq!(editor.stroke(), EditorStroke::Paint(AtomType::Empty));
}

#[test]
fn brush_size_stays_between_one_and_twenty() {
    let mut editor = LevelEditor::default();
    editor.toggle();
    let mut grow = no_keys();
    grow.grow = true;
    for _ in 0..30 {
        editor.apply_keys(grow);
    }
    assert_eq!(editor.brush_size, 20);
    let mut shrink = no_keys();
    shrink.shrink = true;
    for _ in 0..30 {
        editor.apply_keys(shrink);
    }
    assert_eq!(editor.brush_size, 1);
    let mut both = no_keys();
    both.grow = true;
    both.shrink = true;
    editor.apply_keys(both);
    assert_eq!(editor.brush_size, 1);
}

#[test]
fn strokes_follow_the_mode() {
    let mut editor = LevelEditor::default();
    assert_eq!(editor.stroke(), EditorStroke::Paint(AtomType::Stone));
    editor.mode = EditorMode::Fill;
    assert_eq!(editor.stroke(), EditorStroke::Fill(AtomType::Stone));
    editor.mode = EditorMode::Line;
    assert_eq!(editor.stroke(), EditorStroke::Nothing);
}

#[test]
fn draw_cells_paints_the_listed_cells_inside() {
    let mut world = World::new(3, 1);
    draw_cells(&mut world, &vec![(0, 0), (2, 0), (9, 0), (2, 0)], AtomType::Fire);
    assert_eq!(kinds(&world), vec![AtomType::Fire, AtomType::Empty, AtomType::Fire]);
    assert_eq!(world.atoms[2].kinetics.lifetime, Some(10.0));
}

#[test]
fn level_validation_counts_filled_cells() {
    let mut world = World::new(20, 10);
    assert_eq!(count_atoms(&world), 0);
    for x in 0..20 {
        for y in 0..5 {
            put(&mut world, x, y, AtomType::Stone);
        }
    }
    assert_eq!(count_atoms(&world), 100);
    assert_eq!(validate_level(&world), LevelReport { atom_count: 100, too_empty: false });
    put(&mut world, 0, 0, AtomType::Empty);
    assert_eq!(validate_level(&world), LevelReport { atom_count: 99, too_empty: true });
}

#[test]
fn mouse_wheel_resizes_the_brush() {
    let mut editor = LevelEditor::default();
    editor.toggle();
    let up = EditorKeys { wheel_up: true, ..no_keys() };
    let down = EditorKeys { wheel_down: true, ..no_keys() };
    editor.apply_keys(up);
    assert_eq!(editor.brush_size, 4);
    editor.apply_keys(down);
    editor.apply_keys(down);
    assert_eq!(editor.brush_size, 2);
    editor.brush_size = 20;
    editor.apply_keys(up);
    assert_eq!(editor.brush_size, 20);
    editor.brush_size = 1;
    editor.apply_keys(down);
    assert_eq!(editor.brush_size, 1);
    // The keys act first, then the wheel.
    editor.brush_size = 19;
    editor.apply_keys(EditorKeys { grow: true, wheel_up: true, ..no_keys() });
    assert_eq!(editor.brush_size, 20);
    editor.apply_keys(EditorKeys { grow: true, wheel_down: true, ..no_keys() });
    assert_eq!(editor.brush_size, 19);
}

#[test]
fn painting_can_be_undone_and_redone() {
    let mut world = World::new(3, 2);
    put(&mut world, 0, 0, AtomType::Stone);
    put(&mut world, 2, 1, AtomType::Acid);
    let before = snapshot(&world);
    let mut history: EditorHistory<Motion> = EditorHistory::default();
    history.paint(&mut world, &vec![(0, 0), (1, 0), (7, 7)], AtomType::Fire);
    assert_eq!(kinds(&world), vec![AtomType::Fire, AtomType::Fire, E, E, E, A]);
    assert_eq!(world.get_atom(1, 0).unwrap().kinetics.lifetime, Some(10.0));
    assert_eq!(history.undo_stack.len(), 1);
    assert_eq!(history.undo_stack[0].len(), 3);
    let drawn = snapshot(&world);
    history.undo(&mut world);
    assert_eq!(snapshot(&world), before);
    history.redo(&mut world);
    assert_eq!(snapshot(&world), drawn);
}

#[test]
fn filling_can_be_undone() {
    let mut world = World::new(3, 2);
    put(&mut world, 1, 0, AtomType::Stone);
    put(&mut world, 1, 1, AtomType::Stone);
    let before = snapshot(&world);
    let mut history: EditorHistory<Motion> = EditorHistory::default();
    history.fill(&mut world, 0, 0, AtomType::Water);
    assert_eq!(kinds(&world), vec![W, ST, E, W, ST, E]);
    assert_eq!(history.undo_stack.len(), 1);
    assert_eq!(history.undo_stack[0].len(), 2);
    history.undo(&mut world);
    assert_eq!(snapshot(&world), before);
}

#[test]
fn filling_with_nothing_to_change_records_nothing() {
    let mut world = World::new(2, 2);
    let mut history: EditorHistory<Motion> = EditorHistory::default();
    history.fill(&mut world, 0, 0, AtomType::Empty);
    history.fill(&mut world, 9, 9, AtomType::Sand);
    assert!(history.undo_stack.is_empty());
}

#[test]
fn a_new_edit_clears_redo_and_history_is_capped() {
    let mut world = World::new(2, 1);
    let mut history: EditorHistory<Motion> = EditorHistory::default();
    history.max_history = 2;
    history.paint(&mut world, &vec![(0, 0)], AtomType::Sand);
    history.undo(&mut world);
    assert_eq!(history.redo_stack.len(), 1);
    history.paint(&mut world, &vec![(1, 0)], AtomType::Sand);
    assert!(history.redo_stack.is_empty());
    history.paint(&mut world, &vec![(0, 0)], AtomType::Water);
    history.paint(&mut world, &vec![(1, 0)], AtomType::Water);
    assert_eq!(history.undo_stack.len(), 2);
    history.undo(&mut world);
    history.undo(&mut world);
    assert_eq!(kinds(&world), vec![E, S]);
}

#[test]
fn painting_no_cells_records_nothing() {
    let mut world = World::new(2, 2);
    let mut history: EditorHistory<Motion> = EditorHistory::default();
    history.paint(&mut world, &vec![], AtomType::Sand);
    assert!(history.undo_stack.is_empty());
    assert_eq!(kinds(&world), vec![E, E, E, E]);
}
