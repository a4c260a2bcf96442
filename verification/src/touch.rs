use vstd::prelude::*;

verus! {

/// What an on-screen button does.
#[derive(Debug, Clone, Copy, PartialEq, Eq, Structural)]
pub enum ButtonAction {
    Jump,
    CastSpell,
    SwitchAtomType,
    ToggleEditor,
    Menu,
}

/// Which touch, if any, steers the on-screen joystick.
#[derive(Debug, Clone, Copy, PartialEq, Eq, Structural)]
pub struct VirtualJoystick {
    pub current_touch: Option<u64>,
}

/// The touch state of an on-screen button.
#[derive(Debug, Clone, Copy)]
pub struct VirtualButton {
    pub id: &'static str,
    pub pressed: bool,
    pub current_touch: Option<u64>,
    pub action: ButtonAction,
}

/// The touch state of the painting area.
#[derive(Debug, Clone, Copy, PartialEq, Eq, Structural)]
pub struct TouchBrushArea {
    pub current_touch: Option<u64>,
    pub active: bool,
}

/// Which touches own which on-screen controls.
pub struct TouchControls {
    pub enabled: bool,
    pub virtual_joystick: Option<VirtualJoystick>,
    pub action_buttons: Vec<VirtualButton>,
    pub brush_area: Option<TouchBrushArea>,
}

/// One touch seen this frame: whether it is held or has just begun, and
/// whether it lies on each button (in the order of the buttons) and in the
/// painting area.
pub struct TouchSample {
    pub id: u64,
    pub pressed: bool,
    pub just_pressed: bool,
    pub in_buttons: Vec<bool>,
    pub in_brush: bool,
}

/// Which side of its dead zone an axis points to.
#[derive(Debug, Clone, Copy, PartialEq, Eq, Structural)]
pub enum Tilt {
    Negative,
    Neutral,
    Positive,
}

/// A recognised gesture; a swipe keeps the side its horizontal direction
/// points to, past the swipe's dead zone.
#[derive(Debug, Clone, Copy, PartialEq, Eq, Structural)]
pub enum TouchGesture {
    Tap,
    DoubleTap,
    Swipe { tilt: Tilt },
    Pinch,
    LongPress,
}

/// Keys the touch controls stand in for.
#[derive(Debug, Clone, Copy, PartialEq, Eq, Structural)]
pub enum GameKey {
    A,
    D,
    W,
    S,
    Space,
    Digit1,
    Digit2,
    F1,
    Escape,
}

/// Mouse buttons the touch controls stand in for.
#[derive(Debug, Clone, Copy, PartialEq, Eq, Structural)]
pub enum MouseKey {
    Left,
    Right,
}

/// One step of the keyboard and mouse input the touch controls produce.
#[derive(Debug, Clone, Copy, PartialEq, Eq, Structural)]
pub enum InputAction {
    PressKey(GameKey),
    ReleaseKey(GameKey),
    PressMouse(MouseKey),
    ReleaseMouse(MouseKey),
    MoveCursorToBrush,
}

impl Default for TouchControls {
    fn default() -> (r: Self)
        ensures
            !r.enabled,
            r.virtual_joystick is None,
            r.action_buttons@.len() == 0,
            r.brush_area is None,
    {
        TouchControls { enabled: false, virtual_joystick: None, action_buttons: Vec::new(), brush_area: None }
    }
}

impl TouchControls {
    /// Switches the touch controls on or off.
    pub fn toggle(&mut self)
        ensures
            final(self).enabled == !old(self).enabled,
            final(self).virtual_joystick == old(self).virtual_joystick,
            final(self).action_buttons@ == old(self).action_buttons@,
            final(self).brush_area == old(self).brush_area,
    {
        self.enabled = !self.enabled;
    }
}

/// The three buttons the touch layout starts with.
pub open spec fn starting_buttons() -> Seq<VirtualButton> {
    seq![
        VirtualButton { id: "jump", pressed: false, current_touch: None, action: ButtonAction::Jump },
        VirtualButton { id: "spell", pressed: false, current_touch: None, action: ButtonAction::CastSpell },
        VirtualButton { id: "brush", pressed: false, current_touch: None, action: ButtonAction::SwitchAtomType },
    ]
}

/// Turns the touch controls on with a free joystick, the jump, spell and
/// brush buttons, and a free painting area.
pub fn setup_touch_controls(controls: &mut TouchControls)
    ensures
        final(controls).enabled,
        final(controls).virtual_joystick == Some(VirtualJoystick { current_touch: None }),
        final(controls).action_buttons@ == starting_buttons(),
        final(controls).brush_area == Some(TouchBrushArea { current_touch: None, active: false }),
{
    controls.enabled = true;
    controls.virtual_joystick = Some(VirtualJoystick { current_touch: None });
    let mut buttons: Vec<VirtualButton> = Vec::new();
    buttons.push(VirtualButton { id: "jump", pressed: false, current_touch: None, action: ButtonAction::Jump });
    buttons.push(VirtualButton { id: "spell", pressed: false, current_touch: None, action: ButtonAction::CastSpell });
    buttons.push(VirtualButton { id: "brush", pressed: false, current_touch: None, action: ButtonAction::SwitchAtomType });
    assert(buttons@ =~= starting_buttons());
    controls.action_buttons = buttons;
    controls.brush_area = Some(TouchBrushArea { current_touch: None, active: false });
}

/// A button after seeing touch t (`inside`: t lies on the button): the
/// touch that owns it keeps it pressed while held; a free button is taken by
/// a touch that begins on it.
pub open spec fn button_step(b: VirtualButton, t: TouchSample, inside: bool) -> VirtualButton {
    if b.current_touch == Some(t.id) {
        VirtualButton { pressed: t.pressed || t.just_pressed, ..b }
    } else if b.current_touch is None && t.just_pressed && inside {
        VirtualButton { current_touch: Some(t.id), pressed: true, ..b }
    } else {
        b
    }
}

/// Button j after seeing the first n touches, in order.
pub open spec fn button_after(b: VirtualButton, touches: Seq<TouchSample>, j: int, n: int) -> VirtualButton
    decreases n,
{
    if n <= 0 {
        b
    } else {
        button_step(button_after(b, touches, j, n - 1), touches[n - 1], touches[n - 1].in_buttons@[j])
    }
}

/// Touches never change a button's name or action, and never take a button
/// from the touch that owns it.
pub proof fn lemma_button_after_keeps(b: VirtualButton, touches: Seq<TouchSample>, j: int, n: int)
    ensures
        button_after(b, touches, j, n).id == b.id,
        button_after(b, touches, j, n).action == b.action,
        b.current_touch is Some ==> button_after(b, touches, j, n).current_touch == b.current_touch,
    decreases n,
{
    if n > 0 {
        lemma_button_after_keeps(b, touches, j, n - 1);
    }
}

/// Every touch lies on each button or not.
pub open spec fn samples_fit(touches: Seq<TouchSample>, buttons: int) -> bool {
    forall|i: int| 0 <= i < touches.len() ==> (#[trigger] touches[i]).in_buttons@.len() == buttons
}

/// Lets each touch, in order, press the buttons it owns or take the free
/// buttons it begins on.
pub fn update_virtual_buttons(buttons: &mut Vec<VirtualButton>, touches: &Vec<TouchSample>)
    requires
        samples_fit(touches@, old(buttons)@.len() as int),
    ensures
        final(buttons)@.len() == old(buttons)@.len(),
        forall|j: int|
            0 <= j < old(buttons)@.len() ==> #[trigger] final(buttons)@[j] == button_after(
                old(buttons)@[j],
                touches@,
                j,
                touches@.len() as int,
            ),
        forall|j: int|
            0 <= j < old(buttons)@.len() ==> (#[trigger] final(buttons)@[j]).id == old(buttons)@[j].id
                && final(buttons)@[j].action == old(buttons)@[j].action && (old(buttons)@[j].current_touch is Some
                ==> final(buttons)@[j].current_touch == old(buttons)@[j].current_touch),
{
    let ghost start = buttons@;
    let mut i: usize = 0;
    while i < touches.len()
        invariant
            0 <= i <= touches@.len(),
            samples_fit(touches@, start.len() as int),
            buttons@.len() == start.len(),
            forall|j: int| 0 <= j < start.len() ==> #[trigger] buttons@[j] == button_after(start[j], touches@, j, i as int),
        decreases touches@.len() - i,
    {
        let t = &touches[i];
        assert(t.in_buttons@.len() == start.len());
        let mut j: usize = 0;
        while j < buttons.len()
            invariant
                0 <= i < touches@.len(),
                *t == touches@[i as int],
                t.in_buttons@.len() == start.len(),
                0 <= j <= buttons@.len(),
                buttons@.len() == start.len(),
                forall|k: int| 0 <= k < j ==> #[trigger] buttons@[k] == button_after(start[k], touches@, k, i + 1),
                forall|k: int| j <= k < start.len() ==> #[trigger] buttons@[k] == button_after(start[k], touches@, k, i as int),
            decreases buttons@.len() - j,
        {
            let b = buttons[j];
            let inside = t.in_buttons[j];
            let nb = if b.current_touch == Some(t.id) {
                VirtualButton { pressed: t.pressed || t.just_pressed, ..b }
            } else if b.current_touch.is_none() && t.just_pressed && inside {
                VirtualButton { current_touch: Some(t.id), pressed: true, ..b }
            } else {
                b
            };
            assert(nb == button_step(b, *t, inside));
            buttons.set(j, nb);
            j = j + 1;
        }
        i = i + 1;
    }
    assert forall|j: int| 0 <= j < start.len() implies (#[trigger] buttons@[j]).id == start[j].id
        && buttons@[j].action == start[j].action && (start[j].current_touch is Some
        ==> buttons@[j].current_touch == start[j].current_touch) by {
        lemma_button_after_keeps(start[j], touches@, j, touches@.len() as int);
    }
}

/// The painting area after seeing touch t, and whether the brush takes t's
/// position: the owning touch keeps it active while held; a free area is
/// taken by a touch that begins in it.
pub open spec fn brush_step(a: TouchBrushArea, t: TouchSample) -> (TouchBrushArea, bool) {
    if a.current_touch == Some(t.id) {
        (TouchBrushArea { active: t.pressed || t.just_pressed, ..a }, true)
    } else if a.current_touch is None && t.just_pressed && t.in_brush {
        (TouchBrushArea { current_touch: Some(t.id), active: true }, true)
    } else {
        (a, false)
    }
}

/// The area after the first n touches, and the last of them whose position
/// the brush took (`follow` before any).
pub open spec fn brush_after(a: TouchBrushArea, follow: Option<u64>, touches: Seq<TouchSample>, n: int) -> (TouchBrushArea, Option<u64>)
    decreases n,
{
    if n <= 0 {
        (a, follow)
    } else {
        let (prev, f) = brush_after(a, follow, touches, n - 1);
        let (next, moved) = brush_step(prev, touches[n - 1]);
        (next, if moved { Some(touches[n - 1].id) } else { f })
    }
}

/// Lets the touches, in order, hold or take the painting area; returns the
/// touch whose position the brush now has, if it moved.
pub fn update_brush_area(controls: &mut TouchControls, touches: &Vec<TouchSample>) -> (follow: Option<u64>)
    ensures
        final(controls).enabled == old(controls).enabled,
        final(controls).virtual_joystick == old(controls).virtual_joystick,
        final(controls).action_buttons@ == old(controls).action_buttons@,
        match old(controls).brush_area {
            Some(a) => final(controls).brush_area == Some(brush_after(a, None, touches@, touches@.len() as int).0)
                && follow == brush_after(a, None, touches@, touches@.len() as int).1,
            None => final(controls).brush_area is None && follow is None,
        },
{
    match controls.brush_area {
        None => None,
        Some(start) => {
            let mut a = start;
            let mut follow: Option<u64> = None;
            let mut i: usize = 0;
            while i < touches.len()
                invariant
                    0 <= i <= touches@.len(),
                    (a, follow) == brush_after(start, None, touches@, i as int),
                decreases touches@.len() - i,
            {
                let t = &touches[i];
                if a.current_touch == Some(t.id) {
                    a = TouchBrushArea { active: t.pressed || t.just_pressed, ..a };
                    follow = Some(t.id);
                } else if a.current_touch.is_none() && t.just_pressed && t.in_brush {
                    a = TouchBrushArea { current_touch: Some(t.id), active: true };
                    follow = Some(t.id);
                }
                i = i + 1;
            }
            controls.brush_area = Some(a);
            follow
        },
    }
}

/// Touch `id` owns the painting area.
pub open spec fn owns_brush(area: Option<TouchBrushArea>, id: u64) -> bool {
    match area {
        Some(a) => a.current_touch == Some(id),
        None => false,
    }
}

/// Touch `id` owns the joystick.
pub open spec fn owns_joystick(stick: Option<VirtualJoystick>, id: u64) -> bool {
    match stick {
        Some(j) => j.current_touch == Some(id),
        None => false,
    }
}

/// A touch that begins on the joystick takes it when no other touch steers
/// it; returns whether it did.
pub fn bind_joystick(controls: &mut TouchControls, touch_id: u64, on_stick: bool) -> (bound: bool)
    ensures
        final(controls).enabled == old(controls).enabled,
        final(controls).action_buttons@ == old(controls).action_buttons@,
        final(controls).brush_area == old(controls).brush_area,
        bound == (on_stick && old(controls).virtual_joystick == Some(VirtualJoystick { current_touch: None })),
        final(controls).virtual_joystick == if bound {
            Some(VirtualJoystick { current_touch: Some(touch_id) })
        } else {
            old(controls).virtual_joystick
        },
{
    match controls.virtual_joystick {
        Some(j) => {
            if on_stick && j.current_touch.is_none() {
                controls.virtual_joystick = Some(VirtualJoystick { current_touch: Some(touch_id) });
                true
            } else {
                false
            }
        },
        None => false,
    }
}

/// A touch that moves inside the painting area it owns makes the brush
/// active there; returns whether the brush takes the touch's position.
pub fn move_brush(controls: &mut TouchControls, touch_id: u64, inside: bool) -> (moved: bool)
    ensures
        final(controls).enabled == old(controls).enabled,
        final(controls).virtual_joystick == old(controls).virtual_joystick,
        final(controls).action_buttons@ == old(controls).action_buttons@,
        moved == (inside && owns_brush(old(controls).brush_area, touch_id)),
        final(controls).brush_area == if moved {
            Some(TouchBrushArea { current_touch: Some(touch_id), active: true })
        } else {
            old(controls).brush_area
        },
{
    match controls.brush_area {
        Some(a) => {
            if inside && a.current_touch == Some(touch_id) {
                controls.brush_area = Some(TouchBrushArea { active: true, ..a });
                true
            } else {
                false
            }
        },
        None => false,
    }
}

/// Classifies a lifted touch: a quick touch that stayed put is a tap; one
/// that travelled far is a swipe; one held long is a long press.
pub fn classify_release(quick_and_still: bool, travelled_far: bool, held_long: bool, swipe_tilt: Tilt) -> (g: Option<TouchGesture>)
    ensures
        g == if quick_and_still {
            Some(TouchGesture::Tap)
        } else if travelled_far {
            Some(TouchGesture::Swipe { tilt: swipe_tilt })
        } else if held_long {
            Some(TouchGesture::LongPress)
        } else {
            None::<TouchGesture>
        },
{
    if quick_and_still {
        Some(TouchGesture::Tap)
    } else if travelled_far {
        Some(TouchGesture::Swipe { tilt: swipe_tilt })
    } else if held_long {
        Some(TouchGesture::LongPress)
    } else {
        None
    }
}

/// A button let go by touch `id`.
pub open spec fn released(b: VirtualButton, id: u64) -> VirtualButton {
    if b.current_touch == Some(id) {
        VirtualButton { current_touch: None, pressed: false, ..b }
    } else {
        b
    }
}

/// Frees every control the lifted touch `id` held; returns whether it held
/// the joystick (whose direction then returns to rest).
pub fn release_touch(controls: &mut TouchControls, id: u64) -> (joystick_released: bool)
    ensures
        final(controls).enabled == old(controls).enabled,
        joystick_released == owns_joystick(old(controls).virtual_joystick, id),
        final(controls).virtual_joystick == if joystick_released {
            Some(VirtualJoystick { current_touch: None })
        } else {
            old(controls).virtual_joystick
        },
        final(controls).action_buttons@.len() == old(controls).action_buttons@.len(),
        forall|j: int|
            0 <= j < old(controls).action_buttons@.len() ==> #[trigger] final(controls).action_buttons@[j] == released(
                old(controls).action_buttons@[j],
                id,
            ),
        !owns_joystick(final(controls).virtual_joystick, id),
        !owns_brush(final(controls).brush_area, id),
        forall|j: int|
            0 <= j < final(controls).action_buttons@.len() ==> (#[trigger] final(controls).action_buttons@[j]).current_touch
                != Some(id),
        final(controls).brush_area == match old(controls).brush_area {
            Some(a) => Some(
                if a.current_touch == Some(id) {
                    TouchBrushArea { current_touch: None, active: false }
                } else {
                    a
                },
            ),
            None => None,
        },
{
    let mut joystick_released = false;
    if let Some(j) = controls.virtual_joystick {
        if j.current_touch == Some(id) {
            controls.virtual_joystick = Some(VirtualJoystick { current_touch: None });
            joystick_released = true;
        }
    }
    let ghost start = controls.action_buttons@;
    let ghost enabled = controls.enabled;
    let ghost stick = controls.virtual_joystick;
    let ghost area = controls.brush_area;
    let mut k: usize = 0;
    while k < controls.action_buttons.len()
        invariant
            controls.enabled == enabled,
            controls.virtual_joystick == stick,
            controls.brush_area == area,
            0 <= k <= controls.action_buttons@.len(),
            controls.action_buttons@.len() == start.len(),
            forall|j: int| 0 <= j < k ==> #[trigger] controls.action_buttons@[j] == released(start[j], id),
            forall|j: int| k <= j < start.len() ==> #[trigger] controls.action_buttons@[j] == start[j],
        decreases start.len() - k,
    {
        let b = controls.action_buttons[k];
        if b.current_touch == Some(id) {
            controls.action_buttons.set(k, VirtualButton { current_touch: None, pressed: false, ..b });
        }
        k = k + 1;
    }
    if let Some(a) = controls.brush_area {
        if a.current_touch == Some(id) {
            controls.brush_area = Some(TouchBrushArea { current_touch: None, active: false });
        }
    }
    joystick_released
}

/// The joystick stands in for the movement keys: all four are let go, then
/// the keys of the sides it is tilted to are pressed.
pub open spec fn stick_actions(tilt: (Tilt, Tilt)) -> Seq<InputAction> {
    seq![
        InputAction::ReleaseKey(GameKey::A),
        InputAction::ReleaseKey(GameKey::D),
        InputAction::ReleaseKey(GameKey::W),
        InputAction::ReleaseKey(GameKey::S),
    ] + match tilt.0 {
        Tilt::Positive => seq![InputAction::PressKey(GameKey::D)],
        Tilt::Negative => seq![InputAction::PressKey(GameKey::A)],
        Tilt::Neutral => Seq::empty(),
    } + match tilt.1 {
        Tilt::Positive => seq![InputAction::PressKey(GameKey::W)],
        Tilt::Negative => seq![InputAction::PressKey(GameKey::S)],
        Tilt::Neutral => Seq::empty(),
    }
}

/// A pressed button presses the key (or mouse button) of its action.
pub open spec fn button_actions(b: VirtualButton) -> Seq<InputAction> {
    if b.pressed {
        seq![
            match b.action {
                ButtonAction::Jump => InputAction::PressKey(GameKey::Space),
                ButtonAction::CastSpell => InputAction::PressMouse(MouseKey::Right),
                ButtonAction::SwitchAtomType => InputAction::PressKey(GameKey::Digit1),
                ButtonAction::ToggleEditor => InputAction::PressKey(GameKey::F1),
                ButtonAction::Menu => InputAction::PressKey(GameKey::Escape),
            },
        ]
    } else {
        Seq::empty()
    }
}

/// The actions of the first n buttons, in order.
pub open spec fn buttons_actions(bs: Seq<VirtualButton>, n: int) -> Seq<InputAction>
    decreases n,
{
    if n <= 0 {
        Seq::empty()
    } else {
        buttons_actions(bs, n - 1) + button_actions(bs[n - 1])
    }
}

/// An active painting area moves the cursor to the brush and holds the left
/// mouse button; an idle one lets it go.
pub open spec fn brush_actions(area: Option<TouchBrushArea>) -> Seq<InputAction> {
    match area {
        Some(a) => if a.active {
            seq![InputAction::MoveCursorToBrush, InputAction::PressMouse(MouseKey::Left)]
        } else {
            seq![InputAction::ReleaseMouse(MouseKey::Left)]
        },
        None => Seq::empty(),
    }
}

/// A double tap toggles the editor, a swipe picks the next or previous atom
/// type, a long press opens the menu.
pub open spec fn gesture_actions(g: TouchGesture) -> Seq<InputAction> {
    match g {
        TouchGesture::DoubleTap => seq![InputAction::PressKey(GameKey::F1)],
        TouchGesture::Swipe { tilt: Tilt::Positive } => seq![InputAction::PressKey(GameKey::Digit2)],
        TouchGesture::Swipe { tilt: Tilt::Negative } => seq![InputAction::PressKey(GameKey::Digit1)],
        TouchGesture::LongPress => seq![InputAction::PressKey(GameKey::Escape)],
        _ => Seq::empty(),
    }
}

/// The actions of the first n gestures, in order.
pub open spec fn gestures_actions(gs: Seq<TouchGesture>, n: int) -> Seq<InputAction>
    decreases n,
{
    if n <= 0 {
        Seq::empty()
    } else {
        gestures_actions(gs, n - 1) + gesture_actions(gs[n - 1])
    }
}

/// Everything the touch controls stand in for, in order: the joystick, the
/// buttons, the painting area, then the gestures.
pub open spec fn touch_actions(c: TouchControls, tilt: (Tilt, Tilt), gs: Seq<TouchGesture>) -> Seq<InputAction> {
    (if c.virtual_joystick is Some {
        stick_actions(tilt)
    } else {
        Seq::empty()
    }) + buttons_actions(c.action_buttons@, c.action_buttons@.len() as int) + brush_actions(c.brush_area)
        + gestures_actions(gs, gs.len() as int)
}

/// The keys that move the player.
pub open spec fn is_movement_key(k: GameKey) -> bool {
    k == GameKey::A || k == GameKey::D || k == GameKey::W || k == GameKey::S
}

proof fn lemma_concat_contains(a: Seq<InputAction>, b: Seq<InputAction>, x: InputAction)
    ensures
        (a + b).contains(x) <==> a.contains(x) || b.contains(x),
{
    if (a + b).contains(x) {
        let j = choose|j: int| 0 <= j < (a + b).len() && (a + b)[j] == x;
        if j < a.len() {
            assert(a[j] == x);
        } else {
            assert(b[j - a.len()] == x);
        }
    }
    if a.contains(x) {
        let j = choose|j: int| 0 <= j < a.len() && a[j] == x;
        assert((a + b)[j] == x);
    }
    if b.contains(x) {
        let j = choose|j: int| 0 <= j < b.len() && b[j] == x;
        assert((a + b)[a.len() + j] == x);
    }
}

/// No button presses a movement key.
proof fn lemma_buttons_never_move(bs: Seq<VirtualButton>, n: int, k: GameKey)
    requires
        is_movement_key(k),
    ensures
        !buttons_actions(bs, n).contains(InputAction::PressKey(k)),
    decreases n,
{
    if n > 0 {
        lemma_buttons_never_move(bs, n - 1, k);
        lemma_concat_contains(buttons_actions(bs, n - 1), button_actions(bs[n - 1]), InputAction::PressKey(k));
        if button_actions(bs[n - 1]).contains(InputAction::PressKey(k)) {
            assert(button_actions(bs[n - 1])[0] == InputAction::PressKey(k));
        }
    }
}

/// No gesture presses a movement key.
proof fn lemma_gestures_never_move(gs: Seq<TouchGesture>, n: int, k: GameKey)
    requires
        is_movement_key(k),
    ensures
        !gestures_actions(gs, n).contains(InputAction::PressKey(k)),
    decreases n,
{
    if n > 0 {
        lemma_gestures_never_move(gs, n - 1, k);
        lemma_concat_contains(gestures_actions(gs, n - 1), gesture_actions(gs[n - 1]), InputAction::PressKey(k));
        if gesture_actions(gs[n - 1]).contains(InputAction::PressKey(k)) {
            assert(gesture_actions(gs[n - 1])[0] == InputAction::PressKey(k));
        }
    }
}

/// Only the joystick moves the player, and each way it is tilted presses
/// the key for that way alone: tilted to negative x it presses A and never
/// D, to positive x D and never A; to positive y W and never S, to negative
/// y S and never W; upright on an axis it presses neither key of that axis.
pub proof fn lemma_stick_moves_the_player(c: TouchControls, tilt: (Tilt, Tilt), gs: Seq<TouchGesture>)
    ensures
        touch_actions(c, tilt, gs).contains(InputAction::PressKey(GameKey::A)) <==> (c.virtual_joystick is Some
            && tilt.0 == Tilt::Negative),
        touch_actions(c, tilt, gs).contains(InputAction::PressKey(GameKey::D)) <==> (c.virtual_joystick is Some
            && tilt.0 == Tilt::Positive),
        touch_actions(c, tilt, gs).contains(InputAction::PressKey(GameKey::W)) <==> (c.virtual_joystick is Some
            && tilt.1 == Tilt::Positive),
        touch_actions(c, tilt, gs).contains(InputAction::PressKey(GameKey::S)) <==> (c.virtual_joystick is Some
            && tilt.1 == Tilt::Negative),
{
    let stick = if c.virtual_joystick is Some {
        stick_actions(tilt)
    } else {
        Seq::empty()
    };
    let st = stick_actions(tilt);
    let bs = buttons_actions(c.action_buttons@, c.action_buttons@.len() as int);
    let br = brush_actions(c.brush_area);
    let ga = gestures_actions(gs, gs.len() as int);
    assert forall|k: GameKey| is_movement_key(k) implies (touch_actions(c, tilt, gs).contains(
        InputAction::PressKey(k),
    ) <==> (c.virtual_joystick is Some && st.contains(InputAction::PressKey(k)))) by {
        let x = InputAction::PressKey(k);
        lemma_buttons_never_move(c.action_buttons@, c.action_buttons@.len() as int, k);
        lemma_gestures_never_move(gs, gs.len() as int, k);
        lemma_concat_contains(stick + bs + br, ga, x);
        lemma_concat_contains(stick + bs, br, x);
        lemma_concat_contains(stick, bs, x);
        if br.contains(x) {
            let j = choose|j: int| 0 <= j < br.len() && br[j] == x;
        }
        if stick.len() == 0 && stick.contains(x) {
            let j = choose|j: int| 0 <= j < stick.len() && stick[j] == x;
        }
    }
    let lets_go: Seq<InputAction> = seq![
        InputAction::ReleaseKey(GameKey::A),
        InputAction::ReleaseKey(GameKey::D),
        InputAction::ReleaseKey(GameKey::W),
        InputAction::ReleaseKey(GameKey::S),
    ];
    let sideways: Seq<InputAction> = if tilt.0 == Tilt::Negative {
        seq![InputAction::PressKey(GameKey::A)]
    } else if tilt.0 == Tilt::Positive {
        seq![InputAction::PressKey(GameKey::D)]
    } else {
        Seq::empty()
    };
    let upways: Seq<InputAction> = if tilt.1 == Tilt::Negative {
        seq![InputAction::PressKey(GameKey::S)]
    } else if tilt.1 == Tilt::Positive {
        seq![InputAction::PressKey(GameKey::W)]
    } else {
        Seq::empty()
    };
    assert(st == lets_go + sideways + upways);
    assert forall|k: GameKey| is_movement_key(k) implies (st.contains(InputAction::PressKey(k)) <==> (
    (k == GameKey::A && tilt.0 == Tilt::Negative) || (k == GameKey::D && tilt.0 == Tilt::Positive) || (k
        == GameKey::W && tilt.1 == Tilt::Positive) || (k == GameKey::S && tilt.1 == Tilt::Negative))) by {
        let x = InputAction::PressKey(k);
        lemma_concat_contains(lets_go + sideways, upways, x);
        lemma_concat_contains(lets_go, sideways, x);
        assert(lets_go.len() == 4);
        assert(!lets_go.contains(x)) by {
            if lets_go.contains(x) {
                let j = choose|j: int| 0 <= j < lets_go.len() && lets_go[j] == x;
                assert(lets_go[j] is ReleaseKey);
            }
        }
        if sideways.contains(x) {
            let j = choose|j: int| 0 <= j < sideways.len() && sideways[j] == x;
            assert(sideways.len() == 1 && j == 0);
        }
        if upways.contains(x) {
            let j = choose|j: int| 0 <= j < upways.len() && upways[j] == x;
            assert(upways.len() == 1 && j == 0);
        }
        if (k == GameKey::A && tilt.0 == Tilt::Negative) || (k == GameKey::D && tilt.0 == Tilt::Positive) {
            assert(sideways[0] == x);
        }
        if (k == GameKey::W && tilt.1 == Tilt::Positive) || (k == GameKey::S && tilt.1 == Tilt::Negative) {
            assert(upways[0] == x);
        }
    }
    assert(is_movement_key(GameKey::A) && is_movement_key(GameKey::D) && is_movement_key(GameKey::W)
        && is_movement_key(GameKey::S));
}

/// Turns the state of the touch controls (the joystick tilted as
/// `stick_tilt`) and the gestures recognised since the last frame into key
/// and mouse input; nothing while the controls are off, in which case the
/// gestures stay pending.
pub fn touch_to_game_input(controls: &TouchControls, stick_tilt: (Tilt, Tilt), gestures: &Vec<TouchGesture>) -> (r: Option<
    Vec<InputAction>,
>)
    ensures
        r is None <==> !controls.enabled,
        r matches Some(v) ==> v@ == touch_actions(*controls, stick_tilt, gestures@),
        r matches Some(v) ==> (v@.contains(InputAction::PressKey(GameKey::A)) <==> (controls.virtual_joystick is Some
            && stick_tilt.0 == Tilt::Negative)),
        r matches Some(v) ==> (v@.contains(InputAction::PressKey(GameKey::D)) <==> (controls.virtual_joystick is Some
            && stick_tilt.0 == Tilt::Positive)),
        r matches Some(v) ==> (v@.contains(InputAction::PressKey(GameKey::W)) <==> (controls.virtual_joystick is Some
            && stick_tilt.1 == Tilt::Positive)),
        r matches Some(v) ==> (v@.contains(InputAction::PressKey(GameKey::S)) <==> (controls.virtual_joystick is Some
            && stick_tilt.1 == Tilt::Negative)),
{
    proof {
        lemma_stick_moves_the_player(*controls, stick_tilt, gestures@);
    }
    if !controls.enabled {
        return None;
    }
    let mut actions: Vec<InputAction> = Vec::new();
    if controls.virtual_joystick.is_some() {
        actions.push(InputAction::ReleaseKey(GameKey::A));
        actions.push(InputAction::ReleaseKey(GameKey::D));
        actions.push(InputAction::ReleaseKey(GameKey::W));
        actions.push(InputAction::ReleaseKey(GameKey::S));
        match stick_tilt.0 {
            Tilt::Positive => actions.push(InputAction::PressKey(GameKey::D)),
            Tilt::Negative => actions.push(InputAction::PressKey(GameKey::A)),
            Tilt::Neutral => {},
        }
        match stick_tilt.1 {
            Tilt::Positive => actions.push(InputAction::PressKey(GameKey::W)),
            Tilt::Negative => actions.push(InputAction::PressKey(GameKey::S)),
            Tilt::Neutral => {},
        }
        assert(actions@ =~= stick_actions(stick_tilt));
    }
    let ghost head = actions@;
    let mut i: usize = 0;
    while i < controls.action_buttons.len()
        invariant
            0 <= i <= controls.action_buttons@.len(),
            actions@ == head + buttons_actions(controls.action_buttons@, i as int),
        decreases controls.action_buttons@.len() - i,
    {
        let b = controls.action_buttons[i];
        let ghost before = actions@;
        if b.pressed {
            let a = match b.action {
                ButtonAction::Jump => InputAction::PressKey(GameKey::Space),
                ButtonAction::CastSpell => InputAction::PressMouse(MouseKey::Right),
                ButtonAction::SwitchAtomType => InputAction::PressKey(GameKey::Digit1),
                ButtonAction::ToggleEditor => InputAction::PressKey(GameKey::F1),
                ButtonAction::Menu => InputAction::PressKey(GameKey::Escape),
            };
            actions.push(a);
        }
        assert(actions@ =~= before + button_actions(controls.action_buttons@[i as int]));
        assert(actions@ =~= head + buttons_actions(controls.action_buttons@, i + 1));
        i = i + 1;
    }
    let ghost mid = actions@;
    match controls.brush_area {
        Some(a) => {
            if a.active {
                actions.push(InputAction::MoveCursorToBrush);
                actions.push(InputAction::PressMouse(MouseKey::Left));
            } else {
                actions.push(InputAction::ReleaseMouse(MouseKey::Left));
            }
        },
        None => {},
    }
    assert(actions@ =~= mid + brush_actions(controls.brush_area));
    let ghost tail = actions@;
    let mut k: usize = 0;
    while k < gestures.len()
        invariant
            0 <= k <= gestures@.len(),
            actions@ == tail + gestures_actions(gestures@, k as int),
        decreases gestures@.len() - k,
    {
        let ghost before = actions@;
        match gestures[k] {
            TouchGesture::DoubleTap => actions.push(InputAction::PressKey(GameKey::F1)),
            TouchGesture::Swipe { tilt: Tilt::Positive } => actions.push(InputAction::PressKey(GameKey::Digit2)),
            TouchGesture::Swipe { tilt: Tilt::Negative } => actions.push(InputAction::PressKey(GameKey::Digit1)),
            TouchGesture::LongPress => actions.push(InputAction::PressKey(GameKey::Escape)),
            _ => {},
        }
        assert(actions@ =~= before + gesture_actions(gestures@[k as int]));
        assert(actions@ =~= tail + gestures_actions(gestures@, k + 1));
        k = k + 1;
    }
    Some(actions)
}

} // verus!
