//! Key bindings and mouse look, and the file that holds them.
//!
//! Physical keys are bound to abstract actions, so that gameplay never names a
//! key. The menu's own keys cannot be bound, so no file can lock a player out
//! of the menu.
use vstd::prelude::*;
use vstd::string::*;

use crate::config;
use crate::float::F32;
use crate::keys;
use crate::keys::KeyCode;
use crate::text;

verus! {

/// The controls file, relative to the working directory.
pub const CONTROLS_PATH: &'static str = "config/controls.toml";

/// The highest sensitivity, 20, by its bits.
pub const MAX_SENSITIVITY_BITS: u32 = 0x41a0_0000;

/// The default sensitivity, 1, by its bits.
pub const DEFAULT_SENSITIVITY_BITS: u32 = 0x3f80_0000;

/// How many actions there are.
pub const ACTIONS: usize = 11;

/// Something a key can be bound to.
#[derive(Clone, Copy, PartialEq, Eq, Hash, Debug, Structural)]
pub enum Action {
    Forward,
    Back,
    Left,
    Right,
    /// Jump on the press; also fly up while held in noclip.
    Jump,
    /// Fly down in noclip.
    Down,
    Noclip,
    ExposureDown,
    ExposureUp,
    CycleShadows,
    ToggleFxaa,
}

impl Action {
    /// The place of an action in the file.
    pub open spec fn index(self) -> int {
        match self {
            Action::Forward => 0,
            Action::Back => 1,
            Action::Left => 2,
            Action::Right => 3,
            Action::Jump => 4,
            Action::Down => 5,
            Action::Noclip => 6,
            Action::ExposureDown => 7,
            Action::ExposureUp => 8,
            Action::CycleShadows => 9,
            Action::ToggleFxaa => 10,
        }
    }

    /// The action at a place in the file.
    pub open spec fn nth(i: int) -> Action {
        if i == 0 {
            Action::Forward
        } else if i == 1 {
            Action::Back
        } else if i == 2 {
            Action::Left
        } else if i == 3 {
            Action::Right
        } else if i == 4 {
            Action::Jump
        } else if i == 5 {
            Action::Down
        } else if i == 6 {
            Action::Noclip
        } else if i == 7 {
            Action::ExposureDown
        } else if i == 8 {
            Action::ExposureUp
        } else if i == 9 {
            Action::CycleShadows
        } else {
            Action::ToggleFxaa
        }
    }

    pub fn place(self) -> (i: usize)
        ensures
            i == self.index(),
            i < ACTIONS,
    {
        match self {
            Action::Forward => 0,
            Action::Back => 1,
            Action::Left => 2,
            Action::Right => 3,
            Action::Jump => 4,
            Action::Down => 5,
            Action::Noclip => 6,
            Action::ExposureDown => 7,
            Action::ExposureUp => 8,
            Action::CycleShadows => 9,
            Action::ToggleFxaa => 10,
        }
    }

    /// The action at a place in the file.
    pub fn at(i: usize) -> (a: Action)
        requires
            i < ACTIONS,
        ensures
            a == Action::nth(i as int),
            a.index() == i,
    {
        match i {
            0 => Action::Forward,
            1 => Action::Back,
            2 => Action::Left,
            3 => Action::Right,
            4 => Action::Jump,
            5 => Action::Down,
            6 => Action::Noclip,
            7 => Action::ExposureDown,
            8 => Action::ExposureUp,
            9 => Action::CycleShadows,
            _ => Action::ToggleFxaa,
        }
    }

    pub open spec fn name_text(self) -> Seq<char> {
        match self {
            Action::Forward => "forward"@,
            Action::Back => "back"@,
            Action::Left => "left"@,
            Action::Right => "right"@,
            Action::Jump => "jump"@,
            Action::Down => "down"@,
            Action::Noclip => "noclip"@,
            Action::ExposureDown => "exposure_down"@,
            Action::ExposureUp => "exposure_up"@,
            Action::CycleShadows => "cycle_shadows"@,
            Action::ToggleFxaa => "toggle_fxaa"@,
        }
    }

    /// The name in the file.
    pub fn name(self) -> (r: &'static str)
        ensures
            r@ == self.name_text(),
    {
        match self {
            Action::Forward => "forward",
            Action::Back => "back",
            Action::Left => "left",
            Action::Right => "right",
            Action::Jump => "jump",
            Action::Down => "down",
            Action::Noclip => "noclip",
            Action::ExposureDown => "exposure_down",
            Action::ExposureUp => "exposure_up",
            Action::CycleShadows => "cycle_shadows",
            Action::ToggleFxaa => "toggle_fxaa",
        }
    }

    pub open spec fn usual_key(self) -> KeyCode {
        match self {
            Action::Forward => KeyCode::KeyW,
            Action::Back => KeyCode::KeyS,
            Action::Left => KeyCode::KeyA,
            Action::Right => KeyCode::KeyD,
            Action::Jump => KeyCode::Space,
            Action::Down => KeyCode::ControlLeft,
            Action::Noclip => KeyCode::KeyV,
            Action::ExposureDown => KeyCode::BracketLeft,
            Action::ExposureUp => KeyCode::BracketRight,
            Action::CycleShadows => KeyCode::F1,
            Action::ToggleFxaa => KeyCode::F2,
        }
    }

    pub fn default_key(self) -> (r: KeyCode)
        ensures
            r == self.usual_key(),
    {
        match self {
            Action::Forward => KeyCode::KeyW,
            Action::Back => KeyCode::KeyS,
            Action::Left => KeyCode::KeyA,
            Action::Right => KeyCode::KeyD,
            Action::Jump => KeyCode::Space,
            Action::Down => KeyCode::ControlLeft,
            Action::Noclip => KeyCode::KeyV,
            Action::ExposureDown => KeyCode::BracketLeft,
            Action::ExposureUp => KeyCode::BracketRight,
            Action::CycleShadows => KeyCode::F1,
            Action::ToggleFxaa => KeyCode::F2,
        }
    }

    pub open spec fn description(self) -> Seq<char> {
        match self {
            Action::Forward => "move forward"@,
            Action::Back => "move back"@,
            Action::Left => "strafe left"@,
            Action::Right => "strafe right"@,
            Action::Jump => "jump; fly up in noclip"@,
            Action::Down => "fly down in noclip"@,
            Action::Noclip => "noclip (free flight) on/off"@,
            Action::ExposureDown => "exposure down (repeats while held)"@,
            Action::ExposureUp => "exposure up (repeats while held)"@,
            Action::CycleShadows => "cycle shadow quality"@,
            Action::ToggleFxaa => "FXAA on/off"@,
        }
    }

    /// What the default file says about it.
    pub fn describe(self) -> (r: &'static str)
        ensures
            r@ == self.description(),
    {
        match self {
            Action::Forward => "move forward",
            Action::Back => "move back",
            Action::Left => "strafe left",
            Action::Right => "strafe right",
            Action::Jump => "jump; fly up in noclip",
            Action::Down => "fly down in noclip",
            Action::Noclip => "noclip (free flight) on/off",
            Action::ExposureDown => "exposure down (repeats while held)",
            Action::ExposureUp => "exposure up (repeats while held)",
            Action::CycleShadows => "cycle shadow quality",
            Action::ToggleFxaa => "FXAA on/off",
        }
    }

    pub open spec fn fires_on_repeat(self) -> bool {
        self == Action::ExposureDown || self == Action::ExposureUp
    }

    /// Fires again on key auto-repeat. Everything else fires once, when the
    /// action becomes active.
    pub fn repeats(self) -> (r: bool)
        ensures
            r == self.fires_on_repeat(),
    {
        self == Action::ExposureDown || self == Action::ExposureUp
    }
}

/// Actions and their places correspond.
pub proof fn law_actions_and_places(a: Action, i: int)
    ensures
        0 <= a.index() < ACTIONS,
        Action::nth(a.index()) == a,
        0 <= i < ACTIONS ==> Action::nth(i).index() == i,
{
}

/// The keys that are down.
pub struct Held {
    keys: Vec<KeyCode>,
}

impl View for Held {
    type V = Set<KeyCode>;

    closed spec fn view(&self) -> Set<KeyCode> {
        self.keys@.to_set()
    }
}

/// Whether a key stands in a list.
pub fn lists(keys: &Vec<KeyCode>, k: KeyCode) -> (r: bool)
    ensures
        r == keys@.contains(k),
{
    let mut i: usize = 0;
    while i < keys.len()
        invariant
            i <= keys.len(),
            forall|j: int| 0 <= j < i ==> keys@[j] != k,
        decreases keys.len() - i,
    {
        if keys[i] == k {
            return true;
        }
        i += 1;
    }
    false
}

proof fn lemma_contains_after_push(s: Seq<KeyCode>, x: KeyCode)
    ensures
        forall|y: KeyCode| #[trigger] s.push(x).contains(y) <==> s.contains(y) || y == x,
{
    assert forall|y: KeyCode| #[trigger] s.push(x).contains(y) <==> s.contains(y) || y == x by {
        if s.contains(y) {
            let i = choose|i: int| 0 <= i < s.len() && s[i] == y;
            assert(s.push(x)[i] == y);
        }
        assert(s.push(x)[s.len() as int] == x);
    }
}

impl Held {
    /// No key is down.
    pub fn new() -> (r: Held)
        ensures
            r@ == Set::<KeyCode>::empty(),
    {
        let r: Held = Held { keys: Vec::new() };
        assert(r@ =~= Set::empty());
        r
    }

    pub fn contains(&self, k: KeyCode) -> (r: bool)
        ensures
            r == self@.contains(k),
    {
        lists(&self.keys, k)
    }

    pub fn insert(&mut self, k: KeyCode)
        ensures
            final(self)@ == old(self)@.insert(k),
    {
        self.keys.push(k);
        proof {
            lemma_contains_after_push(old(self).keys@, k);
            assert(self@ =~= old(self)@.insert(k));
        }
    }

    pub fn remove(&mut self, k: KeyCode)
        ensures
            final(self)@ == old(self)@.remove(k),
    {
        let mut left: Vec<KeyCode> = Vec::new();
        let mut i: usize = 0;
        while i < self.keys.len()
            invariant
                i <= self.keys.len(),
                self.keys@ == old(self).keys@,
                forall|x: KeyCode| #[trigger]
                    left@.contains(x) <==> x != k && self.keys@.take(i as int).contains(x),
            decreases self.keys.len() - i,
        {
            let x: KeyCode = self.keys[i];
            proof {
                lemma_contains_after_push(self.keys@.take(i as int), x);
                lemma_contains_after_push(left@, x);
                assert(self.keys@.take(i + 1) =~= self.keys@.take(i as int).push(x));
            }
            if x != k {
                left.push(x);
            }
            i += 1;
        }
        assert(self.keys@.take(i as int) =~= self.keys@);
        self.keys = left;
        assert(self@ =~= old(self)@.remove(k));
    }

    /// The same keys once more.
    pub fn copy(&self) -> (r: Held)
        ensures
            r@ == self@,
    {
        Held { keys: vstd::slice::slice_to_vec(self.keys.as_slice()) }
    }

    /// Lets go of every key.
    pub fn clear(&mut self)
        ensures
            final(self)@ == Set::<KeyCode>::empty(),
    {
        self.keys = Vec::new();
        assert(self@ =~= Set::empty());
    }
}

/// Bindings and mouse look.
pub struct Controls {
    /// The keys of each action, in file order.
    pub keys: Vec<Vec<KeyCode>>,
    /// Multiplies the look speed.
    pub sensitivity: F32,
    pub invert_y: bool,
}

/// What controls hold: the keys of each action, and the rest.
#[verifier::ext_equal]
pub struct ControlsModel {
    pub keys: Seq<Seq<KeyCode>>,
    pub sensitivity: F32,
    pub invert_y: bool,
}

impl ControlsModel {
    pub open spec fn bound(self, a: Action) -> Seq<KeyCode> {
        self.keys[a.index()]
    }

    /// Every action has its list of keys.
    pub open spec fn complete(self) -> bool {
        self.keys.len() == ACTIONS
    }

    /// Some key of the action is down.
    pub open spec fn active(self, held: Set<KeyCode>, a: Action) -> bool {
        exists|i: int| 0 <= i < self.bound(a).len() && held.contains(#[trigger] self.bound(a)[i])
    }

    /// A key event fires an action when the action becomes active by it, and a
    /// repeating action also when the key repeats.
    pub open spec fn fires(
        self,
        held: Set<KeyCode>,
        code: KeyCode,
        pressed: bool,
        repeat: bool,
        a: Action,
    ) -> bool {
        &&& self.bound(a).contains(code)
        &&& pressed
        &&& !self.active(held, a) || (repeat && a.fires_on_repeat())
    }

    /// The actions among the first `n` that a key event fires.
    pub open spec fn fired(
        self,
        held: Set<KeyCode>,
        code: KeyCode,
        pressed: bool,
        repeat: bool,
        n: int,
    ) -> Seq<Action>
        decreases n,
    {
        if n <= 0 {
            Seq::empty()
        } else {
            let before = self.fired(held, code, pressed, repeat, n - 1);
            if self.fires(held, code, pressed, repeat, Action::nth(n - 1)) {
                before.push(Action::nth(n - 1))
            } else {
                before
            }
        }
    }
}

impl View for Controls {
    type V = ControlsModel;

    open spec fn view(&self) -> ControlsModel {
        ControlsModel {
            keys: Seq::new(self.keys@.len(), |i: int| self.keys@[i]@),
            sensitivity: self.sensitivity,
            invert_y: self.invert_y,
        }
    }
}

/// The controls of a player who changed nothing.
pub open spec fn default_controls() -> ControlsModel {
    ControlsModel {
        keys: Seq::new(ACTIONS as nat, |i: int| seq![Action::nth(i).usual_key()]),
        sensitivity: F32 { bits: DEFAULT_SENSITIVITY_BITS },
        invert_y: false,
    }
}

impl Default for Controls {
    fn default() -> (r: Self)
        ensures
            r@ == default_controls(),
    {
        let mut lists: Vec<Vec<KeyCode>> = Vec::new();
        let mut i: usize = 0;
        while i < ACTIONS
            invariant
                i <= ACTIONS,
                lists@.len() == i,
                forall|j: int| 0 <= j < i ==> #[trigger] lists@[j]@ == seq![Action::nth(j).usual_key()],
            decreases ACTIONS - i,
        {
            let mut one: Vec<KeyCode> = Vec::new();
            one.push(Action::at(i).default_key());
            assert(one@ =~= seq![Action::nth(i as int).usual_key()]);
            lists.push(one);
            i += 1;
        }
        let r: Controls = Controls {
            keys: lists,
            sensitivity: F32 { bits: DEFAULT_SENSITIVITY_BITS },
            invert_y: false,
        };
        assert(r@ =~= default_controls());
        r
    }
}

impl Controls {
    /// The keys bound to an action.
    pub fn keys(&self, a: Action) -> (r: &Vec<KeyCode>)
        requires
            self@.complete(),
        ensures
            r@ == self@.bound(a),
    {
        let i: usize = a.place();
        assert(self@.keys[i as int] == self.keys@[i as int]@);
        &self.keys[i]
    }

    /// Whether any key bound to `a` is down.
    pub fn held(&self, held: &Held, a: Action) -> (r: bool)
        requires
            self@.complete(),
        ensures
            r == self@.active(held@, a),
    {
        let keys: &Vec<KeyCode> = self.keys(a);
        let mut i: usize = 0;
        while i < keys.len()
            invariant
                i <= keys.len(),
                keys@ == self@.bound(a),
                forall|j: int| 0 <= j < i ==> !held@.contains(#[trigger] keys@[j]),
            decreases keys.len() - i,
        {
            if held.contains(keys[i]) {
                assert(held@.contains(self@.bound(a)[i as int]));
                return true;
            }
            i += 1;
        }
        false
    }

    /// Records one key event and returns the actions it fires: an action fires
    /// when it becomes active, which is when the first of its keys goes down,
    /// and repeating actions also fire on auto-repeat.
    pub fn key(&self, held: &mut Held, code: KeyCode, pressed: bool, repeat: bool) -> (r: Vec<
        Action,
    >)
        requires
            self@.complete(),
        ensures
            final(held)@ == if pressed {
                old(held)@.insert(code)
            } else {
                old(held)@.remove(code)
            },
            r@ == self@.fired(old(held)@, code, pressed, repeat, ACTIONS as int),
    {
        let mut fired: Vec<Action> = Vec::new();
        let mut i: usize = 0;
        while i < ACTIONS
            invariant
                i <= ACTIONS,
                self@.complete(),
                held@ == old(held)@,
                fired@ == self@.fired(old(held)@, code, pressed, repeat, i as int),
            decreases ACTIONS - i,
        {
            let a: Action = Action::at(i);
            if lists(self.keys(a), code) && pressed && (!self.held(held, a) || (repeat
                && a.repeats())) {
                fired.push(a);
            }
            i += 1;
        }
        if pressed {
            held.insert(code);
        } else {
            held.remove(code);
        }
        fired
    }
}

/// An action that is active is not fired by another press, unless it repeats
/// and the key does.
pub proof fn law_actions_fire_once(
    c: ControlsModel,
    held: Set<KeyCode>,
    code: KeyCode,
    pressed: bool,
    repeat: bool,
    a: Action,
)
    requires
        c.active(held, a),
        !(repeat && a.fires_on_repeat()),
    ensures
        !c.fires(held, code, pressed, repeat, a),
{
}

/// A press of a bound key makes its action active, and fires it if it was not.
pub proof fn law_presses_activate(
    c: ControlsModel,
    held: Set<KeyCode>,
    code: KeyCode,
    repeat: bool,
    a: Action,
)
    requires
        c.bound(a).contains(code),
    ensures
        c.active(held.insert(code), a),
        !c.active(held, a) ==> c.fires(held, code, true, repeat, a),
{
    let i = choose|i: int| 0 <= i < c.bound(a).len() && c.bound(a)[i] == code;
    assert(held.insert(code).contains(c.bound(a)[i]));
}

/// A release fires nothing, and an action stays active while another of its
/// keys is down.
pub proof fn law_releases_fire_nothing(
    c: ControlsModel,
    held: Set<KeyCode>,
    code: KeyCode,
    other: KeyCode,
    repeat: bool,
    a: Action,
)
    ensures
        !c.fires(held, code, false, repeat, a),
        other != code && held.contains(other) && c.bound(a).contains(other) ==> c.active(
            held.remove(code),
            a,
        ),
{
    if other != code && held.contains(other) && c.bound(a).contains(other) {
        let i = choose|i: int| 0 <= i < c.bound(a).len() && c.bound(a)[i] == other;
        assert(held.remove(code).contains(c.bound(a)[i]));
    }
}

/// Which actions are among those that an event fires.
pub proof fn law_fired_actions(
    c: ControlsModel,
    held: Set<KeyCode>,
    code: KeyCode,
    pressed: bool,
    repeat: bool,
    n: int,
    a: Action,
)
    requires
        0 <= n <= ACTIONS,
    ensures
        c.fired(held, code, pressed, repeat, n).contains(a) <==> a.index() < n && c.fires(
            held,
            code,
            pressed,
            repeat,
            a,
        ),
    decreases n,
{
    let all = c.fired(held, code, pressed, repeat, n);
    if n > 0 {
        let before = c.fired(held, code, pressed, repeat, n - 1);
        law_fired_actions(c, held, code, pressed, repeat, n - 1, a);
        let last = Action::nth(n - 1);
        law_actions_and_places(a, n - 1);
        if all != before {
            assert(all[before.len() as int] == last);
            if before.contains(a) {
                let i = choose|i: int| 0 <= i < before.len() && before[i] == a;
                assert(all[i] == a);
            }
            if all.contains(a) && a != last {
                let i = choose|i: int| 0 <= i < all.len() && all[i] == a;
                assert(before[i] == a);
            }
        }
    }
}

/// The keys that some names call, each once, or the complaint about the first
/// name that calls none or calls one of the menu's.
pub open spec fn keys_of(names: Seq<Seq<char>>) -> Result<Seq<KeyCode>, Seq<char>>
    decreases names.len(),
{
    if names.len() == 0 {
        Ok(Seq::empty())
    } else {
        match keys_of(names.drop_last()) {
            Err(m) => Err(m),
            Ok(before) => match keys::key_called(names.last()) {
                None => Err("unknown key name \""@ + names.last() + "\""@),
                Some(k) => if k.reserved() {
                    Err("\""@ + names.last() + "\" is reserved for the menu"@)
                } else if before.contains(k) {
                    Ok(before)
                } else {
                    Ok(before.push(k))
                },
            },
        }
    }
}

/// The action with a name.
pub open spec fn action_called(name: Seq<char>, n: int) -> Option<Action>
    decreases n,
{
    if n <= 0 {
        None
    } else {
        match action_called(name, n - 1) {
            Some(a) => Some(a),
            None => if Action::nth(n - 1).name_text() == name {
                Some(Action::nth(n - 1))
            } else {
                None
            },
        }
    }
}

/// A look speed that is accepted: above 0 and at most the highest.
pub open spec fn speed_ok(s: F32) -> bool {
    (F32 { bits: 0 }).below(s) && !(F32 { bits: MAX_SENSITIVITY_BITS }).below(s)
}

/// What an entry does to the controls, and the complaint about it if it does
/// nothing. `number` is the number that its value reads as, if any.
pub open spec fn entry_effect(
    e: config::EntryModel,
    number: Option<F32>,
    c: ControlsModel,
) -> (ControlsModel, Option<Seq<char>>) {
    if e.key == "sensitivity"@ {
        if number is Some && speed_ok(number->0) {
            (ControlsModel { sensitivity: number->0, ..c }, None)
        } else {
            (c, Some("sensitivity must be a number above 0 and at most 20, got "@ + e.value))
        }
    } else if e.key == "invert_y"@ {
        if e.value == "true"@ {
            (ControlsModel { invert_y: true, ..c }, None)
        } else if e.value == "false"@ {
            (ControlsModel { invert_y: false, ..c }, None)
        } else {
            (c, Some("invert_y must be true or false, got "@ + e.value))
        }
    } else {
        match action_called(e.key, ACTIONS as int) {
            None => (c, Some("unknown setting `"@ + e.key + "`"@)),
            Some(a) => match config::list_of(e.value) {
                None => (
                    c,
                    Some(
                        e.key + " must be a list of quoted key names like [\"W\"], got "@ + e.value,
                    ),
                ),
                Some(names) => match keys_of(names) {
                    Err(m) => (c, Some(m)),
                    Ok(ks) => (ControlsModel { keys: c.keys.update(a.index(), ks), ..c }, None),
                },
            },
        }
    }
}

/// The controls after some entries, from the defaults on.
pub open spec fn controls_after(
    es: Seq<config::EntryModel>,
    numbers: Seq<Option<F32>>,
) -> ControlsModel
    decreases es.len(),
{
    if es.len() == 0 {
        default_controls()
    } else {
        entry_effect(
            es.last(),
            numbers[es.len() - 1],
            controls_after(es.drop_last(), numbers),
        ).0
    }
}

/// The warnings about some entries.
pub open spec fn entry_warnings(
    es: Seq<config::EntryModel>,
    numbers: Seq<Option<F32>>,
) -> Seq<Seq<char>>
    decreases es.len(),
{
    if es.len() == 0 {
        Seq::empty()
    } else {
        let before = entry_warnings(es.drop_last(), numbers);
        let c = controls_after(es.drop_last(), numbers);
        match entry_effect(es.last(), numbers[es.len() - 1], c).1 {
            Some(m) => before.push(config::warning_text(es.last().line, m)),
            None => before,
        }
    }
}

/// The warning about a key that two actions share.
pub open spec fn clash_text(k: KeyCode, a: Action, b: Action) -> Seq<char> {
    "\""@ + k.name_text() + "\" is bound to both "@ + a.name_text() + " and "@ + b.name_text()
        + "; it will do both"@
}

/// The warnings about the first `n` keys of the action at `i` that the one at
/// `j` has too.
pub open spec fn pair_clashes(c: ControlsModel, i: int, j: int, n: int) -> Seq<Seq<char>>
    decreases n,
{
    if n <= 0 {
        Seq::empty()
    } else {
        let before = pair_clashes(c, i, j, n - 1);
        let k = c.keys[i][n - 1];
        if c.keys[j].contains(k) {
            before.push(clash_text(k, Action::nth(i), Action::nth(j)))
        } else {
            before
        }
    }
}

/// The warnings about the action at `i` and those behind it up to `j`.
pub open spec fn row_clashes(c: ControlsModel, i: int, j: int) -> Seq<Seq<char>>
    decreases j - i,
{
    if j <= i + 1 {
        Seq::empty()
    } else {
        row_clashes(c, i, j - 1) + pair_clashes(c, i, j - 1, c.keys[i].len() as int)
    }
}

/// The warnings about the first `n` actions and those behind each.
pub open spec fn clashes(c: ControlsModel, n: int) -> Seq<Seq<char>>
    decreases n,
{
    if n <= 0 {
        Seq::empty()
    } else {
        clashes(c, n - 1) + row_clashes(c, n - 1, ACTIONS as int)
    }
}

/// The controls that a file gives, where `numbers` has what the value of each
/// of its entries reads as.
pub open spec fn parsed_controls(t: Seq<char>, numbers: Seq<Option<F32>>) -> ControlsModel {
    controls_after(config::entries_of(config::lines_of(t)), numbers)
}

/// The warnings about a file: about lines that are no entries, about entries,
/// and about keys that do two things.
pub open spec fn parsed_warnings(t: Seq<char>, numbers: Seq<Option<F32>>) -> Seq<Seq<char>> {
    let ls = config::lines_of(t);
    config::complaints_of(ls) + entry_warnings(config::entries_of(ls), numbers) + clashes(
        parsed_controls(t, numbers),
        ACTIONS as int,
    )
}

fn find_action(name: &str) -> (r: Option<Action>)
    ensures
        r == action_called(name@, ACTIONS as int),
{
    let mut i: usize = 0;
    while i < ACTIONS
        invariant
            i <= ACTIONS,
            action_called(name@, i as int) is None,
        decreases ACTIONS - i,
    {
        let a: Action = Action::at(i);
        if text::same(a.name(), name) {
            proof {
                lemma_action_stays(name@, i + 1, ACTIONS as int);
            }
            return Some(a);
        }
        i += 1;
    }
    None
}

proof fn lemma_action_stays(name: Seq<char>, m: int, n: int)
    requires
        m <= n,
        action_called(name, m) is Some,
    ensures
        action_called(name, n) == action_called(name, m),
    decreases n - m,
{
    if m < n {
        lemma_action_stays(name, m, n - 1);
    }
}

proof fn lemma_keys_error_stays(names: Seq<Seq<char>>, n: int)
    requires
        0 <= n <= names.len(),
        keys_of(names.take(n)) is Err,
    ensures
        keys_of(names) == keys_of(names.take(n)),
    decreases names.len() - n,
{
    if n == names.len() {
        assert(names.take(n) =~= names);
    } else {
        assert(names.take(n + 1).drop_last() =~= names.take(n));
        lemma_keys_error_stays(names, n + 1);
    }
}

/// The keys that some names call, all or nothing.
fn find_keys(names: &Vec<&str>) -> (r: Result<Vec<KeyCode>, String>)
    ensures
        match r {
            Ok(ks) => keys_of(config::str_views(names@)) == Ok::<Seq<KeyCode>, Seq<char>>(ks@),
            Err(m) => keys_of(config::str_views(names@)) == Err::<Seq<KeyCode>, Seq<char>>(m@),
        },
{
    let ghost all = config::str_views(names@);
    let mut out: Vec<KeyCode> = Vec::new();
    let mut i: usize = 0;
    assert(all.take(0) =~= Seq::empty());
    while i < names.len()
        invariant
            i <= names.len(),
            all == config::str_views(names@),
            keys_of(all.take(i as int)) == Ok::<Seq<KeyCode>, Seq<char>>(out@),
        decreases names.len() - i,
    {
        let n: &str = names[i];
        proof {
            assert(all.take(i + 1).drop_last() =~= all.take(i as int));
            assert(all.take(i + 1).last() == n@);
        }
        match keys::key_from_name(n) {
            None => {
                let m: String = config::around("unknown key name \"", n, "\"");
                proof {
                    lemma_keys_error_stays(all, i + 1);
                }
                return Err(m);
            },
            Some(k) => {
                if k.is_reserved() {
                    let m: String = config::around("\"", n, "\" is reserved for the menu");
                    proof {
                        lemma_keys_error_stays(all, i + 1);
                    }
                    return Err(m);
                }
                if !lists(&out, k) {
                    out.push(k);
                }
            },
        }
        i += 1;
    }
    assert(all.take(i as int) =~= all);
    Ok(out)
}

fn speed_accepted(s: F32) -> (r: bool)
    ensures
        r == speed_ok(s),
{
    let zero: F32 = F32 { bits: 0 };
    let top: F32 = F32 { bits: MAX_SENSITIVITY_BITS };
    zero.is_below(s) && !top.is_below(s)
}

fn message(what: &str, value: &str) -> (r: String)
    ensures
        r@ == what@ + value@,
{
    let mut r: String = String::from_str(what);
    r.append(value);
    r
}

impl Controls {
    /// Does what one entry says, and returns the complaint if that is nothing.
    fn apply(&mut self, e: &config::Entry, number: Option<F32>) -> (r: Option<String>)
        requires
            old(self)@.complete(),
        ensures
            final(self)@.complete(),
            final(self)@ == entry_effect(e@, number, old(self)@).0,
            match r {
                Some(m) => entry_effect(e@, number, old(self)@).1 == Some(m@),
                None => entry_effect(e@, number, old(self)@).1 is None,
            },
    {
        if text::same(e.key, "sensitivity") {
            match number {
                Some(s) => if speed_accepted(s) {
                    self.sensitivity = s;
                    assert(self@.keys =~= old(self)@.keys);
                    return None;
                },
                None => {},
            }
            return Some(
                message("sensitivity must be a number above 0 and at most 20, got ", e.value),
            );
        }
        if text::same(e.key, "invert_y") {
            if text::same(e.value, "true") {
                self.invert_y = true;
                assert(self@.keys =~= old(self)@.keys);
                return None;
            }
            if text::same(e.value, "false") {
                self.invert_y = false;
                assert(self@.keys =~= old(self)@.keys);
                return None;
            }
            return Some(message("invert_y must be true or false, got ", e.value));
        }
        match find_action(e.key) {
            None => Some(config::around("unknown setting `", e.key, "`")),
            Some(a) => match config::string_list(e.value) {
                None => Some(
                    config::around(
                        e.key,
                        " must be a list of quoted key names like [\"W\"], got ",
                        e.value,
                    ),
                ),
                Some(names) => match find_keys(&names) {
                    Err(m) => Some(m),
                    Ok(ks) => {
                        let i: usize = a.place();
                        self.keys.set(i, ks);
                        assert(self@.keys =~= old(self)@.keys.update(i as int, ks@));
                        None
                    },
                },
            },
        }
    }

    /// Adds the warnings about keys that two actions share.
    fn push_clashes(&self, warnings: &mut Vec<String>)
        requires
            self@.complete(),
        ensures
            config::string_views(final(warnings)@) == config::string_views(old(warnings)@)
                + clashes(self@, ACTIONS as int),
    {
        let ghost start = config::string_views(warnings@);
        let mut i: usize = 0;
        assert(start + clashes(self@, 0) =~= start);
        while i < ACTIONS
            invariant
                i <= ACTIONS,
                self@.complete(),
                config::string_views(warnings@) == start + clashes(self@, i as int),
            decreases ACTIONS - i,
        {
            let a: Action = Action::at(i);
            let mut j: usize = i + 1;
            assert(start + clashes(self@, i as int) + row_clashes(self@, i as int, j as int)
                =~= start + clashes(self@, i as int));
            while j < ACTIONS
                invariant
                    i < j <= ACTIONS,
                    self@.complete(),
                    a == Action::nth(i as int),
                    a.index() == i,
                    config::string_views(warnings@) == start + clashes(self@, i as int)
                        + row_clashes(self@, i as int, j as int),
                decreases ACTIONS - j,
            {
                let b: Action = Action::at(j);
                let ks: &Vec<KeyCode> = self.keys(a);
                let others: &Vec<KeyCode> = self.keys(b);
                let ghost before = config::string_views(warnings@);
                let mut n: usize = 0;
                assert(before + pair_clashes(self@, i as int, j as int, 0) =~= before);
                while n < ks.len()
                    invariant
                        n <= ks.len(),
                        ks@ == self@.keys[i as int],
                        others@ == self@.keys[j as int],
                        a == Action::nth(i as int),
                        b == Action::nth(j as int),
                        config::string_views(warnings@) == before + pair_clashes(
                            self@,
                            i as int,
                            j as int,
                            n as int,
                        ),
                    decreases ks.len() - n,
                {
                    let k: KeyCode = ks[n];
                    if lists(others, k) {
                        let mut m: String = config::around(
                            "\"",
                            keys::key_name(k),
                            "\" is bound to both ",
                        );
                        m.append(a.name());
                        m.append(" and ");
                        m.append(b.name());
                        m.append("; it will do both");
                        let ghost was = config::string_views(warnings@);
                        assert(m@ =~= clash_text(k, a, b));
                        warnings.push(m);
                        assert(config::string_views(warnings@) =~= was.push(clash_text(k, a, b)));
                    }
                    assert(config::string_views(warnings@) =~= before + pair_clashes(
                        self@,
                        i as int,
                        j as int,
                        n + 1,
                    ));
                    n += 1;
                }
                assert(config::string_views(warnings@) =~= start + clashes(self@, i as int)
                    + row_clashes(self@, i as int, j + 1));
                j += 1;
            }
            assert(config::string_views(warnings@) =~= start + clashes(self@, i + 1));
            i += 1;
        }
    }
}

/// The default controls with every valid line of `t` applied, and one warning
/// per problem. `numbers` holds, for each entry of `t`, the number that its
/// value reads as.
pub fn parse(t: &str, numbers: &Vec<Option<F32>>) -> (r: (Controls, Vec<String>))
    requires
        numbers@.len() == config::entries_of(config::lines_of(t@)).len(),
    ensures
        r.0@ == parsed_controls(t@, numbers@),
        r.0@.complete(),
        config::string_views(r.1@) == parsed_warnings(t@, numbers@),
{
    let mut c: Controls = Controls::default();
    let (lines, complaints) = config::entries(t);
    let mut warnings: Vec<String> = complaints;
    let ghost first = config::string_views(warnings@);
    let ghost es = config::entries_of(config::lines_of(t@));
    let mut i: usize = 0;
    assert(es.take(0) =~= Seq::empty());
    assert(first + entry_warnings(es.take(0), numbers@) =~= first);
    while i < lines.len()
        invariant
            i <= lines.len(),
            config::entry_views(lines@) == es,
            numbers@.len() == es.len(),
            c@.complete(),
            c@ == controls_after(es.take(i as int), numbers@),
            config::string_views(warnings@) == first + entry_warnings(
                es.take(i as int),
                numbers@,
            ),
        decreases lines.len() - i,
    {
        proof {
            assert(config::entry_views(lines@).len() == lines@.len());
            assert(es.take(i + 1).drop_last() =~= es.take(i as int));
            assert(es.take(i + 1).last() == lines@[i as int]@);
        }
        match c.apply(&lines[i], numbers[i]) {
            Some(m) => {
                let ghost was = config::string_views(warnings@);
                warnings.push(config::warning(lines[i].line, m.as_str()));
                assert(config::string_views(warnings@) =~= was.push(
                    config::warning_text(lines@[i as int]@.line, m@),
                ));
            },
            None => {},
        }
        assert(config::string_views(warnings@) =~= first + entry_warnings(
            es.take(i + 1),
            numbers@,
        ));
        i += 1;
    }
    proof {
        assert(config::entry_views(lines@).len() == lines@.len());
        assert(es.take(i as int) =~= es);
    }
    c.push_clashes(&mut warnings);
    (c, warnings)
}

/// An entry that is complained about changes nothing.
pub proof fn law_ignored_entries_change_nothing(
    e: config::EntryModel,
    number: Option<F32>,
    c: ControlsModel,
)
    ensures
        entry_effect(e, number, c).1 is Some ==> entry_effect(e, number, c).0 == c,
{
}

proof fn lemma_keys_not_reserved(names: Seq<Seq<char>>)
    requires
        keys_of(names) is Ok,
    ensures
        forall|i: int|
            0 <= i < keys_of(names)->Ok_0.len() ==> !(#[trigger] keys_of(
                names,
            )->Ok_0[i]).reserved(),
        keys_of(names)->Ok_0.no_duplicates(),
    decreases names.len(),
{
    if names.len() > 0 {
        lemma_keys_not_reserved(names.drop_last());
    }
}

/// No file can bind a key of the menu, nor a key to one action twice, nor set
/// a look speed out of range, nor leave an action without its list.
pub proof fn law_menu_keys_are_never_bound(t: Seq<char>, numbers: Seq<Option<F32>>, a: Action)
    ensures
        parsed_controls(t, numbers).complete(),
        speed_ok(parsed_controls(t, numbers).sensitivity),
        forall|k: KeyCode| #[trigger]
            parsed_controls(t, numbers).bound(a).contains(k) ==> !k.reserved(),
        parsed_controls(t, numbers).bound(a).no_duplicates(),
{
    lemma_bindings(config::entries_of(config::lines_of(t)), numbers, a);
}

proof fn lemma_bindings(es: Seq<config::EntryModel>, numbers: Seq<Option<F32>>, a: Action)
    ensures
        controls_after(es, numbers).complete(),
        speed_ok(controls_after(es, numbers).sensitivity),
        forall|k: KeyCode| #[trigger]
            controls_after(es, numbers).bound(a).contains(k) ==> !k.reserved(),
        controls_after(es, numbers).bound(a).no_duplicates(),
    decreases es.len(),
{
    if es.len() > 0 {
        let e = es.last();
        lemma_bindings(es.drop_last(), numbers, a);
        match config::list_of(e.value) {
            Some(names) => if keys_of(names) is Ok {
                lemma_keys_not_reserved(names);
            },
            None => {},
        }
        match action_called(e.key, ACTIONS as int) {
            Some(b) => {
                law_actions_and_places(a, 0);
                law_actions_and_places(b, 0);
            },
            None => {},
        }
    } else {
        law_actions_and_places(a, 0);
    }
}

/// The comments of the default file.
pub const ABOUT_FILE: &'static str = "# Feather controls. Written with defaults when missing; delete it to reset.\n";

pub const ABOUT_GRAPHICS: &'static str = "# Graphics settings are in graphics.toml.\n";

pub const ABOUT_NOTHING: &'static str = "#\n";

pub const ABOUT_BINDINGS: &'static str = "# action = [\"Key\", ...]: one or more keys, or [] to unbind. Keys are physical\n";

pub const ABOUT_POSITIONS: &'static str = "# positions named as on a US QWERTY keyboard, whatever your layout:\n";

pub const ABOUT_LETTERS: &'static str = "#   A-Z  0-9  F1-F12  Space Tab Backspace CapsLock  LeftShift RightShift\n";

pub const ABOUT_MODIFIERS: &'static str = "#   LeftCtrl RightCtrl LeftAlt RightAlt  Left Right (arrows)  Insert Delete\n";

pub const ABOUT_PAGES: &'static str = "#   Home End PageUp PageDown  Numpad0-Numpad9  LeftBracket RightBracket\n";

pub const ABOUT_SIGNS: &'static str = "#   Semicolon Quote Comma Period Slash Backslash Minus Equal Backquote\n";

pub const ABOUT_MENU_KEYS: &'static str = "# Escape, Up, Down and Enter belong to the menu and can't be bound.\n";

pub const ABOUT_SPEED: &'static str = "# Mouse look speed, a multiplier: 1.0 is the default, 2.0 twice as fast.\n";

pub const ABOUT_INVERSION: &'static str = "# true: moving the mouse forward looks down.\n";

/// Where the descriptions of the bindings start.
pub const DESCRIPTION_COLUMN: usize = 32;

pub open spec fn spaces(n: nat) -> Seq<char> {
    Seq::new(n, |i: int| ' ')
}

/// A text filled up with spaces to a width.
pub open spec fn padded(s: Seq<char>, width: nat) -> Seq<char> {
    if s.len() < width {
        s + spaces((width - s.len()) as nat)
    } else {
        s
    }
}

/// The line of an action in the default file.
pub open spec fn binding_line(a: Action) -> Seq<char> {
    padded(
        a.name_text() + " = [\""@ + a.usual_key().name_text() + "\"]"@,
        DESCRIPTION_COLUMN as nat,
    ) + "# "@ + a.description() + "\n"@
}

/// The lines of the first `n` actions in the default file.
pub open spec fn binding_lines(n: int) -> Seq<Seq<char>> {
    Seq::new(n as nat, |i: int| binding_line(Action::nth(i)))
}

/// What the default file says before the bindings.
pub open spec fn head_lines() -> Seq<Seq<char>> {
    seq![
        ABOUT_FILE@,
        ABOUT_GRAPHICS@,
        ABOUT_NOTHING@,
        ABOUT_BINDINGS@,
        ABOUT_POSITIONS@,
        ABOUT_LETTERS@,
        ABOUT_MODIFIERS@,
        ABOUT_PAGES@,
        ABOUT_SIGNS@,
        ABOUT_MENU_KEYS@,
        "\n"@,
    ]
}

/// The look speed in the default file, with what is said before it.
pub open spec fn speed_lines() -> Seq<Seq<char>> {
    seq!["\n"@, ABOUT_SPEED@, config::setting_line("sensitivity"@, "1.0"@, Seq::empty())]
}

/// The inversion in the default file, with what is said before it.
pub open spec fn inversion_lines() -> Seq<Seq<char>> {
    seq![ABOUT_INVERSION@, config::setting_line("invert_y"@, "false"@, Seq::empty())]
}

/// The lines of the default file.
pub open spec fn default_lines() -> Seq<Seq<char>> {
    head_lines() + binding_lines(ACTIONS as int) + speed_lines() + inversion_lines()
}

/// The file written when none exists.
pub open spec fn default_file() -> Seq<char> {
    text::joined(default_lines())
}

fn pad(out: &mut String, len: usize, width: usize)
    ensures
        len < width ==> final(out)@ == old(out)@ + spaces((width - len) as nat),
        len >= width ==> final(out)@ == old(out)@,
{
    let mut n: usize = len;
    assert(old(out)@ + spaces(0) =~= old(out)@);
    while n < width
        invariant
            len <= n,
            n <= width || n == len,
            n <= width ==> out@ == old(out)@ + spaces((n - len) as nat),
            n > width ==> out@ == old(out)@,
        decreases width - n,
    {
        out.push(' ');
        assert(spaces((n + 1 - len) as nat) =~= spaces((n - len) as nat).push(' '));
        n += 1;
    }
}

/// The file written when none exists. Its values are the defaults.
pub fn default_text() -> (r: String)
    ensures
        r@ == default_file(),
{
    let head: Vec<&str> = vec![
        ABOUT_FILE,
        ABOUT_GRAPHICS,
        ABOUT_NOTHING,
        ABOUT_BINDINGS,
        ABOUT_POSITIONS,
        ABOUT_LETTERS,
        ABOUT_MODIFIERS,
        ABOUT_PAGES,
        ABOUT_SIGNS,
        ABOUT_MENU_KEYS,
        "\n",
    ];
    assert(config::str_views(head@) =~= head_lines());
    let mut r: String = String::new();
    config::append_lines(&mut r, &head);
    let ghost above = r@;
    let mut i: usize = 0;
    assert(binding_lines(0) =~= Seq::empty());
    assert(r@ =~= above + text::joined(binding_lines(0)));
    while i < ACTIONS
        invariant
            i <= ACTIONS,
            r@ == above + text::joined(binding_lines(i as int)),
        decreases ACTIONS - i,
    {
        let a: Action = Action::at(i);
        let mut line: String = String::from_str(a.name());
        line.append(" = [\"");
        line.append(keys::key_name(a.default_key()));
        line.append("\"]");
        let len: usize = text::chars_of(line.as_str()).len();
        pad(&mut line, len, DESCRIPTION_COLUMN);
        line.append("# ");
        line.append(a.describe());
        line.append("\n");
        assert(line@ =~= binding_line(a));
        r.append(line.as_str());
        assert(binding_lines(i + 1).drop_last() =~= binding_lines(i as int));
        assert(r@ =~= above + text::joined(binding_lines(i + 1)));
        i += 1;
    }
    let ghost bound = r@;
    let speed: String = config::line_of("sensitivity", "1.0");
    let inversion: String = config::line_of("invert_y", "false");
    let tail: Vec<&str> = vec!["\n", ABOUT_SPEED, speed.as_str(), ABOUT_INVERSION, inversion.as_str()];
    assert(config::str_views(tail@) =~= speed_lines() + inversion_lines());
    config::append_lines(&mut r, &tail);
    proof {
        let bindings = binding_lines(ACTIONS as int);
        text::lemma_joined_add(head_lines(), bindings);
        text::lemma_joined_add(head_lines() + bindings, speed_lines() + inversion_lines());
        assert(head_lines() + bindings + (speed_lines() + inversion_lines()) =~= default_lines());
        assert(r@ =~= default_file());
    }
    r
}

#[verifier::spinoff_prover]
#[verifier::rlimit(50)]
proof fn lemma_head_comments()
    ensures
        config::is_silent(ABOUT_FILE@),
        config::is_silent(ABOUT_GRAPHICS@),
        config::is_silent(ABOUT_NOTHING@),
        config::is_silent(ABOUT_BINDINGS@),
        config::is_silent(ABOUT_POSITIONS@),
{
    reveal_with_fuel(text::no_feed, 90);
    reveal_strlit("# Feather controls. Written with defaults when missing; delete it to reset.\n");
    config::lemma_comment_line(ABOUT_FILE@);
    reveal_strlit("# Graphics settings are in graphics.toml.\n");
    config::lemma_comment_line(ABOUT_GRAPHICS@);
    reveal_strlit("#\n");
    config::lemma_comment_line(ABOUT_NOTHING@);
    reveal_strlit("# action = [\"Key\", ...]: one or more keys, or [] to unbind. Keys are physical\n");
    config::lemma_comment_line(ABOUT_BINDINGS@);
    reveal_strlit("# positions named as on a US QWERTY keyboard, whatever your layout:\n");
    config::lemma_comment_line(ABOUT_POSITIONS@);
}

#[verifier::spinoff_prover]
#[verifier::rlimit(50)]
proof fn lemma_key_comments()
    ensures
        config::is_silent(ABOUT_LETTERS@),
        config::is_silent(ABOUT_MODIFIERS@),
        config::is_silent(ABOUT_PAGES@),
        config::is_silent(ABOUT_SIGNS@),
        config::is_silent(ABOUT_MENU_KEYS@),
{
    reveal_with_fuel(text::no_feed, 90);
    reveal_strlit("#   A-Z  0-9  F1-F12  Space Tab Backspace CapsLock  LeftShift RightShift\n");
    config::lemma_comment_line(ABOUT_LETTERS@);
    reveal_strlit("#   LeftCtrl RightCtrl LeftAlt RightAlt  Left Right (arrows)  Insert Delete\n");
    config::lemma_comment_line(ABOUT_MODIFIERS@);
    reveal_strlit("#   Home End PageUp PageDown  Numpad0-Numpad9  LeftBracket RightBracket\n");
    config::lemma_comment_line(ABOUT_PAGES@);
    reveal_strlit("#   Semicolon Quote Comma Period Slash Backslash Minus Equal Backquote\n");
    config::lemma_comment_line(ABOUT_SIGNS@);
    reveal_strlit("# Escape, Up, Down and Enter belong to the menu and can't be bound.\n");
    config::lemma_comment_line(ABOUT_MENU_KEYS@);
}

#[verifier::spinoff_prover]
#[verifier::rlimit(50)]
proof fn lemma_tail_comments()
    ensures
        config::is_silent(ABOUT_SPEED@),
        config::is_silent(ABOUT_INVERSION@),
{
    reveal_with_fuel(text::no_feed, 90);
    reveal_strlit("# Mouse look speed, a multiplier: 1.0 is the default, 2.0 twice as fast.\n");
    config::lemma_comment_line(ABOUT_SPEED@);
    reveal_strlit("# true: moving the mouse forward looks down.\n");
    config::lemma_comment_line(ABOUT_INVERSION@);
}

/// A text without the characters that mean something in a line.
spec fn harmless(s: Seq<char>, n: nat) -> bool
    decreases n,
{
    n == 0 || {
        &&& s[n - 1] != '=' && s[n - 1] != '#' && s[n - 1] != '"' && s[n - 1] != '\\'
        &&& s[n - 1] != ',' && s[n - 1] != '[' && !text::is_white(s[n - 1])
        &&& harmless(s, (n - 1) as nat)
    }
}

proof fn lemma_harmless(s: Seq<char>, n: nat)
    requires
        harmless(s, n),
    ensures
        forall|i: int|
            #![trigger s[i]]
            0 <= i < n ==> s[i] != '=' && s[i] != '#' && s[i] != '"' && s[i] != '\\' && s[i] != ','
                && s[i] != '[' && !text::is_white(s[i]),
    decreases n,
{
    if n > 0 {
        lemma_harmless(s, (n - 1) as nat);
    }
}

#[verifier::spinoff_prover]
#[verifier::rlimit(50)]
proof fn lemma_action_names(a: Action)
    ensures
        a.name_text().len() > 0,
        harmless(a.name_text(), a.name_text().len()),
{
    reveal_with_fuel(harmless, 14);
    match a {
        Action::Forward => {
            reveal_strlit("forward");
        },
        Action::Back => {
            reveal_strlit("back");
        },
        Action::Left => {
            reveal_strlit("left");
        },
        Action::Right => {
            reveal_strlit("right");
        },
        Action::Jump => {
            reveal_strlit("jump");
        },
        Action::Down => {
            reveal_strlit("down");
        },
        Action::Noclip => {
            reveal_strlit("noclip");
        },
        Action::ExposureDown => {
            reveal_strlit("exposure_down");
        },
        Action::ExposureUp => {
            reveal_strlit("exposure_up");
        },
        Action::CycleShadows => {
            reveal_strlit("cycle_shadows");
        },
        Action::ToggleFxaa => {
            reveal_strlit("toggle_fxaa");
        },
    }
}

#[verifier::spinoff_prover]
#[verifier::rlimit(50)]
proof fn lemma_usual_keys(a: Action)
    ensures
        a.usual_key().named(),
        !a.usual_key().reserved(),
        a.usual_key().name_text().len() > 0,
        harmless(a.usual_key().name_text(), a.usual_key().name_text().len()),
{
    reveal_with_fuel(harmless, 14);
    match a {
        Action::Forward => {
            reveal_strlit("W");
        },
        Action::Back => {
            reveal_strlit("S");
        },
        Action::Left => {
            reveal_strlit("A");
        },
        Action::Right => {
            reveal_strlit("D");
        },
        Action::Jump => {
            reveal_strlit("Space");
        },
        Action::Down => {
            reveal_strlit("LeftCtrl");
        },
        Action::Noclip => {
            reveal_strlit("V");
        },
        Action::ExposureDown => {
            reveal_strlit("LeftBracket");
        },
        Action::ExposureUp => {
            reveal_strlit("RightBracket");
        },
        Action::CycleShadows => {
            reveal_strlit("F1");
        },
        Action::ToggleFxaa => {
            reveal_strlit("F2");
        },
    }
}

#[verifier::spinoff_prover]
#[verifier::rlimit(50)]
proof fn lemma_descriptions(a: Action)
    ensures
        a.description().len() > 0,
        a.description().last() != '\r',
        text::no_feed(a.description(), a.description().len()),
{
    reveal_with_fuel(text::no_feed, 40);
    match a {
        Action::Forward => {
            reveal_strlit("move forward");
        },
        Action::Back => {
            reveal_strlit("move back");
        },
        Action::Left => {
            reveal_strlit("strafe left");
        },
        Action::Right => {
            reveal_strlit("strafe right");
        },
        Action::Jump => {
            reveal_strlit("jump; fly up in noclip");
        },
        Action::Down => {
            reveal_strlit("fly down in noclip");
        },
        Action::Noclip => {
            reveal_strlit("noclip (free flight) on/off");
        },
        Action::ExposureDown => {
            reveal_strlit("exposure down (repeats while held)");
        },
        Action::ExposureUp => {
            reveal_strlit("exposure up (repeats while held)");
        },
        Action::CycleShadows => {
            reveal_strlit("cycle shadow quality");
        },
        Action::ToggleFxaa => {
            reveal_strlit("FXAA on/off");
        },
    }
}

/// The length and the first letter of a name, which tell the settings apart.
spec fn mark(s: Seq<char>) -> (int, char) {
    (s.len() as int, s[0])
}

spec fn action_mark(a: Action) -> (int, char) {
    match a {
        Action::Forward => (7, 'f'),
        Action::Back => (4, 'b'),
        Action::Left => (4, 'l'),
        Action::Right => (5, 'r'),
        Action::Jump => (4, 'j'),
        Action::Down => (4, 'd'),
        Action::Noclip => (6, 'n'),
        Action::ExposureDown => (13, 'e'),
        Action::ExposureUp => (11, 'e'),
        Action::CycleShadows => (13, 'c'),
        Action::ToggleFxaa => (11, 't'),
    }
}

proof fn lemma_marks(a: Action)
    ensures
        mark(a.name_text()) == action_mark(a),
{
    match a {
        Action::Forward => {
            reveal_strlit("forward");
        },
        Action::Back => {
            reveal_strlit("back");
        },
        Action::Left => {
            reveal_strlit("left");
        },
        Action::Right => {
            reveal_strlit("right");
        },
        Action::Jump => {
            reveal_strlit("jump");
        },
        Action::Down => {
            reveal_strlit("down");
        },
        Action::Noclip => {
            reveal_strlit("noclip");
        },
        Action::ExposureDown => {
            reveal_strlit("exposure_down");
        },
        Action::ExposureUp => {
            reveal_strlit("exposure_up");
        },
        Action::CycleShadows => {
            reveal_strlit("cycle_shadows");
        },
        Action::ToggleFxaa => {
            reveal_strlit("toggle_fxaa");
        },
    }
}

/// An action is found by its name, and no other setting has that name.
proof fn lemma_action_found(a: Action, n: int)
    requires
        0 <= n <= ACTIONS,
    ensures
        action_called(a.name_text(), n) == (if a.index() < n {
            Some(a)
        } else {
            None
        }),
        a.name_text() != "sensitivity"@,
        a.name_text() != "invert_y"@,
    decreases n,
{
    reveal_strlit("sensitivity");
    reveal_strlit("invert_y");
    lemma_marks(a);
    if n > 0 {
        lemma_action_found(a, n - 1);
        lemma_marks(Action::nth(n - 1));
        law_actions_and_places(a, n - 1);
    }
}

/// The value of an action's line in the default file.
spec fn usual_value(a: Action) -> Seq<char> {
    config::list_text(seq![a.usual_key().name_text()])
}

proof fn lemma_usual_value(a: Action)
    ensures
        config::plain_value(usual_value(a)),
        config::list_of(usual_value(a)) == Some(seq![a.usual_key().name_text()]),
        keys_of(seq![a.usual_key().name_text()]) == Ok::<Seq<KeyCode>, Seq<char>>(
            seq![a.usual_key()],
        ),
{
    let name = a.usual_key().name_text();
    let names = seq![name];
    lemma_usual_keys(a);
    lemma_harmless(name, name.len());
    assert(config::listable(names[0]));
    config::law_lists_are_read_back(names);
    let v = usual_value(a);
    assert(v =~= seq!['[', '"'] + name + seq!['"', ']']);
    assert forall|i: int| 0 <= i < v.len() implies #[trigger] v[i] != '#' && v[i] != '\n' by {
        if 2 <= i < v.len() - 2 {
            assert(v[i] == name[i - 2]);
        }
    }
    reveal_with_fuel(config::in_quotes, 3);
    assert(config::in_quotes(v, 2));
    assert forall|j: int| 2 <= j < v.len() - 2 implies v[j] != '"' by {
        assert(v[j] == name[j - 2]);
    }
    config::lemma_no_quotes(v, 2, v.len() - 2);
    assert(!config::in_quotes(v, v.len() as int));
    assert(keys::same_name(name, name));
    keys::lemma_key_called(a.usual_key(), name);
    reveal_with_fuel(keys_of, 2);
    assert(names.drop_last() =~= Seq::empty());
    assert(Seq::<KeyCode>::empty().push(a.usual_key()) =~= seq![a.usual_key()]);
}

/// The line of an action in the default file binds it to its usual key.
proof fn lemma_binding_line(a: Action)
    ensures
        config::says(binding_line(a), a.name_text(), usual_value(a)),
{
    let name = a.name_text();
    let key = a.usual_key().name_text();
    let d = a.description();
    reveal_strlit(" = [\"");
    reveal_strlit("\"]");
    reveal_strlit(" = ");
    reveal_strlit("# ");
    lemma_action_names(a);
    lemma_harmless(name, name.len());
    lemma_usual_value(a);
    lemma_descriptions(a);
    text::lemma_no_feed(d, d.len());
    let s = name + " = [\""@ + key + "\"]"@;
    let n = if s.len() < DESCRIPTION_COLUMN {
        DESCRIPTION_COLUMN - s.len()
    } else {
        0
    };
    let rest = spaces(n as nat) + "# "@ + d;
    assert(s =~= name + " = "@ + usual_value(a));
    assert(binding_line(a) =~= config::setting_line(name, usual_value(a), rest));
    assert forall|i: int| 0 <= i < rest.len() implies #[trigger] rest[i] != '\n' by {
        if i >= n + 2 {
            assert(rest[i] == d[i - n - 2]);
        }
    }
    assert(rest.last() == d.last());
    config::lemma_setting_line(name, usual_value(a), rest, n);
}

/// The controls and the warnings after some lines are those of a file that
/// changes nothing, and it has `n` entries so far.
spec fn is_usual(ls: Seq<Seq<char>>, numbers: Seq<Option<F32>>, n: nat) -> bool {
    let es = config::entries_of(ls);
    &&& es.len() == n
    &&& controls_after(es, numbers) == default_controls()
    &&& entry_warnings(es, numbers) == Seq::<Seq<char>>::empty()
    &&& config::complaints_of(ls) == Seq::<Seq<char>>::empty()
}

/// A line that sets something to what it is by default keeps a file usual.
proof fn lemma_usual_line(
    ls: Seq<Seq<char>>,
    numbers: Seq<Option<F32>>,
    n: nat,
    raw: Seq<char>,
    key: Seq<char>,
    value: Seq<char>,
)
    requires
        is_usual(ls, numbers, n),
        config::says(raw, key, value),
        forall|line: nat|
            #[trigger] entry_effect(
                config::EntryModel { line, key, value },
                numbers[n as int],
                default_controls(),
            ) == (default_controls(), None::<Seq<char>>),
    ensures
        is_usual(ls.push(text::without_ending(raw)), numbers, n + 1),
{
    config::lemma_saying_entry(ls, raw, key, value);
    let es = config::entries_of(ls);
    let e = config::EntryModel { line: ls.len() + 1, key, value };
    assert(es.push(e).drop_last() =~= es);
    assert(entry_effect(e, numbers[n as int], default_controls()) == (
        default_controls(),
        None::<Seq<char>>,
    ));
}

/// What the default file says of the first `n` actions changes nothing.
proof fn lemma_usual_bindings(numbers: Seq<Option<F32>>, n: int)
    requires
        0 <= n <= ACTIONS,
    ensures
        is_usual(config::bodies(head_lines() + binding_lines(n)), numbers, n as nat),
    decreases n,
{
    let head = head_lines();
    let none = Seq::<Seq<char>>::empty();
    if n == 0 {
        lemma_head_comments();
        lemma_key_comments();
        config::lemma_empty_line();
        assert(config::all_silent(head));
        config::lemma_silent_entries(none, head);
        assert(none + config::bodies(head) =~= config::bodies(head));
        assert(head + binding_lines(0) =~= head);
    } else {
        lemma_usual_bindings(numbers, n - 1);
        let a = Action::nth(n - 1);
        let c = default_controls();
        law_actions_and_places(a, n - 1);
        lemma_binding_line(a);
        lemma_usual_value(a);
        lemma_action_found(a, ACTIONS as int);
        assert(c.keys.update(a.index(), seq![a.usual_key()]) =~= c.keys);
        let before = config::bodies(head + binding_lines(n - 1));
        lemma_usual_line(
            before,
            numbers,
            (n - 1) as nat,
            binding_line(a),
            a.name_text(),
            usual_value(a),
        );
        assert(before.push(text::without_ending(binding_line(a))) =~= config::bodies(
            head + binding_lines(n),
        ));
    }
}

/// No two actions have one usual key.
pub proof fn lemma_usual_keys_differ(a: Action, b: Action)
    ensures
        a.usual_key() == b.usual_key() ==> a == b,
{
}

proof fn lemma_no_row_clashes(i: int, j: int)
    requires
        0 <= i,
        j <= ACTIONS,
    ensures
        row_clashes(default_controls(), i, j) == Seq::<Seq<char>>::empty(),
    decreases j - i,
{
    if j > i + 1 {
        lemma_no_row_clashes(i, j - 1);
        let c = default_controls();
        let (a, b) = (Action::nth(i), Action::nth(j - 1));
        law_actions_and_places(a, i);
        law_actions_and_places(b, j - 1);
        lemma_usual_keys_differ(a, b);
        assert(c.keys[j - 1] =~= seq![b.usual_key()]);
        assert(c.keys[i] =~= seq![a.usual_key()]);
        reveal_with_fuel(pair_clashes, 2);
        assert(pair_clashes(c, i, j - 1, 1) =~= Seq::empty());
        assert(row_clashes(c, i, j) =~= Seq::empty());
    }
}

proof fn lemma_no_clashes(n: int)
    requires
        n <= ACTIONS,
    ensures
        clashes(default_controls(), n) == Seq::<Seq<char>>::empty(),
    decreases n,
{
    if n > 0 {
        lemma_no_clashes(n - 1);
        lemma_no_row_clashes(n - 1, ACTIONS as int);
        assert(clashes(default_controls(), n) =~= Seq::empty());
    }
}

/// The two lines of the default file that bind nothing.
proof fn lemma_other_lines()
    ensures
        config::says(
            config::setting_line("sensitivity"@, "1.0"@, Seq::empty()),
            "sensitivity"@,
            "1.0"@,
        ),
        config::says(
            config::setting_line("invert_y"@, "false"@, Seq::empty()),
            "invert_y"@,
            "false"@,
        ),
{
    reveal_strlit("sensitivity");
    reveal_strlit("invert_y");
    reveal_strlit("1.0");
    reveal_strlit("false");
    reveal_with_fuel(harmless, 13);
    lemma_harmless("sensitivity"@, 11);
    lemma_harmless("invert_y"@, 8);
    lemma_harmless("1.0"@, 3);
    lemma_harmless("false"@, 5);
    config::lemma_no_quotes("1.0"@, 0, 3);
    config::lemma_no_quotes("false"@, 0, 5);
    config::lemma_setting_line("sensitivity"@, "1.0"@, Seq::empty(), 0);
    config::lemma_setting_line("invert_y"@, "false"@, Seq::empty(), 0);
}

/// The default file reads back to the defaults, and nothing is complained about,
/// as long as `1.0` is read as the number one.
#[verifier::spinoff_prover]
#[verifier::rlimit(60)]
pub proof fn law_the_default_file_holds_the_defaults(numbers: Seq<Option<F32>>)
    requires
        ({
            let es = config::entries_of(config::lines_of(default_file()));
            &&& numbers.len() == es.len()
            &&& forall|i: int|
                0 <= i < es.len() && (#[trigger] es[i]).value == "1.0"@ ==> numbers[i] == Some(
                    F32 { bits: DEFAULT_SENSITIVITY_BITS },
                )
        }),
    ensures
        parsed_controls(default_file(), numbers) == default_controls(),
        parsed_warnings(default_file(), numbers) == Seq::<Seq<char>>::empty(),
{
    let n = ACTIONS as int;
    let head = head_lines() + binding_lines(n);
    let ls = config::bodies(head);
    let all = default_lines();
    let c = default_controls();
    lemma_head_comments();
    lemma_key_comments();
    lemma_tail_comments();
    config::lemma_empty_line();
    lemma_other_lines();
    lemma_usual_bindings(numbers, n);
    let speed = config::setting_line("sensitivity"@, "1.0"@, Seq::empty());
    let inversion = config::setting_line("invert_y"@, "false"@, Seq::empty());
    assert forall|i: int| 0 <= i < all.len() implies text::one_line(#[trigger] all[i])
        && all[i].last() == '\n' by {
        let h = head_lines();
        if i < h.len() {
            assert(all[i] == h[i]);
            assert(config::is_silent(h[i]));
        } else if i < h.len() + n {
            assert(all[i] == binding_line(Action::nth(i - h.len())));
            lemma_binding_line(Action::nth(i - h.len()));
        } else if i < h.len() + n + 3 {
            assert(all[i] == speed_lines()[i - h.len() - n]);
        } else {
            assert(all[i] == inversion_lines()[i - h.len() - n - 3]);
        }
    }
    text::law_text_of_lines_has_them(all);
    // The file, line by line behind the bindings.
    let gap = seq!["\n"@, ABOUT_SPEED@];
    let note = seq![ABOUT_INVERSION@];
    let x = ls + config::bodies(gap);
    let y = x.push(text::without_ending(speed));
    let z = y + config::bodies(note);
    let w = z.push(text::without_ending(inversion));
    assert(config::lines_of(default_file()) =~= w);
    assert(config::all_silent(gap));
    assert(config::all_silent(note));
    config::lemma_silent_entries(ls, gap);
    config::lemma_silent_entries(y, note);
    config::lemma_saying_entry(x, speed, "sensitivity"@, "1.0"@);
    config::lemma_saying_entry(z, inversion, "invert_y"@, "false"@);
    let es = config::entries_of(w);
    assert(es[n].value == "1.0"@);
    assert(speed_ok(F32 { bits: DEFAULT_SENSITIVITY_BITS }));
    lemma_usual_line(x, numbers, n as nat, speed, "sensitivity"@, "1.0"@);
    reveal_strlit("sensitivity");
    reveal_strlit("invert_y");
    reveal_strlit("true");
    reveal_strlit("false");
    assert("invert_y"@.len() != "sensitivity"@.len());
    assert("true"@.len() != "false"@.len());
    lemma_usual_line(z, numbers, (n + 1) as nat, inversion, "invert_y"@, "false"@);
    lemma_no_clashes(n);
    assert(parsed_warnings(default_file(), numbers) =~= Seq::<Seq<char>>::empty());
}

/// An entry does what it says to what it names, and to nothing else: a look
/// speed above 0 and at most 20 is taken over, `true` and `false` set the
/// inversion, and a list of keys becomes the keys of the action it is for.
pub proof fn law_entries_do_what_they_say(
    e: config::EntryModel,
    number: Option<F32>,
    c: ControlsModel,
    a: Action,
)
    requires
        c.complete(),
    ensures
        ({
            let (r, complaint) = entry_effect(e, number, c);
            &&& e.key == "sensitivity"@ ==> r.keys == c.keys && r.invert_y == c.invert_y && (
            number matches Some(s) ==> (complaint is None <==> 0 < s.bits <= 0x41a0_0000)) && (
            number is None ==> complaint is Some) && (complaint is None ==> number == Some(
                r.sensitivity,
            ))
            &&& e.key == "invert_y"@ ==> r.keys == c.keys && r.sensitivity == c.sensitivity && (
            e.value == "true"@ ==> r.invert_y && complaint is None) && (e.value == "false"@
                ==> !r.invert_y && complaint is None) && (e.value != "true"@ && e.value
                != "false"@ ==> complaint is Some)
            &&& e.key == a.name_text() ==> r.sensitivity == c.sensitivity && r.invert_y
                == c.invert_y && (config::list_of(e.value) matches Some(names) ==> (keys_of(
                names,
            ) matches Ok(ks) ==> complaint is None && r.bound(a) == ks)) && (forall|b: Action|
                b != a ==> #[trigger] r.bound(b) == c.bound(b)) && (complaint is None ==> (
            config::list_of(e.value) matches Some(names) && keys_of(names) is Ok))
            &&& e.key != "sensitivity"@ && e.key != "invert_y"@ && action_called(
                e.key,
                11,
            ) is None ==> complaint is Some
        }),
{
    reveal_strlit("sensitivity");
    reveal_strlit("invert_y");
    reveal_strlit("true");
    reveal_strlit("false");
    assert("invert_y"@.len() != "sensitivity"@.len());
    assert("true"@.len() != "false"@.len());
    if e.key == a.name_text() {
        lemma_names_differ(a, Action::Forward);
        lemma_found(a, ACTIONS as int);
        assert forall|b: Action| b != a implies #[trigger] entry_effect(e, number, c).0.bound(b)
            == c.bound(b) by {
            law_actions_and_places(a, 0);
            law_actions_and_places(b, 0);
        }
    }
}

proof fn lemma_names_differ(a: Action, b: Action)
    ensures
        a != b ==> a.name_text() != b.name_text(),
        a.name_text() != "sensitivity"@,
        a.name_text() != "invert_y"@,
{
    reveal_strlit("sensitivity");
    reveal_strlit("invert_y");
    reveal_strlit("forward");
    reveal_strlit("back");
    reveal_strlit("left");
    reveal_strlit("right");
    reveal_strlit("jump");
    reveal_strlit("down");
    reveal_strlit("noclip");
    reveal_strlit("exposure_down");
    reveal_strlit("exposure_up");
    reveal_strlit("cycle_shadows");
    reveal_strlit("toggle_fxaa");
    let (x, y) = (a.name_text(), b.name_text());
    assert(x.len() > 0 && y.len() > 0);
    assert(x[0] == x[0] && y[0] == y[0]);
    assert("sensitivity"@[0] == 's' && "invert_y"@[0] == 'i');
    assert("left"@[0] == 'l' && "back"@[0] == 'b' && "jump"@[0] == 'j' && "down"@[0] == 'd');
    assert("exposure_up"@[0] == 'e' && "toggle_fxaa"@[0] == 't');
    assert("exposure_down"@[0] == 'e' && "cycle_shadows"@[0] == 'c');
}

proof fn lemma_found(a: Action, n: int)
    requires
        a.index() < n <= ACTIONS,
    ensures
        action_called(a.name_text(), n) == Some(a),
    decreases n,
{
    law_actions_and_places(a, n - 1);
    if a.index() < n - 1 {
        lemma_found(a, n - 1);
    } else {
        lemma_not_found(a, n - 1);
    }
}

proof fn lemma_not_found(a: Action, n: int)
    requires
        0 <= n <= a.index(),
    ensures
        action_called(a.name_text(), n) is None,
    decreases n,
{
    if n > 0 {
        lemma_not_found(a, n - 1);
        law_actions_and_places(a, n - 1);
        lemma_names_differ(a, Action::nth(n - 1));
    }
}

/// Every action is called by its own name, which no other action has.
pub proof fn law_actions_are_called_by_name(a: Action, b: Action)
    ensures
        action_called(a.name_text(), 11) == Some(a),
        a.name_text() == b.name_text() ==> a == b,
{
    law_actions_and_places(a, 0);
    lemma_found(a, ACTIONS as int);
    lemma_names_differ(a, b);
}

/// Whether a name calls a key that can be bound.
pub open spec fn binds(name: Seq<char>) -> bool {
    keys::key_called(name) matches Some(k) && !k.reserved()
}

/// A list of names is accepted as a whole: just where every name calls a key
/// that can be bound. It then gives those keys, each once.
pub proof fn law_lists_of_keys_are_all_or_nothing(names: Seq<Seq<char>>, k: KeyCode)
    ensures
        keys_of(names) is Ok <==> forall|i: int| 0 <= i < names.len() ==> binds(#[trigger] names[i]),
        keys_of(names) matches Ok(ks) ==> ks.no_duplicates() && (ks.contains(k) <==> exists|i: int|
            0 <= i < names.len() && keys::key_called(#[trigger] names[i]) == Some(k)),
    decreases names.len(),
{
    if names.len() > 0 {
        let less = names.drop_last();
        law_lists_of_keys_are_all_or_nothing(less, k);
        if forall|i: int| 0 <= i < names.len() ==> binds(#[trigger] names[i]) {
            assert forall|i: int| 0 <= i < less.len() implies binds(#[trigger] less[i]) by {
                assert(less[i] == names[i]);
            }
            assert(binds(names[names.len() - 1]));
        }
        if keys_of(names) is Ok {
            assert forall|i: int| 0 <= i < names.len() implies binds(#[trigger] names[i]) by {
                if i < less.len() {
                    assert(binds(less[i]));
                }
            }
            let (before, after) = (keys_of(less)->Ok_0, keys_of(names)->Ok_0);
            let last = keys::key_called(names.last())->0;
            if exists|i: int| 0 <= i < less.len() && keys::key_called(#[trigger] less[i]) == Some(k) {
                let i = choose|i: int|
                    0 <= i < less.len() && keys::key_called(#[trigger] less[i]) == Some(k);
                assert(keys::key_called(names[i]) == Some(k));
            }
            if exists|i: int|
                0 <= i < names.len() && keys::key_called(#[trigger] names[i]) == Some(k) {
                let i = choose|i: int|
                    0 <= i < names.len() && keys::key_called(#[trigger] names[i]) == Some(k);
                if i < less.len() {
                    assert(keys::key_called(less[i]) == Some(k));
                }
            }
            assert(keys::key_called(names[names.len() - 1]) == Some(last));
            if after != before {
                assert(after[before.len() as int] == last);
                if before.contains(k) {
                    let j = choose|j: int| 0 <= j < before.len() && before[j] == k;
                    assert(after[j] == k);
                }
            }
        }
    } else {
        assert(!keys_of(names)->Ok_0.contains(k));
    }
}

/// Entries apply in order, each to what those before it left, and each that is
/// complained about gives one more warning.
pub proof fn law_entries_apply_in_order(
    es: Seq<config::EntryModel>,
    e: config::EntryModel,
    numbers: Seq<Option<F32>>,
)
    ensures
        controls_after(Seq::empty(), numbers) == default_controls(),
        controls_after(es.push(e), numbers) == entry_effect(
            e,
            numbers[es.len() as int],
            controls_after(es, numbers),
        ).0,
        entry_warnings(es.push(e), numbers).len() == entry_warnings(es, numbers).len() + (
        if entry_effect(e, numbers[es.len() as int], controls_after(es, numbers)).1 is Some {
            1int
        } else {
            0
        }),
        entry_warnings(es.push(e), numbers).take(entry_warnings(es, numbers).len() as int)
            == entry_warnings(es, numbers),
{
    assert(es.push(e).drop_last() =~= es);
    let less = entry_warnings(es, numbers);
    assert(entry_warnings(es.push(e), numbers).take(less.len() as int) =~= less);
}

/// No event fires an action twice.
pub proof fn law_no_action_fires_twice(
    c: ControlsModel,
    held: Set<KeyCode>,
    code: KeyCode,
    pressed: bool,
    repeat: bool,
    n: int,
)
    requires
        0 <= n <= 11,
    ensures
        c.fired(held, code, pressed, repeat, n).no_duplicates(),
    decreases n,
{
    if n > 0 {
        law_no_action_fires_twice(c, held, code, pressed, repeat, n - 1);
        law_fired_actions(c, held, code, pressed, repeat, n - 1, Action::nth(n - 1));
        law_actions_and_places(Action::nth(n - 1), n - 1);
    }
}

/// What a player finds who changed nothing: the letters around S to move, the
/// usual keys for the rest, and the look speed and direction as they are.
pub proof fn law_defaults_are_the_usual_keys()
    ensures
        ({
            let c = default_controls();
            &&& c.bound(Action::Forward) == seq![KeyCode::KeyW]
            &&& c.bound(Action::Back) == seq![KeyCode::KeyS]
            &&& c.bound(Action::Left) == seq![KeyCode::KeyA]
            &&& c.bound(Action::Right) == seq![KeyCode::KeyD]
            &&& c.bound(Action::Jump) == seq![KeyCode::Space]
            &&& c.bound(Action::Down) == seq![KeyCode::ControlLeft]
            &&& c.bound(Action::Noclip) == seq![KeyCode::KeyV]
            &&& c.bound(Action::ExposureDown) == seq![KeyCode::BracketLeft]
            &&& c.bound(Action::ExposureUp) == seq![KeyCode::BracketRight]
            &&& c.bound(Action::CycleShadows) == seq![KeyCode::F1]
            &&& c.bound(Action::ToggleFxaa) == seq![KeyCode::F2]
            &&& c.sensitivity.bits == 0x3f80_0000
            &&& !c.invert_y
            &&& c.complete()
        }),
{
}

/// Whether two actions have a key in common.
pub open spec fn shared(c: ControlsModel, i: int, j: int, k: KeyCode) -> bool {
    0 <= i < j < 11 && c.keys[i].contains(k) && c.keys[j].contains(k)
}

/// What is said of a key that two actions have in common.
pub open spec fn is_clash(c: ControlsModel, i: int, j: int, k: KeyCode, m: Seq<char>) -> bool {
    shared(c, i, j, k) && m == "\""@ + k.name_text() + "\" is bound to both "@ + Action::nth(
        i,
    ).name_text() + " and "@ + Action::nth(j).name_text() + "; it will do both"@
}

proof fn lemma_added(a: Seq<Seq<char>>, b: Seq<Seq<char>>, m: Seq<char>)
    ensures
        (a + b).contains(m) <==> a.contains(m) || b.contains(m),
{
    let all = a + b;
    if a.contains(m) {
        let p = choose|p: int| 0 <= p < a.len() && a[p] == m;
        assert(all[p] == m);
    }
    if b.contains(m) {
        let p = choose|p: int| 0 <= p < b.len() && b[p] == m;
        assert(all[a.len() + p] == m);
    }
}

proof fn lemma_pair_clashes(c: ControlsModel, i: int, j: int, n: int, m: Seq<char>)
    requires
        0 <= i < j < ACTIONS,
        0 <= n <= c.keys[i].len(),
    ensures
        pair_clashes(c, i, j, n).contains(m) <==> exists|p: int|
            0 <= p < n && is_clash(c, i, j, #[trigger] c.keys[i][p], m),
    decreases n,
{
    if n > 0 {
        lemma_pair_clashes(c, i, j, n - 1, m);
        let k = c.keys[i][n - 1];
        let less = pair_clashes(c, i, j, n - 1);
        assert(c.keys[i].contains(k));
        if c.keys[j].contains(k) {
            let t = clash_text(k, Action::nth(i), Action::nth(j));
            assert(pair_clashes(c, i, j, n) =~= less + seq![t]);
            lemma_added(less, seq![t], m);
            assert(seq![t][0] == t);
        }
    }
}

proof fn lemma_row_clashes(c: ControlsModel, i: int, j: int, m: Seq<char>)
    requires
        0 <= i < ACTIONS,
        j <= ACTIONS,
    ensures
        row_clashes(c, i, j).contains(m) <==> exists|l: int, p: int|
            i < l < j && 0 <= p < c.keys[i].len() && #[trigger] is_clash(
                c,
                i,
                l,
                c.keys[i][p],
                m,
            ),
    decreases j - i,
{
    if j > i + 1 {
        let l = j - 1;
        let n = c.keys[i].len() as int;
        lemma_row_clashes(c, i, l, m);
        lemma_pair_clashes(c, i, l, n, m);
        lemma_added(row_clashes(c, i, l), pair_clashes(c, i, l, n), m);
        if row_clashes(c, i, l).contains(m) {
            let (l2, p) = choose|l2: int, p: int|
                i < l2 < l && 0 <= p < c.keys[i].len() && #[trigger] is_clash(
                    c,
                    i,
                    l2,
                    c.keys[i][p],
                    m,
                );
            assert(is_clash(c, i, l2, c.keys[i][p], m));
        }
        if pair_clashes(c, i, l, n).contains(m) {
            let p = choose|p: int| 0 <= p < n && is_clash(c, i, l, #[trigger] c.keys[i][p], m);
            assert(is_clash(c, i, l, c.keys[i][p], m));
        }
    }
}

proof fn lemma_clashes(c: ControlsModel, n: int, m: Seq<char>)
    requires
        n <= ACTIONS,
    ensures
        clashes(c, n).contains(m) <==> exists|i: int, l: int, p: int|
            0 <= i < n && i < l < ACTIONS && 0 <= p < c.keys[i].len() && #[trigger] is_clash(
                c,
                i,
                l,
                c.keys[i][p],
                m,
            ),
    decreases n,
{
    if n > 0 {
        lemma_clashes(c, n - 1, m);
        lemma_row_clashes(c, n - 1, ACTIONS as int, m);
        lemma_added(clashes(c, n - 1), row_clashes(c, n - 1, ACTIONS as int), m);
        if clashes(c, n - 1).contains(m) {
            let (i, l, p) = choose|i: int, l: int, p: int|
                0 <= i < n - 1 && i < l < ACTIONS && 0 <= p < c.keys[i].len()
                    && #[trigger] is_clash(c, i, l, c.keys[i][p], m);
            assert(is_clash(c, i, l, c.keys[i][p], m));
        }
    }
}

/// Whether a text is what is said of some key that two actions have in common.
pub open spec fn is_some_clash(c: ControlsModel, m: Seq<char>) -> bool {
    exists|i: int, j: int, k: KeyCode| #[trigger] is_clash(c, i, j, k, m)
}

/// A key that two actions have in common is warned about, for each such pair,
/// and nothing else is.
pub proof fn law_shared_keys_are_warned_about(c: ControlsModel, m: Seq<char>)
    ensures
        clashes(c, 11).contains(m) <==> is_some_clash(c, m),
{
    lemma_clashes(c, ACTIONS as int, m);
    if is_some_clash(c, m) {
        let (i, j, k) = choose|i: int, j: int, k: KeyCode| #[trigger] is_clash(c, i, j, k, m);
        let p = choose|p: int| 0 <= p < c.keys[i].len() && c.keys[i][p] == k;
        assert(is_clash(c, i, j, c.keys[i][p], m));
    }
}

/// What is said of controls is said of the keys of each action, and of the rest.
pub proof fn law_controls_are_seen_whole(c: Controls, i: int)
    ensures
        c@.keys.len() == c.keys@.len(),
        0 <= i < c.keys@.len() ==> c@.keys[i] == c.keys@[i]@,
        c@.sensitivity == c.sensitivity,
        c@.invert_y == c.invert_y,
{
}

/// The warnings about a file are those about its lines, those about its entries,
/// and those about keys that do two things, in this order.
pub proof fn law_warnings_come_in_order(t: Seq<char>, numbers: Seq<Option<F32>>)
    ensures
        ({
            let ls = config::lines_of(t);
            let all = parsed_warnings(t, numbers);
            let about_lines = config::complaints_of(ls);
            let about_entries = entry_warnings(config::entries_of(ls), numbers);
            let about_keys = clashes(parsed_controls(t, numbers), 11);
            &&& all.len() == about_lines.len() + about_entries.len() + about_keys.len()
            &&& all.take(about_lines.len() as int) == about_lines
            &&& all.subrange(
                about_lines.len() as int,
                about_lines.len() + about_entries.len() as int,
            ) == about_entries
            &&& all.skip(about_lines.len() + about_entries.len() as int) == about_keys
            &&& parsed_controls(t, numbers) == controls_after(config::entries_of(ls), numbers)
        }),
{
    let ls = config::lines_of(t);
    let all = parsed_warnings(t, numbers);
    let a = config::complaints_of(ls);
    let b = entry_warnings(config::entries_of(ls), numbers);
    let c = clashes(parsed_controls(t, numbers), 11);
    assert(all.take(a.len() as int) =~= a);
    assert(all.subrange(a.len() as int, a.len() + b.len() as int) =~= b);
    assert(all.skip(a.len() + b.len() as int) =~= c);
}

/// Files call the actions by these names.
pub proof fn law_actions_have_their_names(a: Action)
    ensures
        a is Forward ==> a.name_text() == "forward"@,
        a is Back ==> a.name_text() == "back"@,
        a is Left ==> a.name_text() == "left"@,
        a is Right ==> a.name_text() == "right"@,
        a is Jump ==> a.name_text() == "jump"@,
        a is Down ==> a.name_text() == "down"@,
        a is Noclip ==> a.name_text() == "noclip"@,
        a is ExposureDown ==> a.name_text() == "exposure_down"@,
        a is ExposureUp ==> a.name_text() == "exposure_up"@,
        a is CycleShadows ==> a.name_text() == "cycle_shadows"@,
        a is ToggleFxaa ==> a.name_text() == "toggle_fxaa"@,
        a.fires_on_repeat() <==> a is ExposureDown || a is ExposureUp,
{
}

/// The keys of a list stand in the order in which they are first named.
pub proof fn law_keys_are_kept_in_order(names: Seq<Seq<char>>)
    requires
        names.len() > 0,
        keys_of(names) is Ok,
    ensures
        keys_of(names.drop_last()) is Ok,
        ({
            let before = keys_of(names.drop_last())->Ok_0;
            let after = keys_of(names)->Ok_0;
            &&& before.len() <= after.len() <= before.len() + 1
            &&& after.take(before.len() as int) == before
            &&& after.len() > before.len() ==> Some(after.last()) == keys::key_called(names.last())
        }),
{
    let before = keys_of(names.drop_last())->Ok_0;
    let after = keys_of(names)->Ok_0;
    assert(after.take(before.len() as int) =~= before);
}

/// The default file has a line for each action: its name, the key in a list, and
/// behind them, in column 32 where they leave it free, what it does.
pub proof fn law_default_lines_say_what_keys_do(a: Action)
    ensures
        ({
            let set = a.name_text() + " = [\""@ + a.usual_key().name_text() + "\"]"@;
            let line = binding_line(a);
            let from = if set.len() < 32 {
                32
            } else {
                set.len() as int
            };
            &&& line.take(set.len() as int) == set
            &&& line.skip(from) == "# "@ + a.description() + "\n"@
            &&& forall|i: int| set.len() <= i < from ==> #[trigger] line[i] == ' '
            &&& line.len() > from
        }),
{
    reveal_strlit("# ");
    reveal_strlit("\n");
    let set = a.name_text() + " = [\""@ + a.usual_key().name_text() + "\"]"@;
    let line = binding_line(a);
    let from = if set.len() < 32 {
        32
    } else {
        set.len() as int
    };
    assert(line.take(set.len() as int) =~= set);
    assert(line.skip(from) =~= "# "@ + a.description() + "\n"@);
}

} // verus!
