//! The game between its events: what keys and clicks do in the menu and out of
//! it, when a session runs, and what its owner has to do next.
use vstd::prelude::*;

use crate::controls;
use crate::controls::{Action, Controls, ControlsModel, Held, ACTIONS};
use crate::graphics::GraphicsSettings;
use crate::keys::KeyCode;
use crate::menu;
use crate::menu::{Menu, MenuOutcome, MenuRow, MenuScreen};

verus! {

/// Which movement keys are held, and whether a jump waits to be taken.
#[derive(Clone, Copy, Debug, PartialEq, Eq, Structural)]
pub struct Input {
    pub forward: bool,
    pub back: bool,
    pub left: bool,
    pub right: bool,
    pub up: bool,
    pub down: bool,
    pub jump: bool,
}

pub open spec fn no_input() -> Input {
    Input {
        forward: false,
        back: false,
        left: false,
        right: false,
        up: false,
        down: false,
        jump: false,
    }
}

/// What a movement key does to the keys held. A jump waits from the moment its
/// key goes down, not while it is held.
pub open spec fn holding(i: Input, key: KeyCode, down: bool) -> Input {
    if key == KeyCode::KeyW {
        Input { forward: down, ..i }
    } else if key == KeyCode::KeyS {
        Input { back: down, ..i }
    } else if key == KeyCode::KeyA {
        Input { left: down, ..i }
    } else if key == KeyCode::KeyD {
        Input { right: down, ..i }
    } else if key == KeyCode::Space {
        Input { up: down, jump: i.jump || (down && !i.up), ..i }
    } else if key == KeyCode::ControlLeft {
        Input { down, ..i }
    } else {
        i
    }
}

fn held(i: Input, key: KeyCode, down: bool) -> (r: Input)
    ensures
        r == holding(i, key, down),
{
    if key == KeyCode::KeyW {
        Input { forward: down, ..i }
    } else if key == KeyCode::KeyS {
        Input { back: down, ..i }
    } else if key == KeyCode::KeyA {
        Input { left: down, ..i }
    } else if key == KeyCode::KeyD {
        Input { right: down, ..i }
    } else if key == KeyCode::Space {
        Input { up: down, jump: i.jump || (down && !i.up), ..i }
    } else if key == KeyCode::ControlLeft {
        Input { down, ..i }
    } else {
        i
    }
}

/// What the owner of the game has to do.
#[derive(Clone, Copy, Debug, PartialEq, Eq, Structural)]
pub enum Command {
    Exit,
    /// Take the pointer for looking around, or let it go for the menu.
    CaptureCursor(bool),
    /// Time that passed until now is not time of the simulation.
    ResetClock,
    ApplyShadows,
    ApplyFxaa,
    ApplyMsaa,
    /// Build a world, and then say that the session started.
    StartSession,
    /// Wait for the device and take the world down.
    EndSession,
    ExposureDown,
    ExposureUp,
}

/// The game. Without a session it is in the main menu; with one it is playing,
/// or paused in the pause menu.
#[derive(Debug)]
pub struct Game {
    pub playing: bool,
    pub paused: bool,
    pub noclip: bool,
    pub menu: Menu,
    pub settings: GraphicsSettings,
    pub input: Input,
    /// The pointer in hundredths of a pixel, once it has moved.
    pub cursor: Option<(i128, i128)>,
}

pub struct GameModel {
    pub playing: bool,
    pub paused: bool,
    pub noclip: bool,
    pub menu: menu::MenuModel,
    pub settings: GraphicsSettings,
    pub input: Input,
    pub cursor: Option<(i128, i128)>,
}

impl View for Game {
    type V = GameModel;

    open spec fn view(&self) -> GameModel {
        GameModel {
            playing: self.playing,
            paused: self.paused,
            noclip: self.noclip,
            menu: self.menu@,
            settings: self.settings,
            input: self.input,
            cursor: self.cursor,
        }
    }
}

impl GameModel {
    /// Whether the menu takes the input.
    pub open spec fn in_menu(self) -> bool {
        self.paused || !self.playing
    }

    /// Into the pause menu or out of it. Without a session there is nothing to
    /// pause. The menu opens at its top, and a jump from before is forgotten.
    pub open spec fn pausing(self, paused: bool) -> (GameModel, Seq<Command>) {
        if self.paused == paused || !self.playing {
            (self, seq![])
        } else if paused {
            (GameModel { paused, ..self }, seq![Command::CaptureCursor(false)])
        } else {
            (
                GameModel {
                    paused,
                    menu: menu::at_root(MenuScreen::Root),
                    input: Input { jump: false, ..self.input },
                    ..self
                },
                seq![Command::CaptureCursor(true), Command::ResetClock],
            )
        }
    }

    /// What follows from an outcome of the menu.
    pub open spec fn following(self, outcome: MenuOutcome) -> (GameModel, Seq<Command>) {
        match outcome {
            MenuOutcome::Stay => (self, seq![]),
            MenuOutcome::Resume => self.pausing(false),
            MenuOutcome::Quit => (self, seq![Command::Exit]),
            MenuOutcome::ApplyShadows => (self, seq![Command::ApplyShadows]),
            MenuOutcome::ApplyFxaa => (self, seq![Command::ApplyFxaa]),
            MenuOutcome::ApplyMsaa => (self, seq![Command::ApplyMsaa]),
            MenuOutcome::StartSession => (self, seq![Command::StartSession]),
            MenuOutcome::EndSession => (
                GameModel {
                    playing: false,
                    paused: false,
                    menu: menu::at_root(MenuScreen::MainRoot),
                    ..self
                },
                seq![Command::EndSession, Command::CaptureCursor(false)],
            ),
        }
    }

    /// The selected row of the menu is activated.
    pub open spec fn activating(self) -> (GameModel, Seq<Command>) {
        let (m, s, outcome) = self.menu.activated(self.settings, self.playing);
        (GameModel { menu: m, settings: s, ..self }).following(outcome)
    }

    /// The selection moves by some rows.
    pub open spec fn moving(self, delta: int) -> GameModel {
        GameModel { menu: self.menu.moved(delta, self.settings, self.playing), ..self }
    }

    /// A key is pressed. Keys of the menu do nothing outside it.
    pub open spec fn pressing(self, key: KeyCode) -> (GameModel, Seq<Command>) {
        match key {
            KeyCode::F1 => (
                GameModel {
                    settings: GraphicsSettings {
                        shadows: self.settings.shadows.next_spec(),
                        ..self.settings
                    },
                    ..self
                },
                seq![Command::ApplyShadows],
            ),
            KeyCode::F2 => (
                GameModel {
                    settings: GraphicsSettings { fxaa: !self.settings.fxaa, ..self.settings },
                    ..self
                },
                seq![Command::ApplyFxaa],
            ),
            KeyCode::KeyV => (
                GameModel { noclip: self.noclip != self.playing, ..self },
                seq![],
            ),
            KeyCode::BracketLeft => (self, seq![Command::ExposureDown]),
            KeyCode::BracketRight => (self, seq![Command::ExposureUp]),
            KeyCode::Escape => if self.in_menu() {
                let (m, outcome) = self.menu.backed();
                (GameModel { menu: m, ..self }).following(outcome)
            } else {
                self.pausing(true)
            },
            KeyCode::ArrowUp => if self.in_menu() {
                (self.moving(-1), seq![])
            } else {
                (self, seq![])
            },
            KeyCode::ArrowDown => if self.in_menu() {
                (self.moving(1), seq![])
            } else {
                (self, seq![])
            },
            KeyCode::Enter => if self.in_menu() {
                self.activating()
            } else {
                (self, seq![])
            },
            _ => (self, seq![]),
        }
    }

    /// A key goes down or up.
    pub open spec fn keyed(self, key: KeyCode, down: bool) -> (GameModel, Seq<Command>) {
        let g = GameModel { input: holding(self.input, key, down), ..self };
        if down {
            g.pressing(key)
        } else {
            (g, seq![])
        }
    }

    /// What the first `n` actions do when the keys that are down change from
    /// `before` to `after`. An action that fired or changed stands for its usual
    /// key.
    pub open spec fn steered(
        self,
        c: ControlsModel,
        before: Set<KeyCode>,
        after: Set<KeyCode>,
        fired: Seq<Action>,
        n: int,
    ) -> (GameModel, Seq<Command>)
        decreases n,
    {
        if n <= 0 {
            (self, seq![])
        } else {
            let (g, commands) = self.steered(c, before, after, fired, n - 1);
            let a = Action::nth(n - 1);
            let now = c.active(after, a);
            if fired.contains(a) || now != c.active(before, a) {
                let (h, more) = g.keyed(a.usual_key(), now);
                (h, commands + more)
            } else {
                (g, commands)
            }
        }
    }

    /// A key event of a player with some controls, while some keys are down. The
    /// menu's keys are never bound: they go to the game as they are.
    pub open spec fn played(
        self,
        c: ControlsModel,
        held: Set<KeyCode>,
        key: KeyCode,
        down: bool,
        repeat: bool,
    ) -> (GameModel, Seq<Command>) {
        if key.reserved() {
            self.keyed(key, down)
        } else {
            self.steered(
                c,
                held,
                keys_after(held, key, down),
                c.fired(held, key, down, repeat, ACTIONS as int),
                ACTIONS as int,
            )
        }
    }

    /// The row under a point of a surface of `w` by `h` pixels.
    pub open spec fn row_at(self, w: u32, h: u32, at: (i128, i128)) -> Option<usize> {
        let rows = menu::rows_of(self.menu.screen, self.settings, self.playing);
        menu::hit_from(menu::rects_of(w, h, rows), at.0 as int, at.1 as int, 0)
    }

    /// The pointer moved. In the menu it selects the row it is over; away from
    /// the rows the selection stays.
    pub open spec fn pointing(self, w: u32, h: u32, at: (i128, i128)) -> GameModel {
        let g = GameModel { cursor: Some(at), ..self };
        if self.in_menu() {
            match self.row_at(w, h, at) {
                Some(i) => GameModel {
                    menu: self.menu.hovered(i, self.settings, self.playing),
                    ..g
                },
                None => g,
            }
        } else {
            g
        }
    }

    /// The left button went down. In the menu it activates the row under the
    /// pointer; a click beside the rows does nothing.
    pub open spec fn clicking(self, w: u32, h: u32) -> (GameModel, Seq<Command>) {
        if self.in_menu() {
            match self.cursor {
                Some(at) => match self.row_at(w, h, at) {
                    Some(i) => (GameModel {
                        menu: self.menu.hovered(i, self.settings, self.playing),
                        ..self
                    }).activating(),
                    None => (self, seq![]),
                },
                None => (self, seq![]),
            }
        } else {
            (self, seq![])
        }
    }
}

/// The keys that are down after a key event. Those of the menu are not kept.
pub open spec fn keys_after(held: Set<KeyCode>, key: KeyCode, down: bool) -> Set<KeyCode> {
    if key.reserved() {
        held
    } else if down {
        held.insert(key)
    } else {
        held.remove(key)
    }
}

fn lists(actions: &Vec<Action>, a: Action) -> (r: bool)
    ensures
        r == actions@.contains(a),
{
    for i in 0..actions.len()
        invariant
            forall|j: int| 0 <= j < i ==> actions@[j] != a,
    {
        if actions[i] == a {
            return true;
        }
    }
    false
}

/// The game as it opens: in the main menu, with nothing loaded.
pub open spec fn opened(settings: GraphicsSettings) -> GameModel {
    GameModel {
        playing: false,
        paused: false,
        noclip: false,
        menu: menu::at_root(MenuScreen::MainRoot),
        settings,
        input: no_input(),
        cursor: None,
    }
}

/// What a step of the simulation is to do: directions are -1, 0 or 1.
#[derive(Clone, Copy, Debug, PartialEq, Eq, Structural)]
pub struct Intent {
    pub forward: i32,
    pub right: i32,
    pub up: i32,
    pub noclip: bool,
    pub jump: bool,
}

/// One direction less the opposite one.
pub open spec fn axis(plus: bool, minus: bool) -> i32 {
    if plus && !minus {
        1
    } else if minus && !plus {
        -1int as i32
    } else {
        0
    }
}

fn axis_of(plus: bool, minus: bool) -> (r: i32)
    ensures
        r == axis(plus, minus),
{
    if plus && !minus {
        1
    } else if minus && !plus {
        -1
    } else {
        0
    }
}

impl Game {
    pub fn new(settings: GraphicsSettings) -> (r: Game)
        ensures
            r@ == opened(settings),
    {
        Game {
            playing: false,
            paused: false,
            noclip: false,
            menu: Menu::new(),
            settings,
            input: Input {
                forward: false,
                back: false,
                left: false,
                right: false,
                up: false,
                down: false,
                jump: false,
            },
            cursor: None,
        }
    }

    /// Whether the menu takes the input.
    pub fn menu_active(&self) -> (r: bool)
        ensures
            r == self@.in_menu(),
    {
        self.paused || !self.playing
    }

    /// A world was built: play in it.
    pub fn session_started(&mut self) -> (r: Vec<Command>)
        ensures
            final(self)@ == (GameModel {
                playing: true,
                paused: false,
                noclip: false,
                menu: menu::at_root(MenuScreen::Root),
                ..old(self)@
            }),
            r@ == seq![Command::CaptureCursor(true), Command::ResetClock],
    {
        self.playing = true;
        self.paused = false;
        self.noclip = false;
        self.menu.reset(MenuScreen::Root);
        let r: Vec<Command> = vec![Command::CaptureCursor(true), Command::ResetClock];
        assert(r@ =~= seq![Command::CaptureCursor(true), Command::ResetClock]);
        r
    }

    /// Into the pause menu or out of it.
    pub fn set_paused(&mut self, paused: bool) -> (r: Vec<Command>)
        ensures
            (final(self)@, r@) == old(self)@.pausing(paused),
    {
        if self.paused == paused || !self.playing {
            let r: Vec<Command> = Vec::new();
            assert(r@ =~= seq![]);
            return r;
        }
        self.paused = paused;
        let r: Vec<Command>;
        if paused {
            r = vec![Command::CaptureCursor(false)];
            assert(r@ =~= seq![Command::CaptureCursor(false)]);
        } else {
            self.menu.reset(MenuScreen::Root);
            self.input.jump = false;
            r = vec![Command::CaptureCursor(true), Command::ResetClock];
            assert(r@ =~= seq![Command::CaptureCursor(true), Command::ResetClock]);
        }
        r
    }

    fn one(c: Command) -> (r: Vec<Command>)
        ensures
            r@ == seq![c],
    {
        let r: Vec<Command> = vec![c];
        assert(r@ =~= seq![c]);
        r
    }

    fn nothing() -> (r: Vec<Command>)
        ensures
            r@ == Seq::<Command>::empty(),
    {
        let r: Vec<Command> = Vec::new();
        assert(r@ =~= Seq::<Command>::empty());
        r
    }

    /// Do what an outcome of the menu asks for.
    pub fn handle_menu_outcome(&mut self, outcome: MenuOutcome) -> (r: Vec<Command>)
        ensures
            (final(self)@, r@) == old(self)@.following(outcome),
    {
        match outcome {
            MenuOutcome::Stay => Game::nothing(),
            MenuOutcome::Resume => self.set_paused(false),
            MenuOutcome::Quit => Game::one(Command::Exit),
            MenuOutcome::ApplyShadows => Game::one(Command::ApplyShadows),
            MenuOutcome::ApplyFxaa => Game::one(Command::ApplyFxaa),
            MenuOutcome::ApplyMsaa => Game::one(Command::ApplyMsaa),
            MenuOutcome::StartSession => Game::one(Command::StartSession),
            MenuOutcome::EndSession => {
                self.playing = false;
                self.paused = false;
                self.menu.reset(MenuScreen::MainRoot);
                let r: Vec<Command> = vec![Command::EndSession, Command::CaptureCursor(false)];
                assert(r@ =~= seq![Command::EndSession, Command::CaptureCursor(false)]);
                r
            },
        }
    }

    fn activate(&mut self) -> (r: Vec<Command>)
        ensures
            (final(self)@, r@) == old(self)@.activating(),
    {
        let outcome: MenuOutcome = self.menu.activate(&mut self.settings, self.playing);
        self.handle_menu_outcome(outcome)
    }

    fn press(&mut self, code: KeyCode) -> (r: Vec<Command>)
        ensures
            (final(self)@, r@) == old(self)@.pressing(code),
    {
        match code {
            KeyCode::F1 => {
                self.settings.shadows = self.settings.shadows.next();
                Game::one(Command::ApplyShadows)
            },
            KeyCode::F2 => {
                self.settings.fxaa = !self.settings.fxaa;
                Game::one(Command::ApplyFxaa)
            },
            KeyCode::KeyV => {
                if self.playing {
                    self.noclip = !self.noclip;
                }
                Game::nothing()
            },
            KeyCode::BracketLeft => Game::one(Command::ExposureDown),
            KeyCode::BracketRight => Game::one(Command::ExposureUp),
            KeyCode::Escape => {
                if self.menu_active() {
                    let outcome: MenuOutcome = self.menu.back();
                    self.handle_menu_outcome(outcome)
                } else {
                    self.set_paused(true)
                }
            },
            KeyCode::ArrowUp => {
                if self.menu_active() {
                    self.menu.move_by(-1, &self.settings, self.playing);
                }
                Game::nothing()
            },
            KeyCode::ArrowDown => {
                if self.menu_active() {
                    self.menu.move_by(1, &self.settings, self.playing);
                }
                Game::nothing()
            },
            KeyCode::Enter => {
                if self.menu_active() {
                    self.activate()
                } else {
                    Game::nothing()
                }
            },
            _ => Game::nothing(),
        }
    }

    /// A key goes down or up.
    pub fn key(&mut self, code: KeyCode, down: bool) -> (r: Vec<Command>)
        ensures
            (final(self)@, r@) == old(self)@.keyed(code, down),
    {
        self.input = held(self.input, code, down);
        if down {
            self.press(code)
        } else {
            Game::nothing()
        }
    }

    /// Hands on what the actions do when the keys that are down have changed.
    fn steer(
        &mut self,
        c: &Controls,
        before: &Held,
        held: &Held,
        fired: &Vec<Action>,
    ) -> (r: Vec<Command>)
        requires
            c@.complete(),
        ensures
            (final(self)@, r@) == old(self)@.steered(
                c@,
                before@,
                held@,
                fired@,
                ACTIONS as int,
            ),
    {
        let mut out: Vec<Command> = Vec::new();
        let mut i: usize = 0;
        assert(out@ =~= seq![]);
        while i < ACTIONS
            invariant
                i <= ACTIONS,
                c@.complete(),
                (self@, out@) == old(self)@.steered(c@, before@, held@, fired@, i as int),
            decreases ACTIONS - i,
        {
            let a: Action = Action::at(i);
            let now: bool = c.held(held, a);
            if lists(fired, a) || now != c.held(before, a) {
                let mut more: Vec<Command> = self.key(a.default_key(), now);
                out.append(&mut more);
            }
            i += 1;
        }
        out
    }

    /// A key event of a player with some controls. `held` has the keys that are
    /// down.
    pub fn play(
        &mut self,
        c: &Controls,
        held: &mut Held,
        code: KeyCode,
        pressed: bool,
        repeat: bool,
    ) -> (r: Vec<Command>)
        requires
            c@.complete(),
        ensures
            (final(self)@, r@) == old(self)@.played(c@, old(held)@, code, pressed, repeat),
            final(held)@ == keys_after(old(held)@, code, pressed),
    {
        if code.is_reserved() {
            return self.key(code, pressed);
        }
        let before: Held = held.copy();
        let fired: Vec<Action> = c.key(held, code, pressed, repeat);
        self.steer(c, &before, held, &fired)
    }

    /// Lets go of every key.
    pub fn release_all(&mut self, c: &Controls, held: &mut Held)
        requires
            c@.complete(),
        ensures
            final(self)@ == old(self)@.steered(
                c@,
                old(held)@,
                Set::empty(),
                seq![],
                ACTIONS as int,
            ).0,
            final(held)@ == Set::<KeyCode>::empty(),
    {
        let before: Held = held.copy();
        held.clear();
        let fired: Vec<Action> = Vec::new();
        assert(fired@ =~= seq![]);
        let _nothing: Vec<Command> = self.steer(c, &before, held, &fired);
    }

    fn row_under(&self, w: u32, h: u32, at: (i128, i128)) -> (r: Option<usize>)
        ensures
            r == self@.row_at(w, h, at),
    {
        let rows: Vec<MenuRow> = self.menu.rows(&self.settings, self.playing);
        menu::menu_hit(w, h, &rows, at.0, at.1)
    }

    /// The pointer moved, over a surface of `w` by `h` pixels.
    pub fn cursor_moved(&mut self, w: u32, h: u32, at: (i128, i128))
        ensures
            final(self)@ == old(self)@.pointing(w, h, at),
    {
        self.cursor = Some(at);
        if self.menu_active() {
            match self.row_under(w, h, at) {
                Some(i) => self.menu.hover(i, &self.settings, self.playing),
                None => {},
            }
        }
    }

    /// The left button went down.
    pub fn click(&mut self, w: u32, h: u32) -> (r: Vec<Command>)
        ensures
            (final(self)@, r@) == old(self)@.clicking(w, h),
    {
        if self.menu_active() {
            if let Some(at) = self.cursor {
                if let Some(i) = self.row_under(w, h, at) {
                    self.menu.hover(i, &self.settings, self.playing);
                    return self.activate();
                }
            }
        }
        Game::nothing()
    }

    /// What the simulation is to do, for as many steps as it takes. A waiting
    /// jump is handed out once.
    pub fn take_intent(&mut self) -> (r: Intent)
        ensures
            final(self)@ == (GameModel {
                input: Input { jump: false, ..old(self).input },
                ..old(self)@
            }),
            r == (Intent {
                forward: axis(old(self).input.forward, old(self).input.back),
                right: axis(old(self).input.right, old(self).input.left),
                up: axis(old(self).input.up, old(self).input.down),
                noclip: old(self).noclip,
                jump: old(self).input.jump,
            }),
    {
        let i: Input = self.input;
        self.input.jump = false;
        Intent {
            forward: axis_of(i.forward, i.back),
            right: axis_of(i.right, i.left),
            up: axis_of(i.up, i.down),
            noclip: self.noclip,
            jump: i.jump,
        }
    }
}

/// The screen at the bottom of the way that led to the menu's screen.
pub open spec fn root_of(m: menu::MenuModel) -> MenuScreen {
    if m.stack.len() > 0 {
        m.stack[0].0
    } else {
        m.screen
    }
}

/// What every state of the game keeps: only a session can be paused, and the
/// menu is the main menu exactly where there is none.
pub open spec fn consistent(g: GameModel) -> bool {
    &&& g.paused ==> g.playing
    &&& root_of(g.menu) == (if g.playing {
        MenuScreen::Root
    } else {
        MenuScreen::MainRoot
    })
}

proof fn lemma_following(g: GameModel, outcome: MenuOutcome)
    requires
        consistent(g),
    ensures
        consistent(g.following(outcome).0),
{
}

proof fn lemma_backed_root(m: menu::MenuModel)
    ensures
        root_of(m.backed().0) == root_of(m),
{
    if m.stack.len() > 1 {
        assert(m.stack.drop_last()[0] == m.stack[0]);
    }
}

proof fn lemma_activating(g: GameModel)
    requires
        consistent(g),
    ensures
        consistent(g.activating().0),
{
    let (m, s, outcome) = g.menu.activated(g.settings, g.playing);
    lemma_backed_root(g.menu);
    assert(root_of(m) == root_of(g.menu));
    lemma_following(GameModel { menu: m, settings: s, ..g }, outcome);
}

/// The game opens consistent, and no event makes it otherwise: keys, the
/// pointer, clicks, and the start of a session.
pub proof fn law_the_game_stays_consistent(
    g: GameModel,
    key: KeyCode,
    down: bool,
    w: u32,
    h: u32,
    at: (i128, i128),
    settings: GraphicsSettings,
)
    requires
        consistent(g),
    ensures
        consistent(opened(settings)),
        consistent(g.keyed(key, down).0),
        consistent(g.pointing(w, h, at)),
        consistent(g.clicking(w, h).0),
        consistent(
            GameModel {
                playing: true,
                paused: false,
                noclip: false,
                menu: menu::at_root(MenuScreen::Root),
                ..g
            },
        ),
{
    let k = GameModel { input: holding(g.input, key, down), ..g };
    lemma_backed_root(k.menu);
    lemma_following(GameModel { menu: k.menu.backed().0, ..k }, k.menu.backed().1);
    lemma_activating(k);
    match g.cursor {
        Some(at) => match g.row_at(w, h, at) {
            Some(i) => lemma_activating(
                GameModel { menu: g.menu.hovered(i, g.settings, g.playing), ..g },
            ),
            None => {},
        },
        None => {},
    }
}

/// While a session runs, no event changes the sample count that it was built
/// with.
pub proof fn law_sessions_keep_their_samples(
    g: GameModel,
    key: KeyCode,
    down: bool,
    w: u32,
    h: u32,
)
    requires
        g.playing,
    ensures
        g.keyed(key, down).0.settings.msaa == g.settings.msaa,
        g.clicking(w, h).0.settings.msaa == g.settings.msaa,
{
    let k = GameModel { input: holding(g.input, key, down), ..g };
    menu::law_samples_are_fixed_in_a_session(k.menu, k.settings);
    match g.cursor {
        Some(at) => match g.row_at(w, h, at) {
            Some(i) => menu::law_samples_are_fixed_in_a_session(
                g.menu.hovered(i, g.settings, g.playing),
                g.settings,
            ),
            None => {},
        },
        None => {},
    }
}

/// Letting a key go never asks for anything: it only ends what was held.
pub proof fn law_releases_ask_for_nothing(g: GameModel, key: KeyCode)
    ensures
        g.keyed(key, false).1.len() == 0,
        g.keyed(key, false).0 == (GameModel { input: holding(g.input, key, false), ..g }),
{
}

/// Escape pauses a running game, and Escape at the top of the pause menu goes on
/// with it; a jump that waited is gone, and the menu is back at its top.
pub proof fn law_escape_pauses_and_resumes(g: GameModel)
    requires
        g.playing,
        !g.paused,
        g.menu == menu::at_root(MenuScreen::Root),
    ensures
        g.keyed(KeyCode::Escape, true).0 == (GameModel { paused: true, ..g }),
        g.keyed(KeyCode::Escape, true).0.keyed(KeyCode::Escape, true).0 == (GameModel {
            input: Input { jump: false, ..g.input },
            ..g
        }),
{
    let p = g.keyed(KeyCode::Escape, true).0;
    assert(p.menu.backed() == (p.menu, MenuOutcome::Resume));
}

/// In the main menu Escape does nothing at the top: there is no game to go back
/// to.
pub proof fn law_escape_has_nowhere_to_go_from_the_main_menu(g: GameModel)
    requires
        !g.playing,
        g.menu.screen == MenuScreen::MainRoot,
        g.menu.stack.len() == 0,
    ensures
        g.keyed(KeyCode::Escape, true) == (g, Seq::<Command>::empty()),
{
}

/// A press of the jump key is one jump, however long the key is held and however
/// often the press repeats; after it was taken, only letting go and pressing
/// again makes another.
pub proof fn law_one_press_is_one_jump(i: Input)
    requires
        !i.up,
    ensures
        holding(i, KeyCode::Space, true).jump,
        holding(holding(i, KeyCode::Space, true), KeyCode::Space, true) == holding(
            i,
            KeyCode::Space,
            true,
        ),
        ({
            let taken = Input { jump: false, ..holding(i, KeyCode::Space, true) };
            !holding(taken, KeyCode::Space, true).jump && !holding(
                taken,
                KeyCode::Space,
                false,
            ).jump
        }),
{
}

proof fn lemma_usual_key_active(held: Set<KeyCode>, a: Action)
    ensures
        controls::default_controls().active(held, a) == held.contains(a.usual_key()),
        controls::default_controls().bound(a) == seq![a.usual_key()],
{
    let c = controls::default_controls();
    controls::law_actions_and_places(a, a.index());
    assert(c.bound(a)[0] == a.usual_key());
}

proof fn lemma_usual_key_steers(
    g: GameModel,
    held: Set<KeyCode>,
    a: Action,
    down: bool,
    repeat: bool,
    n: int,
)
    requires
        n <= ACTIONS,
        held.contains(a.usual_key()) != down,
    ensures
        ({
            let key = a.usual_key();
            let c = controls::default_controls();
            g.steered(
                c,
                held,
                if down {
                    held.insert(key)
                } else {
                    held.remove(key)
                },
                c.fired(held, key, down, repeat, ACTIONS as int),
                n,
            ) == if a.index() < n {
                g.keyed(key, down)
            } else {
                (g, seq![])
            }
        }),
    decreases n,
{
    let key = a.usual_key();
    let c = controls::default_controls();
    let after = if down {
        held.insert(key)
    } else {
        held.remove(key)
    };
    let fired = c.fired(held, key, down, repeat, ACTIONS as int);
    controls::law_actions_and_places(a, 0);
    if n > 0 {
        let b = Action::nth(n - 1);
        controls::law_actions_and_places(b, n - 1);
        lemma_usual_key_steers(g, held, a, down, repeat, n - 1);
        controls::law_fired_actions(c, held, key, down, repeat, ACTIONS as int, b);
        controls::lemma_usual_keys_differ(a, b);
        lemma_usual_key_active(held, b);
        lemma_usual_key_active(after, b);
        let (h, commands) = g.steered(c, held, after, fired, n - 1);
        if a == b {
            assert(seq![] + g.keyed(key, down).1 =~= g.keyed(key, down).1);
        }
    }
}

/// A player who changed no binding plays with the usual keys as they are: a key
/// that goes down or up does what the game does of it.
pub proof fn law_usual_keys_play_the_game(
    g: GameModel,
    held: Set<KeyCode>,
    a: Action,
    down: bool,
    repeat: bool,
)
    requires
        held.contains(a.usual_key()) != down,
    ensures
        g.played(controls::default_controls(), held, a.usual_key(), down, repeat) == g.keyed(
            a.usual_key(),
            down,
        ),
{
    controls::law_actions_and_places(a, 0);
    lemma_usual_key_steers(g, held, a, down, repeat, ACTIONS as int);
}

/// Whatever the bindings, the keys of the menu work as they are.
pub proof fn law_menu_keys_always_work(
    g: GameModel,
    c: ControlsModel,
    held: Set<KeyCode>,
    key: KeyCode,
    down: bool,
    repeat: bool,
)
    requires
        key.reserved(),
    ensures
        g.played(c, held, key, down, repeat) == g.keyed(key, down),
        keys_after(held, key, down) == held,
{
}

proof fn lemma_steering(
    g: GameModel,
    c: ControlsModel,
    before: Set<KeyCode>,
    after: Set<KeyCode>,
    fired: Seq<Action>,
    n: int,
)
    requires
        consistent(g),
        n <= ACTIONS,
    ensures
        consistent(g.steered(c, before, after, fired, n).0),
        g.steered(c, before, after, fired, n).0.playing == g.playing,
        g.steered(c, before, after, fired, n).0.settings.msaa == g.settings.msaa,
    decreases n,
{
    if n > 0 {
        let a = Action::nth(n - 1);
        lemma_steering(g, c, before, after, fired, n - 1);
        let h = g.steered(c, before, after, fired, n - 1).0;
        let down = c.active(after, a);
        assert(h.keyed(a.usual_key(), down).0.menu == h.menu);
    }
}

/// Keys that are bound keep the game consistent, neither start nor end a
/// session, and never change the sample count.
pub proof fn law_bound_keys_stay_in_the_session(
    g: GameModel,
    c: ControlsModel,
    held: Set<KeyCode>,
    key: KeyCode,
    down: bool,
    repeat: bool,
)
    requires
        consistent(g),
        !key.reserved(),
    ensures
        ({
            let r = g.played(c, held, key, down, repeat).0;
            consistent(r) && r.playing == g.playing && r.settings.msaa == g.settings.msaa
        }),
{
    lemma_steering(
        g,
        c,
        held,
        keys_after(held, key, down),
        c.fired(held, key, down, repeat, ACTIONS as int),
        ACTIONS as int,
    );
}

/// After any key event a direction is held exactly when the last event of its key
/// was a press: the event of a key sets that key's direction, and leaves every
/// other one as it was. Only the jump key makes a jump wait, and only by going
/// down.
pub proof fn law_keys_hold_their_directions(g: GameModel, key: KeyCode, down: bool)
    ensures
        ({
            let i = g.input;
            let j = g.keyed(key, down).0.input;
            &&& j.forward == (if key == KeyCode::KeyW { down } else { i.forward })
            &&& j.back == (if key == KeyCode::KeyS { down } else { i.back })
            &&& j.left == (if key == KeyCode::KeyA { down } else { i.left })
            &&& j.right == (if key == KeyCode::KeyD { down } else { i.right })
            &&& j.up == (if key == KeyCode::Space { down } else { i.up })
            &&& j.down == (if key == KeyCode::ControlLeft { down } else { i.down })
            &&& j.jump && !i.jump <==> key == KeyCode::Space && down && !i.up && !i.jump
            &&& i.jump && !j.jump ==> g.in_menu() && down && (key == KeyCode::Escape || key
                == KeyCode::Enter)
        }),
{
    if down {
        lemma_pressing_input(GameModel { input: holding(g.input, key, down), ..g }, key);
    }
}

proof fn lemma_following_input(g: GameModel, outcome: MenuOutcome)
    ensures
        ({
            let j = g.following(outcome).0.input;
            j == g.input || j == (Input { jump: false, ..g.input })
        }),
{
}

proof fn lemma_pressing_input(g: GameModel, key: KeyCode)
    ensures
        ({
            let j = g.pressing(key).0.input;
            ||| j == g.input
            ||| {
                &&& j == (Input { jump: false, ..g.input })
                &&& g.in_menu()
                &&& key == KeyCode::Escape || key == KeyCode::Enter
            }
        }),
{
    let (m, outcome) = g.menu.backed();
    lemma_following_input(GameModel { menu: m, ..g }, outcome);
    let (n, s, other) = g.menu.activated(g.settings, g.playing);
    lemma_following_input(GameModel { menu: n, settings: s, ..g }, other);
}

/// Pressing a key and letting it go again gives back the directions that were
/// held, if the key was up before.
pub proof fn law_letting_go_undoes_a_press(g: GameModel, key: KeyCode)
    requires
        key == KeyCode::KeyW ==> !g.input.forward,
        key == KeyCode::KeyS ==> !g.input.back,
        key == KeyCode::KeyA ==> !g.input.left,
        key == KeyCode::KeyD ==> !g.input.right,
        key == KeyCode::Space ==> !g.input.up,
        key == KeyCode::ControlLeft ==> !g.input.down,
    ensures
        ({
            let after = g.keyed(key, true).0.keyed(key, false).0.input;
            after == Input { jump: after.jump, ..g.input }
        }),
{
    lemma_pressing_input(GameModel { input: holding(g.input, key, true), ..g }, key);
}

/// A direction is the difference of its two keys: the opposite keys give the
/// opposite direction, and both together none.
pub proof fn law_opposite_keys_cancel(plus: bool, minus: bool)
    ensures
        axis(plus, minus) == (if plus { 1int } else { 0 }) - (if minus { 1int } else { 0 }),
        axis(plus, minus) == -axis(minus, plus),
{
}

/// What an event changes, its commands ask for: settings that changed are
/// applied and no others, the pointer is taken or let go as the menu closes or
/// opens, the clock starts anew when the game goes on, and a session ends when the
/// game stops playing.
pub open spec fn told(g: GameModel, h: GameModel, commands: Seq<Command>) -> bool {
    &&& commands.contains(Command::ApplyShadows) <==> h.settings.shadows != g.settings.shadows
    &&& commands.contains(Command::ApplyFxaa) <==> h.settings.fxaa != g.settings.fxaa
    &&& commands.contains(Command::ApplyMsaa) <==> h.settings.msaa != g.settings.msaa
    &&& h.settings.bake == g.settings.bake
    &&& commands.contains(Command::EndSession) <==> g.playing && !h.playing
    &&& h.playing ==> g.playing
    &&& commands.contains(Command::ResetClock) <==> g.in_menu() && !h.in_menu()
    &&& commands.contains(Command::CaptureCursor(true)) <==> g.in_menu() && !h.in_menu()
    &&& commands.contains(Command::CaptureCursor(false)) <==> (!g.in_menu() && h.in_menu()) || (
    g.playing && !h.playing)
}

proof fn lemma_short(cs: Seq<Command>)
    requires
        cs.len() <= 2,
    ensures
        forall|d: Command| #[trigger]
            cs.contains(d) <==> (cs.len() >= 1 && cs[0] == d) || (cs.len() == 2 && cs[1] == d),
{
}

proof fn lemma_following_told(g: GameModel, m: menu::MenuModel)
    requires
        consistent(g),
        g.in_menu(),
    ensures
        ({
            let (n, s, outcome) = m.activated(g.settings, g.playing);
            outcome != MenuOutcome::EndSession || g.playing ==> ({
                let (h, commands) = (GameModel { menu: n, settings: s, ..g }).following(outcome);
                &&& told(g, h, commands)
                &&& commands.contains(Command::Exit) <==> m.selected(g.settings, g.playing)
                    == menu::MenuAction::Quit
                &&& commands.contains(Command::StartSession) <==> m.selected(g.settings, g.playing)
                    == menu::MenuAction::NewGame
                &&& !commands.contains(Command::ExposureDown)
                &&& !commands.contains(Command::ExposureUp)
            })
        }),
{
    let (n, s, outcome) = m.activated(g.settings, g.playing);
    lemma_short((GameModel { menu: n, settings: s, ..g }).following(outcome).1);
    menu::law_changes_are_announced(m, g.settings, g.playing);
}

/// What a key or a click changes is told: see `told`. Only a row of the menu ends
/// the program or starts a session.
pub proof fn law_changes_are_told(g: GameModel, key: KeyCode, down: bool, w: u32, h: u32)
    requires
        consistent(g),
        g.menu.screen == MenuScreen::Root ==> g.playing,
    ensures
        told(g, g.keyed(key, down).0, g.keyed(key, down).1),
        told(g, g.clicking(w, h).0, g.clicking(w, h).1),
        g.keyed(key, down).1.contains(Command::Exit) ==> key == KeyCode::Enter && g.in_menu(),
        g.keyed(key, down).1.contains(Command::StartSession) ==> key == KeyCode::Enter
            && g.in_menu(),
        g.keyed(key, down).1.contains(Command::ExposureDown) <==> down && key
            == KeyCode::BracketLeft,
        g.keyed(key, down).1.contains(Command::ExposureUp) <==> down && key
            == KeyCode::BracketRight,
{
    lemma_keys_told(g, key, down);
    if g.in_menu() {
        match g.cursor {
            Some(at) => match g.row_at(w, h, at) {
                Some(i) => lemma_following_told(g, g.menu.hovered(i, g.settings, g.playing)),
                None => {},
            },
            None => {},
        }
    }
}

proof fn lemma_backed_told(g: GameModel)
    requires
        consistent(g),
        g.in_menu(),
    ensures
        ({
            let (m, outcome) = g.menu.backed();
            let (h, commands) = (GameModel { menu: m, ..g }).following(outcome);
            &&& told(g, h, commands)
            &&& !commands.contains(Command::Exit)
            &&& !commands.contains(Command::StartSession)
            &&& !commands.contains(Command::ExposureDown)
            &&& !commands.contains(Command::ExposureUp)
        }),
{
    let (m, outcome) = g.menu.backed();
    lemma_short((GameModel { menu: m, ..g }).following(outcome).1);
}

proof fn lemma_keys_told(g: GameModel, key: KeyCode, down: bool)
    requires
        consistent(g),
        g.menu.screen == MenuScreen::Root ==> g.playing,
    ensures
        ({
            let (h, commands) = g.keyed(key, down);
            &&& told(g, h, commands)
            &&& commands.contains(Command::Exit) ==> key == KeyCode::Enter && g.in_menu()
            &&& commands.contains(Command::StartSession) ==> key == KeyCode::Enter && g.in_menu()
            &&& commands.contains(Command::ExposureDown) <==> down && key == KeyCode::BracketLeft
            &&& commands.contains(Command::ExposureUp) <==> down && key == KeyCode::BracketRight
        }),
{
    let k = GameModel { input: holding(g.input, key, down), ..g };
    if down && g.in_menu() && key == KeyCode::Enter {
        lemma_following_told(k, k.menu);
    } else if down && g.in_menu() && key == KeyCode::Escape {
        lemma_backed_told(k);
    } else {
        lemma_short(g.keyed(key, down).1);
    }
}

/// A shortcut does one thing, in the menu and out of it: V turns flying on or off
/// while there is a session, F1 goes on to the next shadows, F2 turns the smoothing
/// on or off. Nothing else but a row of the menu does these.
pub proof fn law_shortcuts_do_one_thing(g: GameModel, key: KeyCode, down: bool)
    ensures
        ({
            let h = g.keyed(key, down).0;
            &&& h.noclip != g.noclip <==> down && key == KeyCode::KeyV && g.playing
            &&& down && key == KeyCode::F1 ==> h.settings == (GraphicsSettings {
                shadows: g.settings.shadows.next_spec(),
                ..g.settings
            })
            &&& down && key == KeyCode::F2 ==> h.settings == (GraphicsSettings {
                fxaa: !g.settings.fxaa,
                ..g.settings
            })
            &&& !(down && (key == KeyCode::F1 || key == KeyCode::F2 || key == KeyCode::Enter
                && g.in_menu())) ==> h.settings == g.settings
            &&& h.cursor == g.cursor
            &&& key != KeyCode::Escape && key != KeyCode::ArrowUp && key != KeyCode::ArrowDown
                && key != KeyCode::Enter ==> h.menu == g.menu && h.paused == g.paused && h.playing
                == g.playing
        }),
{
}

/// Outside the menu its keys do nothing but Escape, which opens it; in it the
/// arrows move the selection by one row, and nothing else.
pub proof fn law_arrows_move_the_selection(g: GameModel)
    ensures
        !g.in_menu() ==> g.keyed(KeyCode::ArrowUp, true) == (g, Seq::<Command>::empty()),
        !g.in_menu() ==> g.keyed(KeyCode::ArrowDown, true) == (g, Seq::<Command>::empty()),
        !g.in_menu() ==> g.keyed(KeyCode::Enter, true) == (g, Seq::<Command>::empty()),
        g.in_menu() ==> ({
            let n = menu::rows_of(g.menu.screen, g.settings, g.playing).len();
            let up = g.keyed(KeyCode::ArrowUp, true).0;
            let down = g.keyed(KeyCode::ArrowDown, true).0;
            &&& up == (GameModel { menu: up.menu, ..g })
            &&& down == (GameModel { menu: down.menu, ..g })
            &&& up.menu == (menu::MenuModel { index: up.menu.index, ..g.menu })
            &&& down.menu == (menu::MenuModel { index: down.menu.index, ..g.menu })
            &&& 0 < g.menu.index < n ==> up.menu.index == g.menu.index - 1
            &&& g.menu.index == 0 ==> up.menu.index == n - 1
            &&& g.menu.index + 1 < n ==> down.menu.index == g.menu.index + 1
            &&& g.menu.index + 1 == n ==> down.menu.index == 0
        }),
{
    if g.in_menu() {
        let n = menu::rows_of(g.menu.screen, g.settings, g.playing).len();
        menu::law_screens_have_a_way_out(g.menu.screen, g.settings, g.playing);
        menu::law_selection_steps(g.menu, g.settings, g.playing);
    }
}

/// The pointer selects the row that it is over, and nothing else: beside the rows
/// and outside the menu only its place is kept.
pub proof fn law_the_pointer_selects(g: GameModel, w: u32, h: u32, at: (i128, i128))
    ensures
        ({
            let p = g.pointing(w, h, at);
            let rects = menu::rects_of(
                w,
                h,
                menu::rows_of(g.menu.screen, g.settings, g.playing),
            );
            &&& p == (GameModel { cursor: Some(at), menu: p.menu, ..g })
            &&& p.menu == (menu::MenuModel { index: p.menu.index, ..g.menu })
            &&& !g.in_menu() ==> p.menu == g.menu
            &&& g.in_menu() && (exists|i: int|
                0 <= i < rects.len() && (#[trigger] rects[i]).holds(at.0 as int, at.1 as int))
                ==> p.menu.index < rects.len() && rects[p.menu.index as int].holds(
                at.0 as int,
                at.1 as int,
            )
            &&& g.in_menu() && (forall|i: int|
                0 <= i < rects.len() ==> !(#[trigger] rects[i]).holds(at.0 as int, at.1 as int))
                ==> p.menu == g.menu
        }),
{
    let rows = menu::rows_of(g.menu.screen, g.settings, g.playing);
    let rects = menu::rects_of(w, h, rows);
    menu::law_screens_have_a_way_out(g.menu.screen, g.settings, g.playing);
    menu::law_hits_are_rows(rects, at.0 as int, at.1 as int);
}

/// A click on a row is the same as going to the row and pressing Enter; a click
/// beside the rows, or with the menu closed, is nothing.
pub proof fn law_clicks_are_presses_of_enter(g: GameModel, w: u32, h: u32, at: (i128, i128))
    requires
        g.cursor == Some(at),
        g.in_menu(),
    ensures
        ({
            let p = g.pointing(w, h, at);
            match g.row_at(w, h, at) {
                Some(i) => g.clicking(w, h) == p.keyed(KeyCode::Enter, true) && p.menu.index == i,
                None => g.clicking(w, h) == (g, Seq::<Command>::empty()),
            }
        }),
{
    let rows = menu::rows_of(g.menu.screen, g.settings, g.playing);
    let rects = menu::rects_of(w, h, rows);
    menu::law_screens_have_a_way_out(g.menu.screen, g.settings, g.playing);
    menu::law_hits_are_rows(rects, at.0 as int, at.1 as int);
}

/// Each direction is held exactly when a key that is bound to it is down.
pub open spec fn directions_follow(i: Input, c: ControlsModel, held: Set<KeyCode>) -> bool {
    &&& i.forward == c.active(held, Action::Forward)
    &&& i.back == c.active(held, Action::Back)
    &&& i.left == c.active(held, Action::Left)
    &&& i.right == c.active(held, Action::Right)
    &&& i.up == c.active(held, Action::Jump)
    &&& i.down == c.active(held, Action::Down)
}

/// A key event made an action active that was not.
pub open spec fn begins(
    c: ControlsModel,
    before: Set<KeyCode>,
    after: Set<KeyCode>,
    a: Action,
) -> bool {
    c.active(after, a) && !c.active(before, a)
}

spec fn direction(i: Input, a: Action) -> bool {
    match a {
        Action::Forward => i.forward,
        Action::Back => i.back,
        Action::Left => i.left,
        Action::Right => i.right,
        Action::Jump => i.up,
        Action::Down => i.down,
        _ => false,
    }
}

spec fn is_direction(a: Action) -> bool {
    match a {
        Action::Forward | Action::Back | Action::Left | Action::Right | Action::Jump
        | Action::Down => true,
        _ => false,
    }
}

proof fn lemma_usual_key_does(g: GameModel, a: Action, down: bool)
    ensures
        ({
            let h = g.keyed(a.usual_key(), down).0;
            &&& forall|b: Action|
                is_direction(b) ==> #[trigger] direction(h.input, b) == if a == b {
                    down
                } else {
                    direction(g.input, b)
                }
            &&& h.input.jump == (g.input.jump || a == Action::Jump && down && !g.input.up)
            &&& h.noclip == (g.noclip != (a == Action::Noclip && down && g.playing))
            &&& h.settings == (GraphicsSettings {
                fxaa: g.settings.fxaa != (a == Action::ToggleFxaa && down),
                shadows: if a == Action::CycleShadows && down {
                    g.settings.shadows.next_spec()
                } else {
                    g.settings.shadows
                },
                ..g.settings
            })
            &&& h.playing == g.playing
        }),
{
}

proof fn lemma_bindings_steer(
    g: GameModel,
    c: ControlsModel,
    before: Set<KeyCode>,
    after: Set<KeyCode>,
    fired: Seq<Action>,
    n: int,
)
    requires
        0 <= n <= ACTIONS,
        directions_follow(g.input, c, before),
        forall|a: Action| #[trigger]
            fired.contains(a) && !a.fires_on_repeat() ==> begins(c, before, after, a),
    ensures
        ({
            let h = g.steered(c, before, after, fired, n).0;
            let done = |a: Action| a.index() < n && begins(c, before, after, a);
            &&& forall|a: Action|
                is_direction(a) ==> #[trigger] direction(h.input, a) == if a.index() < n {
                    c.active(after, a)
                } else {
                    c.active(before, a)
                }
            &&& h.input.jump == (g.input.jump || done(Action::Jump))
            &&& h.noclip == (g.noclip != (g.playing && done(Action::Noclip)))
            &&& h.settings == (GraphicsSettings {
                fxaa: g.settings.fxaa != done(Action::ToggleFxaa),
                shadows: if done(Action::CycleShadows) {
                    g.settings.shadows.next_spec()
                } else {
                    g.settings.shadows
                },
                ..g.settings
            })
            &&& h.playing == g.playing
        }),
    decreases n,
{
    if n > 0 {
        let a = Action::nth(n - 1);
        controls::law_actions_and_places(a, n - 1);
        lemma_bindings_steer(g, c, before, after, fired, n - 1);
        let h = g.steered(c, before, after, fired, n - 1).0;
        let now = c.active(after, a);
        lemma_usual_key_does(h, a, now);
        assert(direction(h.input, Action::Jump) == h.input.up);
        assert forall|b: Action| b.index() < n && b != a implies b.index() < n - 1 by {
            controls::law_actions_and_places(b, n - 1);
        }
        let k = g.steered(c, before, after, fired, n).0;
        assert forall|b: Action| is_direction(b) implies #[trigger] direction(k.input, b)
            == if b.index() < n {
            c.active(after, b)
        } else {
            c.active(before, b)
        } by {
            assert(direction(h.input, b) == if b.index() < n - 1 {
                c.active(after, b)
            } else {
                c.active(before, b)
            });
            if b != a {
                controls::law_actions_and_places(b, n - 1);
            }
        }
    }
}

/// Whatever the bindings: a direction is held exactly while a key that is bound
/// to it is down, and an action that turns something does so once, when the first
/// of its keys goes down.
pub proof fn law_bound_keys_do_their_actions(
    g: GameModel,
    c: ControlsModel,
    held: Set<KeyCode>,
    key: KeyCode,
    down: bool,
    repeat: bool,
)
    requires
        !key.reserved(),
        directions_follow(g.input, c, held),
    ensures
        ({
            let h = g.played(c, held, key, down, repeat).0;
            let after = if down {
                held.insert(key)
            } else {
                held.remove(key)
            };
            &&& directions_follow(h.input, c, after)
            &&& h.input.jump == (g.input.jump || begins(c, held, after, Action::Jump))
            &&& h.noclip == (g.noclip != (g.playing && begins(c, held, after, Action::Noclip)))
            &&& h.settings.fxaa == (g.settings.fxaa != begins(c, held, after, Action::ToggleFxaa))
            &&& h.settings.shadows == if begins(c, held, after, Action::CycleShadows) {
                g.settings.shadows.next_spec()
            } else {
                g.settings.shadows
            }
        }),
{
    let after = keys_after(held, key, down);
    let fired = c.fired(held, key, down, repeat, ACTIONS as int);
    assert forall|a: Action| #[trigger] fired.contains(a) && !a.fires_on_repeat() implies begins(
        c,
        held,
        after,
        a,
    ) by {
        controls::law_fired_actions(c, held, key, down, repeat, ACTIONS as int, a);
        controls::law_presses_activate(c, held, key, repeat, a);
    }
    lemma_bindings_steer(g, c, held, after, fired, ACTIONS as int);
    let h = g.played(c, held, key, down, repeat).0;
    lemma_directions(h.input, c, after);
}

proof fn lemma_directions(i: Input, c: ControlsModel, held: Set<KeyCode>)
    requires
        forall|a: Action|
            is_direction(a) ==> #[trigger] direction(i, a) == if a.index() < ACTIONS {
                c.active(held, a)
            } else {
                direction(i, a)
            },
    ensures
        directions_follow(i, c, held),
{
    assert(direction(i, Action::Forward) == i.forward);
    assert(direction(i, Action::Back) == i.back);
    assert(direction(i, Action::Left) == i.left);
    assert(direction(i, Action::Right) == i.right);
    assert(direction(i, Action::Jump) == i.up);
    assert(direction(i, Action::Down) == i.down);
}

/// Letting go of every key ends every direction.
pub proof fn law_letting_go_of_all_stops(g: GameModel, c: ControlsModel, held: Set<KeyCode>)
    requires
        directions_follow(g.input, c, held),
    ensures
        ({
            let h = g.steered(c, held, Set::empty(), seq![], ACTIONS as int).0;
            &&& h.input == (Input { jump: g.input.jump, ..no_input() })
            &&& !h.input.forward && !h.input.back && !h.input.left && !h.input.right && !h.input.up
                && !h.input.down
            &&& h.noclip == g.noclip
            &&& h.settings == g.settings
        }),
{
    let none: Set<KeyCode> = Set::empty();
    let fired: Seq<Action> = seq![];
    assert forall|a: Action| !#[trigger] c.active(none, a) by {}
    lemma_bindings_steer(g, c, held, none, fired, ACTIONS as int);
    let h = g.steered(c, held, none, fired, ACTIONS as int).0;
    lemma_directions(h.input, c, none);
}

/// Holding a key down, which makes it repeat, asks for nothing but more or less
/// exposure: everything else happens once.
pub proof fn law_held_keys_repeat_the_exposure_only(
    g: GameModel,
    c: ControlsModel,
    held: Set<KeyCode>,
    key: KeyCode,
    repeat: bool,
)
    requires
        !key.reserved(),
        held.contains(key),
    ensures
        g.played(c, held, key, true, repeat).0 == g,
        forall|d: Command| #[trigger]
            g.played(c, held, key, true, repeat).1.contains(d) ==> repeat && (d
                == Command::ExposureDown || d == Command::ExposureUp),
{
    assert(held.insert(key) =~= held);
    let fired = c.fired(held, key, true, repeat, ACTIONS as int);
    assert forall|a: Action| #[trigger] fired.contains(a) implies repeat && a.fires_on_repeat() by {
        controls::law_fired_actions(c, held, key, true, repeat, ACTIONS as int, a);
        let i = choose|i: int| 0 <= i < c.bound(a).len() && c.bound(a)[i] == key;
        assert(held.contains(c.bound(a)[i]));
    }
    lemma_repeats(g, c, held, fired, repeat, ACTIONS as int);
}

proof fn lemma_repeats(
    g: GameModel,
    c: ControlsModel,
    held: Set<KeyCode>,
    fired: Seq<Action>,
    repeat: bool,
    n: int,
)
    requires
        forall|a: Action| #[trigger] fired.contains(a) ==> repeat && (a == Action::ExposureDown
            || a == Action::ExposureUp),
    ensures
        g.steered(c, held, held, fired, n).0 == g,
        forall|d: Command| #[trigger]
            g.steered(c, held, held, fired, n).1.contains(d) ==> repeat && (d
                == Command::ExposureDown || d == Command::ExposureUp),
    decreases n,
{
    if n > 0 {
        lemma_repeats(g, c, held, fired, repeat, n - 1);
        let (h, commands) = g.steered(c, held, held, fired, n - 1);
        let a = Action::nth(n - 1);
        let now = c.active(held, a);
        if fired.contains(a) {
            let more = h.keyed(a.usual_key(), now).1;
            lemma_short(more);
            let all = commands + more;
            assert forall|d: Command| #[trigger] all.contains(d) implies repeat && (d
                == Command::ExposureDown || d == Command::ExposureUp) by {
                let i = choose|i: int| 0 <= i < all.len() && all[i] == d;
                if i < commands.len() {
                    assert(commands[i] == d);
                    assert(commands.contains(d));
                } else {
                    assert(more[i - commands.len()] == d);
                    assert(more.contains(d));
                }
            }
        }
    }
}

/// A session goes into the pause menu and out of it, and stays the same session:
/// going on, the menu is back at its top, and of what the keys hold only a
/// waiting jump is gone. Where nothing is to change, nothing does.
pub proof fn law_pausing_keeps_the_session(g: GameModel, paused: bool)
    ensures
        ({
            let (h, commands) = g.pausing(paused);
            &&& h.playing == g.playing && h.noclip == g.noclip && h.settings == g.settings
                && h.cursor == g.cursor
            &&& h.input.forward == g.input.forward && h.input.back == g.input.back && h.input.left
                == g.input.left && h.input.right == g.input.right && h.input.up == g.input.up
                && h.input.down == g.input.down
            &&& g.playing ==> h.paused == paused
            &&& !g.playing || g.paused == paused ==> h == g && commands.len() == 0
            &&& g.playing && paused ==> h.menu == g.menu && h.input == g.input
            &&& g.playing && g.paused && !paused ==> !h.input.jump && h.menu.screen is Root
                && h.menu.index == 0 && h.menu.stack.len() == 0
            &&& g.playing && g.paused && !paused ==> commands == seq![
                Command::CaptureCursor(true),
                Command::ResetClock,
            ]
            &&& g.playing && !g.paused && paused ==> commands == seq![
                Command::CaptureCursor(false),
            ]
        }),
{
}

/// What the menu asks for is passed on, one command for each, and the game stays
/// as it is but where the session goes on or ends: then the main menu is shown
/// from its top, and the settings are kept.
pub proof fn law_outcomes_are_passed_on(g: GameModel, outcome: MenuOutcome)
    ensures
        ({
            let (h, commands) = g.following(outcome);
            &&& outcome is Stay ==> h == g && commands.len() == 0
            &&& outcome is Quit ==> h == g && commands == seq![Command::Exit]
            &&& outcome is ApplyShadows ==> h == g && commands == seq![Command::ApplyShadows]
            &&& outcome is ApplyFxaa ==> h == g && commands == seq![Command::ApplyFxaa]
            &&& outcome is ApplyMsaa ==> h == g && commands == seq![Command::ApplyMsaa]
            &&& outcome is StartSession ==> h == g && commands == seq![Command::StartSession]
            &&& outcome is Resume ==> (h, commands) == g.pausing(false)
            &&& outcome is EndSession ==> {
                &&& !h.playing && !h.paused
                &&& h.menu.screen is MainRoot && h.menu.index == 0 && h.menu.stack.len() == 0
                &&& h.settings == g.settings && h.input == g.input && h.cursor == g.cursor
                    && h.noclip == g.noclip
                &&& commands == seq![Command::EndSession, Command::CaptureCursor(false)]
            }
        }),
{
}

/// The game opens in its main menu, with the settings it was given and nothing
/// held, and the menu takes the input unless a session runs that is not paused.
pub proof fn law_the_game_opens_in_the_menu(settings: GraphicsSettings, g: GameModel)
    ensures
        ({
            let o = opened(settings);
            &&& !o.playing && !o.paused && !o.noclip
            &&& o.menu.screen is MainRoot && o.menu.index == 0 && o.menu.stack.len() == 0
            &&& o.settings == settings
            &&& !o.input.forward && !o.input.back && !o.input.left && !o.input.right && !o.input.up
                && !o.input.down && !o.input.jump
            &&& o.cursor is None
        }),
        !g.in_menu() <==> g.playing && !g.paused,
{
}

/// The keys that are down after an event are those from before with the key of
/// the event, or without it. The menu's keys are not among what changes.
pub proof fn law_events_change_one_key(held: Set<KeyCode>, key: KeyCode, down: bool, k: KeyCode)
    ensures
        k != key ==> (keys_after(held, key, down).contains(k) <==> held.contains(k)),
        !key.reserved() ==> (keys_after(held, key, down).contains(key) <==> down),
        key.reserved() ==> keys_after(held, key, down) == held,
{
}

/// What is said of the game is said of all it holds.
pub proof fn law_games_are_seen_whole(g: Game)
    ensures
        g@.playing == g.playing,
        g@.paused == g.paused,
        g@.noclip == g.noclip,
        g@.menu == g.menu@,
        g@.settings == g.settings,
        g@.input == g.input,
        g@.cursor == g.cursor,
{
}

} // verus!
