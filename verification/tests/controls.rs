use feather::config::entries;
use feather::controls::{default_text, parse, Action, Controls, Held, ACTIONS};
use feather::float::F32;
use feather::game::{Command, Game};
use feather::graphics::GraphicsSettings;
use feather::keys::{key_at, key_from_name, key_name, KeyCode, NAMED_KEYS};

fn numbers(text: &str) -> Vec<Option<F32>> {
    entries(text)
        .0
        .iter()
        .map(|e| e.value.parse::<f32>().ok().map(|n| F32 { bits: n.to_bits() }))
        .collect()
}

fn parsed(text: &str) -> (Controls, Vec<String>) {
    parse(text, &numbers(text))
}

fn actions() -> Vec<Action> {
    (0..ACTIONS).map(Action::at).collect()
}

fn same(a: &Controls, b: &Controls) -> bool {
    a.keys == b.keys && a.sensitivity == b.sensitivity && a.invert_y == b.invert_y
}

#[test]
fn controls_default_text_parses_back_to_defaults() {
    let (c, w) = parsed(&default_text());
    assert!(w.is_empty(), "{w:?}");
    assert!(same(&c, &Controls::default()));
}

#[test]
fn key_names_round_trip_and_cover_the_defaults() {
    for i in 0..NAMED_KEYS {
        let code = key_at(i);
        let name = key_name(code);
        assert_eq!(key_from_name(name), Some(code), "{name}");
        assert_eq!(key_from_name(&name.to_ascii_lowercase()), Some(code));
    }
    for a in actions() {
        assert_ne!(key_name(a.default_key()), "?", "{a:?}'s default key has no name");
    }
}

#[test]
fn bindings_apply() {
    let (c, w) = parsed("forward = [\"W\", \"up\" ]\n");
    // "up" is reserved: the whole line is ignored.
    assert_eq!(w.len(), 1, "{w:?}");
    assert_eq!(c.keys(Action::Forward)[..], [KeyCode::KeyW]);

    let (c, w) = parsed(
        "forward = [\"W\", \"i\"]\njump = \"J\"\nnoclip = []\nsensitivity = 2.5\ninvert_y = true\n",
    );
    assert!(w.is_empty(), "{w:?}");
    assert_eq!(c.keys(Action::Forward)[..], [KeyCode::KeyW, KeyCode::KeyI]);
    assert_eq!(c.keys(Action::Jump)[..], [KeyCode::KeyJ]);
    assert!(c.keys(Action::Noclip).is_empty());
    assert_eq!((f32::from_bits(c.sensitivity.bits), c.invert_y), (2.5, true));
    // Untouched actions keep their defaults.
    assert_eq!(c.keys(Action::Back)[..], [KeyCode::KeyS]);
}

#[test]
fn controls_bad_lines_warn_and_keep_defaults() {
    for bad in [
        "fly = [\"F\"]",
        "forward = [\"Wq\"]",
        "forward = [\"W\", \"Nope\"]",
        "forward = [\"Escape\"]",
        "forward = [\"Enter\"]",
        "forward = W",
        "sensitivity = 0",
        "sensitivity = -1",
        "sensitivity = 21",
        "sensitivity = abc",
        "sensitivity = NaN",
        "invert_y = 2",
    ] {
        let (c, w) = parsed(bad);
        assert_eq!(w.len(), 1, "`{bad}` should warn once, got {w:?}");
        assert!(same(&c, &Controls::default()), "`{bad}` changed something");
    }
}

#[test]
fn a_key_on_two_actions_warns_and_binds_both() {
    // J on jump and noclip; and V (noclip's default) reused for forward.
    let (c, w) = parsed("jump = [\"J\"]\nnoclip = [\"J\"]\nforward = [\"V\"]\n");
    assert_eq!(w.len(), 1, "{w:?}");
    let (c2, w2) = parsed("forward = [\"V\"]\n");
    assert_eq!(w2.len(), 1, "a clash with a default binding must warn: {w2:?}");
    assert_eq!(c2.keys(Action::Noclip)[..], [KeyCode::KeyV]);
    let mut held = Held::new();
    let fired = c.key(&mut held, KeyCode::KeyJ, true, false);
    assert_eq!(fired, vec![Action::Jump, Action::Noclip]);
}

#[test]
fn two_keys_on_one_action_hold_until_both_released() {
    let (c, _) = parsed("forward = [\"W\", \"I\"]");
    let mut held = Held::new();
    c.key(&mut held, KeyCode::KeyW, true, false);
    c.key(&mut held, KeyCode::KeyI, true, false);
    c.key(&mut held, KeyCode::KeyW, false, false);
    assert!(c.held(&held, Action::Forward), "releasing W cancelled I");
    c.key(&mut held, KeyCode::KeyI, false, false);
    assert!(!c.held(&held, Action::Forward));
}

#[test]
fn toggles_ignore_auto_repeat_but_exposure_repeats() {
    let c = Controls::default();
    let mut held = Held::new();
    assert_eq!(
        c.key(&mut held, KeyCode::KeyV, true, false),
        vec![Action::Noclip]
    );
    assert!(c.key(&mut held, KeyCode::KeyV, true, true).is_empty());
    assert!(c.key(&mut held, KeyCode::KeyV, false, false).is_empty());
    let up = KeyCode::BracketRight;
    assert_eq!(c.key(&mut held, up, true, false), vec![Action::ExposureUp]);
    assert_eq!(c.key(&mut held, up, true, true), vec![Action::ExposureUp]);
}

#[test]
fn jump_fires_once_per_activation() {
    let (c, _) = parsed("jump = [\"J\", \"Space\"]");
    let mut held = Held::new();
    assert_eq!(
        c.key(&mut held, KeyCode::KeyJ, true, false),
        vec![Action::Jump]
    );
    // A second jump key while the first is down is not a new jump.
    assert!(c.key(&mut held, KeyCode::Space, true, false).is_empty());
    assert!(c.held(&held, Action::Jump));
}

#[test]
fn rebinding_moves_the_action() {
    let (c, _) = parsed("jump = [\"J\"]");
    let mut held = Held::new();
    assert!(c.key(&mut held, KeyCode::Space, true, false).is_empty());
    assert_eq!(
        c.key(&mut held, KeyCode::KeyJ, true, false),
        vec![Action::Jump]
    );
}

#[test]
fn menu_keys_are_never_bound() {
    for name in ["Escape", "Up", "Down", "Enter"] {
        let code = key_from_name(name).unwrap();
        assert!(code.is_reserved(), "{name}");
        let (c, _) = parsed(&format!("jump = [\"{name}\"]"));
        assert!(actions().iter().all(|a| !c.keys(*a).contains(&code)));
    }
}

#[test]
fn held_keys_are_a_set() {
    let mut held = Held::new();
    held.insert(KeyCode::KeyQ);
    held.insert(KeyCode::KeyQ);
    assert!(held.contains(KeyCode::KeyQ));
    held.remove(KeyCode::KeyQ);
    assert!(!held.contains(KeyCode::KeyQ));
    held.insert(KeyCode::KeyE);
    held.clear();
    assert!(!held.contains(KeyCode::KeyE));
}

fn play(g: &mut Game, c: &Controls, held: &mut Held, code: KeyCode, down: bool) -> Vec<Command> {
    g.play(c, held, code, down, false)
}

#[test]
fn bound_keys_play_the_game() {
    let (c, _) = parsed("forward = [\"I\", \"O\"]\ncycle_shadows = [\"K\"]\n");
    let mut held = Held::new();
    let mut g = Game::new(GraphicsSettings::default());
    g.session_started();
    assert!(play(&mut g, &c, &mut held, KeyCode::KeyW, true).is_empty());
    assert_eq!(g.take_intent().forward, 0);
    play(&mut g, &c, &mut held, KeyCode::KeyI, true);
    play(&mut g, &c, &mut held, KeyCode::KeyO, true);
    play(&mut g, &c, &mut held, KeyCode::KeyI, false);
    assert_eq!(g.take_intent().forward, 1);
    play(&mut g, &c, &mut held, KeyCode::KeyO, false);
    assert_eq!(g.take_intent().forward, 0);
    assert_eq!(play(&mut g, &c, &mut held, KeyCode::KeyK, true), [Command::ApplyShadows]);
    assert!(play(&mut g, &c, &mut held, KeyCode::KeyK, true).is_empty());
    // The menu's keys work whatever is bound.
    let paused = play(&mut g, &c, &mut held, KeyCode::Escape, true);
    assert_eq!(paused, [Command::CaptureCursor(false)]);
    assert!(g.paused && !held.contains(KeyCode::Escape));
}

#[test]
fn leaving_the_window_lets_go_of_every_key() {
    let c = Controls::default();
    let mut held = Held::new();
    let mut g = Game::new(GraphicsSettings::default());
    g.session_started();
    play(&mut g, &c, &mut held, KeyCode::KeyW, true);
    play(&mut g, &c, &mut held, KeyCode::KeyD, true);
    let intent = g.take_intent();
    assert_eq!((intent.forward, intent.right), (1, 1));
    g.release_all(&c, &mut held);
    let intent = g.take_intent();
    assert_eq!((intent.forward, intent.right), (0, 0));
    assert!(!held.contains(KeyCode::KeyW) && !held.contains(KeyCode::KeyD));
}

#[test]
fn the_default_controls_file_is_written_out() {
    let text = default_text();
    assert!(text.starts_with("# Feather controls. Written with defaults when missing;"));
    assert!(text.contains("\n\nforward = [\"W\"]                 # move forward\n"));
    assert!(text.ends_with("looks down.\ninvert_y = false\n"));
}
