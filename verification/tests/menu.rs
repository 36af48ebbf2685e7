use feather::game::{Command, Game};
use feather::graphics::{GraphicsSettings, ShadowQuality};
use feather::keys::KeyCode;
use feather::menu::{
    draw_menu, menu_font_px, menu_hit, menu_item_rects, screen_rows, Menu, MenuAction,
    MenuOutcome, MenuScreen,
};
use feather::ui::{atlas, slot_of, Ink, UiPass, MAX_QUADS};

const SIZES: [(u32, u32); 3] = [(1280, 720), (2560, 1440), (320, 200)];

const SCREENS: [MenuScreen; 6] = [
    MenuScreen::MainRoot,
    MenuScreen::Root,
    MenuScreen::Options,
    MenuScreen::Graphics,
    MenuScreen::Sound,
    MenuScreen::Gameplay,
];

#[test]
fn menu_rect_centres_hit_their_own_row() {
    let s = GraphicsSettings::default();
    for screen in SCREENS {
        let rows = screen_rows(screen, &s, true);
        assert!(!rows.is_empty(), "{screen:?} has no rows");
        for (w, h) in SIZES {
            for (i, r) in menu_item_rects(w, h, &rows).iter().enumerate() {
                assert_eq!(
                    menu_hit(w, h, &rows, r.x + r.w / 2, r.y + r.h / 2),
                    Some(i),
                    "{screen:?} row {i} at {w}x{h} did not hit itself"
                );
            }
        }
    }
}

#[test]
fn menu_rows_are_ordered_disjoint_and_onscreen() {
    let s = GraphicsSettings::default();
    for screen in SCREENS {
        let rows = screen_rows(screen, &s, true);
        for (w, h) in SIZES {
            let rects = menu_item_rects(w, h, &rows);
            for pair in rects.windows(2) {
                assert!(pair[1].y > pair[0].y, "{screen:?} rows out of order at {w}x{h}");
                assert!(
                    pair[1].y >= pair[0].y + pair[0].h,
                    "{screen:?} rows overlap at {w}x{h}"
                );
            }
            for r in rects {
                assert!(
                    r.y >= 0 && r.y + r.h <= 100 * h as i128,
                    "{screen:?} row off screen at {w}x{h}"
                );
                assert_eq!(2 * r.x + r.w, 100 * w as i128, "{screen:?} not centred");
            }
        }
    }
}

#[test]
fn menu_misses_gaps_and_backdrop() {
    let s = GraphicsSettings::default();
    let rows = screen_rows(MenuScreen::Root, &s, true);
    let (w, h) = (1280u32, 720u32);
    let (wide, high) = (100 * w as i128, 100 * h as i128);
    let rects = menu_item_rects(w, h, &rows);
    let gap_y = (rects[0].y + rects[0].h + rects[1].y) / 2;
    assert_eq!(menu_hit(w, h, &rows, wide / 2, gap_y), None, "gap hit");
    assert_eq!(menu_hit(w, h, &rows, wide / 2, 0), None, "top hit");
    assert_eq!(menu_hit(w, h, &rows, wide / 2, high - 100), None, "bottom hit");
    assert_eq!(menu_hit(w, h, &rows, 0, rects[0].y + 100), None, "left hit");
    assert_eq!(
        menu_hit(w, h, &rows, wide - 100, rects[0].y + 100),
        None,
        "right hit"
    );
}

#[test]
fn rows_stand_where_they_should() {
    let s = GraphicsSettings::default();
    let rows = screen_rows(MenuScreen::Root, &s, true);
    assert_eq!(menu_font_px(720), 3);
    assert_eq!(menu_font_px(200), 2);
    let rects = menu_item_rects(1280, 720, &rows);
    // "CONTINUE" is eight glyphs of six font pixels, and a font pixel is three
    // pixels: 144 pixels in the middle of 1280, 12 more on each side.
    assert_eq!((rects[0].x, rects[0].w), (55600, 16800));
    // Four lines of 46.2 pixels in the middle of 720, six pixels up.
    assert_eq!((rects[0].y, rects[0].h), (26160, 3300));
    assert_eq!(rects[1].y - rects[0].y, 4620);
}

fn in_game_menu() -> Menu {
    let mut m = Menu::new();
    m.reset(MenuScreen::Root);
    m
}

fn activate(m: &mut Menu, s: &mut GraphicsSettings, want: MenuAction) -> MenuOutcome {
    let i = m
        .rows(s, true)
        .iter()
        .position(|r| r.action == want)
        .unwrap_or_else(|| panic!("no {want:?} row on {:?}", m.screen));
    m.index = i;
    m.activate(s, true)
}

#[test]
fn back_restores_the_row_you_descended_from() {
    let mut s = GraphicsSettings::default();
    let mut m = in_game_menu();
    activate(&mut m, &mut s, MenuAction::Enter(MenuScreen::Options));
    assert_eq!(m.screen, MenuScreen::Options);
    // Descend from GAMEPLAY, not the first row, so that a restored index can be
    // told from a reset one.
    activate(&mut m, &mut s, MenuAction::Enter(MenuScreen::Gameplay));
    assert_eq!(m.screen, MenuScreen::Gameplay);
    assert_eq!(m.index, 0, "entering a screen starts at the top");

    assert_eq!(m.back(), MenuOutcome::Stay);
    assert_eq!(m.screen, MenuScreen::Options);
    let gameplay_row = screen_rows(MenuScreen::Options, &s, true)
        .iter()
        .position(|r| r.action == MenuAction::Enter(MenuScreen::Gameplay))
        .unwrap();
    assert_eq!(m.index, gameplay_row, "BACK did not restore the selection");

    assert_eq!(m.back(), MenuOutcome::Stay);
    assert_eq!(m.screen, MenuScreen::Root);
    // Root has no ancestor, so backing out again leaves the menu entirely.
    assert_eq!(m.back(), MenuOutcome::Resume);
}

#[test]
fn graphics_rows_change_the_settings() {
    let mut s = GraphicsSettings::default();
    let mut m = in_game_menu();
    m.screen = MenuScreen::Graphics;

    let before = s.fxaa;
    assert_eq!(
        activate(&mut m, &mut s, MenuAction::ToggleFxaa),
        MenuOutcome::ApplyFxaa
    );
    assert_eq!(s.fxaa, !before, "FXAA row did not toggle the setting");

    s.shadows = ShadowQuality::High;
    for want in [
        ShadowQuality::Medium,
        ShadowQuality::Low,
        ShadowQuality::Off,
        ShadowQuality::High,
    ] {
        assert_eq!(
            activate(&mut m, &mut s, MenuAction::CycleShadows),
            MenuOutcome::ApplyShadows
        );
        assert!(s.shadows == want, "unexpected shadow step");
    }
}

#[test]
fn inert_rows_change_nothing() {
    let mut m = in_game_menu();
    for screen in [
        MenuScreen::Graphics,
        MenuScreen::Sound,
        MenuScreen::Gameplay,
    ] {
        let mut s = GraphicsSettings::default();
        m.screen = screen;
        m.stack.clear();
        let inert: Vec<usize> = screen_rows(screen, &s, true)
            .iter()
            .enumerate()
            .filter(|(_, r)| !r.enabled())
            .map(|(i, _)| i)
            .collect();
        assert!(!inert.is_empty(), "{screen:?} has no inert row to check");
        for i in inert {
            m.index = i;
            assert_eq!(m.activate(&mut s, true), MenuOutcome::Stay);
            assert_eq!(s.shadows, ShadowQuality::High);
            assert!(!s.fxaa);
            assert_eq!(s.msaa, 1);
            assert_eq!(m.screen, screen, "inert row navigated away");
        }
    }
}

#[test]
fn selection_wraps_in_both_directions() {
    let s = GraphicsSettings::default();
    let mut m = in_game_menu();
    m.screen = MenuScreen::Graphics;
    let n = m.rows(&s, true).len();
    m.index = 0;
    m.move_by(-1, &s, true);
    assert_eq!(m.index, n - 1, "up from the top did not wrap");
    m.move_by(1, &s, true);
    assert_eq!(m.index, 0, "down from the bottom did not wrap");
    m.move_by(-9, &s, true);
    assert_eq!(m.index, 3);
    m.move_by(isize::MIN, &s, true);
    assert_eq!(m.index, 3);
    m.hover(1, &s, true);
    assert_eq!(m.index, 1);
    m.hover(4, &s, true);
    assert_eq!(m.index, 1);
}

#[test]
fn unpausing_resets_to_the_root_screen() {
    let mut s = GraphicsSettings::default();
    let mut m = in_game_menu();
    activate(&mut m, &mut s, MenuAction::Enter(MenuScreen::Options));
    activate(&mut m, &mut s, MenuAction::Enter(MenuScreen::Graphics));
    m.reset(MenuScreen::Root);
    assert_eq!(m.screen, MenuScreen::Root);
    assert_eq!(m.index, 0);
    assert!(m.stack.is_empty());
}

#[test]
fn menu_labels_are_drawable() {
    let s = GraphicsSettings::default();
    for screen in SCREENS {
        for row in screen_rows(screen, &s, true) {
            for c in row.label.chars() {
                assert!(
                    c.is_ascii_uppercase() || c.is_ascii_digit() || c == ' ',
                    "{screen:?} label {:?} has undrawable {c:?}",
                    row.label
                );
            }
        }
    }
}

#[test]
fn labels_show_the_settings() {
    let s = GraphicsSettings { shadows: ShadowQuality::Low, msaa: 4, fxaa: true, bake: true };
    let labels = |in_session: bool| -> Vec<String> {
        screen_rows(MenuScreen::Graphics, &s, in_session)
            .into_iter()
            .map(|r| r.label)
            .collect()
    };
    assert_eq!(labels(false), ["SHADOWS  LOW", "FXAA  ON", "MSAA  4X", "BACK"]);
    assert_eq!(labels(true)[2], "MSAA  4X  MENU ONLY");
    assert_eq!(MenuScreen::MainRoot.title(), "FEATHER");
}

#[test]
fn msaa_is_changeable_only_outside_a_session() {
    let s = GraphicsSettings::default();
    let row_action = |in_session: bool| {
        screen_rows(MenuScreen::Graphics, &s, in_session)
            .into_iter()
            .find(|r| r.label.starts_with("MSAA"))
            .expect("graphics has an MSAA row")
            .action
    };
    assert_eq!(row_action(true), MenuAction::Inert);
    assert_eq!(row_action(false), MenuAction::CycleMsaa);
}

#[test]
fn msaa_row_cycles_supported_counts() {
    let mut s = GraphicsSettings::default();
    let mut m = Menu::new();
    m.screen = MenuScreen::Graphics;
    assert_eq!(s.msaa, 1);
    for want in [2, 4, 8, 1] {
        let i = m
            .rows(&s, false)
            .iter()
            .position(|r| r.action == MenuAction::CycleMsaa)
            .expect("msaa row");
        m.index = i;
        assert_eq!(m.activate(&mut s, false), MenuOutcome::ApplyMsaa);
        assert_eq!(s.msaa, want);
    }
}

#[test]
fn main_menu_starts_a_session_and_pause_menu_ends_it() {
    let mut s = GraphicsSettings::default();
    let mut m = Menu::new();
    assert_eq!(m.screen, MenuScreen::MainRoot, "app opens on the main menu");

    let i = m
        .rows(&s, false)
        .iter()
        .position(|r| r.action == MenuAction::NewGame)
        .expect("new game row");
    m.index = i;
    assert_eq!(m.activate(&mut s, false), MenuOutcome::StartSession);

    m.reset(MenuScreen::Root);
    let i = m
        .rows(&s, true)
        .iter()
        .position(|r| r.action == MenuAction::ToMainMenu)
        .expect("main menu row");
    m.index = i;
    assert_eq!(m.activate(&mut s, true), MenuOutcome::EndSession);
}

#[test]
fn esc_at_the_main_root_has_nowhere_to_go() {
    let mut m = Menu::new();
    assert_eq!(m.back(), MenuOutcome::Stay);
    assert_eq!(m.screen, MenuScreen::MainRoot);
}

#[test]
fn options_is_reachable_from_both_roots() {
    let mut s = GraphicsSettings::default();
    for (root, in_session) in [(MenuScreen::MainRoot, false), (MenuScreen::Root, true)] {
        let mut m = Menu::new();
        m.reset(root);
        let i = m
            .rows(&s, in_session)
            .iter()
            .position(|r| r.action == MenuAction::Enter(MenuScreen::Options))
            .unwrap_or_else(|| panic!("{root:?} has no OPTIONS row"));
        m.index = i;
        assert_eq!(m.activate(&mut s, in_session), MenuOutcome::Stay);
        assert_eq!(m.screen, MenuScreen::Options);
        // And back returns to the root it came from.
        assert_eq!(m.back(), MenuOutcome::Stay);
        assert_eq!(m.screen, root);
    }
}

#[test]
fn the_menu_is_drawn_from_its_rows() {
    let s = GraphicsSettings::default();
    let m = in_game_menu();
    let mut ui = UiPass::new();
    ui.begin(1280, 720);
    assert!(ui.is_empty());
    draw_menu(&mut ui, &m, &s, true, 1280, 720);
    // Backdrop, "PAUSED", one bar, and the letters of four rows.
    assert_eq!(ui.quads.len(), 1 + 6 + 1 + 8 + 7 + 9 + 4);
    assert_eq!(ui.quads[0].ink, Ink::Solid);
    assert_eq!((ui.quads[0].w, ui.quads[0].h), (128000, 72000));
    assert_eq!(ui.quads[1].ink, Ink::Glyph(slot_of('P')));
    // The bar is the selected row's rectangle.
    let bar = menu_item_rects(1280, 720, &screen_rows(MenuScreen::Root, &s, true))[0];
    assert_eq!((ui.quads[7].x, ui.quads[7].y), (bar.x, bar.y));
    assert_eq!(ui.quads[8].ink, Ink::Glyph(slot_of('C')));
    assert_eq!(ui.quads[8].x, bar.x + 1200);
}

#[test]
fn frames_are_cut_off_at_the_limit() {
    let mut ui = UiPass::new();
    ui.begin(0, 0);
    assert_eq!((ui.width, ui.height), (1, 1));
    let grey = ui_color();
    let long = "A".repeat(MAX_QUADS + 10);
    ui.text(0, 0, 100, grey, &long);
    assert_eq!(ui.quads.len(), MAX_QUADS);
    ui.rect(0, 0, 1, 1, grey);
    assert_eq!(ui.quads.len(), MAX_QUADS);
    assert_eq!(UiPass::text_width("ABC", 200), 3600);
    assert_eq!(UiPass::text_height(200), 1400);
}

fn ui_color() -> feather::ui::Color {
    let one = feather::float::F32 { bits: 1.0f32.to_bits() };
    feather::ui::Color { r: one, g: one, b: one, a: one }
}

#[test]
fn the_font_has_letters_and_digits() {
    assert_eq!(slot_of('A'), 2);
    assert_eq!(slot_of('z'), 27);
    assert_eq!(slot_of('0'), 28);
    assert_eq!(slot_of('9'), 37);
    assert_eq!(slot_of(':'), 1);
    let a = atlas();
    assert_eq!(a.len(), 38 * 5 * 7 * 4);
    let texel = |slot: usize, x: usize, y: usize| {
        let i = (y * 190 + slot * 5 + x) * 4;
        [a[i], a[i + 1], a[i + 2], a[i + 3]]
    };
    // The solid block is all ink, the blank none.
    assert_eq!(texel(0, 2, 3), [255, 255, 255, 255]);
    assert_eq!(texel(1, 2, 3), [0, 255, 255, 0]);
    // The top row of a T is ink from side to side, the next only in the middle.
    assert_eq!(texel(slot_of('T'), 0, 0)[3], 255);
    assert_eq!(texel(slot_of('T'), 0, 1)[3], 0);
    assert_eq!(texel(slot_of('T'), 2, 1)[3], 255);
}

#[test]
fn escape_pauses_and_resumes() {
    let mut g = Game::new(GraphicsSettings::default());
    assert!(g.menu_active());
    assert!(g.key(KeyCode::Escape, true).is_empty());
    assert_eq!(g.key(KeyCode::Enter, true), [Command::StartSession]);
    assert_eq!(
        g.session_started(),
        [Command::CaptureCursor(true), Command::ResetClock]
    );
    assert!(!g.menu_active());
    assert!(g.key(KeyCode::ArrowDown, true).is_empty());
    assert_eq!(g.menu.index, 0);
    assert_eq!(g.key(KeyCode::Escape, true), [Command::CaptureCursor(false)]);
    assert!(g.paused);
    // Down to MAIN MENU and into the options on the way.
    g.key(KeyCode::ArrowDown, true);
    g.key(KeyCode::Enter, true);
    assert_eq!(g.menu.screen, MenuScreen::Options);
    assert!(g.key(KeyCode::Escape, true).is_empty());
    assert_eq!(g.menu.screen, MenuScreen::Root);
    assert_eq!(g.menu.index, 1);
    g.key(KeyCode::ArrowDown, true);
    assert_eq!(
        g.key(KeyCode::Enter, true),
        [Command::EndSession, Command::CaptureCursor(false)]
    );
    assert!(!g.playing && !g.paused);
    assert_eq!(g.menu.screen, MenuScreen::MainRoot);
}

#[test]
fn resuming_forgets_a_jump() {
    let mut g = Game::new(GraphicsSettings::default());
    g.session_started();
    g.key(KeyCode::Space, true);
    assert!(g.input.jump);
    g.key(KeyCode::Escape, true);
    assert_eq!(
        g.key(KeyCode::Escape, true),
        [Command::CaptureCursor(true), Command::ResetClock]
    );
    assert!(!g.input.jump);
    assert!(g.input.up);
}

#[test]
fn one_press_is_one_jump() {
    let mut g = Game::new(GraphicsSettings::default());
    g.session_started();
    g.key(KeyCode::Space, true);
    g.key(KeyCode::Space, true);
    g.key(KeyCode::KeyW, true);
    g.key(KeyCode::KeyA, true);
    let i = g.take_intent();
    assert!(i.jump);
    assert_eq!((i.forward, i.right, i.up), (1, -1, 1));
    g.key(KeyCode::Space, true);
    assert!(!g.take_intent().jump, "a held key jumped again");
    g.key(KeyCode::Space, false);
    g.key(KeyCode::Space, true);
    g.key(KeyCode::KeyS, true);
    let i = g.take_intent();
    assert!(i.jump);
    assert_eq!(i.forward, 0, "opposite keys cancel");
}

#[test]
fn clicks_activate_the_row_under_the_pointer() {
    let mut g = Game::new(GraphicsSettings::default());
    assert!(g.click(1280, 720).is_empty(), "no pointer yet");
    let rows = screen_rows(MenuScreen::MainRoot, &g.settings, false);
    let r = menu_item_rects(1280, 720, &rows)[2];
    g.cursor_moved(1280, 720, (r.x + 1, r.y + 1));
    assert_eq!(g.menu.index, 2);
    g.cursor_moved(1280, 720, (0, 0));
    assert_eq!(g.menu.index, 2, "the selection stays");
    assert!(g.click(1280, 720).is_empty(), "beside the rows");
    g.cursor_moved(1280, 720, (r.x + 1, r.y + 1));
    assert_eq!(g.click(1280, 720), [Command::Exit]);
    // In the game the pointer is not for the menu.
    g.session_started();
    assert!(g.click(1280, 720).is_empty());
}

#[test]
fn keys_change_settings_in_play() {
    let mut g = Game::new(GraphicsSettings::default());
    assert_eq!(g.key(KeyCode::F1, true), [Command::ApplyShadows]);
    assert_eq!(g.settings.shadows, ShadowQuality::Medium);
    assert!(g.key(KeyCode::F1, false).is_empty());
    assert_eq!(g.key(KeyCode::F2, true), [Command::ApplyFxaa]);
    assert!(g.settings.fxaa);
    g.key(KeyCode::KeyV, true);
    assert!(!g.noclip, "nothing to fly through");
    g.session_started();
    g.key(KeyCode::KeyV, true);
    assert!(g.noclip);
    assert_eq!(g.key(KeyCode::BracketLeft, true), [Command::ExposureDown]);
    assert_eq!(g.key(KeyCode::BracketRight, true), [Command::ExposureUp]);
    assert!(g.set_paused(false).is_empty());
}

#[test]
fn outcomes_become_commands() {
    let mut g = Game::new(GraphicsSettings::default());
    for (o, c) in [
        (MenuOutcome::Quit, Command::Exit),
        (MenuOutcome::ApplyShadows, Command::ApplyShadows),
        (MenuOutcome::ApplyFxaa, Command::ApplyFxaa),
        (MenuOutcome::ApplyMsaa, Command::ApplyMsaa),
        (MenuOutcome::StartSession, Command::StartSession),
    ] {
        assert_eq!(g.handle_menu_outcome(o), [c]);
    }
    assert!(g.handle_menu_outcome(MenuOutcome::Stay).is_empty());
    assert!(g.handle_menu_outcome(MenuOutcome::Resume).is_empty());
}
