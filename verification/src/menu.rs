//! The menu: its screens, the selection, and where its rows stand on screen.
//!
//! Nothing here draws or waits for events. A menu changes the settings it is
//! handed and says what its owner has to do next. The rows' places follow from
//! the size of the surface alone, so what is drawn and what a click hits agree.
use vstd::prelude::*;
use vstd::string::*;

use crate::config;
use crate::float::F32;
use crate::graphics::GraphicsSettings;
use crate::text;
use crate::ui;
use crate::ui::{Color, Quad, UiPass};

verus! {

#[derive(Clone, Copy, PartialEq, Eq, Debug, Structural)]
pub enum MenuScreen {
    /// Shown while no world is loaded.
    MainRoot,
    /// Shown over a paused game.
    Root,
    Options,
    Graphics,
    Sound,
    Gameplay,
}

impl MenuScreen {
    pub open spec fn title_text(self) -> Seq<char> {
        match self {
            MenuScreen::MainRoot => "FEATHER"@,
            MenuScreen::Root => "PAUSED"@,
            MenuScreen::Options => "OPTIONS"@,
            MenuScreen::Graphics => "GRAPHICS"@,
            MenuScreen::Sound => "SOUND"@,
            MenuScreen::Gameplay => "GAMEPLAY"@,
        }
    }

    pub fn title(self) -> (r: &'static str)
        ensures
            r@ == self.title_text(),
    {
        match self {
            MenuScreen::MainRoot => "FEATHER",
            MenuScreen::Root => "PAUSED",
            MenuScreen::Options => "OPTIONS",
            MenuScreen::Graphics => "GRAPHICS",
            MenuScreen::Sound => "SOUND",
            MenuScreen::Gameplay => "GAMEPLAY",
        }
    }
}

/// What activating a row does. An inert row only shows something.
#[derive(Clone, Copy, PartialEq, Eq, Debug, Structural)]
pub enum MenuAction {
    Resume,
    Enter(MenuScreen),
    Back,
    Quit,
    ToggleFxaa,
    CycleShadows,
    CycleMsaa,
    NewGame,
    ToMainMenu,
    Inert,
}

#[derive(Debug)]
pub struct MenuRow {
    pub label: String,
    pub action: MenuAction,
}

pub struct RowModel {
    pub label: Seq<char>,
    pub action: MenuAction,
}

impl View for MenuRow {
    type V = RowModel;

    open spec fn view(&self) -> RowModel {
        RowModel { label: self.label@, action: self.action }
    }
}

pub open spec fn row_views(rows: Seq<MenuRow>) -> Seq<RowModel> {
    rows.map_values(|r: MenuRow| r@)
}

impl MenuRow {
    pub fn new(label: &str, action: MenuAction) -> (r: MenuRow)
        ensures
            r@ == (RowModel { label: label@, action }),
    {
        MenuRow { label: String::from_str(label), action }
    }

    /// Whether activating the row does anything.
    pub fn enabled(&self) -> (r: bool)
        ensures
            r == (self.action != MenuAction::Inert),
    {
        self.action != MenuAction::Inert
    }
}

/// What the owner of a menu has to do after an input.
#[derive(Clone, Copy, PartialEq, Eq, Debug, Structural)]
pub enum MenuOutcome {
    Stay,
    Resume,
    Quit,
    ApplyShadows,
    ApplyFxaa,
    ApplyMsaa,
    StartSession,
    EndSession,
}

pub open spec fn row(label: Seq<char>, action: MenuAction) -> RowModel {
    RowModel { label, action }
}

/// The rows of a screen. The sample count is built into what a session draws
/// with, so inside one its row is inert.
pub open spec fn rows_of(screen: MenuScreen, s: GraphicsSettings, in_session: bool) -> Seq<
    RowModel,
> {
    match screen {
        MenuScreen::MainRoot => seq![
            row("NEW GAME"@, MenuAction::NewGame),
            row("OPTIONS"@, MenuAction::Enter(MenuScreen::Options)),
            row("QUIT"@, MenuAction::Quit),
        ],
        MenuScreen::Root => seq![
            row("CONTINUE"@, MenuAction::Resume),
            row("OPTIONS"@, MenuAction::Enter(MenuScreen::Options)),
            row("MAIN MENU"@, MenuAction::ToMainMenu),
            row("EXIT"@, MenuAction::Quit),
        ],
        MenuScreen::Options => seq![
            row("GRAPHICS"@, MenuAction::Enter(MenuScreen::Graphics)),
            row("SOUND"@, MenuAction::Enter(MenuScreen::Sound)),
            row("GAMEPLAY"@, MenuAction::Enter(MenuScreen::Gameplay)),
            row("BACK"@, MenuAction::Back),
        ],
        MenuScreen::Graphics => seq![
            row("SHADOWS  "@ + s.shadows.menu_text(), MenuAction::CycleShadows),
            row(
                "FXAA  "@ + if s.fxaa {
                    "ON"@
                } else {
                    "OFF"@
                },
                MenuAction::ToggleFxaa,
            ),
            if in_session {
                row("MSAA  "@ + text::decimal(s.msaa as nat) + "X  MENU ONLY"@, MenuAction::Inert)
            } else {
                row("MSAA  "@ + text::decimal(s.msaa as nat) + "X"@, MenuAction::CycleMsaa)
            },
            row("BACK"@, MenuAction::Back),
        ],
        MenuScreen::Sound => seq![
            row("MASTER VOLUME"@, MenuAction::Inert),
            row("MUSIC"@, MenuAction::Inert),
            row("SFX"@, MenuAction::Inert),
            row("BACK"@, MenuAction::Back),
        ],
        MenuScreen::Gameplay => seq![
            row("SENSITIVITY"@, MenuAction::Inert),
            row("FIELD OF VIEW"@, MenuAction::Inert),
            row("INVERT Y"@, MenuAction::Inert),
            row("BACK"@, MenuAction::Back),
        ],
    }
}

fn graphics_rows(s: &GraphicsSettings, in_session: bool) -> (r: Vec<MenuRow>)
    ensures
        row_views(r@) == rows_of(MenuScreen::Graphics, *s, in_session),
{
    let shadows: String = config::around("SHADOWS  ", s.shadows.menu_label(), "");
    let fxaa: String = config::around(
        "FXAA  ",
        if s.fxaa {
            "ON"
        } else {
            "OFF"
        },
        "",
    );
    let mut count: String = String::new();
    text::push_decimal(&mut count, s.msaa as u64);
    let msaa: String = config::around(
        "MSAA  ",
        count.as_str(),
        if in_session {
            "X  MENU ONLY"
        } else {
            "X"
        },
    );
    let action: MenuAction = if in_session {
        MenuAction::Inert
    } else {
        MenuAction::CycleMsaa
    };
    let r: Vec<MenuRow> = vec![
        MenuRow { label: shadows, action: MenuAction::CycleShadows },
        MenuRow { label: fxaa, action: MenuAction::ToggleFxaa },
        MenuRow { label: msaa, action },
        MenuRow::new("BACK", MenuAction::Back),
    ];
    proof {
        reveal_strlit("");
        let want = rows_of(MenuScreen::Graphics, *s, in_session);
        assert(count@ =~= text::decimal(s.msaa as nat));
        assert(r@[0].label@ =~= want[0].label);
        assert(r@[1].label@ =~= want[1].label);
        assert(r@[2].label@ =~= want[2].label);
        assert(row_views(r@) =~= want);
    }
    r
}

/// The rows of a screen, built from the settings as they are.
pub fn screen_rows(screen: MenuScreen, s: &GraphicsSettings, in_session: bool) -> (r: Vec<MenuRow>)
    ensures
        row_views(r@) == rows_of(screen, *s, in_session),
{
    let r: Vec<MenuRow> = match screen {
        MenuScreen::MainRoot => vec![
            MenuRow::new("NEW GAME", MenuAction::NewGame),
            MenuRow::new("OPTIONS", MenuAction::Enter(MenuScreen::Options)),
            MenuRow::new("QUIT", MenuAction::Quit),
        ],
        MenuScreen::Root => vec![
            MenuRow::new("CONTINUE", MenuAction::Resume),
            MenuRow::new("OPTIONS", MenuAction::Enter(MenuScreen::Options)),
            MenuRow::new("MAIN MENU", MenuAction::ToMainMenu),
            MenuRow::new("EXIT", MenuAction::Quit),
        ],
        MenuScreen::Options => vec![
            MenuRow::new("GRAPHICS", MenuAction::Enter(MenuScreen::Graphics)),
            MenuRow::new("SOUND", MenuAction::Enter(MenuScreen::Sound)),
            MenuRow::new("GAMEPLAY", MenuAction::Enter(MenuScreen::Gameplay)),
            MenuRow::new("BACK", MenuAction::Back),
        ],
        MenuScreen::Graphics => graphics_rows(s, in_session),
        MenuScreen::Sound => vec![
            MenuRow::new("MASTER VOLUME", MenuAction::Inert),
            MenuRow::new("MUSIC", MenuAction::Inert),
            MenuRow::new("SFX", MenuAction::Inert),
            MenuRow::new("BACK", MenuAction::Back),
        ],
        MenuScreen::Gameplay => vec![
            MenuRow::new("SENSITIVITY", MenuAction::Inert),
            MenuRow::new("FIELD OF VIEW", MenuAction::Inert),
            MenuRow::new("INVERT Y", MenuAction::Inert),
            MenuRow::new("BACK", MenuAction::Back),
        ],
    };
    assert(row_views(r@) =~= rows_of(screen, *s, in_session));
    r
}

/// The selection: a row of a screen, and the rows that lead to the screen.
#[derive(Debug)]
pub struct Menu {
    pub screen: MenuScreen,
    pub index: usize,
    pub stack: Vec<(MenuScreen, usize)>,
}

pub struct MenuModel {
    pub screen: MenuScreen,
    pub index: usize,
    pub stack: Seq<(MenuScreen, usize)>,
}

impl View for Menu {
    type V = MenuModel;

    open spec fn view(&self) -> MenuModel {
        MenuModel { screen: self.screen, index: self.index, stack: self.stack@ }
    }
}

/// A menu at a top level, with no way back.
pub open spec fn at_root(root: MenuScreen) -> MenuModel {
    MenuModel { screen: root, index: 0, stack: Seq::empty() }
}

/// The sample count after `msaa`.
pub open spec fn next_msaa(msaa: u32) -> u32 {
    if msaa == 1 {
        2
    } else if msaa == 2 {
        4
    } else if msaa == 4 {
        8
    } else {
        1
    }
}

impl MenuModel {
    pub open spec fn descended(self, screen: MenuScreen) -> MenuModel {
        MenuModel { screen, index: 0, stack: self.stack.push((self.screen, self.index)) }
    }

    /// Up one level, to the row that led here. From the pause menu's top level
    /// that is back into the game; from the main menu's it is nowhere.
    pub open spec fn backed(self) -> (MenuModel, MenuOutcome) {
        if self.stack.len() > 0 {
            (
                MenuModel {
                    screen: self.stack.last().0,
                    index: self.stack.last().1,
                    stack: self.stack.drop_last(),
                },
                MenuOutcome::Stay,
            )
        } else if self.screen == MenuScreen::MainRoot {
            (self, MenuOutcome::Stay)
        } else {
            (self, MenuOutcome::Resume)
        }
    }

    /// The selected row's action, or none where no row is selected.
    pub open spec fn selected(self, s: GraphicsSettings, in_session: bool) -> MenuAction {
        let rows = rows_of(self.screen, s, in_session);
        if self.index < rows.len() {
            rows[self.index as int].action
        } else {
            MenuAction::Inert
        }
    }

    /// Menu, settings and outcome after the selected row was activated.
    pub open spec fn activated(self, s: GraphicsSettings, in_session: bool) -> (
        MenuModel,
        GraphicsSettings,
        MenuOutcome,
    ) {
        match self.selected(s, in_session) {
            MenuAction::Resume => (self, s, MenuOutcome::Resume),
            MenuAction::Quit => (self, s, MenuOutcome::Quit),
            MenuAction::Enter(screen) => (self.descended(screen), s, MenuOutcome::Stay),
            MenuAction::Back => (self.backed().0, s, self.backed().1),
            MenuAction::ToggleFxaa => (
                self,
                GraphicsSettings { fxaa: !s.fxaa, ..s },
                MenuOutcome::ApplyFxaa,
            ),
            MenuAction::CycleShadows => (
                self,
                GraphicsSettings { shadows: s.shadows.next_spec(), ..s },
                MenuOutcome::ApplyShadows,
            ),
            MenuAction::CycleMsaa => (
                self,
                GraphicsSettings { msaa: next_msaa(s.msaa), ..s },
                MenuOutcome::ApplyMsaa,
            ),
            MenuAction::NewGame => (self, s, MenuOutcome::StartSession),
            MenuAction::ToMainMenu => (self, s, MenuOutcome::EndSession),
            MenuAction::Inert => (self, s, MenuOutcome::Stay),
        }
    }

    /// The selection moved by some rows, round the ends.
    pub open spec fn moved(self, delta: int, s: GraphicsSettings, in_session: bool) -> MenuModel {
        MenuModel {
            index: ((self.index + delta) % (rows_of(self.screen, s, in_session).len() as int))
                as usize,
            ..self
        }
    }

    pub open spec fn hovered(self, index: usize, s: GraphicsSettings, in_session: bool) -> MenuModel {
        if index < rows_of(self.screen, s, in_session).len() {
            MenuModel { index, ..self }
        } else {
            self
        }
    }
}

impl Menu {
    pub fn new() -> (r: Menu)
        ensures
            r@ == at_root(MenuScreen::MainRoot),
    {
        let r: Menu = Menu { screen: MenuScreen::MainRoot, index: 0, stack: Vec::new() };
        assert(r.stack@ =~= Seq::empty());
        r
    }

    /// Go to a top level and forget the way there.
    pub fn reset(&mut self, root: MenuScreen)
        ensures
            final(self)@ == at_root(root),
    {
        self.screen = root;
        self.index = 0;
        self.stack.clear();
        assert(self.stack@ =~= Seq::empty());
    }

    pub fn rows(&self, s: &GraphicsSettings, in_session: bool) -> (r: Vec<MenuRow>)
        ensures
            row_views(r@) == rows_of(self.screen, *s, in_session),
    {
        screen_rows(self.screen, s, in_session)
    }

    /// Move the selection, round the ends.
    pub fn move_by(&mut self, delta: isize, s: &GraphicsSettings, in_session: bool)
        ensures
            final(self)@ == old(self)@.moved(delta as int, *s, in_session),
    {
        let rows: Vec<MenuRow> = self.rows(s, in_session);
        assert(rows@.len() == row_views(rows@).len());
        let n: i128 = rows.len() as i128;
        let sum: i128 = self.index as i128 + delta as i128;
        let rest: i128 = if sum >= 0 {
            sum % n
        } else {
            let r: i128 = (-sum) % n;
            if r == 0 {
                0
            } else {
                n - r
            }
        };
        proof {
            if sum < 0 {
                lemma_euclid(sum as int, n as int);
            }
            assert(rest == (self.index + delta) % (n as int));
        }
        self.index = rest as usize;
    }

    /// Select a row, if the screen has it.
    pub fn hover(&mut self, index: usize, s: &GraphicsSettings, in_session: bool)
        ensures
            final(self)@ == old(self)@.hovered(index, *s, in_session),
    {
        let rows: Vec<MenuRow> = self.rows(s, in_session);
        assert(rows@.len() == row_views(rows@).len());
        if index < rows.len() {
            self.index = index;
        }
    }

    /// Go to a screen below this one.
    pub fn descend(&mut self, screen: MenuScreen)
        ensures
            final(self)@ == old(self)@.descended(screen),
    {
        self.stack.push((self.screen, self.index));
        self.screen = screen;
        self.index = 0;
    }

    /// Up one level.
    pub fn back(&mut self) -> (r: MenuOutcome)
        ensures
            (final(self)@, r) == old(self)@.backed(),
    {
        match self.stack.pop() {
            Some((screen, index)) => {
                self.screen = screen;
                self.index = index;
                MenuOutcome::Stay
            },
            None => if self.screen == MenuScreen::MainRoot {
                MenuOutcome::Stay
            } else {
                MenuOutcome::Resume
            },
        }
    }

    /// Do what the selected row says.
    pub fn activate(&mut self, s: &mut GraphicsSettings, in_session: bool) -> (r: MenuOutcome)
        ensures
            (final(self)@, *final(s), r) == old(self)@.activated(*old(s), in_session),
    {
        let rows: Vec<MenuRow> = self.rows(s, in_session);
        assert(rows@.len() == row_views(rows@).len());
        if self.index >= rows.len() {
            return MenuOutcome::Stay;
        }
        let action: MenuAction = rows[self.index].action;
        assert(action == row_views(rows@)[self.index as int].action);
        match action {
            MenuAction::Resume => MenuOutcome::Resume,
            MenuAction::Quit => MenuOutcome::Quit,
            MenuAction::Enter(screen) => {
                self.descend(screen);
                MenuOutcome::Stay
            },
            MenuAction::Back => self.back(),
            MenuAction::ToggleFxaa => {
                s.fxaa = !s.fxaa;
                MenuOutcome::ApplyFxaa
            },
            MenuAction::CycleShadows => {
                s.shadows = s.shadows.next();
                MenuOutcome::ApplyShadows
            },
            MenuAction::CycleMsaa => {
                s.msaa = match s.msaa {
                    1 => 2,
                    2 => 4,
                    4 => 8,
                    _ => 1,
                };
                MenuOutcome::ApplyMsaa
            },
            MenuAction::NewGame => MenuOutcome::StartSession,
            MenuAction::ToMainMenu => MenuOutcome::EndSession,
            MenuAction::Inert => MenuOutcome::Stay,
        }
    }
}

proof fn lemma_euclid(sum: int, n: int)
    requires
        sum < 0,
        n > 0,
    ensures
        (-sum) % n == 0 ==> sum % n == 0,
        (-sum) % n != 0 ==> sum % n == n - (-sum) % n,
{
    let q = (-sum) / n;
    let r = (-sum) % n;
    assert(-sum == n * q + r && 0 <= r < n) by (nonlinear_arith)
        requires
            n > 0,
            q == (-sum) / n,
            r == (-sum) % n,
    ;
    if r == 0 {
        assert(sum == n * (-q)) by (nonlinear_arith)
            requires
                -sum == n * q + r,
                r == 0,
        ;
        vstd::arithmetic::div_mod::lemma_fundamental_div_mod_converse(sum, n, -q, 0);
    } else {
        assert(sum == n * (-q - 1) + (n - r)) by (nonlinear_arith)
            requires
                -sum == n * q + r,
        ;
        vstd::arithmetic::div_mod::lemma_fundamental_div_mod_converse(sum, n, -q - 1, n - r);
    }
}

/// Pixels in a font pixel of the menu on a surface `h` pixels high.
pub open spec fn font_px(h: u32) -> u32 {
    if h / 220 < 2 {
        2
    } else {
        h / 220
    }
}

pub fn menu_font_px(h: u32) -> (r: u32)
    ensures
        r == font_px(h),
{
    let px: u32 = h / 220;
    if px < 2 {
        2
    } else {
        px
    }
}

/// A rectangle in hundredths of a pixel.
#[derive(Clone, Copy, PartialEq, Eq, Debug, Structural)]
pub struct Rect {
    pub x: i128,
    pub y: i128,
    pub w: i128,
    pub h: i128,
}

impl Rect {
    /// Whether a point lies inside. The right and lower edges do not.
    pub open spec fn holds(self, x: int, y: int) -> bool {
        &&& self.x <= x < self.x + self.w
        &&& self.y <= y < self.y + self.h
    }
}

/// From one line of the menu to the next: a line of text and six fifths more.
pub open spec fn line_of(px: int) -> int {
    1540 * px
}

/// Where the row at place `i` of `n` stands: its text is centred, the lines are
/// centred together, and the rectangle is the text's grown by four font pixels
/// to the sides and by two up and down.
pub open spec fn row_rect(w: u32, h: u32, n: nat, label: Seq<char>, i: int) -> Rect {
    let px = font_px(h) as int;
    let tw = ui::width_of(label, (100 * px) as u32);
    Rect {
        x: ((100 * w - tw) / 2 - 400 * px) as i128,
        y: ((100 * h - line_of(px) * n) / 2 + line_of(px) * i - 200 * px) as i128,
        w: (tw + 800 * px) as i128,
        h: (1100 * px) as i128,
    }
}

pub open spec fn rects_of(w: u32, h: u32, rows: Seq<RowModel>) -> Seq<Rect> {
    Seq::new(rows.len(), |i: int| row_rect(w, h, rows.len(), rows[i].label, i))
}

proof fn lemma_product_fits(a: int, b: int)
    requires
        0 <= a <= 0x10_0000_0000_0000_0000,
        0 <= b <= 0x100_0000_0000,
    ensures
        0 <= a * b <= 0x1000_0000_0000_0000_0000_0000_0000,
{
    assert(0 <= a * b <= 0x10_0000_0000_0000_0000 * 0x100_0000_0000) by (nonlinear_arith)
        requires
            0 <= a <= 0x10_0000_0000_0000_0000,
            0 <= b <= 0x100_0000_0000,
    ;
}

/// A rectangle that sums of its parts stay in range for.
pub open spec fn placed(r: Rect) -> bool {
    &&& -ui::FAR <= 2 * r.x <= ui::FAR
    &&& -ui::FAR <= 2 * r.y <= ui::FAR
    &&& 0 <= r.w <= ui::FAR
    &&& 0 <= r.h <= ui::FAR
}

/// The rectangles of a screen's rows.
pub fn menu_item_rects(w: u32, h: u32, rows: &Vec<MenuRow>) -> (r: Vec<Rect>)
    ensures
        r@ == rects_of(w, h, row_views(rows@)),
        forall|i: int| 0 <= i < r@.len() ==> placed(#[trigger] r@[i]),
{
    let px: u32 = menu_font_px(h);
    let line: i128 = 1540 * px as i128;
    let pad: i128 = 400 * px as i128;
    let n: usize = rows.len();
    let mut out: Vec<Rect> = Vec::new();
    proof {
        lemma_product_fits(n as int, line as int);
    }
    let all: i128 = line * n as i128;
    proof {
        assert(line * n == 2 * ((770 * px) * n)) by (nonlinear_arith)
            requires
                line == 1540 * px,
        ;
    }
    let top: i128 = (100 * h as i128 - all) / 2;
    assert(top == (100 * h - line_of(px as int) * n) / 2) by {
        assert(line_of(px as int) * n == all);
    }
    for i in 0..n
        invariant
            n == rows@.len(),
            px == font_px(h),
            line == 1540 * px,
            pad == 400 * px,
            top == (100 * h - line_of(px as int) * n) / 2,
            -0x1000_0000_0000_0000_0000_0000_0000 <= top <= 0x1000_0000_0000_0000_0000_0000_0000,
            forall|j: int| 0 <= j < out@.len() ==> placed(#[trigger] out@[j]),
            out@.len() == i,
            forall|j: int|
                0 <= j < i ==> out@[j] == #[trigger] row_rect(
                    w,
                    h,
                    n as nat,
                    row_views(rows@)[j].label,
                    j,
                ),
    {
        let tw: i128 = UiPass::text_width(rows[i].label.as_str(), 100 * px);
        proof {
            let len = rows@[i as int].label@.len() as int;
            lemma_product_fits(len * 6, (100 * px) as int);
            lemma_product_fits(i as int, line as int);
            assert(line * i == i * line) by (nonlinear_arith);
            assert(tw == 2 * (len * 3 * (100 * px))) by (nonlinear_arith)
                requires
                    tw == len * 6 * (100 * px),
            ;
        }
        let x: i128 = (100 * w as i128 - tw) / 2;
        assert(x == (100 * w - tw) / 2);
        let y: i128 = top + line * i as i128;
        out.push(
            Rect {
                x: x - pad,
                y: y - pad / 2,
                w: tw + pad * 2,
                h: UiPass::text_height(100 * px) + pad,
            },
        );
        assert(row_views(rows@)[i as int].label == rows@[i as int].label@);
    }
    assert(out@ =~= rects_of(w, h, row_views(rows@)));
    out
}

/// The row under a point, given in hundredths of a pixel.
pub open spec fn is_hit(rects: Seq<Rect>, cx: int, cy: int, r: Option<usize>) -> bool {
    match r {
        Some(i) => {
            &&& i < rects.len()
            &&& rects[i as int].holds(cx, cy)
            &&& forall|j: int| 0 <= j < i ==> !(#[trigger] rects[j]).holds(cx, cy)
        },
        None => forall|j: int| 0 <= j < rects.len() ==> !(#[trigger] rects[j]).holds(cx, cy),
    }
}

/// The first row from place `i` on that is under a point.
pub open spec fn hit_from(rects: Seq<Rect>, cx: int, cy: int, i: int) -> Option<usize>
    decreases rects.len() - i,
{
    if i < 0 || i >= rects.len() {
        None
    } else if rects[i].holds(cx, cy) {
        Some(i as usize)
    } else {
        hit_from(rects, cx, cy, i + 1)
    }
}

pub fn menu_hit(w: u32, h: u32, rows: &Vec<MenuRow>, cx: i128, cy: i128) -> (r: Option<usize>)
    ensures
        r == hit_from(rects_of(w, h, row_views(rows@)), cx as int, cy as int, 0),
        is_hit(rects_of(w, h, row_views(rows@)), cx as int, cy as int, r),
{
    let rects: Vec<Rect> = menu_item_rects(w, h, rows);
    for i in 0..rects.len()
        invariant
            rects@ == rects_of(w, h, row_views(rows@)),
            hit_from(rects@, cx as int, cy as int, 0) == hit_from(
                rects@,
                cx as int,
                cy as int,
                i as int,
            ),
            forall|j: int| 0 <= j < rects@.len() ==> placed(#[trigger] rects@[j]),
            forall|j: int| 0 <= j < i ==> !(#[trigger] rects@[j]).holds(cx as int, cy as int),
    {
        let r: Rect = rects[i];
        assert(placed(rects@[i as int]));
        if cx >= r.x && cx < r.x + r.w && cy >= r.y && cy < r.y + r.h {
            return Some(i);
        }
    }
    None
}

pub open spec fn shade(bits: u32, alpha: u32) -> Color {
    Color {
        r: F32 { bits },
        g: F32 { bits },
        b: F32 { bits },
        a: F32 { bits: alpha },
    }
}

fn grey(bits: u32, alpha: u32) -> (r: Color)
    ensures
        r == shade(bits, alpha),
{
    Color {
        r: F32 { bits },
        g: F32 { bits },
        b: F32 { bits },
        a: F32 { bits: alpha },
    }
}

/// 0.55, 0.9, 0.25, 0.45, 0.85, 1.0, 0.72, 0.65 and 0.4 as single precision bits.
pub const P55: u32 = 0x3f0c_cccd;

pub const P90: u32 = 0x3f66_6666;

pub const P25: u32 = 0x3e80_0000;

pub const P45: u32 = 0x3ee6_6666;

pub const P85: u32 = 0x3f59_999a;

pub const ONE: u32 = 0x3f80_0000;

pub const P72: u32 = 0x3f38_51ec;

pub const P65: u32 = 0x3f26_6666;

pub const P40: u32 = 0x3ecc_cccd;

/// The bar behind the selected row.
pub open spec fn bar_color() -> Color {
    Color { r: F32 { bits: P25 }, g: F32 { bits: P45 }, b: F32 { bits: P85 }, a: F32 { bits: P85 } }
}

/// Inert rows are dimmer, and the selected row is brighter.
pub open spec fn row_color(selected: bool, enabled: bool) -> Color {
    if selected && enabled {
        shade(ONE, ONE)
    } else if selected {
        shade(P72, ONE)
    } else if enabled {
        shade(P65, ONE)
    } else {
        shade(P40, ONE)
    }
}

/// What the row at place `i` draws: its bar when it is selected, and its text.
pub open spec fn row_quads(w: u32, h: u32, rows: Seq<RowModel>, index: usize, i: int) -> Seq<Quad> {
    let r = row_rect(w, h, rows.len(), rows[i].label, i);
    let px = font_px(h);
    let bar = if i == index {
        seq![(Quad { x: r.x, y: r.y, w: r.w, h: r.h, ink: ui::Ink::Solid, color: bar_color() })]
    } else {
        seq![]
    };
    bar + ui::text_quads(
        (r.x + 400 * px) as i128,
        (r.y + 200 * px) as i128,
        (100 * px) as u32,
        row_color(i == index, rows[i].action != MenuAction::Inert),
        rows[i].label,
    )
}

pub open spec fn rows_quads(
    w: u32,
    h: u32,
    rows: Seq<RowModel>,
    index: usize,
    n: nat,
) -> Seq<Quad>
    decreases n,
{
    if n == 0 {
        seq![]
    } else {
        rows_quads(w, h, rows, index, (n - 1) as nat) + row_quads(w, h, rows, index, n - 1)
    }
}

/// The dimmed backdrop, and the screen's title above the rows.
pub open spec fn head_quads(w: u32, h: u32, title: Seq<char>) -> Seq<Quad> {
    let px = (160 * font_px(h)) as u32;
    seq![
        (Quad {
            x: 0,
            y: 0,
            w: (100 * w) as i128,
            h: (100 * h) as i128,
            ink: ui::Ink::Solid,
            color: shade(0, P55),
        }),
    ] + ui::text_quads(
        ((100 * w - ui::width_of(title, px)) / 2) as i128,
        (28 * h) as i128,
        px,
        shade(P90, ONE),
        title,
    )
}

/// All that a menu draws over a surface of `w` by `h` pixels.
pub open spec fn menu_quads(
    m: MenuModel,
    s: GraphicsSettings,
    in_session: bool,
    w: u32,
    h: u32,
) -> Seq<Quad> {
    let rows = rows_of(m.screen, s, in_session);
    head_quads(w, h, m.screen.title_text()) + rows_quads(w, h, rows, m.index, rows.len())
}

proof fn lemma_capped_add(quads: Seq<Quad>, a: Seq<Quad>, b: Seq<Quad>)
    ensures
        ui::capped(ui::capped(quads, a), b) == ui::capped(quads, a + b),
{
    assert(ui::capped(ui::capped(quads, a), b) =~= ui::capped(quads, a + b));
}

fn draw_head(out: &mut UiPass, screen: MenuScreen, w: u32, h: u32)
    ensures
        final(out).quads@ == ui::capped(old(out).quads@, head_quads(w, h, screen.title_text())),
        final(out).width == old(out).width,
        final(out).height == old(out).height,
{
    let px: u32 = 160 * menu_font_px(h);
    let title: &str = screen.title();
    let tw: i128 = UiPass::text_width(title, px);
    out.rect(0, 0, 100 * w as i128, 100 * h as i128, grey(0, P55));
    proof {
        let len = title@.len() as int;
        lemma_product_fits(len * 6, px as int);
        assert(tw == 2 * (len * 3 * px)) by (nonlinear_arith)
            requires
                tw == len * 6 * px,
        ;
    }
    let x: i128 = (100 * w as i128 - tw) / 2;
    assert(x == (100 * w - tw) / 2);
    out.text(x, 28 * h as i128, px, grey(P90, ONE), title);
    proof {
        lemma_capped_add(
            old(out).quads@,
            head_quads(w, h, title@).take(1),
            ui::text_quads(x, (28 * h) as i128, px, shade(P90, ONE), title@),
        );
        assert(head_quads(w, h, title@).take(1) + ui::text_quads(
            x,
            (28 * h) as i128,
            px,
            shade(P90, ONE),
            title@,
        ) =~= head_quads(w, h, title@));
        assert(head_quads(w, h, title@).take(1) =~= seq![
            (Quad {
                x: 0,
                y: 0,
                w: (100 * w) as i128,
                h: (100 * h) as i128,
                ink: ui::Ink::Solid,
                color: shade(0, P55),
            }),
        ]);
    }
}

fn draw_row(out: &mut UiPass, rows: &Vec<MenuRow>, rect: Rect, index: usize, i: usize, w: u32, h: u32)
    requires
        i < rows@.len(),
        placed(rect),
        rect == row_rect(w, h, rows@.len(), rows@[i as int].label@, i as int),
    ensures
        final(out).quads@ == ui::capped(
            old(out).quads@,
            row_quads(w, h, row_views(rows@), index, i as int),
        ),
        final(out).width == old(out).width,
        final(out).height == old(out).height,
{
    let px: u32 = menu_font_px(h);
    let pad: i128 = 400 * px as i128;
    let selected: bool = i == index;
    let enabled: bool = rows[i].enabled();
    let bar: Color = Color {
        r: F32 { bits: P25 },
        g: F32 { bits: P45 },
        b: F32 { bits: P85 },
        a: F32 { bits: P85 },
    };
    let color: Color = if selected {
        if enabled {
            grey(ONE, ONE)
        } else {
            grey(P72, ONE)
        }
    } else if enabled {
        grey(P65, ONE)
    } else {
        grey(P40, ONE)
    };
    let ghost first: Seq<Quad> = if selected {
        seq![(Quad { x: rect.x, y: rect.y, w: rect.w, h: rect.h, ink: ui::Ink::Solid, color: bar })]
    } else {
        seq![]
    };
    if selected {
        out.rect(rect.x, rect.y, rect.w, rect.h, bar);
    } else {
        assert(ui::capped(out.quads@, first) =~= out.quads@);
    }
    out.text(rect.x + pad, rect.y + pad / 2, 100 * px, color, rows[i].label.as_str());
    proof {
        assert(row_views(rows@)[i as int] == rows@[i as int]@);
        lemma_capped_add(
            old(out).quads@,
            first,
            ui::text_quads(
                (rect.x + 400 * px) as i128,
                (rect.y + 200 * px) as i128,
                (100 * px) as u32,
                color,
                rows@[i as int].label@,
            ),
        );
    }
}

/// Draw a menu over a surface of `w` by `h` pixels.
pub fn draw_menu(
    out: &mut UiPass,
    menu: &Menu,
    s: &GraphicsSettings,
    in_session: bool,
    w: u32,
    h: u32,
)
    ensures
        final(out).quads@ == ui::capped(
            old(out).quads@,
            menu_quads(menu@, *s, in_session, w, h),
        ),
        final(out).width == old(out).width,
        final(out).height == old(out).height,
{
    let ghost first = head_quads(w, h, menu.screen.title_text());
    let ghost start = out.quads@;
    draw_head(out, menu.screen, w, h);
    let rows: Vec<MenuRow> = menu.rows(s, in_session);
    let rects: Vec<Rect> = menu_item_rects(w, h, &rows);
    let n: usize = rows.len();
    assert(first + rows_quads(w, h, row_views(rows@), menu.index, 0) =~= first);
    for i in 0..n
        invariant
            n == rows@.len(),
            rects@ == rects_of(w, h, row_views(rows@)),
            forall|j: int| 0 <= j < rects@.len() ==> placed(#[trigger] rects@[j]),
            out.quads@ == ui::capped(
                start,
                first + rows_quads(w, h, row_views(rows@), menu.index, i as nat),
            ),
            out.width == old(out).width,
            out.height == old(out).height,
    {
        let rect: Rect = rects[i];
        assert(row_views(rows@)[i as int].label == rows@[i as int].label@);
        assert(placed(rects@[i as int]));
        draw_row(out, &rows, rect, menu.index, i, w, h);
        proof {
            let a = first + rows_quads(w, h, row_views(rows@), menu.index, i as nat);
            let b = row_quads(w, h, row_views(rows@), menu.index, i as int);
            lemma_capped_add(start, a, b);
            assert(a + b =~= first + rows_quads(
                w,
                h,
                row_views(rows@),
                menu.index,
                (i + 1) as nat,
            ));
        }
    }
    assert(row_views(rows@).len() == n);
}

/// Going back from a screen returns to the row that led to it.
pub proof fn law_back_undoes_descend(m: MenuModel, screen: MenuScreen)
    ensures
        m.descended(screen).backed() == (m, MenuOutcome::Stay),
{
    assert(m.descended(screen).stack.drop_last() =~= m.stack);
}

/// Back walks up one level at a time and leaves for the game only from the
/// pause menu's top level; in the main menu there is nothing to resume.
pub proof fn law_back_leaves_from_the_top(m: MenuModel)
    ensures
        m.backed().1 == MenuOutcome::Resume <==> m.stack.len() == 0 && m.screen
            != MenuScreen::MainRoot,
        m.stack.len() > 0 ==> m.backed().0.stack.len() == m.stack.len() - 1,
        m.stack.len() == 0 ==> m.backed().0 == m,
{
}

/// Every screen has rows, and every screen below a top level ends with the row
/// that leads back up.
pub proof fn law_screens_have_a_way_out(screen: MenuScreen, s: GraphicsSettings, in_session: bool)
    ensures
        3 <= rows_of(screen, s, in_session).len() <= 4,
        screen != MenuScreen::MainRoot && screen != MenuScreen::Root ==> rows_of(
            screen,
            s,
            in_session,
        ).last().action == MenuAction::Back,
{
}

/// The options are reached from both top levels, by the same row.
pub proof fn law_options_are_reached_from_both_roots(
    root: MenuScreen,
    s: GraphicsSettings,
    in_session: bool,
)
    requires
        root == MenuScreen::MainRoot || root == MenuScreen::Root,
    ensures
        (MenuModel { index: 1, ..at_root(root) }).activated(s, in_session) == (
            (MenuModel { index: 1, ..at_root(root) }).descended(MenuScreen::Options),
            s,
            MenuOutcome::Stay,
        ),
{
}

/// The selection stays on the screen, moving back undoes moving, and the ends
/// are next to each other.
pub proof fn law_selection_wraps(m: MenuModel, delta: int, s: GraphicsSettings, in_session: bool)
    requires
        m.index < rows_of(m.screen, s, in_session).len(),
    ensures
        m.moved(delta, s, in_session).index < rows_of(m.screen, s, in_session).len(),
        m.moved(delta, s, in_session).moved(-delta, s, in_session) == m,
        m.index == 0 ==> m.moved(-1, s, in_session).index == rows_of(
            m.screen,
            s,
            in_session,
        ).len() - 1,
        m.index + 1 == rows_of(m.screen, s, in_session).len() ==> m.moved(
            1,
            s,
            in_session,
        ).index == 0,
{
    let n = rows_of(m.screen, s, in_session).len() as int;
    law_screens_have_a_way_out(m.screen, s, in_session);
    let to = (m.index + delta) % n;
    vstd::arithmetic::div_mod::lemma_mod_bound(m.index + delta, n);
    vstd::arithmetic::div_mod::lemma_add_mod_noop_right(-delta, m.index + delta, n);
    vstd::arithmetic::div_mod::lemma_small_mod(m.index as nat, n as nat);
    assert((to + -delta) % n == m.index);
    assert(m.moved(delta, s, in_session).index == to);
    if m.index == 0 {
        vstd::arithmetic::div_mod::lemma_fundamental_div_mod_converse(-1, n, -1, n - 1);
        assert((m.index + -1) % n == n - 1);
    }
    if m.index + 1 == n {
        vstd::arithmetic::div_mod::lemma_mod_self_0(n);
        assert((m.index + 1) % n == 0);
    }
}

/// Activating an inert row changes nothing.
pub proof fn law_inert_rows_change_nothing(m: MenuModel, s: GraphicsSettings, in_session: bool)
    requires
        m.selected(s, in_session) == MenuAction::Inert,
    ensures
        m.activated(s, in_session) == (m, s, MenuOutcome::Stay),
{
}

/// Inside a session no row changes the sample count.
pub proof fn law_samples_are_fixed_in_a_session(m: MenuModel, s: GraphicsSettings)
    ensures
        m.activated(s, true).1.msaa == s.msaa,
        m.activated(s, true).2 != MenuOutcome::ApplyMsaa,
{
}

/// Outside a session the sample count goes round the legal counts.
pub proof fn law_samples_cycle_in_the_main_menu(m: MenuModel, s: GraphicsSettings)
    requires
        m.screen == MenuScreen::Graphics,
        m.index == 2,
    ensures
        m.activated(s, false) == (
            m,
            GraphicsSettings { msaa: next_msaa(s.msaa), ..s },
            MenuOutcome::ApplyMsaa,
        ),
        s.msaa == 1 || s.msaa == 2 || s.msaa == 4 || s.msaa == 8 ==> next_msaa(
            next_msaa(next_msaa(next_msaa(s.msaa))),
        ) == s.msaa,
{
}

/// A row changes a setting exactly when its outcome asks for that setting to be
/// applied, and no row changes two.
pub proof fn law_changes_are_announced(m: MenuModel, s: GraphicsSettings, in_session: bool)
    ensures
        ({
            let (_, t, outcome) = m.activated(s, in_session);
            &&& outcome == MenuOutcome::ApplyFxaa <==> t.fxaa != s.fxaa
            &&& outcome == MenuOutcome::ApplyShadows <==> t.shadows != s.shadows
            &&& outcome == MenuOutcome::ApplyMsaa <==> t.msaa != s.msaa
            &&& t.bake == s.bake
        }),
{
}

/// Whether a text can be drawn: it holds capitals, digits and spaces only.
pub open spec fn readable(t: Seq<char>) -> bool {
    forall|i: int| 0 <= i < t.len() ==> plain(#[trigger] t[i])
}

pub open spec fn plain(c: char) -> bool {
    ('A' <= c <= 'Z') || ('0' <= c <= '9') || c == ' '
}

proof fn lemma_readable_add(a: Seq<char>, b: Seq<char>)
    requires
        readable(a),
        readable(b),
    ensures
        readable(a + b),
{
    assert forall|i: int| 0 <= i < (a + b).len() implies plain(#[trigger] (a + b)[i]) by {
        if i < a.len() {
            assert((a + b)[i] == a[i]);
        } else {
            assert((a + b)[i] == b[i - a.len()]);
        }
    }
}

proof fn lemma_decimal_readable(n: nat)
    ensures
        readable(text::decimal(n)),
    decreases n,
{
    if n >= 10 {
        lemma_decimal_readable(n / 10);
    }
}

proof fn lemma_labels()
    ensures
        readable("NEW GAME"@),
        readable("OPTIONS"@),
        readable("QUIT"@),
        readable("CONTINUE"@),
        readable("MAIN MENU"@),
        readable("EXIT"@),
        readable("GRAPHICS"@),
        readable("SOUND"@),
        readable("GAMEPLAY"@),
        readable("BACK"@),
        readable("MASTER VOLUME"@),
        readable("MUSIC"@),
        readable("SFX"@),
        readable("SENSITIVITY"@),
        readable("FIELD OF VIEW"@),
        readable("INVERT Y"@),
        readable("FEATHER"@),
        readable("PAUSED"@),
{
    reveal_strlit("NEW GAME");
    reveal_strlit("OPTIONS");
    reveal_strlit("QUIT");
    reveal_strlit("CONTINUE");
    reveal_strlit("MAIN MENU");
    reveal_strlit("EXIT");
    reveal_strlit("GRAPHICS");
    reveal_strlit("SOUND");
    reveal_strlit("GAMEPLAY");
    reveal_strlit("BACK");
    reveal_strlit("MASTER VOLUME");
    reveal_strlit("MUSIC");
    reveal_strlit("SFX");
    reveal_strlit("SENSITIVITY");
    reveal_strlit("FIELD OF VIEW");
    reveal_strlit("INVERT Y");
    reveal_strlit("FEATHER");
    reveal_strlit("PAUSED");
}

proof fn lemma_setting_labels(s: GraphicsSettings)
    ensures
        readable("SHADOWS  "@ + s.shadows.menu_text()),
        readable("FXAA  "@ + "ON"@),
        readable("FXAA  "@ + "OFF"@),
        readable("MSAA  "@ + text::decimal(s.msaa as nat) + "X  MENU ONLY"@),
        readable("MSAA  "@ + text::decimal(s.msaa as nat) + "X"@),
{
    reveal_strlit("SHADOWS  ");
    reveal_strlit("FXAA  ");
    reveal_strlit("MSAA  ");
    reveal_strlit("X  MENU ONLY");
    reveal_strlit("X");
    reveal_strlit("ON");
    reveal_strlit("OFF");
    reveal_strlit("LOW");
    reveal_strlit("MEDIUM");
    reveal_strlit("HIGH");
    assert(readable(s.shadows.menu_text()));
    lemma_readable_add("SHADOWS  "@, s.shadows.menu_text());
    lemma_readable_add("FXAA  "@, "ON"@);
    lemma_readable_add("FXAA  "@, "OFF"@);
    lemma_decimal_readable(s.msaa as nat);
    lemma_readable_add("MSAA  "@, text::decimal(s.msaa as nat));
    lemma_readable_add("MSAA  "@ + text::decimal(s.msaa as nat), "X"@);
    lemma_readable_add("MSAA  "@ + text::decimal(s.msaa as nat), "X  MENU ONLY"@);
}

/// The font can draw every title and every label, whatever the settings.
pub proof fn law_labels_are_readable(
    screen: MenuScreen,
    s: GraphicsSettings,
    in_session: bool,
    i: int,
)
    requires
        0 <= i < rows_of(screen, s, in_session).len(),
    ensures
        readable(rows_of(screen, s, in_session)[i].label),
        readable(screen.title_text()),
{
    lemma_labels();
    lemma_setting_labels(s);
}

/// Rows stand below each other without touching, and each is centred.
pub proof fn law_rows_stand_apart(w: u32, h: u32, rows: Seq<RowModel>, i: int)
    requires
        0 <= i < rows.len() <= usize::MAX,
        forall|j: int| 0 <= j < rows.len() ==> (#[trigger] rows[j]).label.len() <= usize::MAX,
    ensures
        ({
            let r = rects_of(w, h, rows)[i];
            2 * r.x + r.w == 100 * w
        }),
        i + 1 < rows.len() ==> ({
            let r = rects_of(w, h, rows)[i];
            let s = rects_of(w, h, rows)[i + 1];
            r.y + r.h < s.y
        }),
{
    lemma_row_rect(w, h, rows.len(), rows[i].label, i);
    if i + 1 < rows.len() {
        lemma_row_rect(w, h, rows.len(), rows[i + 1].label, i + 1);
        let px = font_px(h) as int;
        assert((1540 * px) * (i + 1) == (1540 * px) * i + 1540 * px) by (nonlinear_arith);
    }
}

/// The numbers of a row's rectangle without the wrapping of machine integers.
proof fn lemma_row_rect(w: u32, h: u32, n: nat, label: Seq<char>, i: int)
    requires
        0 <= i < n <= usize::MAX,
        label.len() <= usize::MAX,
    ensures
        ({
            let r = row_rect(w, h, n, label, i);
            let px = font_px(h) as int;
            let tw = label.len() as int * 6 * (100 * px);
            &&& placed(r)
            &&& 2 * r.x == 100 * w - tw - 800 * px
            &&& r.y == 50 * h - (770 * px) * n + (1540 * px) * i - 200 * px
            &&& r.w == tw + 800 * px
            &&& r.h == 1100 * px
        }),
{
    let px = font_px(h) as int;
    let len = label.len() as int;
    lemma_product_fits(len * 6, 100 * px);
    lemma_product_fits(n as int, 1540 * px);
    lemma_product_fits(i, 1540 * px);
    assert((1540 * px) * n == n * (1540 * px)) by (nonlinear_arith);
    assert((1540 * px) * i == i * (1540 * px)) by (nonlinear_arith);
    assert(len * 6 * (100 * px) == 2 * (len * 3 * (100 * px))) by (nonlinear_arith);
    assert((1540 * px) * n == 2 * ((770 * px) * n)) by (nonlinear_arith);
}

/// A click in the middle of a row hits that row.
pub proof fn law_row_centres_hit_their_row(w: u32, h: u32, rows: Seq<RowModel>, i: int)
    requires
        0 <= i < rows.len() <= usize::MAX,
        forall|j: int| 0 <= j < rows.len() ==> (#[trigger] rows[j]).label.len() <= usize::MAX,
    ensures
        ({
            let r = rects_of(w, h, rows)[i];
            is_hit(rects_of(w, h, rows), r.x + r.w / 2, r.y + r.h / 2, Some(i as usize))
        }),
{
    let rects = rects_of(w, h, rows);
    let r = rects[i];
    let px = font_px(h) as int;
    lemma_row_rect(w, h, rows.len(), rows[i].label, i);
    lemma_product_fits(rows[i].label.len() as int * 6, 100 * px);
    assert forall|j: int| 0 <= j < i implies !(#[trigger] rects[j]).holds(
        r.x + r.w / 2,
        r.y + r.h / 2,
    ) by {
        lemma_row_rect(w, h, rows.len(), rows[j].label, j);
        assert((1540 * px) * i >= (1540 * px) * j + 1540 * px) by (nonlinear_arith)
            requires
                j + 1 <= i,
                px >= 0,
        ;
    }
}

/// On any surface at least 132 pixels high, every row of every screen is whole
/// on the surface from top to bottom.
pub proof fn law_rows_are_on_screen(
    screen: MenuScreen,
    s: GraphicsSettings,
    in_session: bool,
    w: u32,
    h: u32,
    i: int,
)
    requires
        h >= 132,
        0 <= i < rows_of(screen, s, in_session).len(),
    ensures
        ({
            let r = row_rect(
                w,
                h,
                rows_of(screen, s, in_session).len(),
                rows_of(screen, s, in_session)[i].label,
                i,
            );
            0 <= r.y && r.y + r.h <= 100 * h
        }),
{
    let rows = rows_of(screen, s, in_session);
    let px = font_px(h) as int;
    let n = rows.len();
    law_screens_have_a_way_out(screen, s, in_session);
    assert((1540 * px) * n / 2 == (770 * px) * n) by (nonlinear_arith)
        requires
            px >= 0,
    ;
    assert(n == 3 || n == 4);
    assert(i == 0 || i == 1 || i == 2 || i == 3);
}

/// One row down is the next one, one row up the one before.
pub proof fn law_selection_steps(m: MenuModel, s: GraphicsSettings, in_session: bool)
    ensures
        ({
            let n = rows_of(m.screen, s, in_session).len();
            &&& m.moved(1, s, in_session).screen == m.screen
            &&& m.moved(1, s, in_session).stack == m.stack
            &&& m.index + 1 < n ==> m.moved(1, s, in_session).index == m.index + 1
            &&& m.index + 1 == n ==> m.moved(1, s, in_session).index == 0
            &&& 0 < m.index < n ==> m.moved(-1, s, in_session).index == m.index - 1
            &&& m.index == 0 ==> m.moved(-1, s, in_session).index == n - 1
        }),
{
    let n = rows_of(m.screen, s, in_session).len() as int;
    law_screens_have_a_way_out(m.screen, s, in_session);
    if m.index < n {
        law_selection_wraps(m, 1, s, in_session);
        law_selection_wraps(m, -1, s, in_session);
        if m.index + 1 < n {
            vstd::arithmetic::div_mod::lemma_small_mod((m.index + 1) as nat, n as nat);
        }
        if m.index > 0 {
            vstd::arithmetic::div_mod::lemma_small_mod((m.index - 1) as nat, n as nat);
        }
    }
}

/// A point hits the first rectangle that holds it, and none where none does.
pub proof fn law_hits_are_rows(rects: Seq<Rect>, cx: int, cy: int)
    requires
        rects.len() <= usize::MAX,
    ensures
        is_hit(rects, cx, cy, hit_from(rects, cx, cy, 0)),
{
    lemma_hits_from(rects, cx, cy, 0);
}

proof fn lemma_hits_from(rects: Seq<Rect>, cx: int, cy: int, i: int)
    requires
        rects.len() <= usize::MAX,
        0 <= i <= rects.len(),
        forall|j: int| 0 <= j < i ==> !(#[trigger] rects[j]).holds(cx, cy),
    ensures
        is_hit(rects, cx, cy, hit_from(rects, cx, cy, i)),
    decreases rects.len() - i,
{
    if i < rects.len() && !rects[i].holds(cx, cy) {
        lemma_hits_from(rects, cx, cy, i + 1);
    }
}

/// The sample counts double, from one to eight, and start over.
pub proof fn law_samples_double(msaa: u32)
    ensures
        msaa == 1 || msaa == 2 || msaa == 4 ==> next_msaa(msaa) == 2 * msaa,
        !(msaa == 1 || msaa == 2 || msaa == 4) ==> next_msaa(msaa) == 1,
{
}

/// A row does what it says, on whichever screen it stands: rows that lead to a
/// screen are called what that screen is, rows that show a setting change it, and
/// the way out is where its name is.
pub proof fn law_rows_do_what_they_say(
    screen: MenuScreen,
    s: GraphicsSettings,
    in_session: bool,
    i: int,
)
    requires
        0 <= i < rows_of(screen, s, in_session).len(),
    ensures
        ({
            let r = rows_of(screen, s, in_session)[i];
            &&& r.action matches MenuAction::Enter(below) ==> r.label == below.title_text()
                && below != screen
            &&& r.action == MenuAction::Back ==> r.label == "BACK"@
            &&& r.action == MenuAction::Resume ==> r.label == "CONTINUE"@ && screen
                == MenuScreen::Root
            &&& r.action == MenuAction::NewGame ==> r.label == "NEW GAME"@ && screen
                == MenuScreen::MainRoot
            &&& r.action == MenuAction::ToMainMenu ==> r.label == "MAIN MENU"@ && screen
                == MenuScreen::Root
            &&& r.action == MenuAction::Quit ==> r.label == "QUIT"@ || r.label == "EXIT"@
            &&& r.action == MenuAction::CycleShadows ==> r.label == "SHADOWS  "@
                + s.shadows.menu_text()
            &&& r.action == MenuAction::ToggleFxaa ==> r.label == "FXAA  "@ + if s.fxaa {
                "ON"@
            } else {
                "OFF"@
            }
            &&& r.action == MenuAction::CycleMsaa ==> !in_session && r.label == "MSAA  "@
                + text::decimal(s.msaa as nat) + "X"@
        }),
{
}

/// Every screen can be left by a row, every setting changed by one, and the
/// program ended from both top levels.
pub proof fn law_screens_offer_what_they_are_for(s: GraphicsSettings, in_session: bool)
    ensures
        offers(MenuScreen::MainRoot, s, in_session, MenuAction::NewGame),
        offers(MenuScreen::MainRoot, s, in_session, MenuAction::Enter(MenuScreen::Options)),
        offers(MenuScreen::MainRoot, s, in_session, MenuAction::Quit),
        offers(MenuScreen::Root, s, in_session, MenuAction::Resume),
        offers(MenuScreen::Root, s, in_session, MenuAction::Enter(MenuScreen::Options)),
        offers(MenuScreen::Root, s, in_session, MenuAction::ToMainMenu),
        offers(MenuScreen::Root, s, in_session, MenuAction::Quit),
        offers(MenuScreen::Options, s, in_session, MenuAction::Enter(MenuScreen::Graphics)),
        offers(MenuScreen::Options, s, in_session, MenuAction::Enter(MenuScreen::Sound)),
        offers(MenuScreen::Options, s, in_session, MenuAction::Enter(MenuScreen::Gameplay)),
        offers(MenuScreen::Graphics, s, in_session, MenuAction::CycleShadows),
        offers(MenuScreen::Graphics, s, in_session, MenuAction::ToggleFxaa),
        offers(MenuScreen::Graphics, s, in_session, MenuAction::CycleMsaa) == !in_session,
{
    let main = rows_of(MenuScreen::MainRoot, s, in_session);
    assert(main[0].action == MenuAction::NewGame);
    assert(main[1].action == MenuAction::Enter(MenuScreen::Options));
    assert(main[2].action == MenuAction::Quit);
    let pause = rows_of(MenuScreen::Root, s, in_session);
    assert(pause[0].action == MenuAction::Resume);
    assert(pause[1].action == MenuAction::Enter(MenuScreen::Options));
    assert(pause[2].action == MenuAction::ToMainMenu);
    assert(pause[3].action == MenuAction::Quit);
    let options = rows_of(MenuScreen::Options, s, in_session);
    assert(options[0].action == MenuAction::Enter(MenuScreen::Graphics));
    assert(options[1].action == MenuAction::Enter(MenuScreen::Sound));
    assert(options[2].action == MenuAction::Enter(MenuScreen::Gameplay));
    let graphics = rows_of(MenuScreen::Graphics, s, in_session);
    assert(graphics[0].action == MenuAction::CycleShadows);
    assert(graphics[1].action == MenuAction::ToggleFxaa);
    assert(graphics[2].action == MenuAction::CycleMsaa || in_session);
}

/// Some row of a screen does this.
pub open spec fn offers(
    screen: MenuScreen,
    s: GraphicsSettings,
    in_session: bool,
    action: MenuAction,
) -> bool {
    exists|i: int|
        0 <= i < rows_of(screen, s, in_session).len() && (#[trigger] rows_of(
            screen,
            s,
            in_session,
        )[i]).action == action
}

/// Activating a row does what the row is for: the settings it names change and
/// nothing else, a screen is entered and can be left again, and only the rows for
/// it leave the menu.
pub proof fn law_activating_does_what_the_row_is_for(
    m: MenuModel,
    s: GraphicsSettings,
    in_session: bool,
)
    requires
        m.index < rows_of(m.screen, s, in_session).len(),
    ensures
        ({
            let action = rows_of(m.screen, s, in_session)[m.index as int].action;
            let (n, t, outcome) = m.activated(s, in_session);
            &&& t.fxaa == (s.fxaa != (action == MenuAction::ToggleFxaa))
            &&& t.shadows == if action == MenuAction::CycleShadows {
                s.shadows.next_spec()
            } else {
                s.shadows
            }
            &&& t.msaa == if action == MenuAction::CycleMsaa {
                next_msaa(s.msaa)
            } else {
                s.msaa
            }
            &&& t.bake == s.bake
            &&& outcome == MenuOutcome::Quit <==> action == MenuAction::Quit
            &&& outcome == MenuOutcome::StartSession <==> action == MenuAction::NewGame
            &&& outcome == MenuOutcome::EndSession <==> action == MenuAction::ToMainMenu
            &&& outcome == MenuOutcome::Resume <==> action == MenuAction::Resume || action
                == MenuAction::Back && m.stack.len() == 0 && m.screen != MenuScreen::MainRoot
            &&& action matches MenuAction::Enter(below) ==> n.screen == below && n.index == 0
                && n.backed() == (m, MenuOutcome::Stay)
            &&& action == MenuAction::Back ==> n == m.backed().0
            &&& !(action is Enter) && action != MenuAction::Back ==> n == m
        }),
{
    if let MenuAction::Enter(below) = m.selected(s, in_session) {
        law_back_undoes_descend(m, below);
    }
}

/// The font of the menu grows with the surface, by a pixel for every 220, and is
/// never smaller than two.
pub proof fn law_the_font_grows_with_the_surface(h: u32)
    ensures
        h < 440 ==> font_px(h) == 2,
        h >= 440 ==> 220 * font_px(h) <= h < 220 * (font_px(h) + 1),
{
}

/// Rows are as high as eleven font pixels and as wide as their text and eight
/// more, and stand a line of fifteen and two fifths apart, around the middle of
/// the surface.
pub proof fn law_rows_are_spaced_evenly(w: u32, h: u32, rows: Seq<RowModel>, i: int)
    requires
        0 <= i < rows.len() <= usize::MAX,
        forall|j: int| 0 <= j < rows.len() ==> (#[trigger] rows[j]).label.len() <= usize::MAX,
    ensures
        ({
            let rects = rects_of(w, h, rows);
            let px = font_px(h) as int;
            &&& rects.len() == rows.len()
            &&& rects[i].h == 1100 * px
            &&& rects[i].w == 600 * px * rows[i].label.len() + 800 * px
            &&& rects[i].y - rects[0].y == 1540 * px * i
            &&& rects[0].y + rects[rows.len() - 1].y == 100 * h - 1940 * px
        }),
{
    let px = font_px(h) as int;
    let n = rows.len() as int;
    lemma_row_rect(w, h, rows.len(), rows[i].label, i);
    lemma_row_rect(w, h, rows.len(), rows[0].label, 0);
    lemma_row_rect(w, h, rows.len(), rows[n - 1].label, n - 1);
    let len = rows[i].label.len() as int;
    assert(len * 6 * (100 * px) == 600 * px * len) by (nonlinear_arith);
    assert((1540 * px) * (n - 1) == 2 * ((770 * px) * n) - 1540 * px) by (nonlinear_arith);
}

/// A row draws its text inside the rectangle that a click on it hits, one glyph
/// for each character, and behind it, where it is selected, a bar that covers
/// just that rectangle.
pub proof fn law_rows_are_drawn_where_they_are_hit(
    w: u32,
    h: u32,
    rows: Seq<RowModel>,
    index: usize,
    i: int,
    k: int,
)
    requires
        0 <= i < rows.len() <= usize::MAX,
        rows[i].label.len() <= usize::MAX,
        0 <= k < rows[i].label.len(),
    ensures
        ({
            let r = rects_of(w, h, rows)[i];
            let q = row_quads(w, h, rows, index, i);
            let bars = if i == index {
                1int
            } else {
                0
            };
            let t = q[bars + k];
            &&& q.len() == bars + rows[i].label.len()
            &&& i == index ==> q[0].ink is Solid && q[0].x == r.x && q[0].y == r.y && q[0].w == r.w
                && q[0].h == r.h
            &&& i == index ==> q[0].color.r.bits == 0x3e80_0000 && q[0].color.g.bits == 0x3ee6_6666
                && q[0].color.b.bits == 0x3f59_999a && q[0].color.a.bits == 0x3f59_999a
            &&& t.ink == ui::Ink::Glyph(ui::slot(rows[i].label[k]))
            &&& r.x <= t.x && t.x + t.w <= r.x + r.w
            &&& r.y <= t.y && t.y + t.h <= r.y + r.h
            &&& t.color == row_color(i == index, rows[i].action != MenuAction::Inert)
        }),
{
    let label = rows[i].label;
    let r = row_rect(w, h, rows.len(), label, i);
    let px = font_px(h) as int;
    lemma_row_rect(w, h, rows.len(), label, i);
    lemma_product_fits(label.len() as int * 6, 100 * px);
    ui::law_text_stands_in_a_row(
        (r.x + 400 * px) as i128,
        (r.y + 200 * px) as i128,
        (100 * px) as u32,
        row_color(i == index, rows[i].action != MenuAction::Inert),
        label,
        k,
    );
    assert(label.len() as int * 6 * (100 * px) == 6 * (100 * px) * label.len() as int)
        by (nonlinear_arith);
}

/// A selected row is brighter than it is when it is not, and a row that does
/// something is brighter than one that does nothing.
pub proof fn law_rows_are_lit_by_what_they_do(selected: bool, enabled: bool)
    ensures
        row_color(false, enabled).r.below(row_color(true, enabled).r),
        row_color(selected, false).r.below(row_color(selected, true).r),
        ({
            let c = row_color(selected, enabled);
            c.r == c.g && c.g == c.b && c.a.bits == 0x3f80_0000
        }),
        row_color(true, true).r.bits == 0x3f80_0000,
        row_color(true, false).r.bits == 0x3f38_51ec,
        row_color(false, true).r.bits == 0x3f26_6666,
        row_color(false, false).r.bits == 0x3ecc_cccd,
{
}

/// Behind a menu the whole surface is dimmed, and its title stands in the middle
/// between the sides, above the rows.
pub proof fn law_titles_are_centred(w: u32, h: u32, title: Seq<char>, k: int)
    requires
        title.len() <= usize::MAX,
        0 <= k < title.len(),
    ensures
        ({
            let q = head_quads(w, h, title);
            let px = 160 * font_px(h) as int;
            &&& q.len() == 1 + title.len()
            &&& q[0].ink is Solid && q[0].x == 0 && q[0].y == 0 && q[0].w == 100 * w && q[0].h
                == 100 * h
            &&& q[0].color.r.bits == 0 && q[0].color.g.bits == 0 && q[0].color.b.bits == 0
            &&& q[0].color.a.bits == 0x3f0c_cccd
            &&& q[1 + k].color.r.bits == 0x3f66_6666 && q[1 + k].color.a.bits == 0x3f80_0000
            &&& q[1 + k].ink == ui::Ink::Glyph(ui::slot(title[k]))
            &&& 2 * q[1].x + 6 * px * title.len() == 100 * w
            &&& q[1 + k].x == q[1].x + 6 * px * k
            &&& q[1 + k].y == 28 * h
            &&& q[1 + k].w == 5 * px
        }),
{
    let px = (160 * font_px(h)) as u32;
    lemma_product_fits(title.len() as int * 6, px as int);
    let x = ((100 * w - ui::width_of(title, px)) / 2) as i128;
    assert(title.len() as int * 6 * px as int == 2 * (title.len() as int * 3 * px as int))
        by (nonlinear_arith);
    assert(title.len() as int * 6 * px as int == 6 * px as int * title.len() as int)
        by (nonlinear_arith);
    ui::law_text_stands_in_a_row(x, (28 * h) as i128, px, shade(P90, ONE), title, k);
    ui::law_text_stands_in_a_row(x, (28 * h) as i128, px, shade(P90, ONE), title, 0);
}

/// A menu draws its backdrop and title first, and behind them every row of its
/// screen, from the first to the last.
pub proof fn law_menus_draw_every_row(
    m: MenuModel,
    s: GraphicsSettings,
    in_session: bool,
    w: u32,
    h: u32,
    n: nat,
)
    requires
        n < rows_of(m.screen, s, in_session).len(),
    ensures
        ({
            let rows = rows_of(m.screen, s, in_session);
            let all = menu_quads(m, s, in_session, w, h);
            let head = head_quads(w, h, m.screen.title_text());
            let from = head.len() + rows_quads(w, h, rows, m.index, n).len() as int;
            let own = row_quads(w, h, rows, m.index, n as int);
            &&& all.take(head.len() as int) == head
            &&& rows_quads(w, h, rows, m.index, 0).len() == 0
            &&& rows_quads(w, h, rows, m.index, n + 1).len() == rows_quads(
                w,
                h,
                rows,
                m.index,
                n,
            ).len() + own.len()
            &&& from + own.len() <= all.len()
            &&& all.subrange(from, from + own.len()) == own
            &&& n + 1 == rows.len() ==> from + own.len() == all.len()
        }),
{
    let rows = rows_of(m.screen, s, in_session);
    let all = menu_quads(m, s, in_session, w, h);
    let head = head_quads(w, h, m.screen.title_text());
    let total = rows_quads(w, h, rows, m.index, rows.len());
    let before = rows_quads(w, h, rows, m.index, n);
    let own = row_quads(w, h, rows, m.index, n as int);
    lemma_rows_stay(w, h, rows, m.index, n + 1, rows.len());
    let some = rows_quads(w, h, rows, m.index, n + 1);
    assert(some == before + own);
    assert(all.take(head.len() as int) =~= head);
    let from = head.len() + before.len() as int;
    assert(all.subrange(from, from + own.len()) =~= total.take(some.len() as int).skip(
        before.len() as int,
    ));
    assert(some.skip(before.len() as int) =~= own);
}

proof fn lemma_rows_stay(w: u32, h: u32, rows: Seq<RowModel>, index: usize, m: nat, n: nat)
    requires
        m <= n,
    ensures
        rows_quads(w, h, rows, index, m).len() <= rows_quads(w, h, rows, index, n).len(),
        rows_quads(w, h, rows, index, n).take(rows_quads(w, h, rows, index, m).len() as int)
            == rows_quads(w, h, rows, index, m),
    decreases n,
{
    let some = rows_quads(w, h, rows, index, m);
    let all = rows_quads(w, h, rows, index, n);
    if m < n {
        lemma_rows_stay(w, h, rows, index, m, (n - 1) as nat);
        let less = rows_quads(w, h, rows, index, (n - 1) as nat);
        assert(all.take(some.len() as int) =~= less.take(some.len() as int));
    } else {
        assert(all.take(some.len() as int) =~= all);
    }
}

/// Screens list first what they are for and last the way out, and what can only
/// be shown for now does nothing.
pub proof fn law_rows_stand_in_order(s: GraphicsSettings, in_session: bool, i: int)
    ensures
        ({
            let main = rows_of(MenuScreen::MainRoot, s, in_session);
            let pause = rows_of(MenuScreen::Root, s, in_session);
            let options = rows_of(MenuScreen::Options, s, in_session);
            let graphics = rows_of(MenuScreen::Graphics, s, in_session);
            let sound = rows_of(MenuScreen::Sound, s, in_session);
            let play = rows_of(MenuScreen::Gameplay, s, in_session);
            &&& main.len() == 3 && main[0].action is NewGame && main[2].action is Quit
            &&& pause.len() == 4 && pause[0].action is Resume && pause[2].action is ToMainMenu
                && pause[3].action is Quit
            &&& options.len() == 4 && options[0].action == MenuAction::Enter(MenuScreen::Graphics)
                && options[1].action == MenuAction::Enter(MenuScreen::Sound) && options[2].action
                == MenuAction::Enter(MenuScreen::Gameplay)
            &&& graphics.len() == 4 && graphics[0].action is CycleShadows && graphics[1].action
                is ToggleFxaa
            &&& options[3].action is Back && graphics[3].action is Back && sound[3].action is Back
                && play[3].action is Back
            &&& 0 <= i < 3 ==> sound[i].action is Inert && play[i].action is Inert
            &&& sound.len() == 4 && play.len() == 4
        }),
{
}

/// Each screen has its own title, which is what it is for.
pub proof fn law_screens_are_called_what_they_are(screen: MenuScreen)
    ensures
        screen is MainRoot ==> screen.title_text() == "FEATHER"@,
        screen is Root ==> screen.title_text() == "PAUSED"@,
        screen is Options ==> screen.title_text() == "OPTIONS"@,
        screen is Graphics ==> screen.title_text() == "GRAPHICS"@,
        screen is Sound ==> screen.title_text() == "SOUND"@,
        screen is Gameplay ==> screen.title_text() == "GAMEPLAY"@,
{
}

/// What is said of a menu and of its rows is said of their parts.
pub proof fn law_menus_are_seen_whole(m: Menu, rows: Seq<MenuRow>, i: int)
    ensures
        m@.screen == m.screen,
        m@.index == m.index,
        m@.stack == m.stack@,
        row_views(rows).len() == rows.len(),
        0 <= i < rows.len() ==> row_views(rows)[i].label == rows[i].label@ && row_views(
            rows,
        )[i].action == rows[i].action,
{
}

/// A point lies in a rectangle where it is not left of its left edge nor above
/// its upper one, and is left of its right edge and above its lower one.
pub proof fn law_points_lie_between_the_edges(r: Rect, x: int, y: int)
    ensures
        r.holds(x, y) <==> r.x <= x && x < r.x + r.w && r.y <= y && y < r.y + r.h,
        !r.holds(r.x + r.w, y),
        !r.holds(x, r.y + r.h),
        r.w > 0 && r.h > 0 ==> r.holds(r.x as int, r.y as int),
{
}

/// Settings that cannot be changed yet are shown under their names, and the
/// sample count inside a session says where it can be.
pub proof fn law_inert_rows_show_their_setting(s: GraphicsSettings, in_session: bool)
    ensures
        ({
            let sound = rows_of(MenuScreen::Sound, s, in_session);
            let play = rows_of(MenuScreen::Gameplay, s, in_session);
            &&& sound[0].label == "MASTER VOLUME"@
            &&& sound[1].label == "MUSIC"@
            &&& sound[2].label == "SFX"@
            &&& play[0].label == "SENSITIVITY"@
            &&& play[1].label == "FIELD OF VIEW"@
            &&& play[2].label == "INVERT Y"@
            &&& in_session ==> rows_of(MenuScreen::Graphics, s, in_session)[2].label == "MSAA  "@
                + text::decimal(s.msaa as nat) + "X  MENU ONLY"@
        }),
{
}

} // verus!
