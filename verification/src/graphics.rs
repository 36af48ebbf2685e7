//! Graphics settings and the file that keeps them.
//!
//! A missing file is created with defaults, and a bad line is a warning that
//! leaves its key alone. Saving edits one value in place, so comments and lines
//! that were not understood survive.
use vstd::prelude::*;
use vstd::string::*;

use crate::config;
use crate::text;

verus! {

/// The settings file, relative to the working directory.
pub const CONFIG_PATH: &'static str = "config/settings.toml";

/// How sharp shadows are.
#[derive(Clone, Copy, PartialEq, Eq, Debug, Structural)]
pub enum ShadowQuality {
    Off,
    Low,
    Medium,
    High,
}

impl ShadowQuality {
    /// Width and height of one shadow cascade. Off still has a small map, which
    /// is cleared and never drawn into.
    pub fn dim(self) -> (r: u32)
        ensures
            r == match self {
                ShadowQuality::Off => 512u32,
                ShadowQuality::Low => 512u32,
                ShadowQuality::Medium => 1024u32,
                ShadowQuality::High => 2048u32,
            },
    {
        match self {
            ShadowQuality::Off => 512,
            ShadowQuality::Low => 512,
            ShadowQuality::Medium => 1024,
            ShadowQuality::High => 2048,
        }
    }

    pub fn casts(self) -> (r: bool)
        ensures
            r == (self != ShadowQuality::Off),
    {
        self != ShadowQuality::Off
    }

    pub open spec fn next_spec(self) -> ShadowQuality {
        match self {
            ShadowQuality::High => ShadowQuality::Medium,
            ShadowQuality::Medium => ShadowQuality::Low,
            ShadowQuality::Low => ShadowQuality::Off,
            ShadowQuality::Off => ShadowQuality::High,
        }
    }

    /// One step down, and from the bottom to the top.
    pub fn next(self) -> (r: ShadowQuality)
        ensures
            r == self.next_spec(),
    {
        match self {
            ShadowQuality::High => ShadowQuality::Medium,
            ShadowQuality::Medium => ShadowQuality::Low,
            ShadowQuality::Low => ShadowQuality::Off,
            ShadowQuality::Off => ShadowQuality::High,
        }
    }

    pub open spec fn label_text(self) -> Seq<char> {
        match self {
            ShadowQuality::Off => "off"@,
            ShadowQuality::Low => "low (4x512)"@,
            ShadowQuality::Medium => "medium (4x1024)"@,
            ShadowQuality::High => "high (4x2048)"@,
        }
    }

    pub fn label(self) -> (r: &'static str)
        ensures
            r@ == self.label_text(),
    {
        match self {
            ShadowQuality::Off => "off",
            ShadowQuality::Low => "low (4x512)",
            ShadowQuality::Medium => "medium (4x1024)",
            ShadowQuality::High => "high (4x2048)",
        }
    }

    pub open spec fn menu_text(self) -> Seq<char> {
        match self {
            ShadowQuality::Off => "OFF"@,
            ShadowQuality::Low => "LOW"@,
            ShadowQuality::Medium => "MEDIUM"@,
            ShadowQuality::High => "HIGH"@,
        }
    }

    /// The label in the menu, whose font has only capitals and digits.
    pub fn menu_label(self) -> (r: &'static str)
        ensures
            r@ == self.menu_text(),
    {
        match self {
            ShadowQuality::Off => "OFF",
            ShadowQuality::Low => "LOW",
            ShadowQuality::Medium => "MEDIUM",
            ShadowQuality::High => "HIGH",
        }
    }

    pub open spec fn config_text(self) -> Seq<char> {
        match self {
            ShadowQuality::Off => "off"@,
            ShadowQuality::Low => "low"@,
            ShadowQuality::Medium => "medium"@,
            ShadowQuality::High => "high"@,
        }
    }

    /// The name in the settings file.
    pub fn config_name(self) -> (r: &'static str)
        ensures
            r@ == self.config_text(),
    {
        match self {
            ShadowQuality::Off => "off",
            ShadowQuality::Low => "low",
            ShadowQuality::Medium => "medium",
            ShadowQuality::High => "high",
        }
    }

    /// The quality of a name in the settings file.
    pub open spec fn named(name: Seq<char>) -> Option<ShadowQuality> {
        if name == ShadowQuality::High.config_text() {
            Some(ShadowQuality::High)
        } else if name == ShadowQuality::Medium.config_text() {
            Some(ShadowQuality::Medium)
        } else if name == ShadowQuality::Low.config_text() {
            Some(ShadowQuality::Low)
        } else if name == ShadowQuality::Off.config_text() {
            Some(ShadowQuality::Off)
        } else {
            None
        }
    }

    pub fn from_config_name(name: &str) -> (r: Option<ShadowQuality>)
        ensures
            r == ShadowQuality::named(name@),
    {
        if text::same(name, "high") {
            Some(ShadowQuality::High)
        } else if text::same(name, "medium") {
            Some(ShadowQuality::Medium)
        } else if text::same(name, "low") {
            Some(ShadowQuality::Low)
        } else if text::same(name, "off") {
            Some(ShadowQuality::Off)
        } else {
            None
        }
    }
}

/// What the player can choose about graphics.
#[derive(Clone, Copy, PartialEq, Eq, Debug, Structural)]
pub struct GraphicsSettings {
    pub shadows: ShadowQuality,
    /// Sample count of the geometry pass.
    pub msaa: u32,
    pub fxaa: bool,
    /// Whether baked assets are used where they exist.
    pub bake: bool,
}

/// The settings of a player who chose nothing.
pub open spec fn default_settings() -> GraphicsSettings {
    GraphicsSettings { shadows: ShadowQuality::High, msaa: 1, fxaa: false, bake: true }
}

impl Default for GraphicsSettings {
    fn default() -> (r: Self)
        ensures
            r == default_settings(),
            r.shadows is High && r.msaa == 1 && !r.fxaa && r.bake,
    {
        GraphicsSettings { shadows: ShadowQuality::High, msaa: 1, fxaa: false, bake: true }
    }
}

/// A persisted setting.
#[derive(Clone, Copy, PartialEq, Eq, Debug, Structural)]
pub enum Key {
    Shadows,
    Msaa,
    Fxaa,
}

pub open spec fn bool_text(b: bool) -> Seq<char> {
    if b {
        "true"@
    } else {
        "false"@
    }
}

impl Key {
    pub open spec fn name_text(self) -> Seq<char> {
        match self {
            Key::Shadows => "shadows"@,
            Key::Msaa => "msaa"@,
            Key::Fxaa => "fxaa"@,
        }
    }

    /// The name in the file.
    pub fn name(self) -> (r: &'static str)
        ensures
            r@ == self.name_text(),
    {
        match self {
            Key::Shadows => "shadows",
            Key::Msaa => "msaa",
            Key::Fxaa => "fxaa",
        }
    }

    pub open spec fn value_text(self, s: GraphicsSettings) -> Seq<char> {
        match self {
            Key::Shadows => "\""@ + s.shadows.config_text() + "\""@,
            Key::Msaa => text::decimal(s.msaa as nat),
            Key::Fxaa => bool_text(s.fxaa),
        }
    }

    /// The literal for this key's current value.
    pub fn value(self, s: &GraphicsSettings) -> (r: String)
        ensures
            r@ == self.value_text(*s),
    {
        match self {
            Key::Shadows => config::around("\"", s.shadows.config_name(), "\""),
            Key::Msaa => {
                let mut r: String = String::new();
                text::push_decimal(&mut r, s.msaa as u64);
                assert(r@ =~= text::decimal(s.msaa as nat));
                r
            },
            Key::Fxaa => String::from_str(
                if s.fxaa {
                    "true"
                } else {
                    "false"
                },
            ),
        }
    }
}

/// The value that a line gives to a key, when it is a valid one: the settings
/// with it applied.
pub open spec fn applied(k: Key, v: Seq<char>, s: GraphicsSettings) -> Option<GraphicsSettings> {
    match k {
        Key::Shadows => {
            let name = v.subrange(1, v.len() - 1);
            if v.len() >= 2 && v[0] == '"' && v.last() == '"' && ShadowQuality::named(
                name,
            ) is Some {
                Some(GraphicsSettings { shadows: ShadowQuality::named(name)->0, ..s })
            } else {
                None
            }
        },
        Key::Msaa => match text::unsigned(v) {
            Some(n) => if n == 1 || n == 2 || n == 4 || n == 8 {
                Some(GraphicsSettings { msaa: n as u32, ..s })
            } else {
                None
            },
            None => None,
        },
        Key::Fxaa => if v == "true"@ {
            Some(GraphicsSettings { fxaa: true, ..s })
        } else if v == "false"@ {
            Some(GraphicsSettings { fxaa: false, ..s })
        } else {
            None
        },
    }
}

/// The complaint about a value that is not valid.
pub open spec fn bad_value_text(k: Key, v: Seq<char>) -> Seq<char> {
    match k {
        Key::Shadows => "shadows must be \"high\", \"medium\", \"low\" or \"off\", got "@ + v,
        Key::Msaa => "msaa must be 1, 2, 4 or 8, got "@ + v,
        Key::Fxaa => "fxaa must be true or false, got "@ + v,
    }
}

pub open spec fn key_named(k: Seq<char>) -> Option<Key> {
    if k == Key::Shadows.name_text() {
        Some(Key::Shadows)
    } else if k == Key::Msaa.name_text() {
        Some(Key::Msaa)
    } else if k == Key::Fxaa.name_text() {
        Some(Key::Fxaa)
    } else {
        None
    }
}

/// What the code part of a line does to the settings, and the complaint about
/// it if it does nothing.
pub open spec fn line_effect(c: Seq<char>, s: GraphicsSettings) -> (
    GraphicsSettings,
    Option<Seq<char>>,
) {
    match config::item_of(c) {
        config::Item::Blank => (s, None),
        config::Item::Table => (s, Some(config::table_text(c))),
        config::Item::Junk => (s, Some(config::junk_text(c))),
        config::Item::Pair(k, v) => match key_named(k) {
            None => (s, Some("unknown key `"@ + k + "`"@)),
            Some(key) => match applied(key, v, s) {
                Some(t) => (t, None),
                None => (s, Some(bad_value_text(key, v))),
            },
        },
    }
}

/// The settings after some lines, starting from `s`.
pub open spec fn settings_after(ls: Seq<Seq<char>>, s: GraphicsSettings) -> GraphicsSettings
    decreases ls.len(),
{
    if ls.len() == 0 {
        s
    } else {
        line_effect(config::code_of(ls.last()), settings_after(ls.drop_last(), s)).0
    }
}

/// The warnings about some lines.
pub open spec fn warnings_about(ls: Seq<Seq<char>>, s: GraphicsSettings) -> Seq<Seq<char>>
    decreases ls.len(),
{
    if ls.len() == 0 {
        Seq::empty()
    } else {
        let before = warnings_about(ls.drop_last(), s);
        match line_effect(config::code_of(ls.last()), settings_after(ls.drop_last(), s)).1 {
            Some(msg) => before.push(config::warning_text(ls.len(), msg)),
            None => before,
        }
    }
}

fn apply(k: Key, v: &str, s: &mut GraphicsSettings) -> (r: bool)
    ensures
        r <==> applied(k, v@, *old(s)) is Some,
        r ==> Some(*final(s)) == applied(k, v@, *old(s)),
        !r ==> *final(s) == *old(s),
{
    match k {
        Key::Shadows => {
            let cs: Vec<char> = text::chars_of(v);
            let n: usize = cs.len();
            if n < 2 || cs[0] != '"' || cs[n - 1] != '"' {
                return false;
            }
            match ShadowQuality::from_config_name(v.substring_char(1, n - 1)) {
                Some(q) => {
                    s.shadows = q;
                    true
                },
                None => false,
            }
        },
        Key::Msaa => match text::parse_u32(v) {
            Some(n) => if n == 1 || n == 2 || n == 4 || n == 8 {
                s.msaa = n;
                true
            } else {
                false
            },
            None => false,
        },
        Key::Fxaa => if text::same(v, "true") {
            s.fxaa = true;
            true
        } else if text::same(v, "false") {
            s.fxaa = false;
            true
        } else {
            false
        },
    }
}

fn find_key(k: &str) -> (r: Option<Key>)
    ensures
        r == key_named(k@),
{
    if text::same(k, "shadows") {
        Some(Key::Shadows)
    } else if text::same(k, "msaa") {
        Some(Key::Msaa)
    } else if text::same(k, "fxaa") {
        Some(Key::Fxaa)
    } else {
        None
    }
}

/// Does what one line says, and returns the complaint if it says nothing valid.
fn apply_line(line: &str, s: &mut GraphicsSettings) -> (r: Option<String>)
    ensures
        *final(s) == line_effect(line@, *old(s)).0,
        match r {
            Some(m) => line_effect(line@, *old(s)).1 == Some(m@),
            None => line_effect(line@, *old(s)).1 is None,
        },
{
    let cs: Vec<char> = text::chars_of(line);
    if cs.len() == 0 {
        return None;
    }
    if cs[0] == '[' {
        return Some(config::around("tables are not supported (`", line, "`)"));
    }
    let eq: usize = text::first_of(cs.as_slice(), '=');
    if eq >= cs.len() {
        return Some(config::around("expected `key = value`, got `", line, "`"));
    }
    let before: &str = line.substring_char(0, eq);
    let after: &str = line.substring_char(eq + 1, cs.len());
    assert(before@ =~= line@.take(eq as int));
    assert(after@ =~= line@.skip(eq + 1));
    let k: &str = text::trimmed(before);
    let v: &str = text::trimmed(after);
    match find_key(k) {
        None => Some(config::around("unknown key `", k, "`")),
        Some(key) => {
            if apply(key, v, s) {
                return None;
            }
            let mut m: String = String::from_str(
                match key {
                    Key::Shadows =>
                        "shadows must be \"high\", \"medium\", \"low\" or \"off\", got ",
                    Key::Msaa => "msaa must be 1, 2, 4 or 8, got ",
                    Key::Fxaa => "fxaa must be true or false, got ",
                },
            );
            m.append(v);
            Some(m)
        },
    }
}

/// Applies every valid line of `t` to `s`. Returns one warning per line that
/// was ignored; the keys they named keep what `s` already held.
pub fn parse(t: &str, s: &mut GraphicsSettings) -> (r: Vec<String>)
    ensures
        *final(s) == settings_after(config::lines_of(t@), *old(s)),
        config::string_views(r@) == warnings_about(config::lines_of(t@), *old(s)),
{
    let mut warnings: Vec<String> = Vec::new();
    let raw: Vec<&str> = config::split_lines(t);
    let total: usize = text::chars_of(t).len();
    let ghost ls = config::lines_of(t@);
    let mut i: usize = 0;
    assert(ls.take(0) =~= Seq::empty());
    assert(config::string_views(warnings@) =~= Seq::empty());
    while i < raw.len()
        invariant
            i <= raw.len() <= total,
            config::str_views(raw@) == text::raw_lines(t@),
            ls == config::lines_of(t@),
            *s == settings_after(ls.take(i as int), *old(s)),
            config::string_views(warnings@) == warnings_about(ls.take(i as int), *old(s)),
        decreases raw.len() - i,
    {
        let ghost before = config::string_views(warnings@);
        proof {
            assert(config::str_views(raw@)[i as int] == raw@[i as int]@);
            assert(ls.take(i + 1).drop_last() =~= ls.take(i as int));
            assert(ls.take(i + 1).last() == text::without_ending(raw@[i as int]@));
        }
        match apply_line(config::code(config::line_body(raw[i])), s) {
            Some(m) => {
                warnings.push(config::warning(i + 1, m.as_str()));
                assert(config::string_views(warnings@) =~= before.push(
                    config::warning_text((i + 1) as nat, m@),
                ));
            },
            None => {},
        }
        i += 1;
    }
    assert(ls.take(i as int) =~= ls) by {
        assert(config::str_views(raw@).len() == raw@.len());
    }
    warnings
}

/// A line without any line feeds and carriage returns at its end.
pub open spec fn strip_endings(raw: Seq<char>) -> Seq<char>
    decreases raw.len(),
{
    if raw.len() > 0 && (raw.last() == '\n' || raw.last() == '\r') {
        strip_endings(raw.drop_last())
    } else {
        raw
    }
}

/// The part of a line, with its ending, before the comment.
pub open spec fn setting_part(raw: Seq<char>) -> Seq<char> {
    let body = strip_endings(raw);
    body.take(config::comment_at(body))
}

/// A line that sets `key`.
pub open spec fn sets(raw: Seq<char>, key: Seq<char>) -> bool {
    let part = setting_part(raw);
    let eq = text::first(part, '=') as int;
    eq < part.len() && text::trim(part.take(eq)) == key
}

/// Where the value of a line starts.
pub open spec fn value_from(raw: Seq<char>) -> int {
    let part = setting_part(raw);
    let eq = text::first(part, '=') as int;
    eq + 1 + text::lead(part.skip(eq + 1))
}

/// Where the value of a line ends. It is empty when the line has none.
pub open spec fn value_to(raw: Seq<char>) -> int {
    let part = setting_part(raw);
    part.len() - text::trail(part.skip(value_from(raw)))
}

/// A line with another value.
pub open spec fn with_value(raw: Seq<char>, value: Seq<char>) -> Seq<char> {
    raw.take(value_from(raw)) + value + raw.skip(value_to(raw))
}

/// The lines with another value where they set `key`.
pub open spec fn with_values(ls: Seq<Seq<char>>, key: Seq<char>, value: Seq<char>) -> Seq<
    Seq<char>,
> {
    Seq::new(
        ls.len(),
        |i: int|
            if sets(ls[i], key) {
                with_value(ls[i], value)
            } else {
                ls[i]
            },
    )
}

pub open spec fn any_sets(ls: Seq<Seq<char>>, key: Seq<char>) -> bool {
    exists|i: int| 0 <= i < ls.len() && sets(#[trigger] ls[i], key)
}

/// What `set_value` returns.
pub open spec fn set_value_of(t: Seq<char>, key: Seq<char>, value: Seq<char>) -> Seq<char> {
    let ls = text::raw_lines(t);
    if any_sets(ls, key) {
        text::joined(with_values(ls, key, value))
    } else if t.len() > 0 && t.last() != '\n' {
        t + "\n"@ + (key + " = "@ + value + "\n"@)
    } else {
        t + (key + " = "@ + value + "\n"@)
    }
}

proof fn lemma_strip_endings(raw: Seq<char>)
    ensures
        strip_endings(raw).len() <= raw.len(),
        strip_endings(raw) == raw.take(strip_endings(raw).len() as int),
        forall|i: int|
            strip_endings(raw).len() <= i < raw.len() ==> (#[trigger] raw[i] == '\n' || raw[i]
                == '\r'),
        strip_endings(raw).len() > 0 ==> strip_endings(raw).last() != '\n' && strip_endings(
            raw,
        ).last() != '\r',
    decreases raw.len(),
{
    if raw.len() > 0 && (raw.last() == '\n' || raw.last() == '\r') {
        let r = raw.drop_last();
        lemma_strip_endings(r);
        assert forall|i: int| strip_endings(raw).len() <= i < raw.len() implies (#[trigger] raw[i]
            == '\n' || raw[i] == '\r') by {
            if i < raw.len() - 1 {
                assert(r[i] == raw[i]);
            }
        }
        assert(r.take(strip_endings(raw).len() as int) =~= raw.take(
            strip_endings(raw).len() as int,
        ));
    } else {
        assert(raw.take(raw.len() as int) =~= raw);
    }
}

/// The places that matter in a line with an equals sign.
proof fn lemma_places(raw: Seq<char>)
    requires
        text::first(setting_part(raw), '=') < setting_part(raw).len(),
    ensures
        ({
            let part = setting_part(raw);
            let eq = text::first(part, '=') as int;
            &&& part == raw.take(part.len() as int)
            &&& eq < value_from(raw) <= value_to(raw) <= part.len() <= raw.len()
            &&& raw.subrange(value_from(raw), value_to(raw)) == text::trim(part.skip(eq + 1))
        }),
{
    let body = strip_endings(raw);
    lemma_strip_endings(raw);
    config::lemma_comment_at(body);
    let part = setting_part(raw);
    assert(part =~= raw.take(part.len() as int));
    let eq = text::first(part, '=') as int;
    let region = part.skip(eq + 1);
    text::lemma_trim_bound(region);
    assert(part.skip(value_from(raw)) =~= region.skip(text::lead(region) as int));
    assert(raw.subrange(value_from(raw), value_to(raw)) =~= region.subrange(
        text::trim_from(region),
        text::trim_to(region),
    ));
}

/// Giving a line another value changes the value and no other byte: what is
/// before it and what is behind it stay.
pub proof fn law_only_the_value_changes(raw: Seq<char>, key: Seq<char>, value: Seq<char>)
    requires
        sets(raw, key),
    ensures
        ({
            let part = setting_part(raw);
            let was = text::trim(part.skip(text::first(part, '=') as int + 1));
            let before = raw.take(value_from(raw));
            let behind = raw.skip(value_to(raw));
            &&& raw == before + was + behind
            &&& with_value(raw, value) == before + value + behind
        }),
{
    lemma_places(raw);
    let before = raw.take(value_from(raw));
    let behind = raw.skip(value_to(raw));
    assert(raw =~= before + raw.subrange(value_from(raw), value_to(raw)) + behind);
}

fn strip_endings_of(raw: &[char]) -> (n: usize)
    ensures
        n <= raw@.len(),
        strip_endings(raw@) == raw@.take(n as int),
        n == strip_endings(raw@).len(),
{
    let mut n: usize = raw.len();
    assert(raw@.take(n as int) =~= raw@);
    while n > 0 && (raw[n - 1] == '\n' || raw[n - 1] == '\r')
        invariant
            n <= raw@.len(),
            strip_endings(raw@) == strip_endings(raw@.take(n as int)),
        decreases n,
    {
        n = n - 1;
        assert(raw@.take(n + 1).drop_last() =~= raw@.take(n as int));
        assert(raw@.take(n + 1).last() == raw@[n as int]);
    }
    assert(n > 0 ==> raw@.take(n as int).last() == raw@[n - 1]);
    n
}

/// Where the value of a line starts and ends, if the line sets `key`.
fn find_value(raw: &[char], key: &str) -> (r: Option<(usize, usize)>)
    ensures
        r is Some <==> sets(raw@, key@),
        r matches Some((from, to)) ==> {
            &&& from == value_from(raw@)
            &&& to == value_to(raw@)
            &&& from <= to <= raw@.len()
        },
{
    let n: usize = strip_endings_of(raw);
    let body: &[char] = vstd::slice::slice_subrange(raw, 0, n);
    assert(body@ =~= strip_endings(raw@));
    let end: usize = config::comment_place(body);
    let part: &[char] = vstd::slice::slice_subrange(body, 0, end);
    assert(part@ =~= setting_part(raw@));
    let eq: usize = text::first_of(part, '=');
    if eq >= part.len() {
        return None;
    }
    let name: String = text::string_of(vstd::slice::slice_subrange(part, 0, eq));
    assert(name@ =~= part@.take(eq as int));
    if !text::same(text::trimmed(name.as_str()), key) {
        return None;
    }
    proof {
        lemma_places(raw@);
    }
    let region: &[char] = vstd::slice::slice_subrange(part, eq + 1, part.len());
    assert(region@ =~= part@.skip(eq + 1));
    let from: usize = eq + 1 + text::lead_of(region);
    let value: &[char] = vstd::slice::slice_subrange(part, from, part.len());
    assert(value@ =~= part@.skip(from as int));
    let to: usize = part.len() - text::trail_of(value);
    Some((from, to))
}

/// `t` with `key`'s value replaced by `value` on every line that sets it, every
/// other byte unchanged. Adds a line `key = value` when no line sets it.
pub fn set_value(t: &str, key: &str, value: &str) -> (r: String)
    ensures
        r@ == set_value_of(t@, key@, value@),
{
    let raw: Vec<&str> = config::split_lines(t);
    let ghost ls = text::raw_lines(t@);
    let ghost edited = with_values(ls, key@, value@);
    let mut out: String = String::new();
    let mut found: bool = false;
    let mut i: usize = 0;
    assert(edited.take(0) =~= Seq::empty());
    assert(out@ =~= text::joined(edited.take(0)));
    while i < raw.len()
        invariant
            i <= raw.len(),
            config::str_views(raw@) == ls,
            ls == text::raw_lines(t@),
            edited == with_values(ls, key@, value@),
            out@ == text::joined(edited.take(i as int)),
            found <==> any_sets(ls.take(i as int), key@),
        decreases raw.len() - i,
    {
        let cs: Vec<char> = text::chars_of(raw[i]);
        let ghost next = edited.take(i + 1);
        proof {
            assert(ls[i as int] == raw@[i as int]@);
            assert(next.drop_last() =~= edited.take(i as int));
            let longer = ls.take(i + 1);
            assert forall|k: int| 0 <= k < i implies #[trigger] longer[k] == ls.take(i as int)[k] by {}
            assert(longer[i as int] == ls[i as int]);
        }
        match find_value(cs.as_slice(), key) {
            Some((from, to)) => {
                found = true;
                text::push_chars(&mut out, vstd::slice::slice_subrange(cs.as_slice(), 0, from));
                out.append(value);
                text::push_chars(
                    &mut out,
                    vstd::slice::slice_subrange(cs.as_slice(), to, cs.len()),
                );
                proof {
                    assert(sets(ls.take(i + 1)[i as int], key@));
                    assert(out@ =~= text::joined(next));
                }
            },
            None => {
                out.append(raw[i]);
                proof {
                    assert(out@ =~= text::joined(next));
                    if any_sets(ls.take(i + 1), key@) {
                        let k = choose|k: int|
                            0 <= k < i + 1 && sets(#[trigger] ls.take(i + 1)[k], key@);
                        assert(k < i);
                        assert(sets(ls.take(i as int)[k], key@));
                    }
                    if any_sets(ls.take(i as int), key@) {
                        let k = choose|k: int|
                            0 <= k < i && sets(#[trigger] ls.take(i as int)[k], key@);
                        assert(sets(ls.take(i + 1)[k], key@));
                    }
                }
            },
        }
        i += 1;
    }
    proof {
        assert(config::str_views(raw@).len() == raw@.len());
        assert(edited.take(i as int) =~= edited);
        assert(ls.take(i as int) =~= ls);
    }
    if !found {
        proof {
            assert forall|k: int| 0 <= k < ls.len() implies edited[k] == ls[k] by {
                assert(!sets(ls[k], key@));
            }
            assert(edited =~= ls);
            text::law_lines_make_the_text(t@);
        }
        let cs: Vec<char> = text::chars_of(t);
        let n: usize = cs.len();
        if n > 0 && cs[n - 1] != '\n' {
            out.append("\n");
        }
        let mut line: String = String::from_str(key);
        line.append(" = ");
        line.append(value);
        line.append("\n");
        out.append(line.as_str());
    }
    out
}

/// What is read of a line is its part before the comment, whichever of its
/// ending characters are taken off first.
proof fn lemma_code_of_line(raw: Seq<char>)
    requires
        text::one_line(raw),
    ensures
        config::code_of(text::without_ending(raw)) == text::trim(setting_part(raw)),
{
    let body = strip_endings(raw);
    let l = text::without_ending(raw);
    let n = body.len() as int;
    let m = l.len() as int;
    lemma_strip_endings(raw);
    assert(l =~= raw.take(m));
    if raw.last() == '\n' {
        let d = raw.drop_last();
        if d.len() > 0 && d.last() == '\r' {
            assert(raw[raw.len() - 2] == '\r');
        }
        if n > m {
            assert(body.last() == raw[n - 1]);
        }
    }
    assert(n <= m);
    assert forall|j: int| n <= j < m implies l[j] == '\r' by {
        assert(raw[j] == '\n' || raw[j] == '\r');
    }
    config::lemma_comment_at(body);
    let c = config::comment_at(body);
    assert forall|j: int| 0 <= j < n implies config::comment_here(l, j) == config::comment_here(
        body,
        j,
    ) by {
        config::lemma_in_quotes_prefix(l, body, j);
        assert(l[j] == body[j]);
    }
    if c < n {
        config::lemma_comment_is(l, c);
        assert(l.take(c) =~= body.take(c));
    } else {
        config::lemma_comment_is(l, m);
        let rs = l.skip(n);
        assert forall|i: int| 0 <= i < rs.len() implies text::is_white(#[trigger] rs[i]) by {
            assert(rs[i] == l[n + i]);
        }
        text::lemma_trim_of_padded(Seq::empty(), body, rs);
        assert(l.take(m) =~= Seq::<char>::empty() + body + rs);
        assert(body.take(c) =~= body);
    }
}

/// Trimming a line first or its two sides later comes to the same.
proof fn lemma_item_of_trimmed(x: Seq<char>)
    ensures
        ({
            let c = text::trim(x);
            let eq = text::first(x, '=') as int;
            &&& eq < x.len() ==> {
                &&& c.len() > 0
                &&& text::first(c, '=') < c.len()
                &&& text::trim(c.take(text::first(c, '=') as int)) == text::trim(x.take(eq))
                &&& text::trim(c.skip(text::first(c, '=') as int + 1)) == text::trim(
                    x.skip(eq + 1),
                )
                &&& text::trim(x.take(eq)).len() > 0 ==> c[0] == text::trim(x.take(eq))[0]
            }
            &&& eq >= x.len() ==> text::first(c, '=') >= c.len()
        }),
{
    let c = text::trim(x);
    let eq = text::first(x, '=') as int;
    text::lemma_first_bound(x, '=');
    text::lemma_trim_bound(x);
    let (a, b) = (text::trim_from(x), text::trim_to(x));
    if eq < x.len() {
        if eq < a {
            assert(text::is_white(x[eq]));
        }
        if eq >= b {
            assert(text::is_white(x[eq]));
        }
        assert(c[eq - a] == '=');
        assert forall|i: int| 0 <= i < eq - a implies #[trigger] c[i] != '=' by {
            assert(c[i] == x[a + i]);
        }
        text::lemma_first_is(c, '=', (eq - a) as nat);
        let before = x.take(a);
        let left = c.take(eq - a);
        assert forall|i: int| 0 <= i < before.len() implies text::is_white(
            #[trigger] before[i],
        ) by {
            assert(before[i] == x[i]);
        }
        text::lemma_trim_of_padded(before, left, Seq::empty());
        assert(x.take(eq) =~= before + left + Seq::<char>::empty());
        let after = x.skip(b);
        let right = c.skip(eq - a + 1);
        assert forall|i: int| 0 <= i < after.len() implies text::is_white(#[trigger] after[i]) by {
            assert(after[i] == x[b + i]);
        }
        text::lemma_trim_of_padded(Seq::empty(), right, after);
        assert(x.skip(eq + 1) =~= Seq::<char>::empty() + right + after);
        if text::trim(x.take(eq)).len() > 0 {
            text::lemma_trim_bound(left);
            if left.len() > 0 {
                assert(left[0] == x[a]);
                if text::trim_from(left) > 0 {
                    assert(text::is_white(left[0]));
                }
            }
            assert(c[0] == left[0]);
        }
    } else {
        assert forall|i: int| 0 <= i < c.len() implies #[trigger] c[i] != '=' by {
            assert(c[i] == x[a + i]);
        }
        text::lemma_first_is(c, '=', c.len());
    }
}

/// A line sets a key exactly when it reads as `key = value`, and then its
/// value is what stands behind the equals sign.
proof fn lemma_setting_lines(raw: Seq<char>, key: Seq<char>)
    requires
        text::one_line(raw),
        config::plain_key(key),
    ensures
        ({
            let item = config::item_of(config::code_of(text::without_ending(raw)));
            let part = setting_part(raw);
            &&& sets(raw, key) ==> item == config::Item::Pair(
                key,
                text::trim(part.skip(text::first(part, '=') as int + 1)),
            )
            &&& !sets(raw, key) ==> !(item is Pair && item->0 == key)
        }),
{
    lemma_code_of_line(raw);
    lemma_item_of_trimmed(setting_part(raw));
}

proof fn lemma_strip_is(e: Seq<char>, n: int)
    requires
        0 <= n <= e.len(),
        forall|i: int| n <= i < e.len() ==> (#[trigger] e[i] == '\n' || e[i] == '\r'),
        n > 0 ==> e[n - 1] != '\n' && e[n - 1] != '\r',
    ensures
        strip_endings(e) == e.take(n),
{
    lemma_strip_endings(e);
    let k = strip_endings(e).len() as int;
    if k < n {
        assert(e[n - 1] == '\n' || e[n - 1] == '\r');
    }
    if n < k {
        assert(strip_endings(e).last() == e[k - 1]);
    }
}

/// What stands around the value of a line.
proof fn lemma_around_value(raw: Seq<char>, key: Seq<char>)
    requires
        config::plain_key(key),
        sets(raw, key),
    ensures
        ({
            let body = strip_endings(raw);
            let part = setting_part(raw);
            let n = part.len() as int;
            let eq = text::first(part, '=') as int;
            let (vf, vt) = (value_from(raw), value_to(raw));
            &&& body == raw.take(body.len() as int)
            &&& part == raw.take(n)
            &&& eq < vf <= vt <= n <= body.len() <= raw.len()
            &&& n == config::comment_at(body)
            &&& raw[eq] == '='
            &&& forall|i: int| 0 <= i < eq ==> #[trigger] raw[i] != '='
            &&& forall|i: int| 0 <= i < vf ==> #[trigger] raw[i] != '"'
            &&& forall|i: int| eq < i < vf ==> text::is_white(#[trigger] raw[i])
            &&& forall|i: int| vt <= i < n ==> text::is_white(#[trigger] raw[i])
        }),
{
    lemma_places(raw);
    lemma_strip_endings(raw);
    let body = strip_endings(raw);
    let part = setting_part(raw);
    let n = part.len() as int;
    let (vf, vt) = (value_from(raw), value_to(raw));
    let eq = text::first(part, '=') as int;
    config::lemma_comment_at(body);
    text::lemma_first_bound(part, '=');
    let region = part.skip(eq + 1);
    text::lemma_trim_bound(region);
    assert(part.skip(vf) =~= region.skip(text::lead(region) as int));
    assert forall|i: int| eq < i < vf implies text::is_white(#[trigger] raw[i]) by {
        assert(region[i - eq - 1] == raw[i]);
    }
    assert forall|i: int| vt <= i < n implies text::is_white(#[trigger] raw[i]) by {
        assert(region[i - eq - 1] == raw[i]);
    }
    assert(raw[eq] == '=') by {
        assert(part[eq] == raw[eq]);
    }
    let k = part.take(eq);
    text::lemma_trim_bound(k);
    assert forall|i: int| 0 <= i < vf implies #[trigger] raw[i] != '"' by {
        if i < eq {
            assert(k[i] == raw[i]);
            let (a, b) = (text::trim_from(k), text::trim_to(k));
            if a <= i < b {
                assert(key[i - a] == k[i]);
            }
        }
    }
    assert forall|i: int| 0 <= i < eq implies #[trigger] raw[i] != '=' by {
        assert(part[i] == raw[i]);
    }
}

/// Where the ending and the comment of a line with another value start.
#[verifier::spinoff_prover]
#[verifier::rlimit(60)]
proof fn lemma_edited_line(raw: Seq<char>, key: Seq<char>, value: Seq<char>)
    requires
        config::plain_key(key),
        config::plain_value(value),
        sets(raw, key),
    ensures
        ({
            let e = with_value(raw, value);
            let n = setting_part(raw).len() as int;
            let c = value_from(raw) + value.len() + (n - value_to(raw));
            &&& c <= e.len()
            &&& setting_part(e) == e.take(c)
        }),
{
    lemma_around_value(raw, key);
    lemma_strip_endings(raw);
    let e = with_value(raw, value);
    let body = strip_endings(raw);
    let bn = body.len() as int;
    let n = setting_part(raw).len() as int;
    let (vf, vt) = (value_from(raw), value_to(raw));
    let w = value.len() as int;
    config::lemma_comment_at(body);
    let en = vf + w + (bn - vt);
    assert forall|i: int| en <= i < e.len() implies (#[trigger] e[i] == '\n' || e[i] == '\r') by {
        assert(e[i] == raw[i - w - vf + vt]);
    }
    assert(e[en - 1] != '\n' && e[en - 1] != '\r') by {
        if bn > vt {
            assert(e[en - 1] == raw[bn - 1]);
            assert(body.last() == raw[bn - 1]);
        } else {
            assert(e[en - 1] == value[w - 1]);
        }
    }
    lemma_strip_is(e, en);
    let eb = strip_endings(e);
    assert forall|j: int| 0 <= j < vf implies !#[trigger] config::comment_here(eb, j) by {
        config::lemma_in_quotes_prefix(eb, body, j);
        assert(eb[j] == body[j]);
        assert(!config::comment_here(body, j));
    }
    assert forall|j: int| 0 <= j < vf implies eb[j] != '"' by {
        assert(eb[j] == raw[j]);
    }
    config::lemma_no_quotes(eb, 0, vf);
    assert forall|j: int| 0 <= j < w implies eb[vf + j] == value[j] by {}
    config::lemma_in_quotes_of_part(eb, vf, value, w);
    let c = vf + w + (n - vt);
    assert forall|j: int| vf <= j < c implies !#[trigger] config::comment_here(eb, j) by {
        if j < vf + w {
            assert(eb[j] == value[j - vf]);
        } else {
            assert(eb[j] == raw[j - w - vf + vt]);
        }
    }
    assert forall|j: int| vf + w <= j < c implies eb[j] != '"' by {
        assert(eb[j] == raw[j - w - vf + vt]);
    }
    config::lemma_no_quotes(eb, vf + w, c);
    if c < en {
        assert(eb[c] == raw[n]);
        assert(body[n] == raw[n]);
        assert(config::comment_here(body, n));
    }
    config::lemma_comment_is(eb, c);
    assert(setting_part(e) =~= e.take(c));
}

/// A line with another value sets its key to that value, and is still a line
/// that ends as it did.
proof fn lemma_with_value(raw: Seq<char>, key: Seq<char>, value: Seq<char>)
    requires
        text::one_line(raw),
        config::plain_key(key),
        config::plain_value(value),
        sets(raw, key),
    ensures
        ({
            let e = with_value(raw, value);
            let part = setting_part(e);
            &&& text::one_line(e)
            &&& e.last() == '\n' <==> raw.last() == '\n'
            &&& sets(e, key)
            &&& text::trim(part.skip(text::first(part, '=') as int + 1)) == value
        }),
{
    lemma_around_value(raw, key);
    lemma_edited_line(raw, key, value);
    lemma_strip_endings(raw);
    let e = with_value(raw, value);
    let part = setting_part(raw);
    let n = part.len() as int;
    let (vf, vt) = (value_from(raw), value_to(raw));
    let eq = text::first(part, '=') as int;
    let w = value.len() as int;
    let ep = setting_part(e);
    assert forall|i: int| 0 <= i < eq implies #[trigger] ep[i] != '=' by {
        assert(ep[i] == raw[i]);
    }
    assert(ep[eq] == raw[eq]);
    text::lemma_first_is(ep, '=', eq as nat);
    assert(ep.take(eq) =~= part.take(eq));
    let left = raw.subrange(eq + 1, vf);
    let right = raw.subrange(vt, n);
    assert forall|i: int| 0 <= i < left.len() implies text::is_white(#[trigger] left[i]) by {
        assert(left[i] == raw[eq + 1 + i]);
    }
    assert forall|i: int| 0 <= i < right.len() implies text::is_white(#[trigger] right[i]) by {
        assert(right[i] == raw[vt + i]);
    }
    assert(ep.skip(eq + 1) =~= left + value + right);
    text::lemma_trim_of_padded(left, value, right);
    text::lemma_trim_of_trimmed(value);
    assert forall|i: int| 0 <= i < e.len() - 1 implies #[trigger] e[i] != '\n' by {
        if i < vf {
            assert(e[i] == raw[i]);
            if i == raw.len() - 1 {
                assert(raw[i] == strip_endings(raw).last());
            }
        } else if i < vf + w {
            assert(e[i] == value[i - vf]);
        } else {
            assert(e[i] == raw[i - w - vf + vt]);
        }
    }
    if vt < raw.len() {
        assert(e.last() == raw.last());
    } else {
        assert(e.last() == value[w - 1]);
        assert(raw.last() == strip_endings(raw).last());
    }
}

/// What the line at `i` of a text says.
pub open spec fn item_at(t: Seq<char>, i: int) -> config::Item {
    config::item_of(config::code_of(config::lines_of(t)[i]))
}

/// A line that adds a setting.
pub open spec fn new_line(key: Seq<char>, value: Seq<char>) -> Seq<char> {
    key + " = "@ + value + "\n"@
}

/// The lines of a text, the last one closed.
pub open spec fn closed_lines(t: Seq<char>) -> Seq<Seq<char>> {
    let ls = text::raw_lines(t);
    if t.len() > 0 && t.last() != '\n' {
        ls.drop_last().push(ls.last() + "\n"@)
    } else {
        ls
    }
}

proof fn lemma_new_line(key: Seq<char>, value: Seq<char>)
    requires
        config::plain_key(key),
        config::plain_value(value),
    ensures
        ({
            let l = new_line(key, value);
            &&& text::one_line(l)
            &&& l.last() == '\n'
            &&& setting_part(l) == key + " = "@ + value
            &&& text::first(setting_part(l), '=') == key.len() + 1
            &&& config::item_of(config::code_of(text::without_ending(l))) == config::Item::Pair(
                key,
                value,
            )
        }),
{
    reveal_strlit(" = ");
    reveal_strlit("\n");
    let l = new_line(key, value);
    let k = key.len() as int;
    let w = value.len() as int;
    assert forall|i: int| 0 <= i < l.len() - 1 implies #[trigger] l[i] != '\n' by {
        if i < k {
            assert(l[i] == key[i]);
        } else if i >= k + 3 {
            assert(l[i] == value[i - k - 3]);
        }
    }
    let n = k + 3 + w;
    lemma_strip_is(l, n);
    let b = strip_endings(l);
    assert forall|j: int| 0 <= j < k + 3 implies b[j] != '"' && b[j] != '#' by {
        if j < k {
            assert(b[j] == key[j]);
        }
    }
    config::lemma_no_quotes(b, 0, k + 3);
    assert forall|j: int| 0 <= j < n implies !#[trigger] config::comment_here(b, j) by {
        if j >= k + 3 {
            assert(b[j] == value[j - k - 3]);
        }
    }
    config::lemma_comment_is(b, n);
    let p = setting_part(l);
    assert(p =~= key + " = "@ + value);
    assert forall|j: int| 0 <= j < k + 1 implies #[trigger] p[j] != '=' by {
        if j < k {
            assert(p[j] == key[j]);
        }
    }
    text::lemma_first_is(p, '=', (k + 1) as nat);
    text::lemma_trim_of_padded(Seq::empty(), key, seq![' ']);
    assert(p.take(k + 1) =~= Seq::<char>::empty() + key + seq![' ']);
    assert(!text::is_white(key[0]) && !text::is_white(key[k - 1]));
    text::lemma_trim_of_trimmed(key);
    text::lemma_trim_of_padded(seq![' '], value, Seq::empty());
    assert(p.skip(k + 2) =~= seq![' '] + value + Seq::<char>::empty());
    text::lemma_trim_of_trimmed(value);
    lemma_setting_lines(l, key);
}

/// Closing a line changes nothing of what it says.
proof fn lemma_closed_line(l: Seq<char>)
    requires
        text::one_line(l),
        l.last() != '\n',
    ensures
        text::one_line(l + "\n"@),
        (l + "\n"@).last() == '\n',
        config::code_of(text::without_ending(l + "\n"@)) == config::code_of(
            text::without_ending(l),
        ),
{
    reveal_strlit("\n");
    let e = l + "\n"@;
    assert(e.drop_last() =~= l);
    assert forall|i: int| 0 <= i < e.len() - 1 implies #[trigger] e[i] != '\n' by {
        assert(e[i] == l[i]);
        if i == l.len() - 1 {
            assert(l[i] == l.last());
        }
    }
    lemma_code_of_line(l);
    lemma_code_of_line(e);
    assert(strip_endings(e) == strip_endings(l));
}

/// The lines of what `set_value` returns.
proof fn lemma_result_lines(t: Seq<char>, key: Seq<char>, value: Seq<char>)
    requires
        config::plain_key(key),
        config::plain_value(value),
    ensures
        ({
            let ls = text::raw_lines(t);
            let r = text::raw_lines(set_value_of(t, key, value));
            if any_sets(ls, key) {
                r == with_values(ls, key, value)
            } else {
                r == closed_lines(t).push(new_line(key, value))
            }
        }),
{
    let ls = text::raw_lines(t);
    text::law_lines_make_the_text(t);
    if any_sets(ls, key) {
        let edited = with_values(ls, key, value);
        assert forall|i: int| 0 <= i < edited.len() implies text::one_line(#[trigger] edited[i])
            && (i < edited.len() - 1 ==> edited[i].last() == '\n') by {
            assert(text::one_line(ls[i]));
            if sets(ls[i], key) {
                lemma_with_value(ls[i], key, value);
            }
        }
        text::law_text_of_lines_has_them(edited);
    } else {
        lemma_new_line(key, value);
        let l = new_line(key, value);
        let closed = closed_lines(t);
        let all = closed.push(l);
        if t.len() > 0 && t.last() != '\n' {
            assert(ls.len() > 0);
            assert(text::joined(ls) == text::joined(ls.drop_last()) + ls.last());
            assert(text::one_line(ls[ls.len() - 1]));
            assert(t.last() == ls.last().last());
            lemma_closed_line(ls.last());
            assert(closed.drop_last() =~= ls.drop_last());
            assert(text::joined(closed) =~= t + "\n"@);
        } else {
            assert(text::joined(closed) == t);
            if ls.len() > 0 {
                assert(text::one_line(ls[ls.len() - 1]));
                assert(text::joined(ls) == text::joined(ls.drop_last()) + ls.last());
                assert(t.last() == ls.last().last());
            }
        }
        assert(all.drop_last() =~= closed);
        assert(text::joined(all) =~= text::joined(closed) + l);
        assert(text::joined(all) =~= set_value_of(t, key, value));
        assert forall|i: int| 0 <= i < all.len() implies text::one_line(#[trigger] all[i]) && (i
            < all.len() - 1 ==> all[i].last() == '\n') by {
            if i < closed.len() {
                assert(all[i] == closed[i]);
                if i < ls.len() - 1 || closed == ls {
                    assert(closed[i] == ls[i]);
                }
                assert(text::one_line(ls[i]));
            }
        }
        text::law_text_of_lines_has_them(all);
    }
}

/// After `set_value` some line says `key = value`, and every line that sets
/// the key sets it to that value.
pub proof fn law_set_value_is_read_back(t: Seq<char>, key: Seq<char>, value: Seq<char>)
    requires
        config::plain_key(key),
        config::plain_value(value),
    ensures
        ({
            let r = set_value_of(t, key, value);
            let n = config::lines_of(r).len();
            &&& exists|i: int|
                0 <= i < n && #[trigger] item_at(r, i) == config::Item::Pair(key, value)
            &&& forall|i: int|
                0 <= i < n && #[trigger] item_at(r, i) is Pair && item_at(r, i)->0 == key
                    ==> item_at(r, i) == config::Item::Pair(key, value)
        }),
{
    let r = set_value_of(t, key, value);
    let ls = text::raw_lines(t);
    lemma_result_lines(t, key, value);
    text::law_lines_make_the_text(t);
    assert forall|i: int|
        0 <= i < config::lines_of(r).len() && #[trigger] item_at(r, i) is Pair && item_at(r, i)->0
            == key implies item_at(r, i) == config::Item::Pair(key, value) by {
        lemma_result_line(t, key, value, i);
        if i < ls.len() && !sets(ls[i], key) {
            assert(text::one_line(ls[i]));
            lemma_setting_lines(ls[i], key);
        }
    }
    if any_sets(ls, key) {
        let i = choose|i: int| 0 <= i < ls.len() && sets(#[trigger] ls[i], key);
        lemma_result_line(t, key, value, i);
        assert(item_at(r, i) == config::Item::Pair(key, value));
    } else {
        lemma_result_line(t, key, value, ls.len() as int);
        assert(item_at(r, ls.len() as int) == config::Item::Pair(key, value));
    }
}

/// What one line of the result says.
proof fn lemma_result_line(t: Seq<char>, key: Seq<char>, value: Seq<char>, i: int)
    requires
        config::plain_key(key),
        config::plain_value(value),
        0 <= i < config::lines_of(set_value_of(t, key, value)).len(),
    ensures
        ({
            let ls = text::raw_lines(t);
            let r = set_value_of(t, key, value);
            if i < ls.len() {
                if sets(ls[i], key) {
                    item_at(r, i) == config::Item::Pair(key, value)
                } else {
                    &&& item_at(r, i) == item_at(t, i)
                    &&& config::code_of(config::lines_of(r)[i]) == config::code_of(
                        config::lines_of(t)[i],
                    )
                }
            } else {
                item_at(r, i) == config::Item::Pair(key, value)
            }
        }),
{
    let ls = text::raw_lines(t);
    let r = set_value_of(t, key, value);
    let rs = text::raw_lines(r);
    lemma_result_lines(t, key, value);
    text::law_lines_make_the_text(t);
    assert(config::lines_of(r)[i] == text::without_ending(rs[i]));
    if i < ls.len() {
        assert(config::lines_of(t)[i] == text::without_ending(ls[i]));
        assert(text::one_line(ls[i]));
        if sets(ls[i], key) {
            lemma_with_value(ls[i], key, value);
            lemma_setting_lines(with_value(ls[i], value), key);
        } else if !any_sets(ls, key) {
            if rs[i] != ls[i] {
                assert(i == ls.len() - 1);
                assert(text::joined(ls) == text::joined(ls.drop_last()) + ls.last());
                assert(t.last() == ls.last().last());
                lemma_closed_line(ls[i]);
            }
        }
    } else {
        lemma_new_line(key, value);
    }
}

/// Where the value of a line stands, when white space is all that stands around
/// it.
proof fn lemma_value_stands(raw: Seq<char>, left: Seq<char>, value: Seq<char>, right: Seq<char>)
    requires
        ({
            let part = setting_part(raw);
            let eq = text::first(part, '=') as int;
            eq < part.len() && part.skip(eq + 1) == left + value + right
        }),
        value.len() > 0,
        !text::is_white(value[0]),
        !text::is_white(value.last()),
        forall|i: int| 0 <= i < left.len() ==> text::is_white(#[trigger] left[i]),
        forall|i: int| 0 <= i < right.len() ==> text::is_white(#[trigger] right[i]),
    ensures
        value_from(raw) == text::first(setting_part(raw), '=') + 1 + left.len(),
        value_to(raw) == value_from(raw) + value.len(),
{
    let part = setting_part(raw);
    let eq = text::first(part, '=') as int;
    let region = part.skip(eq + 1);
    let n = left.len();
    assert forall|i: int| 0 <= i < n implies text::is_white(#[trigger] region[i]) by {
        assert(region[i] == left[i]);
    }
    assert(region[n as int] == value[0]);
    text::lemma_lead_is(region, n);
    let rest = part.skip(value_from(raw));
    assert(rest =~= region.skip(n as int));
    assert((left + value + right).skip(n as int) =~= value + right);
    assert forall|i: int| rest.len() - right.len() <= i < rest.len() implies text::is_white(
        #[trigger] rest[i],
    ) by {
        assert(rest[i] == right[i - value.len()]);
    }
    assert(rest[rest.len() - right.len() - 1] == value.last());
    text::lemma_trail_is(rest, right.len());
}

/// Of two values that a line is given, the second stays.
proof fn lemma_second_value(raw: Seq<char>, key: Seq<char>, v1: Seq<char>, v2: Seq<char>)
    requires
        config::plain_key(key),
        config::plain_value(v1),
        sets(raw, key),
    ensures
        with_value(with_value(raw, v1), v2) == with_value(raw, v2),
{
    lemma_around_value(raw, key);
    lemma_edited_line(raw, key, v1);
    let e = with_value(raw, v1);
    let part = setting_part(raw);
    let n = part.len() as int;
    let (vf, vt) = (value_from(raw), value_to(raw));
    let eq = text::first(part, '=') as int;
    let ep = setting_part(e);
    assert forall|i: int| 0 <= i < eq implies #[trigger] ep[i] != '=' by {
        assert(ep[i] == raw[i]);
    }
    assert(ep[eq] == raw[eq]);
    text::lemma_first_is(ep, '=', eq as nat);
    let left = raw.subrange(eq + 1, vf);
    let right = raw.subrange(vt, n);
    assert forall|i: int| 0 <= i < left.len() implies text::is_white(#[trigger] left[i]) by {
        assert(left[i] == raw[eq + 1 + i]);
    }
    assert forall|i: int| 0 <= i < right.len() implies text::is_white(#[trigger] right[i]) by {
        assert(right[i] == raw[vt + i]);
    }
    assert(ep.skip(eq + 1) =~= left + v1 + right);
    lemma_value_stands(e, left, v1, right);
    assert(e.take(vf) =~= raw.take(vf));
    assert(e.skip(vf + v1.len()) =~= raw.skip(vt));
}

/// A line that was added is as if it had been added with the second value.
proof fn lemma_second_new_line(key: Seq<char>, v1: Seq<char>, v2: Seq<char>)
    requires
        config::plain_key(key),
        config::plain_value(v1),
    ensures
        sets(new_line(key, v1), key),
        with_value(new_line(key, v1), v2) == new_line(key, v2),
{
    lemma_new_line(key, v1);
    let l = new_line(key, v1);
    lemma_setting_lines(l, key);
    reveal_strlit(" = ");
    reveal_strlit("\n");
    assert(setting_part(l).skip(key.len() as int + 2) =~= seq![' '] + v1 + Seq::<char>::empty());
    lemma_value_stands(l, seq![' '], v1, Seq::empty());
    assert(with_value(l, v2) =~= new_line(key, v2));
}

/// The last write of a key wins: writing one value and then another is the same
/// as writing the other at once. So a second write of the same value changes
/// nothing.
pub proof fn law_the_last_write_wins(
    t: Seq<char>,
    key: Seq<char>,
    v1: Seq<char>,
    v2: Seq<char>,
)
    requires
        config::plain_key(key),
        config::plain_value(v1),
        config::plain_value(v2),
    ensures
        set_value_of(set_value_of(t, key, v1), key, v2) == set_value_of(t, key, v2),
{
    let ls = text::raw_lines(t);
    let mid = set_value_of(t, key, v1);
    let ms = text::raw_lines(mid);
    text::law_lines_make_the_text(t);
    lemma_result_lines(t, key, v1);
    if any_sets(ls, key) {
        let p = choose|i: int| 0 <= i < ls.len() && sets(#[trigger] ls[i], key);
        assert(text::one_line(ls[p]));
        lemma_with_value(ls[p], key, v1);
        assert(sets(ms[p], key));
        let twice = with_values(ms, key, v2);
        let once = with_values(ls, key, v2);
        assert forall|i: int| 0 <= i < ls.len() implies #[trigger] twice[i] == once[i] by {
            assert(text::one_line(ls[i]));
            if sets(ls[i], key) {
                lemma_with_value(ls[i], key, v1);
                lemma_second_value(ls[i], key, v1, v2);
            }
        }
        assert(twice =~= once);
    } else {
        let closed = closed_lines(t);
        lemma_second_new_line(key, v1, v2);
        assert(sets(ms[closed.len() as int], key));
        let twice = with_values(ms, key, v2);
        let once = closed.push(new_line(key, v2));
        assert forall|i: int| 0 <= i < ms.len() implies #[trigger] twice[i] == once[i] by {
            if i < closed.len() {
                assert(!sets(ls[i], key));
                if closed[i] != ls[i] {
                    assert(text::one_line(ls[i]));
                    assert(closed[i] == ls.last() + "\n"@);
                    reveal_strlit("\n");
                    assert(closed[i].drop_last() =~= ls[i]);
                    assert(strip_endings(closed[i]) == strip_endings(ls[i]));
                }
                assert(ms[i] == closed[i]);
            }
        }
        assert(twice =~= once);
        lemma_result_lines(t, key, v2);
        text::law_lines_make_the_text(set_value_of(t, key, v2));
    }
}

/// `set_value` keeps every line that sets another key, or says nothing, as it
/// was read before: lines are only added, and none but those of the key change.
pub proof fn law_other_lines_are_kept(t: Seq<char>, key: Seq<char>, value: Seq<char>, i: int)
    requires
        config::plain_key(key),
        config::plain_value(value),
        0 <= i < config::lines_of(t).len(),
    ensures
        ({
            let r = set_value_of(t, key, value);
            &&& config::lines_of(t).len() <= config::lines_of(r).len() <= config::lines_of(t).len()
                + 1
            &&& !(item_at(t, i) is Pair && item_at(t, i)->0 == key) ==> item_at(r, i) == item_at(
                t,
                i,
            )
        }),
{
    lemma_result_lines(t, key, value);
    text::law_lines_make_the_text(t);
    lemma_result_line(t, key, value, i);
    let ls = text::raw_lines(t);
    assert(text::one_line(ls[i]));
    lemma_setting_lines(ls[i], key);
}

/// Two settings have the same value for a key.
pub open spec fn agree(k: Key, a: GraphicsSettings, b: GraphicsSettings) -> bool {
    match k {
        Key::Shadows => a.shadows == b.shadows,
        Key::Msaa => a.msaa == b.msaa,
        Key::Fxaa => a.fxaa == b.fxaa,
    }
}

/// Two settings have the same value for everything but a key.
pub open spec fn agree_elsewhere(k: Key, a: GraphicsSettings, b: GraphicsSettings) -> bool {
    &&& a.bake == b.bake
    &&& k != Key::Shadows ==> a.shadows == b.shadows
    &&& k != Key::Msaa ==> a.msaa == b.msaa
    &&& k != Key::Fxaa ==> a.fxaa == b.fxaa
}

/// A value that the file can hold. Of sample counts it holds four.
pub open spec fn storable(k: Key, s: GraphicsSettings) -> bool {
    k == Key::Msaa ==> s.msaa == 1 || s.msaa == 2 || s.msaa == 4 || s.msaa == 8
}

proof fn lemma_keys_are_plain(k: Key)
    ensures
        config::plain_key(k.name_text()),
        key_named(k.name_text()) == Some(k),
{
    reveal_strlit("shadows");
    reveal_strlit("msaa");
    reveal_strlit("fxaa");
    assert("shadows"@.len() != "msaa"@.len() && "shadows"@.len() != "fxaa"@.len());
    assert("msaa"@[0] != "fxaa"@[0]);
}

/// A key is found again by its name, and by no other name.
pub proof fn law_keys_have_their_own_names(a: Key, b: Key)
    ensures
        key_named(a.name_text()) == Some(a),
        a.name_text() == b.name_text() <==> a == b,
{
    lemma_keys_are_plain(a);
    lemma_keys_are_plain(b);
}

proof fn lemma_quality_names(q: ShadowQuality)
    ensures
        ShadowQuality::named(q.config_text()) == Some(q),
        q.config_text().len() > 0,
        forall|i: int|
            0 <= i < q.config_text().len() ==> #[trigger] q.config_text()[i] != '"'
                && q.config_text()[i] != '#' && q.config_text()[i] != '\n',
{
    reveal_strlit("off");
    reveal_strlit("low");
    reveal_strlit("medium");
    reveal_strlit("high");
    assert("off"@[0] == 'o' && "low"@[0] == 'l' && "medium"@[0] == 'm' && "high"@[0] == 'h');
}

/// A quality is found again by its name in the file.
pub proof fn law_qualities_have_their_own_names(q: ShadowQuality)
    ensures
        ShadowQuality::named(q.config_text()) == Some(q),
{
    lemma_quality_names(q);
}

/// Going down one step four times comes back, and not before.
pub proof fn law_qualities_cycle(q: ShadowQuality)
    ensures
        q.next_spec().next_spec().next_spec().next_spec() == q,
        q.next_spec() != q,
        q.next_spec().next_spec() != q,
{
}

/// The literal of a storable value reads as that value.
proof fn lemma_literals(k: Key, s: GraphicsSettings, t: GraphicsSettings)
    requires
        storable(k, s),
    ensures
        config::plain_value(k.value_text(s)),
        applied(k, k.value_text(s), t) is Some,
        agree(k, applied(k, k.value_text(s), t)->0, s),
        agree_elsewhere(k, applied(k, k.value_text(s), t)->0, t),
{
    let v = k.value_text(s);
    match k {
        Key::Shadows => {
            reveal_strlit("\"");
            let q = s.shadows.config_text();
            lemma_quality_names(s.shadows);
            assert(v.subrange(1, v.len() - 1) =~= q);
            assert forall|i: int| 0 <= i < v.len() implies #[trigger] v[i] != '#' && v[i]
                != '\n' by {
                if 0 < i < v.len() - 1 {
                    assert(v[i] == q[i - 1]);
                }
            }
            assert forall|j: int| 1 <= j < v.len() - 1 implies v[j] != '"' by {
                assert(v[j] == q[j - 1]);
            }
            reveal_with_fuel(config::in_quotes, 2);
            assert(config::in_quotes(v, 1));
            config::lemma_no_quotes(v, 1, v.len() - 1);
            assert(!config::in_quotes(v, v.len() as int));
        },
        Key::Msaa => {
            let n = s.msaa as nat;
            reveal_with_fuel(text::decimal, 2);
            reveal_with_fuel(text::digits_value, 2);
            assert(v =~= seq![('0' as nat + n) as char]);
            assert(v.drop_last() =~= Seq::empty());
            assert(text::digits_value(v) == n);
            assert(text::all_digits(v));
            reveal_with_fuel(config::in_quotes, 2);
            assert(!config::in_quotes(v, 1));
        },
        Key::Fxaa => {
            reveal_strlit("true");
            reveal_strlit("false");
            assert("true"@.len() != "false"@.len());
            assert forall|j: int| 0 <= j < v.len() implies v[j] != '"' && v[j] != '#' && v[j]
                != '\n' by {}
            config::lemma_no_quotes(v, 0, v.len() as int);
        },
    }
}

/// Lines that set a key change nothing else, and other lines treat settings
/// that differ in the key alike.
proof fn lemma_elsewhere(
    k: Key,
    c: Seq<char>,
    d: Seq<char>,
    s: GraphicsSettings,
    t: GraphicsSettings,
)
    requires
        agree_elsewhere(k, s, t),
        c == d || {
            &&& config::item_of(c) is Pair
            &&& config::item_of(c)->0 == k.name_text()
            &&& config::item_of(d) is Pair
            &&& config::item_of(d)->0 == k.name_text()
        },
    ensures
        agree_elsewhere(k, line_effect(c, s).0, line_effect(d, t).0),
{
    lemma_keys_are_plain(k);
}

/// A line that does not set a key leaves it alone.
proof fn lemma_elsewhere_only(k: Key, c: Seq<char>, s: GraphicsSettings)
    requires
        !(config::item_of(c) is Pair && config::item_of(c)->0 == k.name_text()),
    ensures
        agree(k, line_effect(c, s).0, s),
{
    lemma_keys_are_plain(k);
}

proof fn lemma_saved(t: Seq<char>, k: Key, s: GraphicsSettings, base: GraphicsSettings, n: int)
    requires
        storable(k, s),
        0 <= n <= config::lines_of(t).len(),
    ensures
        ({
            let name = k.name_text();
            let ls = config::lines_of(t);
            let rs = config::lines_of(set_value_of(t, name, k.value_text(s)));
            let before = settings_after(ls.take(n), base);
            let after = settings_after(rs.take(n), base);
            &&& ls.len() <= rs.len()
            &&& agree_elsewhere(k, after, before)
            &&& any_sets(text::raw_lines(t).take(n), name) ==> agree(k, after, s)
        }),
    decreases n,
{
    let name = k.name_text();
    let value = k.value_text(s);
    let raw = text::raw_lines(t);
    let ls = config::lines_of(t);
    let r = set_value_of(t, name, value);
    let rs = config::lines_of(r);
    lemma_keys_are_plain(k);
    lemma_literals(k, s, base);
    lemma_result_lines(t, name, value);
    if n == 0 {
        assert(ls.take(0) =~= Seq::empty() && rs.take(0) =~= Seq::empty());
    } else {
        lemma_saved(t, k, s, base, n - 1);
        let before = settings_after(ls.take(n - 1), base);
        let after = settings_after(rs.take(n - 1), base);
        assert(ls.take(n).drop_last() =~= ls.take(n - 1));
        assert(rs.take(n).drop_last() =~= rs.take(n - 1));
        assert(ls.take(n).last() == ls[n - 1] && rs.take(n).last() == rs[n - 1]);
        lemma_result_line(t, name, value, n - 1);
        text::law_lines_make_the_text(t);
        assert(text::one_line(raw[n - 1]));
        lemma_setting_lines(raw[n - 1], name);
        assert(ls[n - 1] == text::without_ending(raw[n - 1]));
        let c = config::code_of(ls[n - 1]);
        let d = config::code_of(rs[n - 1]);
        lemma_elsewhere(k, d, c, after, before);
        if sets(raw[n - 1], name) {
            lemma_literals(k, s, after);
        } else {
            lemma_elsewhere_only(k, d, after);
            if any_sets(raw.take(n), name) {
                let i = choose|i: int| 0 <= i < n && sets(#[trigger] raw.take(n)[i], name);
                assert(i < n - 1);
                assert(sets(raw.take(n - 1)[i], name));
            }
        }
    }
}

/// A setting that was saved is loaded again with its value, whatever the file
/// held, and every other setting is loaded as it was before.
pub proof fn law_saved_settings_are_loaded(
    t: Seq<char>,
    k: Key,
    s: GraphicsSettings,
    base: GraphicsSettings,
)
    requires
        storable(k, s),
    ensures
        ({
            let r = set_value_of(t, k.name_text(), k.value_text(s));
            let loaded = settings_after(config::lines_of(r), base);
            &&& agree(k, loaded, s)
            &&& agree_elsewhere(k, loaded, settings_after(config::lines_of(t), base))
        }),
{
    let name = k.name_text();
    let value = k.value_text(s);
    let r = set_value_of(t, name, value);
    let raw = text::raw_lines(t);
    let ls = config::lines_of(t);
    let rs = config::lines_of(r);
    let n = ls.len() as int;
    lemma_keys_are_plain(k);
    lemma_literals(k, s, base);
    lemma_saved(t, k, s, base, n);
    lemma_result_lines(t, name, value);
    assert(ls.take(n) =~= ls);
    assert(raw.take(n) =~= raw);
    if any_sets(raw, name) {
        assert(rs.take(n) =~= rs);
    } else {
        lemma_result_line(t, name, value, n);
        assert(rs.drop_last() =~= rs.take(n));
        assert(rs.last() == rs[n]);
        lemma_literals(k, s, settings_after(rs.take(n), base));
    }
}

/// A line that is complained about changes nothing.
pub proof fn law_ignored_lines_change_nothing(c: Seq<char>, s: GraphicsSettings)
    ensures
        line_effect(c, s).1 is Some ==> line_effect(c, s).0 == s,
{
}

/// The comments of the default file.
pub const ABOUT_FILE: &'static str = "# Feather graphics settings. Written with defaults when missing; the menu,\n";

pub const ABOUT_SAVING: &'static str = "# F1 and F2 save changes here. Delete this file to reset. Command-line flags\n";

pub const ABOUT_FLAGS: &'static str = "# (e.g. --msaa 4) override it for one run and are never saved.\n";

pub const ABOUT_SHADOWS: &'static str = "# Shadow quality: \"high\", \"medium\", \"low\" or \"off\". F1 cycles it in game.\n";

pub const ABOUT_MSAA: &'static str = "# MSAA sample count: 1, 2, 4 or 8, clamped to what the GPU supports. It is baked\n";

pub const ABOUT_BAKING: &'static str = "# into the render pipelines, so the menu can change it only from the main menu.\n";

pub const ABOUT_FXAA: &'static str = "# FXAA post-process anti-aliasing: true or false. F2 toggles it in game.\n";

/// What the default file says before each setting.
pub open spec fn lines_before(k: Key) -> Seq<Seq<char>> {
    match k {
        Key::Shadows => seq![
            ABOUT_FILE@,
            ABOUT_SAVING@,
            ABOUT_FLAGS@,
            "\n"@,
            ABOUT_SHADOWS@,
        ],
        Key::Msaa => seq!["\n"@, ABOUT_MSAA@, ABOUT_BAKING@],
        Key::Fxaa => seq!["\n"@, ABOUT_FXAA@],
    }
}

/// The lines about a setting in the default file.
pub open spec fn default_part(k: Key) -> Seq<Seq<char>> {
    lines_before(k).push(new_line(k.name_text(), k.value_text(default_settings())))
}

/// The lines of the default file.
pub open spec fn default_lines() -> Seq<Seq<char>> {
    default_part(Key::Shadows) + default_part(Key::Msaa) + default_part(Key::Fxaa)
}

/// The file written when none exists.
pub open spec fn default_file() -> Seq<char> {
    text::joined(default_lines())
}

fn push_default(out: &mut String, k: Key)
    ensures
        final(out)@ == old(out)@ + text::joined(default_part(k)),
{
    let before: Vec<&str> = match k {
        Key::Shadows => vec![ABOUT_FILE, ABOUT_SAVING, ABOUT_FLAGS, "\n", ABOUT_SHADOWS],
        Key::Msaa => vec!["\n", ABOUT_MSAA, ABOUT_BAKING],
        Key::Fxaa => vec!["\n", ABOUT_FXAA],
    };
    assert(config::str_views(before@) =~= lines_before(k));
    config::append_lines(out, &before);
    let d: GraphicsSettings = GraphicsSettings::default();
    let value: String = k.value(&d);
    out.append(k.name());
    out.append(" = ");
    out.append(value.as_str());
    out.append("\n");
    proof {
        let all = default_part(k);
        assert(all.drop_last() =~= lines_before(k));
        assert(out@ =~= old(out)@ + text::joined(all));
    }
}

/// The file written when none exists. Its values are the defaults.
pub fn default_text() -> (r: String)
    ensures
        r@ == default_file(),
{
    let mut r: String = String::new();
    push_default(&mut r, Key::Shadows);
    push_default(&mut r, Key::Msaa);
    push_default(&mut r, Key::Fxaa);
    proof {
        text::lemma_joined_add(default_part(Key::Shadows), default_part(Key::Msaa));
        text::lemma_joined_add(
            default_part(Key::Shadows) + default_part(Key::Msaa),
            default_part(Key::Fxaa),
        );
        assert(r@ =~= default_file());
    }
    r
}

#[verifier::spinoff_prover]
#[verifier::rlimit(50)]
proof fn lemma_comments()
    ensures
        config::is_silent(ABOUT_FILE@),
        config::is_silent(ABOUT_SAVING@),
        config::is_silent(ABOUT_FLAGS@),
        config::is_silent(ABOUT_SHADOWS@),
{
    reveal_with_fuel(text::no_feed, 90);
    reveal_strlit("# Feather graphics settings. Written with defaults when missing; the menu,\n");
    config::lemma_comment_line(ABOUT_FILE@);
    reveal_strlit("# F1 and F2 save changes here. Delete this file to reset. Command-line flags\n");
    config::lemma_comment_line(ABOUT_SAVING@);
    reveal_strlit("# (e.g. --msaa 4) override it for one run and are never saved.\n");
    config::lemma_comment_line(ABOUT_FLAGS@);
    reveal_strlit("# Shadow quality: \"high\", \"medium\", \"low\" or \"off\". F1 cycles it in game.\n");
    config::lemma_comment_line(ABOUT_SHADOWS@);
}

#[verifier::spinoff_prover]
#[verifier::rlimit(50)]
proof fn lemma_more_comments()
    ensures
        config::is_silent(ABOUT_MSAA@),
        config::is_silent(ABOUT_BAKING@),
        config::is_silent(ABOUT_FXAA@),
{
    reveal_with_fuel(text::no_feed, 90);
    reveal_strlit("# MSAA sample count: 1, 2, 4 or 8, clamped to what the GPU supports. It is baked\n");
    config::lemma_comment_line(ABOUT_MSAA@);
    reveal_strlit("# into the render pipelines, so the menu can change it only from the main menu.\n");
    config::lemma_comment_line(ABOUT_BAKING@);
    reveal_strlit("# FXAA post-process anti-aliasing: true or false. F2 toggles it in game.\n");
    config::lemma_comment_line(ABOUT_FXAA@);
}

/// Lines that say nothing change nothing.
proof fn lemma_silent_lines(before: Seq<Seq<char>>, ls: Seq<Seq<char>>, s: GraphicsSettings)
    requires
        config::all_silent(ls),
    ensures
        settings_after(before + config::bodies(ls), s) == settings_after(before, s),
        warnings_about(before + config::bodies(ls), s) == warnings_about(before, s),
    decreases ls.len(),
{
    let all = before + config::bodies(ls);
    if ls.len() == 0 {
        assert(all =~= before);
    } else {
        let init = ls.drop_last();
        assert(config::is_silent(ls[ls.len() - 1]));
        assert forall|i: int| 0 <= i < init.len() implies config::is_silent(#[trigger] init[i]) by {
            assert(init[i] == ls[i]);
        }
        lemma_silent_lines(before, init, s);
        assert(all.drop_last() =~= before + config::bodies(init));
        assert(all.last() == text::without_ending(ls.last()));
    }
}

/// The lines about a setting in the default file set it to its default, and
/// nothing else.
proof fn lemma_default_part(k: Key, before: Seq<Seq<char>>, s: GraphicsSettings)
    ensures
        ({
            let after = before + config::bodies(default_part(k));
            let t = settings_after(before, s);
            &&& agree(k, settings_after(after, s), default_settings())
            &&& agree_elsewhere(k, settings_after(after, s), t)
            &&& warnings_about(after, s) == warnings_about(before, s)
        }),
        text::are_lines(default_part(k)),
        forall|i: int|
            0 <= i < default_part(k).len() ==> (#[trigger] default_part(k)[i]).last() == '\n',
{
    lemma_comments();
    lemma_more_comments();
    config::lemma_empty_line();
    let d = default_settings();
    let ls = lines_before(k);
    assert(config::all_silent(ls));
    lemma_silent_lines(before, ls, s);
    lemma_keys_are_plain(k);
    lemma_literals(k, d, settings_after(before, s));
    law_keys_have_their_own_names(k, k);
    lemma_new_line(k.name_text(), k.value_text(d));
    let part = default_part(k);
    let after = before + config::bodies(part);
    assert(after.drop_last() =~= before + config::bodies(ls));
    assert(after.last() == text::without_ending(new_line(k.name_text(), k.value_text(d))));
    assert forall|i: int| 0 <= i < part.len() implies text::one_line(#[trigger] part[i])
        && part[i].last() == '\n' by {
        if i < ls.len() {
            assert(part[i] == ls[i]);
            assert(config::is_silent(ls[i]));
        }
    }
}

/// The default file reads back to the defaults, whatever the settings were
/// before, and nothing is complained about.
pub proof fn law_the_default_file_holds_the_defaults(s: GraphicsSettings)
    ensures
        ({
            let r = settings_after(config::lines_of(default_file()), s);
            let d = default_settings();
            r.shadows == d.shadows && r.msaa == d.msaa && r.fxaa == d.fxaa
        }),
        warnings_about(config::lines_of(default_file()), s) == Seq::<Seq<char>>::empty(),
{
    let (a, b, c) = (
        default_part(Key::Shadows),
        default_part(Key::Msaa),
        default_part(Key::Fxaa),
    );
    let none = Seq::<Seq<char>>::empty();
    let (x, y, z) = (
        none + config::bodies(a),
        none + config::bodies(a) + config::bodies(b),
        none + config::bodies(a) + config::bodies(b) + config::bodies(c),
    );
    lemma_default_part(Key::Shadows, none, s);
    lemma_default_part(Key::Msaa, x, s);
    lemma_default_part(Key::Fxaa, y, s);
    let all = default_lines();
    assert forall|i: int| 0 <= i < all.len() implies text::one_line(#[trigger] all[i])
        && all[i].last() == '\n' by {
        if i < a.len() {
            assert(all[i] == a[i]);
            assert(text::one_line(a[i]));
        } else if i < a.len() + b.len() {
            assert(all[i] == b[i - a.len()]);
            assert(text::one_line(b[i - a.len()]));
        } else {
            assert(all[i] == c[i - a.len() - b.len()]);
            assert(text::one_line(c[i - a.len() - b.len()]));
        }
    }
    text::law_text_of_lines_has_them(all);
    assert(config::lines_of(default_file()) =~= z);
}

/// How the settings file was found.
#[derive(Debug, PartialEq, Eq)]
pub enum Opened {
    /// It existed; these lines were ignored.
    Existing(Vec<String>),
    /// It did not; a default one was written.
    Created,
}

/// The settings file, kept for saving.
pub struct ConfigFile {
    path: String,
    /// The last text read or written: the base of a save when the file has
    /// become unreadable since.
    text: String,
}

impl ConfigFile {
    pub closed spec fn path_text(&self) -> Seq<char> {
        self.path@
    }

    pub closed spec fn last_text(&self) -> Seq<char> {
        self.text@
    }

    /// Takes the settings from a file. `found` is what the file holds, or
    /// nothing when there was none and `default_text` was written there.
    pub fn open(path: &str, found: Option<String>, s: &mut GraphicsSettings) -> (r: (
        ConfigFile,
        Opened,
    ))
        ensures
            r.0.path_text() == path@,
            match found {
                Some(t) => {
                    &&& r.0.last_text() == t@
                    &&& *final(s) == settings_after(config::lines_of(t@), *old(s))
                    &&& r.1 matches Opened::Existing(w) && config::string_views(w@)
                        == warnings_about(config::lines_of(t@), *old(s))
                },
                None => {
                    &&& r.0.last_text() == default_file()
                    &&& *final(s) == settings_after(config::lines_of(default_file()), *old(s))
                    &&& r.1 is Created
                },
            },
    {
        match found {
            Some(t) => {
                let warnings: Vec<String> = parse(t.as_str(), s);
                (ConfigFile { path: String::from_str(path), text: t }, Opened::Existing(warnings))
            },
            None => {
                let t: String = default_text();
                let _ignored: Vec<String> = parse(t.as_str(), s);
                (ConfigFile { path: String::from_str(path), text: t }, Opened::Created)
            },
        }
    }

    pub fn path(&self) -> (r: &str)
        ensures
            r@ == self.path_text(),
    {
        self.path.as_str()
    }

    /// What the file must hold for `key` to have its value in `s`, and whether
    /// that differs from what it holds. `on_disk` is what the file holds now,
    /// so that an edit made while the game runs is kept; without it the last
    /// text known is the base.
    pub fn save(&self, key: Key, s: &GraphicsSettings, on_disk: Option<&str>) -> (r: (
        String,
        bool,
    ))
        ensures
            ({
                let base = match on_disk {
                    Some(t) => t@,
                    None => self.last_text(),
                };
                &&& r.0@ == set_value_of(base, key.name_text(), key.value_text(*s))
                &&& r.1 == (r.0@ != base)
            }),
    {
        let base: &str = match on_disk {
            Some(t) => t,
            None => self.text.as_str(),
        };
        let t: String = set_value(base, key.name(), key.value(s).as_str());
        let changed: bool = !text::same(t.as_str(), base);
        (t, changed)
    }

    /// Remembers what the file holds after a save.
    pub fn saved(&mut self, t: String)
        ensures
            final(self).last_text() == t@,
            final(self).path_text() == old(self).path_text(),
    {
        self.text = t;
    }
}

/// How good a quality is.
pub open spec fn step_of(q: ShadowQuality) -> int {
    match q {
        ShadowQuality::Off => 0,
        ShadowQuality::Low => 1,
        ShadowQuality::Medium => 2,
        ShadowQuality::High => 3,
    }
}

/// The next quality is the one just below, and below the lowest is the highest.
pub proof fn law_qualities_step_down(q: ShadowQuality)
    ensures
        q is Off ==> q.next_spec() is High,
        !(q is Off) ==> step_of(q.next_spec()) == step_of(q) - 1,
{
}

/// Each quality has labels of its own.
pub proof fn law_qualities_have_their_own_labels(a: ShadowQuality, b: ShadowQuality)
    ensures
        a.label_text() == b.label_text() ==> a == b,
        a.menu_text() == b.menu_text() ==> a == b,
        a.config_text() == b.config_text() ==> a == b,
{
    reveal_strlit("off");
    reveal_strlit("low (4x512)");
    reveal_strlit("medium (4x1024)");
    reveal_strlit("high (4x2048)");
    reveal_strlit("OFF");
    reveal_strlit("LOW");
    reveal_strlit("MEDIUM");
    reveal_strlit("HIGH");
    let (x, y) = (a.label_text(), b.label_text());
    assert("off"@.len() != "low (4x512)"@.len());
    assert("medium (4x1024)"@.len() != "high (4x2048)"@.len());
    assert("OFF"@[0] == 'O' && "LOW"@[0] == 'L' && "MEDIUM"@[0] == 'M' && "HIGH"@[0] == 'H');
    lemma_quality_names(a);
    lemma_quality_names(b);
}

/// A value is taken for its key where it is one of those that the key has, and
/// leaves every other setting as it was.
pub proof fn law_values_apply_to_their_key(
    v: Seq<char>,
    q: ShadowQuality,
    s: GraphicsSettings,
)
    ensures
        forall|k: Key| #[trigger]
            applied(k, v, s) matches Some(t) ==> t.bake == s.bake && (k != Key::Shadows
                ==> t.shadows == s.shadows) && (k != Key::Msaa ==> t.msaa == s.msaa) && (k
                != Key::Fxaa ==> t.fxaa == s.fxaa),
        applied(Key::Shadows, seq!['"'] + q.config_text() + seq!['"'], s) matches Some(t)
            && t.shadows == q,
        applied(Key::Shadows, v, s) matches Some(t) ==> v == seq!['"'] + t.shadows.config_text()
            + seq!['"'],
        match text::unsigned(v) {
            Some(n) => if n == 1 || n == 2 || n == 4 || n == 8 {
                applied(Key::Msaa, v, s) matches Some(t) && t.msaa == n
            } else {
                applied(Key::Msaa, v, s) is None
            },
            None => applied(Key::Msaa, v, s) is None,
        },
        v == "true"@ ==> (applied(Key::Fxaa, v, s) matches Some(t) && t.fxaa),
        v == "false"@ ==> (applied(Key::Fxaa, v, s) matches Some(t) && !t.fxaa),
        v != "true"@ && v != "false"@ ==> applied(Key::Fxaa, v, s) is None,
{
    reveal_strlit("true");
    reveal_strlit("false");
    assert("true"@.len() != "false"@.len());
    let w = seq!['"'] + q.config_text() + seq!['"'];
    assert(w.subrange(1, w.len() - 1) =~= q.config_text());
    lemma_quality_names(q);
    if let Some(t) = applied(Key::Shadows, v, s) {
        assert(v =~= seq!['"'] + v.subrange(1, v.len() - 1) + seq!['"']);
    }
}

/// A line with a key that there is and a value that it has is applied without a
/// word. Any other that says something is complained about, and one that says
/// nothing is passed over.
pub proof fn law_lines_are_applied_or_complained_about(
    c: Seq<char>,
    k: Key,
    v: Seq<char>,
    s: GraphicsSettings,
)
    ensures
        config::item_of(c) == config::Item::Pair(k.name_text(), v) ==> match applied(k, v, s) {
            Some(t) => line_effect(c, s).0 == t && line_effect(c, s).1 is None,
            None => line_effect(c, s).0 == s && line_effect(c, s).1 is Some,
        },
        config::item_of(c) is Blank ==> line_effect(c, s).0 == s && line_effect(c, s).1 is None,
        config::item_of(c) is Table || config::item_of(c) is Junk ==> line_effect(c, s).1 is Some,
        config::item_of(c) matches config::Item::Pair(name, _) ==> name
            != Key::Shadows.name_text() && name != Key::Msaa.name_text() && name
            != Key::Fxaa.name_text() ==> line_effect(c, s).1 is Some,
{
    lemma_keys_are_plain(k);
}

/// Lines apply in order, each to what those before it left, and each that is
/// complained about gives one warning more.
pub proof fn law_lines_apply_in_order(ls: Seq<Seq<char>>, l: Seq<char>, s: GraphicsSettings)
    ensures
        settings_after(Seq::empty(), s) == s,
        warnings_about(Seq::empty(), s).len() == 0,
        ({
            let (t, complaint) = line_effect(config::code_of(l), settings_after(ls, s));
            &&& settings_after(ls.push(l), s) == t
            &&& complaint is None ==> warnings_about(ls.push(l), s) == warnings_about(ls, s)
            &&& complaint is Some ==> warnings_about(ls.push(l), s).len() == warnings_about(
                ls,
                s,
            ).len() + 1 && warnings_about(ls.push(l), s).drop_last() == warnings_about(ls, s)
        }),
{
    assert(ls.push(l).drop_last() =~= ls);
    let (t, complaint) = line_effect(config::code_of(l), settings_after(ls, s));
    if complaint is Some {
        assert(warnings_about(ls.push(l), s).drop_last() =~= warnings_about(ls, s));
    }
}

/// A complaint about a value starts with the key and ends with the value.
pub proof fn law_complaints_name_key_and_value(k: Key, v: Seq<char>)
    ensures
        bad_value_text(k, v).len() >= k.name_text().len() + v.len(),
        bad_value_text(k, v).take(k.name_text().len() as int) == k.name_text(),
        bad_value_text(k, v).skip(bad_value_text(k, v).len() - v.len()) == v,
{
    reveal_strlit("shadows");
    reveal_strlit("msaa");
    reveal_strlit("fxaa");
    reveal_strlit("shadows must be \"high\", \"medium\", \"low\" or \"off\", got ");
    reveal_strlit("msaa must be 1, 2, 4 or 8, got ");
    reveal_strlit("fxaa must be true or false, got ");
    assert(bad_value_text(k, v).take(k.name_text().len() as int) =~= k.name_text());
    assert(bad_value_text(k, v).skip(bad_value_text(k, v).len() - v.len()) =~= v);
}

/// Files call the settings and the qualities by these names.
pub proof fn law_settings_have_their_names(k: Key, q: ShadowQuality)
    ensures
        k is Shadows ==> k.name_text() == "shadows"@,
        k is Msaa ==> k.name_text() == "msaa"@,
        k is Fxaa ==> k.name_text() == "fxaa"@,
        q is Off ==> q.config_text() == "off"@ && q.menu_text() == "OFF"@,
        q is Low ==> q.config_text() == "low"@ && q.menu_text() == "LOW"@,
        q is Medium ==> q.config_text() == "medium"@ && q.menu_text() == "MEDIUM"@,
        q is High ==> q.config_text() == "high"@ && q.menu_text() == "HIGH"@,
{
}

/// The default file has each setting with its default on a line of its own,
/// behind what is said about it.
pub proof fn law_default_lines_set_the_defaults(k: Key)
    ensures
        default_part(k).last() == k.name_text() + " = "@ + k.value_text(default_settings()) + "\n"@,
        default_part(k).drop_last() == lines_before(k),
        default_file() == text::joined(default_part(Key::Shadows)) + text::joined(
            default_part(Key::Msaa),
        ) + text::joined(default_part(Key::Fxaa)),
{
    assert(default_part(k).drop_last() =~= lines_before(k));
    text::lemma_joined_add(default_part(Key::Shadows), default_part(Key::Msaa));
    text::lemma_joined_add(
        default_part(Key::Shadows) + default_part(Key::Msaa),
        default_part(Key::Fxaa),
    );
}

} // verus!
