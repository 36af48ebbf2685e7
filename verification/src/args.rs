//! Command lines of the game and of the bake.
use vstd::prelude::*;
use vstd::string::*;

use crate::config;
use crate::graphics::GraphicsSettings;
use crate::text;

verus! {

/// What the game was started with.
#[derive(Debug)]
pub struct Args {
    /// Scenes that a new game loads.
    pub scenes: Vec<String>,
    pub settings: GraphicsSettings,
    /// Whether to run the scripted timing instead of the menu.
    pub bench: bool,
    /// Whether coarser levels of detail are used.
    pub lod: bool,
    /// How often a sample count was asked for without a number behind it.
    pub ignored: usize,
}

pub struct ArgsModel {
    pub scenes: Seq<Seq<char>>,
    pub settings: GraphicsSettings,
    pub bench: bool,
    pub lod: bool,
    pub ignored: int,
}

impl View for Args {
    type V = ArgsModel;

    open spec fn view(&self) -> ArgsModel {
        ArgsModel {
            scenes: config::string_views(self.scenes@),
            settings: self.settings,
            bench: self.bench,
            lod: self.lod,
            ignored: self.ignored as int,
        }
    }
}

/// The number that a text writes, if 32 bits hold it.
pub open spec fn count(t: Seq<char>) -> Option<u32> {
    match text::unsigned(t) {
        Some(n) => if n <= u32::MAX {
            Some(n as u32)
        } else {
            None
        },
        None => None,
    }
}

/// What remains of the arguments from `i` on does to what was read before. The
/// argument behind `--msaa` belongs to it, number or not; what is not a flag is
/// a scene.
pub open spec fn args_from(a: Seq<Seq<char>>, i: int, m: ArgsModel) -> ArgsModel
    decreases a.len() - i,
{
    if i < 0 || i >= a.len() {
        m
    } else if a[i] == "--msaa"@ {
        if i + 1 < a.len() {
            match count(a[i + 1]) {
                Some(n) => args_from(
                    a,
                    i + 2,
                    ArgsModel { settings: GraphicsSettings { msaa: n, ..m.settings }, ..m },
                ),
                None => args_from(a, i + 2, ArgsModel { ignored: m.ignored + 1, ..m }),
            }
        } else {
            ArgsModel { ignored: m.ignored + 1, ..m }
        }
    } else if a[i] == "--bench"@ {
        args_from(a, i + 1, ArgsModel { bench: true, ..m })
    } else if a[i] == "--no-bake"@ {
        args_from(
            a,
            i + 1,
            ArgsModel { settings: GraphicsSettings { bake: false, ..m.settings }, ..m },
        )
    } else if a[i] == "--no-lod"@ {
        args_from(a, i + 1, ArgsModel { lod: false, ..m })
    } else {
        args_from(a, i + 1, ArgsModel { scenes: m.scenes.push(a[i]), ..m })
    }
}

pub open spec fn args_of(a: Seq<Seq<char>>, settings: GraphicsSettings) -> ArgsModel {
    args_from(a, 0, ArgsModel { scenes: seq![], settings, bench: false, lod: true, ignored: 0 })
}

/// Read the game's arguments, which go over the settings given.
pub fn parse(args: &Vec<String>, settings: &GraphicsSettings) -> (r: Args)
    ensures
        r@ == args_of(config::string_views(args@), *settings),
{
    let ghost a = config::string_views(args@);
    let mut r: Args = Args {
        scenes: Vec::new(),
        settings: *settings,
        bench: false,
        lod: true,
        ignored: 0,
    };
    assert(config::string_views(r.scenes@) =~= seq![]);
    let mut i: usize = 0;
    while i < args.len()
        invariant
            a == config::string_views(args@),
            i <= args@.len(),
            r.ignored <= i,
            args_from(a, i as int, r@) == args_of(a, *settings),
        decreases args@.len() - i,
    {
        let arg: &str = args[i].as_str();
        assert(arg@ == a[i as int]);
        if text::same(arg, "--msaa") {
            if i + 1 >= args.len() {
                r.ignored = r.ignored + 1;
                return r;
            }
            assert(args@[i + 1]@ == a[i + 1]);
            match text::parse_u32(args[i + 1].as_str()) {
                Some(n) => {
                    r.settings.msaa = n;
                },
                None => {
                    r.ignored = r.ignored + 1;
                },
            }
            i = i + 2;
        } else if text::same(arg, "--bench") {
            r.bench = true;
            i = i + 1;
        } else if text::same(arg, "--no-bake") {
            r.settings.bake = false;
            i = i + 1;
        } else if text::same(arg, "--no-lod") {
            r.lod = false;
            i = i + 1;
        } else {
            let ghost before = r.scenes@;
            r.scenes.push(String::from_str(arg));
            assert(config::string_views(r.scenes@) =~= config::string_views(before).push(arg@));
            i = i + 1;
        }
    }
    r
}

/// What the bake was started with.
#[derive(Debug)]
pub struct BakeArgs {
    pub out: String,
    pub scenes: Vec<String>,
}

#[derive(Clone, Copy, Debug, PartialEq, Eq, Structural)]
pub enum BakeArgsError {
    /// `--out` is the last argument.
    OutNeedsADirectory,
    /// No scene is named.
    NoScenes,
}

/// The directory and the scenes that the arguments from `i` on name, or nothing
/// where a directory is missing.
pub open spec fn bake_from(
    a: Seq<Seq<char>>,
    i: int,
    out: Seq<char>,
    scenes: Seq<Seq<char>>,
) -> Option<(Seq<char>, Seq<Seq<char>>)>
    decreases a.len() - i,
{
    if i < 0 || i >= a.len() {
        Some((out, scenes))
    } else if a[i] == "--out"@ {
        if i + 1 < a.len() {
            bake_from(a, i + 2, a[i + 1], scenes)
        } else {
            None
        }
    } else {
        bake_from(a, i + 1, out, scenes.push(a[i]))
    }
}

/// Read the bake's arguments.
pub fn parse_bake(args: &Vec<String>) -> (r: Result<BakeArgs, BakeArgsError>)
    ensures
        match bake_from(config::string_views(args@), 0, "scratch/bake"@, seq![]) {
            None => r == Err::<BakeArgs, BakeArgsError>(BakeArgsError::OutNeedsADirectory),
            Some((out, scenes)) => if scenes.len() == 0 {
                r == Err::<BakeArgs, BakeArgsError>(BakeArgsError::NoScenes)
            } else {
                r matches Ok(b) && b.out@ == out && config::string_views(b.scenes@) == scenes
            },
        },
{
    let ghost a = config::string_views(args@);
    let mut out: String = String::from_str("scratch/bake");
    let mut scenes: Vec<String> = Vec::new();
    assert(config::string_views(scenes@) =~= seq![]);
    let mut i: usize = 0;
    while i < args.len()
        invariant
            a == config::string_views(args@),
            i <= args@.len(),
            bake_from(a, i as int, out@, config::string_views(scenes@)) == bake_from(
                a,
                0,
                "scratch/bake"@,
                seq![],
            ),
        decreases args@.len() - i,
    {
        let arg: &str = args[i].as_str();
        assert(arg@ == a[i as int]);
        if text::same(arg, "--out") {
            if i + 1 >= args.len() {
                return Err(BakeArgsError::OutNeedsADirectory);
            }
            assert(args@[i + 1]@ == a[i + 1]);
            out = String::from_str(args[i + 1].as_str());
            i = i + 2;
        } else {
            let ghost before = scenes@;
            scenes.push(String::from_str(arg));
            assert(config::string_views(scenes@) =~= config::string_views(before).push(arg@));
            i = i + 1;
        }
    }
    assert(scenes@.len() == config::string_views(scenes@).len());
    if scenes.len() == 0 {
        return Err(BakeArgsError::NoScenes);
    }
    Ok(BakeArgs { out, scenes })
}

/// Whether an argument is one of the switches that stand alone.
pub open spec fn is_switch(t: Seq<char>) -> bool {
    t == "--bench"@ || t == "--no-bake"@ || t == "--no-lod"@
}

proof fn lemma_switches()
    ensures
        "--bench"@ != "--no-bake"@,
        "--bench"@ != "--no-lod"@,
        "--no-bake"@ != "--no-lod"@,
        "--msaa"@ != "--bench"@,
        "--msaa"@ != "--no-bake"@,
        "--msaa"@ != "--no-lod"@,
{
    reveal_strlit("--bench");
    reveal_strlit("--no-bake");
    reveal_strlit("--no-lod");
    reveal_strlit("--msaa");
    assert("--bench"@.len() == 7 && "--no-bake"@.len() == 9 && "--no-lod"@.len() == 8
        && "--msaa"@.len() == 6);
}

/// Without sample counts, every switch that is there is on, wherever it stands,
/// the other arguments are the scenes, in order, and nothing else changes.
pub proof fn law_switches_and_scenes(a: Seq<Seq<char>>, settings: GraphicsSettings)
    requires
        !a.contains("--msaa"@),
    ensures
        ({
            let r = args_of(a, settings);
            &&& r.bench <==> a.contains("--bench"@)
            &&& r.settings.bake <==> settings.bake && !a.contains("--no-bake"@)
            &&& r.lod <==> !a.contains("--no-lod"@)
            &&& r.scenes == a.filter(|t: Seq<char>| !is_switch(t))
            &&& r.settings.msaa == settings.msaa
            &&& r.settings.shadows == settings.shadows
            &&& r.settings.fxaa == settings.fxaa
            &&& r.ignored == 0
        }),
{
    let m = ArgsModel { scenes: seq![], settings, bench: false, lod: true, ignored: 0 };
    lemma_switched(a, 0, m);
    assert(a.skip(0) =~= a);
    let kept = a.filter(|t: Seq<char>| !is_switch(t));
    assert(seq![] + kept =~= kept);
}

proof fn lemma_filter_first(a: Seq<Seq<char>>)
    requires
        a.len() > 0,
    ensures
        a.filter(|t: Seq<char>| !is_switch(t)) == (if is_switch(a[0]) {
            Seq::empty()
        } else {
            seq![a[0]]
        }) + a.skip(1).filter(|t: Seq<char>| !is_switch(t)),
{
    let scene = |t: Seq<char>| !is_switch(t);
    assert(a =~= seq![a[0]] + a.skip(1));
    Seq::filter_distributes_over_add(seq![a[0]], a.skip(1), scene);
    reveal(Seq::filter);
    reveal_with_fuel(Seq::filter, 2);
    assert(seq![a[0]].drop_last() =~= Seq::empty());
    assert(seq![a[0]].filter(scene) =~= if is_switch(a[0]) {
        Seq::empty()
    } else {
        seq![a[0]]
    });
}

proof fn lemma_switched(a: Seq<Seq<char>>, i: int, m: ArgsModel)
    requires
        !a.contains("--msaa"@),
        0 <= i <= a.len(),
    ensures
        ({
            let r = args_from(a, i, m);
            let rest = a.skip(i);
            &&& r.bench <==> m.bench || rest.contains("--bench"@)
            &&& r.settings.bake <==> m.settings.bake && !rest.contains("--no-bake"@)
            &&& r.lod <==> m.lod && !rest.contains("--no-lod"@)
            &&& r.scenes == m.scenes + rest.filter(|t: Seq<char>| !is_switch(t))
            &&& r.settings.msaa == m.settings.msaa
            &&& r.settings.shadows == m.settings.shadows
            &&& r.settings.fxaa == m.settings.fxaa
            &&& r.ignored == m.ignored
        }),
    decreases a.len() - i,
{
    lemma_switches();
    let rest = a.skip(i);
    if i < a.len() {
        assert(a.contains(a[i]));
        let t = a[i];
        let next = if t == "--bench"@ {
            ArgsModel { bench: true, ..m }
        } else if t == "--no-bake"@ {
            ArgsModel { settings: GraphicsSettings { bake: false, ..m.settings }, ..m }
        } else if t == "--no-lod"@ {
            ArgsModel { lod: false, ..m }
        } else {
            ArgsModel { scenes: m.scenes.push(t), ..m }
        };
        assert(args_from(a, i, m) == args_from(a, i + 1, next));
        lemma_switched(a, i + 1, next);
        lemma_filter_first(rest);
        let less = a.skip(i + 1);
        assert(rest.skip(1) =~= less);
        assert(rest[0] == t);
        assert(m.scenes.push(t) + less.filter(|t: Seq<char>| !is_switch(t)) =~= m.scenes + (seq![t]
            + less.filter(|t: Seq<char>| !is_switch(t))));
        lemma_first_or_rest(rest, "--bench"@);
        lemma_first_or_rest(rest, "--no-bake"@);
        lemma_first_or_rest(rest, "--no-lod"@);
        let kept = less.filter(|t: Seq<char>| !is_switch(t));
        assert(Seq::<Seq<char>>::empty() + kept =~= kept);
    } else {
        assert(rest =~= Seq::empty());
        reveal(Seq::filter);
        assert(m.scenes + Seq::<Seq<char>>::empty() =~= m.scenes);
    }
}

proof fn lemma_first_or_rest(a: Seq<Seq<char>>, t: Seq<char>)
    requires
        a.len() > 0,
    ensures
        a.contains(t) <==> a[0] == t || a.skip(1).contains(t),
{
    let rest = a.skip(1);
    if rest.contains(t) {
        let i = choose|i: int| 0 <= i < rest.len() && rest[i] == t;
        assert(a[i + 1] == t);
    }
    if a.contains(t) && a[0] != t {
        let i = choose|i: int| 0 <= i < a.len() && a[i] == t;
        assert(rest[i - 1] == t);
    }
}

proof fn lemma_args_shift(a: Seq<Seq<char>>, rest: Seq<Seq<char>>, i: int, m: ArgsModel)
    requires
        0 <= i <= rest.len(),
    ensures
        args_from(a + rest, a.len() + i, m) == args_from(rest, i, m),
    decreases rest.len() - i,
{
    let all = a + rest;
    let k = a.len() + i;
    if i < rest.len() {
        assert(all[k] == rest[i]);
        if rest[i] == "--msaa"@ {
            if i + 1 < rest.len() {
                assert(all[k + 1] == rest[i + 1]);
                match count(rest[i + 1]) {
                    Some(n) => lemma_args_shift(
                        a,
                        rest,
                        i + 2,
                        ArgsModel { settings: GraphicsSettings { msaa: n, ..m.settings }, ..m },
                    ),
                    None => lemma_args_shift(
                        a,
                        rest,
                        i + 2,
                        ArgsModel { ignored: m.ignored + 1, ..m },
                    ),
                }
            }
        } else if rest[i] == "--bench"@ {
            lemma_args_shift(a, rest, i + 1, ArgsModel { bench: true, ..m });
        } else if rest[i] == "--no-bake"@ {
            lemma_args_shift(
                a,
                rest,
                i + 1,
                ArgsModel { settings: GraphicsSettings { bake: false, ..m.settings }, ..m },
            );
        } else if rest[i] == "--no-lod"@ {
            lemma_args_shift(a, rest, i + 1, ArgsModel { lod: false, ..m });
        } else {
            lemma_args_shift(a, rest, i + 1, ArgsModel { scenes: m.scenes.push(rest[i]), ..m });
        }
    }
}

/// A sample count goes over the one from the settings, and with it go both of its
/// arguments. One that is no number is left out, and so is one that is missing.
pub proof fn law_sample_counts_take_two_arguments(
    t: Seq<char>,
    n: nat,
    rest: Seq<Seq<char>>,
    settings: GraphicsSettings,
)
    ensures
        text::unsigned(t) == Some(n) && n <= u32::MAX ==> args_of(seq!["--msaa"@, t] + rest, settings)
            == args_of(rest, GraphicsSettings { msaa: n as u32, ..settings }),
        text::unsigned(t) is None ==> args_of(seq!["--msaa"@, t] + rest, settings) == args_from(
            rest,
            0,
            ArgsModel { scenes: seq![], settings, bench: false, lod: true, ignored: 1 },
        ),
        args_of(seq!["--msaa"@], settings).settings == settings,
        args_of(seq!["--msaa"@], settings).ignored == 1,
{
    let head = seq!["--msaa"@, t];
    let all = head + rest;
    assert(all[0] == "--msaa"@ && all[1] == t);
    let m = ArgsModel { scenes: seq![], settings, bench: false, lod: true, ignored: 0 };
    if text::unsigned(t) == Some(n) && n <= u32::MAX {
        lemma_args_shift(
            head,
            rest,
            0,
            ArgsModel { settings: GraphicsSettings { msaa: n as u32, ..settings }, ..m },
        );
    }
    if text::unsigned(t) is None {
        lemma_args_shift(head, rest, 0, ArgsModel { ignored: 1, ..m });
    }
    assert(seq!["--msaa"@][0] == "--msaa"@);
}

/// The bake's arguments are its scenes, in order. `--out` and the argument
/// behind it name the directory instead, and without one there is an error.
pub proof fn law_bakes_name_scenes_and_a_directory(
    t: Seq<char>,
    rest: Seq<Seq<char>>,
    out: Seq<char>,
    scenes: Seq<Seq<char>>,
)
    ensures
        bake_from(seq![], 0, out, scenes) == Some((out, scenes)),
        t != "--out"@ ==> bake_from(seq![t] + rest, 0, out, scenes) == bake_from(
            rest,
            0,
            out,
            scenes.push(t),
        ),
        bake_from(seq!["--out"@, t] + rest, 0, out, scenes) == bake_from(rest, 0, t, scenes),
        bake_from(seq!["--out"@], 0, out, scenes) is None,
{
    let one = seq![t];
    let two = seq!["--out"@, t];
    assert((one + rest)[0] == t);
    assert((two + rest)[0] == "--out"@ && (two + rest)[1] == t);
    if t != "--out"@ {
        lemma_bake_shift(one, rest, 0, out, scenes.push(t));
    }
    lemma_bake_shift(two, rest, 0, t, scenes);
    assert(seq!["--out"@][0] == "--out"@);
}

proof fn lemma_bake_shift(
    a: Seq<Seq<char>>,
    rest: Seq<Seq<char>>,
    i: int,
    out: Seq<char>,
    scenes: Seq<Seq<char>>,
)
    requires
        0 <= i <= rest.len(),
    ensures
        bake_from(a + rest, a.len() + i, out, scenes) == bake_from(rest, i, out, scenes),
    decreases rest.len() - i,
{
    let all = a + rest;
    let k = a.len() + i;
    if i < rest.len() {
        assert(all[k] == rest[i]);
        if rest[i] == "--out"@ {
            if i + 1 < rest.len() {
                assert(all[k + 1] == rest[i + 1]);
                lemma_bake_shift(a, rest, i + 2, rest[i + 1], scenes);
            }
        } else {
            lemma_bake_shift(a, rest, i + 1, out, scenes.push(rest[i]));
        }
    }
}

/// What is said of the arguments is said of what was read, field by field.
pub proof fn law_arguments_are_seen_whole(a: Args, i: int)
    ensures
        a@.scenes.len() == a.scenes@.len(),
        0 <= i < a.scenes@.len() ==> a@.scenes[i] == a.scenes@[i]@,
        a@.settings == a.settings && a@.bench == a.bench && a@.lod == a.lod,
        a@.ignored == a.ignored,
{
}

} // verus!
