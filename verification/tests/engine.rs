use feather::args::{parse, parse_bake, BakeArgsError};
use feather::bench::{quantile_place, Bench, BENCH_SWEEP};
use feather::demo::{orb, orb_count, palette_material, rand24, ORBS};
use feather::device::{
    choose_extent, choose_format, choose_image_count, choose_samples, image_extent, pick_device,
    writable, Candidate, Capabilities, Extent, Family, SampleCounts, SurfaceFormat,
};
use feather::frames::{
    frame_steps, upload_steps, Acquired, AfterAcquire, AfterPresent, FrameLoop, Layout,
    Presented, Step, Target,
};
use feather::graphics::GraphicsSettings;

fn args(a: &[&str]) -> Vec<String> {
    a.iter().map(|s| s.to_string()).collect()
}

#[test]
fn arguments_are_scenes_and_flags() {
    let d = GraphicsSettings::default();
    let a = parse(&args(&["a.glb", "--msaa", "4", "--bench", "b.gltf"]), &d);
    assert_eq!(a.scenes, ["a.glb", "b.gltf"]);
    assert_eq!(a.settings.msaa, 4);
    assert!(a.bench && a.lod && a.settings.bake);
    assert_eq!(a.ignored, 0);
    let a = parse(&args(&["--no-bake", "--no-lod", "--msaa", "lots", "c.glb", "--msaa"]), &d);
    assert_eq!(a.scenes, ["c.glb"]);
    assert_eq!(a.settings.msaa, 1);
    assert!(!a.settings.bake && !a.lod && !a.bench);
    assert_eq!(a.ignored, 2);
}

#[test]
fn bake_arguments_need_scenes() {
    let b = parse_bake(&args(&["x.glb", "--out", "cache", "y.glb"])).unwrap();
    assert_eq!(b.out, "cache");
    assert_eq!(b.scenes, ["x.glb", "y.glb"]);
    assert_eq!(parse_bake(&args(&["x.glb"])).unwrap().out, "scratch/bake");
    assert_eq!(parse_bake(&args(&[])).unwrap_err(), BakeArgsError::NoScenes);
    assert_eq!(
        parse_bake(&args(&["x.glb", "--out"])).unwrap_err(),
        BakeArgsError::OutNeedsADirectory
    );
}

#[test]
fn a_run_samples_one_turn() {
    let mut b = Bench::new();
    let mut samples = 0;
    let mut frames = 0;
    assert_eq!(b.turn(), 0);
    loop {
        if b.frame == 121 {
            assert_eq!(b.turn(), 1);
        }
        let r = b.record();
        frames += 1;
        if r.sample {
            samples += 1;
        }
        if r.done {
            break;
        }
    }
    assert_eq!(samples, BENCH_SWEEP);
    assert_eq!(frames, 842);
    assert_eq!(b.turn(), BENCH_SWEEP);
}

#[test]
fn quantiles_are_places() {
    assert_eq!(quantile_place(720, 0), 0);
    assert_eq!(quantile_place(720, 1), 72);
    assert_eq!(quantile_place(720, 5), 360);
    assert_eq!(quantile_place(720, 9), 647);
    assert_eq!(quantile_place(720, 10), 719);
    assert_eq!(quantile_place(1, 5), 0);
}

#[test]
fn orbs_are_the_same_in_every_run() {
    // The hash in double precision arithmetic: 24 bits over 2^24.
    let rand01 = |seed: u32| {
        let mut h = seed.wrapping_mul(747796405).wrapping_add(2891336453);
        h ^= h >> 15;
        h = h.wrapping_mul(2246822519);
        h ^= h >> 13;
        (h & 0x00ff_ffff) as f32 / 0x0100_0000 as f32
    };
    for i in 0..ORBS {
        let o = orb(i);
        assert_eq!(o.cell, (i % 10, i / 10 % 10, i / 100));
        assert_eq!(o.velocity.1 as f32 / 16777216.0, rand01(i * 3 + 1));
        assert_eq!(o.spin as f32 / 16777216.0, rand01(i * 7 + 11));
        assert_eq!(o.mesh, if rand01(i * 17 + 5) < 0.5 { 0 } else { 1 });
        assert_eq!(o.material, (rand01(i * 23 + 7) * 24.0) as u32 % 24);
    }
    for k in 0..24 {
        let s = palette_material(k);
        assert_eq!(s.r as f32 / 16777216.0, rand01(k * 13 + 1));
        assert_eq!(s.metallic, rand01(k * 13 + 4) > 0.7);
        assert_eq!(s.roughness, rand24(k * 13 + 5));
    }
    assert_eq!(orb_count(0), 1000);
    assert_eq!(orb_count(2), 0);
}

fn gpu(discrete: bool, families: &[(bool, bool)]) -> Candidate {
    Candidate {
        discrete,
        families: families
            .iter()
            .map(|&(graphics, present)| Family { graphics, present })
            .collect(),
    }
}

#[test]
fn discrete_devices_come_first() {
    let weak = gpu(false, &[(true, false), (true, true)]);
    let strong = gpu(true, &[(false, true), (true, false), (true, true)]);
    let mute = gpu(true, &[(true, false), (false, true)]);
    assert_eq!(pick_device(&vec![]), None);
    assert_eq!(pick_device(&vec![mute]), None);
    let mute = gpu(true, &[(true, false), (false, true)]);
    assert_eq!(pick_device(&vec![weak, mute, strong]), Some((2, 2)));
    let weak = gpu(false, &[(true, false), (true, true)]);
    let other = gpu(false, &[(true, true)]);
    assert_eq!(pick_device(&vec![weak, other]), Some((0, 1)));
}

#[test]
fn surfaces_are_chosen_within_their_limits() {
    let srgb = SurfaceFormat { format: 50, color_space: 0 };
    let other = SurfaceFormat { format: 44, color_space: 0 };
    let wide = SurfaceFormat { format: 50, color_space: 7 };
    assert_eq!(choose_format(&vec![other, srgb]), srgb);
    assert_eq!(choose_format(&vec![wide, other]), wide);
    let e = |width, height| Extent { width, height };
    let mut caps = Capabilities {
        current: e(800, 600),
        min: e(1, 1),
        max: e(1000, 1000),
        min_images: 2,
        max_images: 0,
    };
    assert_eq!(choose_extent(&caps, e(5, 5)), e(800, 600));
    assert_eq!(choose_image_count(&caps), 3);
    caps.max_images = 2;
    assert_eq!(choose_image_count(&caps), 2);
    caps.current.width = u32::MAX;
    assert_eq!(choose_extent(&caps, e(5000, 0)), e(1000, 1));
    assert_eq!(image_extent(0, 7), e(1, 7));
    assert_eq!(writable(10, 4), 4);
    assert_eq!(writable(3, 4), 3);
}

#[test]
fn frames_take_turns() {
    let e = |width, height| Extent { width, height };
    let mut f = FrameLoop::new(e(10, 10));
    assert_eq!(f.begin(), Some(0));
    f.advance(0);
    assert_eq!(f.begin(), Some(1));
    f.advance(1);
    assert_eq!(f.begin(), Some(0));
    assert!(!f.resize(e(0, 10)));
    assert_eq!(f.begin(), None);
    assert!(f.resize(e(3, 4)));
    f.advance(0);
    f.recreated(e(5, 6));
    assert_eq!((f.extent, f.begin()), (e(5, 6), Some(0)));
    assert_eq!(FrameLoop::acquired(Acquired::Image(2)), AfterAcquire::Draw(2));
    assert_eq!(FrameLoop::acquired(Acquired::OutOfDate), AfterAcquire::Recreate);
    assert_eq!(FrameLoop::acquired(Acquired::Failed), AfterAcquire::Fail);
    assert_eq!(FrameLoop::presented(Presented::Fine), AfterPresent::Next);
    assert_eq!(FrameLoop::presented(Presented::Suboptimal), AfterPresent::Recreate);
    assert_eq!(FrameLoop::presented(Presented::OutOfDate), AfterPresent::Recreate);
    assert_eq!(FrameLoop::presented(Presented::Failed), AfterPresent::Fail);
}

#[test]
fn steps_follow_each_other() {
    let steps = frame_steps();
    assert_eq!(steps.len(), 7);
    assert_eq!(steps[2], Step::Geometry);
    assert_eq!(steps[5], Step::Post);
    match steps[6] {
        Step::Barrier(b) => assert_eq!((b.target, b.to), (Target::Swapchain, Layout::Present)),
        _ => panic!("the last step hands the image over"),
    }
    let steps = upload_steps();
    assert_eq!(steps[1], Step::Copy);
    match steps[2] {
        Step::Barrier(b) => assert_eq!((b.from, b.to), (Layout::TransferDst, Layout::ShaderRead)),
        _ => panic!("the last step makes the texture readable"),
    }
}

#[test]
fn samples_keep_to_what_is_offered() {
    let offers = SampleCounts { two: true, four: true, eight: false };
    assert_eq!(choose_samples(offers, 8), 4);
    assert_eq!(choose_samples(offers, 3), 2);
    assert_eq!(choose_samples(offers, 1), 1);
    assert_eq!(choose_samples(offers, 0), 1);
    assert_eq!(choose_samples(SampleCounts { eight: true, ..offers }, 64), 8);
}
