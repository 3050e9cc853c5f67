use van_world::generate::{can_generate, class_pair, guide, pair_input, Generation};
use van_world::model::UNetConfig;
use van_world::sampler::{Crop, Sampler, COARSE_CHANNELS, FULL_CHANNELS, POOL};
use van_world::tiled::{tile_starts, window, Canvas};
use van_world::world::World;

#[test]
fn tile_starts_wrap() {
    assert_eq!(tile_starts(256, 256, 64), vec![0]);
    let s = tile_starts(512, 256, 64);
    assert_eq!(s, vec![0, 192, 384 % 512]);
    let s = tile_starts(2048, 128, 32);
    assert!(s.len() == 22 && s.iter().all(|&v| v < 2048));
}

#[test]
fn window_positive() {
    let tile = 16;
    let profile: Vec<f32> = (0..tile)
        .map(|i| {
            let u = (i as f32 + 0.5) / tile as f32;
            0.05 + 0.95 * (std::f32::consts::PI * u).sin().powi(2)
        })
        .collect();
    let w = window(&profile, &|a: f32, b: f32| a * b);
    assert_eq!(w.len(), 256);
    assert!(w.iter().all(|&v| v > 0.0));
    assert_eq!(w[3 * 16 + 5], profile[3] * profile[5]);
}

#[test]
fn tiles_cover_a_circle() {
    for (extent, tile, overlap) in [(10, 4, 1), (10, 4, 3), (7, 3, 0), (5, 5, 9), (9, 8, 0)] {
        let starts = tile_starts(extent, tile, overlap);
        for p in 0..extent {
            assert!(starts.iter().any(|s| (p + extent - s) % extent < tile));
        }
    }
    assert_eq!(tile_starts(10, 4, 1), vec![0, 3, 6, 9]);
    assert_eq!(tile_starts(9, 4, 1), vec![0, 3, 6]);
}

#[test]
fn planes_and_enlarging() {
    let mut c = Canvas::new(2, 3, 2, 0u8);
    assert_eq!((c.channels, c.width, c.height), (2, 3, 2));
    assert_eq!(c.data, vec![0; 12]);
    c.data = (0..12).collect();
    assert_eq!(c.plane(1), &[6, 7, 8, 9, 10, 11]);
    let up = c.upsample(2);
    assert_eq!((up.channels, up.width, up.height), (2, 6, 4));
    assert_eq!(up.plane(0)[..6], [0, 0, 1, 1, 2, 2]);
    assert_eq!(up.plane(0)[6..12], [0, 0, 1, 1, 2, 2]);
    assert_eq!(up.plane(1)[18..], [9, 9, 10, 10, 11, 11]);
    assert_eq!(c.upsample(0).data.len(), 0);
}

/// Runs a generation whose model answers with the tile it is shown.
fn echo(mut g: Generation<i64>, cond: Option<&Canvas<i64>>) -> (Generation<i64>, usize) {
    let plane = g.side * g.side;
    let win = vec![1; plane];
    let n = g.canvas.channels * plane;
    let mut tiles = 0;
    while !g.swept() {
        let input = g.request(cond);
        let sample = input.len() / 2;
        assert_eq!(input[..sample], input[sample..]);
        let mut v = input[..n].to_vec();
        v.extend(vec![0; n]);
        g.accept(&v, &win, &|acc, w, a, b| acc + w * (a - b), &|acc, w| acc + w);
        tiles += 1;
    }
    (g, tiles)
}

#[test]
fn a_sweep_averages_every_texel() {
    let mut canvas = Canvas::new(2, 5, 4, 0i64);
    canvas.data = (0..40).map(|v| v * 7).collect();
    let g = Generation::new(canvas, 0, 3, 1, 2, 0);
    assert_eq!(g.xs, vec![0, 2, 4]);
    assert_eq!(g.ys, vec![0, 2]);
    assert!(!g.finished());
    let (mut g, tiles) = echo(g, None);
    assert_eq!(tiles, 6);
    assert!(g.w_acc.iter().all(|&w| w > 0));
    assert_eq!(g.w_acc.iter().sum::<i64>(), 6 * 9);
    // What the tiles add up to is the value times the number of tiles at it.
    for k in 0..40 {
        assert_eq!(g.v_acc[k], g.canvas.data[k] * g.w_acc[k % 20]);
    }
    g.advance(&|x, v, w| x + v / w, 0);
    assert_eq!(g.canvas.data, (0..40).map(|v| v * 14).collect::<Vec<i64>>());
    assert!(g.v_acc.iter().all(|&v| v == 0) && g.w_acc.iter().all(|&w| w == 0));
    assert_eq!((g.step, g.row, g.column), (1, 0, 0));
    let (mut g, _) = echo(g, None);
    g.advance(&|x, _, _| x, 0);
    assert!(g.finished());
}

#[test]
fn requests_wrap_and_append_conditioning() {
    let mut canvas = Canvas::new(1, 4, 3, 0i64);
    canvas.data = (0..12).collect();
    let mut cond = Canvas::new(1, 4, 3, 0i64);
    cond.data = (100..112).collect();
    let mut g = Generation::new(canvas, 1, 3, 0, 1, 0);
    assert_eq!((g.xs.clone(), g.ys.clone()), (vec![0, 3], vec![0]));
    let first = g.request(Some(&cond));
    assert_eq!(first[..9], [0, 1, 2, 4, 5, 6, 8, 9, 10]);
    assert_eq!(first[9..18], [100, 101, 102, 104, 105, 106, 108, 109, 110]);
    assert_eq!(first[18..], first[..18]);
    let win = vec![1; 9];
    g.accept(&[1; 18], &win, &|a, w, p, _| a + w * p, &|a, w| a + w);
    assert_eq!((g.tile().x, g.tile().y), (3, 0));
    let second = g.request(Some(&cond));
    assert_eq!(second[..9], [3, 0, 1, 7, 4, 5, 11, 8, 9]);
    g.accept(&[1; 18], &win, &|a, w, p, _| a + w * p, &|a, w| a + w);
    assert!(g.swept());
    assert_eq!(g.w_acc, vec![2, 2, 1, 1, 2, 2, 1, 1, 2, 2, 1, 1]);
}

#[test]
fn guidance_mixes_both_samples() {
    let v = [1.0f32, 2.0, 10.0, 20.0];
    let r = guide(&v, 2, &|class: f32, null: f32| null + 2.0 * (class - null));
    assert_eq!(r, vec![-8.0, -16.0]);
    assert_eq!(pair_input(&[1, 2], &[3]), vec![1, 2, 3, 1, 2, 3]);
}

#[test]
fn enlarged_coarse_patches_are_those_of_pairs() {
    let total = 32 * 32;
    let worlds = [World {
        name: "w".to_string(),
        width: 32,
        height: 32,
        h0: (0..total).map(|i| (i * 31 % 256) as u8).collect(),
        h1: (0..total).map(|i| (i * 31 % 256) as u8).collect(),
        delta: vec![0; total],
        dual: vec![0; total],
        m0: (0..total).map(|i| (i / 5 % 8) as u8).collect(),
        m1: (0..total).map(|i| (i / 5 % 8) as u8).collect(),
        spare: vec![0; total],
    }];
    let sampler = Sampler::new(&worlds);
    let crop = Crop {
        world: 0,
        x: 24,
        y: 8,
        flip_x: false,
        flip_y: true,
    };
    let mut coarse = Canvas::new(COARSE_CHANNELS, 2, 2, (0, 0));
    sampler.pack_coarse(&crop, 2, &mut coarse.data, &|code, span| (code, span));
    let mut pair = vec![(0, 0); (FULL_CHANNELS + COARSE_CHANNELS) * 256];
    sampler.pack_pair(&crop, 16, &mut pair, &|code, span| (code, span));
    assert_eq!(coarse.upsample(POOL).data[..], pair[FULL_CHANNELS * 256..]);
}

#[test]
fn a_silent_model_leaves_only_the_steps() {
    let mut canvas = Canvas::new(2, 7, 5, 0.0f32);
    canvas.data = (0..70).map(|v| v as f32 * 0.25 - 3.0).collect();
    let first = canvas.data.clone();
    let profile = [0.05f32, 0.7, 1.0, 0.3];
    let win = window(&profile, &|a: f32, b: f32| a * b);
    let mut g = Generation::new(canvas, 0, 4, 1, 3, 0.0f32);
    let (tiles, mut calls) = (g.xs.len() * g.ys.len(), 0);
    let step = |n: usize, x: f32, v: f32| x * (0.5 + n as f32) + v;
    while !g.finished() {
        while !g.swept() {
            calls += 1;
            let v = vec![0.0; g.request(None).len()];
            g.accept(
                &v,
                &win,
                &|acc: f32, w: f32, class: f32, null: f32| acc + w * (null + 2.0 * (class - null)),
                &|acc: f32, w: f32| acc + w,
            );
        }
        let n = g.step;
        g.advance(&|x: f32, v: f32, w: f32| step(n, x, v / w), 0.0);
    }
    assert_eq!(calls, 3 * tiles);
    let wanted: Vec<f32> = first
        .iter()
        .map(|&x| (0..3).fold(x, |x, n| step(n, x, 0.0)))
        .collect();
    assert_eq!(g.canvas.data, wanted);
}

#[test]
fn without_guidance_the_null_class_decides() {
    let run = |noise: i64, guidance: i64| {
        let mut canvas = Canvas::new(1, 5, 4, 0i64);
        canvas.data = (0..20).collect();
        let mut g = Generation::new(canvas, 0, 3, 1, 2, 0);
        let win = vec![1i64; 9];
        while !g.finished() {
            while !g.swept() {
                let input = g.request(None);
                let mut v: Vec<i64> = input[..9].iter().map(|x| x * 5 + noise).collect();
                v.extend(input[9..].iter().map(|x| x - 3));
                g.accept(
                    &v,
                    &win,
                    &|acc, w, class, null| acc + w * (null + guidance * (class - null)),
                    &|acc, w| acc + w,
                );
            }
            g.advance(&|x, v, w| x + v / w, 0);
        }
        g.canvas.data
    };
    assert_eq!(run(1, 0), run(1000, 0));
    assert_ne!(run(1, 1), run(1000, 1));
}

#[test]
fn generations_are_refused() {
    let cfg = UNetConfig::sr_default(2, 8);
    let bare = UNetConfig {
        cond_channels: 0,
        ..UNetConfig::sr_default(2, 8)
    };
    let cond = Canvas::new(4, 16, 8, 0u8);
    assert!(can_generate(&cfg, 16, 8, Some(&cond), 7));
    assert!(can_generate::<u8>(&bare, 16, 8, None, 0));
    assert!(can_generate::<u8>(&bare, 8, 8, None, 99));
    // One sample, missing or unwanted conditioning, or conditioning of another
    // shape.
    let single = UNetConfig::sr_default(1, 8);
    assert!(!can_generate(&single, 16, 8, Some(&cond), 0));
    assert!(!can_generate::<u8>(&cfg, 16, 8, None, 0));
    assert!(!can_generate(&bare, 16, 8, Some(&cond), 0));
    assert!(!can_generate(&cfg, 16, 16, Some(&cond), 0));
    assert!(!can_generate(&cfg, 16, 8, Some(&Canvas::new(3, 16, 8, 0u8)), 0));
    // Smaller than a tile, or tiles that never move on.
    assert!(!can_generate::<u8>(&bare, 7, 8, None, 0));
    assert!(!can_generate::<u8>(&bare, 8, 7, None, 0));
    assert!(!can_generate::<u8>(&bare, 16, 8, None, 8));
}

#[test]
fn classes_of_the_two_samples() {
    assert_eq!(class_pair(2), vec![2, 10]);
}
