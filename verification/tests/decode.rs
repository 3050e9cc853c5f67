use van_world::decode::canvas_to_world;
use van_world::sampler::{Crop, Sampler, FULL_CHANNELS};
use van_world::tiled::Canvas;
use van_world::world::World;

fn analog(code: i32, span: i32) -> f32 {
    code as f32 / (span as f32 / 2.0) - 1.0
}

fn positive(a: f32, b: f32) -> bool {
    a + b > 0.0
}

fn level(a: f32, b: f32) -> u8 {
    (((a + b) * 0.5 + 1.0) * 127.5).round().clamp(0.0, 255.0) as u8
}

fn upper(h0: u8, a: f32, b: f32) -> u8 {
    let rel = ((a + b) * 0.5 + 1.0) * 127.5;
    (h0 as f32 + rel.max(1.0)).round().clamp(0.0, 255.0) as u8
}

fn delta(a: f32, b: f32) -> u8 {
    (((a + b) * 0.5 + 1.0) * 7.5).round().clamp(0.0, 15.0) as u8
}

fn decode(canvas: &Canvas<f32>, name: &str) -> World {
    canvas_to_world(canvas, name, &positive, &level, &upper, &delta)
}

/// Pair-constant planes, valid duals, consistent singles.
fn source(size: usize) -> World {
    let total = size * size;
    let mut src = World {
        name: "t".into(),
        width: size,
        height: size,
        h0: (0..total).map(|i| (i * 7 % 250 / 2 * 2) as u8).collect(),
        h1: vec![0; total],
        delta: (0..total).map(|i| ((i / 2) % 16) as u8).collect(),
        dual: (0..total).map(|i| ((i / 2) % 3 == 0) as u8).collect(),
        m0: (0..total).map(|i| ((i / 2) % 8) as u8).collect(),
        m1: (0..total).map(|i| ((i / 2 + 3) % 8) as u8).collect(),
        spare: vec![0; total],
    };
    for i in (0..total).step_by(2) {
        src.h0[i + 1] = src.h0[i];
        if src.dual[i] != 0 {
            src.h1[i] = src.h0[i].saturating_add(20);
            src.h1[i + 1] = src.h1[i];
        } else {
            for j in [i, i + 1] {
                src.h1[j] = src.h0[j];
                src.delta[j] = 0;
                src.m1[j] = src.m0[j];
            }
        }
    }
    src
}

/// pack_full → canvas_to_world must reproduce the source planes.
#[test]
fn decode_inverts_packing() {
    let size = 32;
    let src = source(size);
    let worlds = [src];
    let sampler = Sampler::new(&worlds);
    let crop = Crop {
        world: 0,
        x: 0,
        y: 0,
        flip_x: false,
        flip_y: false,
    };
    let mut canvas = Canvas::new(FULL_CHANNELS, size, size, 0.0f32);
    sampler.pack_full(&crop, size, &mut canvas.data, &analog);
    let back = decode(&canvas, "t");
    let src = &worlds[0];
    assert_eq!(src.h0, back.h0);
    assert_eq!(src.h1, back.h1);
    assert_eq!(src.delta, back.delta);
    assert_eq!(src.dual, back.dual);
    assert_eq!(src.m0, back.m0);
    assert_eq!(src.m1, back.m1);
}

#[test]
fn decode_inverts_packing_of_mirrored_crops() {
    let worlds = [source(32)];
    let sampler = Sampler::new(&worlds);
    let size = 16;
    let crop = Crop {
        world: 0,
        x: 30,
        y: 29,
        flip_x: true,
        flip_y: true,
    };
    let mut canvas = Canvas::new(FULL_CHANNELS, size, size, 0.0f32);
    sampler.pack_full(&crop, size, &mut canvas.data, &analog);
    let back = decode(&canvas, "t");
    for y in 0..size {
        for x in 0..size {
            let i = sampler.texel(&crop, x, y, size);
            let d = y * size + x;
            assert_eq!(back.h0[d], worlds[0].h0[i]);
            assert_eq!(back.h1[d], worlds[0].h1[i]);
            assert_eq!(back.delta[d], worlds[0].delta[i]);
            assert_eq!(back.dual[d], worlds[0].dual[i]);
            assert_eq!(back.m0[d], worlds[0].m0[i]);
            assert_eq!(back.m1[d], worlds[0].m1[i]);
        }
    }
}

#[test]
fn decoding_undoes_every_level() {
    for flag in [false, true] {
        let v = analog(flag as i32, 1);
        assert_eq!(positive(v, v), flag);
    }
    for h in 0..=255u8 {
        let v = analog(h as i32, 255);
        assert_eq!(level(v, v), h);
        for h1 in h as i32 + 1..=255 {
            let r = analog(h1 - h as i32, 255);
            assert_eq!(upper(h, r, r) as i32, h1);
        }
    }
    for d in 0..16u8 {
        let v = analog(d as i32, 15);
        assert_eq!(delta(v, v), d);
    }
}

fn one_pair(values: [(f32, f32); FULL_CHANNELS]) -> World {
    let mut canvas = Canvas::new(FULL_CHANNELS, 2, 1, 0.0f32);
    for (c, (a, b)) in values.iter().enumerate() {
        canvas.data[2 * c] = *a;
        canvas.data[2 * c + 1] = *b;
    }
    decode(&canvas, "pair")
}

#[test]
fn dual_cells_are_decoded_from_both_texels() {
    let mut values = [(-1.0, -1.0); FULL_CHANNELS];
    values[0] = (analog(10, 255), analog(20, 255));
    values[1] = (analog(30, 255), analog(50, 255));
    values[2] = (analog(3, 15), analog(5, 15));
    values[3] = (-0.25, 0.5);
    values[4] = (1.0, -0.5);
    values[5] = (0.5, -1.0);
    values[9] = (0.125, 0.125);
    let w = one_pair(values);
    assert_eq!(w.name, "pair");
    assert_eq!(w.dual, vec![1, 1]);
    assert_eq!(w.h0, vec![15, 15]);
    assert_eq!(w.h1, vec![55, 55]);
    assert_eq!(w.delta, vec![4, 4]);
    assert_eq!(w.m0, vec![1, 1]);
    assert_eq!(w.m1, vec![4, 4]);
}

#[test]
fn single_texels_are_decoded_on_their_own() {
    let mut values = [(-1.0, -1.0); FULL_CHANNELS];
    values[0] = (analog(10, 255), analog(20, 255));
    values[1] = (1.0, 1.0);
    values[2] = (1.0, 1.0);
    values[3] = (0.25, -0.25);
    values[4] = (1.0, -0.5);
    values[6] = (-1.0, 0.5);
    values[7] = (1.0, 1.0);
    let w = one_pair(values);
    assert_eq!(w.dual, vec![0, 0]);
    assert_eq!(w.h0, vec![10, 20]);
    assert_eq!(w.h1, vec![10, 20]);
    assert_eq!(w.delta, vec![0, 0]);
    assert_eq!(w.m0, vec![1, 4]);
    assert_eq!(w.m1, vec![1, 4]);
}

#[test]
fn upper_levels_stay_above_lower_ones() {
    for (h, low) in [(0, 0), (7, 7), (254, 254), (255, 254)] {
        let mut values = [(-1.0, -1.0); FULL_CHANNELS];
        values[0] = (analog(h, 255), analog(h, 255));
        values[3] = (1.0, 1.0);
        let w = one_pair(values);
        assert_eq!(w.h0, vec![low; 2]);
        assert_eq!(w.h1, vec![low + 1; 2]);
        assert_eq!(w.spare, vec![0; 2]);
    }
    // Whatever the values say of the upper level.
    let mut canvas = Canvas::new(FULL_CHANNELS, 2, 1, 1.0f32);
    canvas.data[0] = 0.0;
    let w = canvas_to_world(&canvas, "w", &positive, &|_, _| 9, &|_, _, _| 3, &delta);
    assert_eq!(w.h1, vec![10, 10]);
    // A single texel keeps the highest level.
    let mut values = [(-1.0, -1.0); FULL_CHANNELS];
    values[0] = (1.0, 1.0);
    assert_eq!(one_pair(values).h0, vec![255; 2]);
}
