use rand::rngs::StdRng;
use rand::SeedableRng;
use van_world::sampler::{
    bit, decode_material, Crop, PatchKind, Sampler, COARSE_CHANNELS, FULL_CHANNELS, POOL,
};
use van_world::world::World;

fn flat_world(width: usize, height: usize) -> World {
    let total = width * height;
    World {
        name: "flat".into(),
        width,
        height,
        h0: (0..total).map(|i| (i % 256) as u8).collect(),
        h1: (0..total).map(|i| (i % 256) as u8).collect(),
        delta: vec![0; total],
        dual: vec![0; total],
        m0: (0..total).map(|i| (i % 8) as u8).collect(),
        m1: (0..total).map(|i| (i % 8) as u8).collect(),
        spare: vec![0; total],
    }
}

fn analog(code: i32, span: i32) -> f32 {
    code as f32 / (span as f32 / 2.0) - 1.0
}

fn at(world: usize, x: usize, y: usize) -> Crop {
    Crop {
        world,
        x,
        y,
        flip_x: false,
        flip_y: false,
    }
}

#[test]
fn material_bits_roundtrip() {
    for t in 0..8u8 {
        let bits = [bit(t, 0), bit(t, 1), bit(t, 2)];
        assert_eq!(decode_material(bits), t);
    }
}

#[test]
fn toroidal_wrap_and_shapes() {
    let world = flat_world(64, 32);
    let worlds = [world];
    let sampler = Sampler::new(&worlds);
    let crop = at(0, 60, 30);
    let size = 16;
    let mut out = vec![0.0; FULL_CHANNELS * size * size];
    sampler.pack_full(&crop, size, &mut out, &analog);
    // texel (0,0) of the crop is world texel (60, 30)
    let expected = ((30 * 64 + 60) % 256) as f32 / 127.5 - 1.0;
    assert_eq!(out[0], expected);
    // texel (4, 2) wraps to world texel (0, 0)
    let dst = 2 * size + 4;
    assert_eq!(out[dst], 0.0 / 127.5 - 1.0);

    let mut coarse = vec![0.0; COARSE_CHANNELS * 4 * 4];
    sampler.pack_coarse(&crop, 4, &mut coarse, &analog);
}

#[test]
fn batch_fill() {
    let worlds = [flat_world(64, 32), flat_world(32, 32)];
    let sampler = Sampler::new(&worlds);
    let mut rng = StdRng::seed_from_u64(3);
    let (mut out, mut labels) = (Vec::new(), Vec::new());
    sampler.fill_batch(&mut rng, 4, 8, false, &mut out, &mut labels, 0.0, &analog);
    assert_eq!(out.len(), 4 * FULL_CHANNELS * 64);
    assert_eq!(labels.len(), 4);
    assert!(labels.iter().all(|&l| l < 2));
}

#[test]
fn coarse_batch_fill() {
    let worlds = [flat_world(64, 32), flat_world(32, 32)];
    let sampler = Sampler::new(&worlds);
    let mut rng = StdRng::seed_from_u64(3);
    let (mut out, mut labels) = (vec![5.0; 7], vec![9u32; 3]);
    sampler.fill_batch(&mut rng, 4, 8, true, &mut out, &mut labels, 0.0, &analog);
    assert_eq!(out.len(), 4 * COARSE_CHANNELS * 64);
    assert_eq!(labels.len(), 4);
    assert!(labels.iter().all(|&l| l < 2));
    assert!(out.iter().all(|&v| (-1.0..=1.0).contains(&v)));
}

#[test]
fn draws_differ_and_stay_within_their_world() {
    let worlds = [flat_world(64, 32), flat_world(32, 32)];
    let sampler = Sampler::new(&worlds);
    let mut rng = StdRng::seed_from_u64(5);
    let crops: Vec<Crop> = (0..200).map(|_| sampler.sample_crop(&mut rng)).collect();
    for c in &crops {
        assert!(c.world < 2);
        assert!(c.x < worlds[c.world].width && c.y < worlds[c.world].height);
    }
    assert!(crops.iter().any(|c| c.world == 0) && crops.iter().any(|c| c.world == 1));
    assert!(crops.iter().any(|c| c.flip_x) && crops.iter().any(|c| !c.flip_x));
    assert!(crops.iter().any(|c| c.flip_y) && crops.iter().any(|c| !c.flip_y));
    assert!(crops.iter().any(|c| c.x != crops[0].x));
    assert!(crops.iter().any(|c| c.y != crops[0].y));
}

#[test]
fn worlds_are_picked_by_area() {
    let worlds = [flat_world(4, 2), flat_world(2, 1), flat_world(8, 2)];
    let sampler = Sampler::new(&worlds);
    let picked: Vec<usize> = (0..26).map(|p| sampler.world_of(p)).collect();
    assert_eq!(picked.iter().filter(|&&w| w == 0).count(), 8);
    assert_eq!(picked.iter().filter(|&&w| w == 1).count(), 2);
    assert_eq!(picked.iter().filter(|&&w| w == 2).count(), 16);
    assert_eq!(sampler.world_of(7), 0);
    assert_eq!(sampler.world_of(8), 1);
    assert_eq!(sampler.world_of(10), 2);
    assert_eq!(sampler.total(), 26);
}

#[test]
fn draws_make_a_crop() {
    let worlds = [flat_world(4, 2), flat_world(2, 1), flat_world(8, 2)];
    let sampler = Sampler::new(&worlds);
    let crop = sampler.crop_of(9, 1, 0, true, false);
    assert_eq!((crop.world, crop.x, crop.y), (1, 1, 0));
    assert!(crop.flip_x && !crop.flip_y);
    let crop = sampler.crop_of(25, 7, 1, false, true);
    assert_eq!((crop.world, crop.x, crop.y), (2, 7, 1));
    assert!(!crop.flip_x && crop.flip_y);
}

#[test]
fn patches_mirror_and_move_with_their_crop() {
    let mut world = flat_world(64, 32);
    for i in 0..64 * 32 {
        world.h0[i] = (i * 37 % 251) as u8;
        world.m0[i] = (i * i % 11 % 8 + i / 512) as u8 % 8;
    }
    let worlds = [world];
    let sampler = Sampler::new(&worlds);
    let crop = at(0, 29, 11);
    let flipped_x = Crop {
        flip_x: true,
        ..crop
    };
    let flipped_y = Crop {
        flip_y: true,
        ..crop
    };
    for (coarse, channels, n) in [(false, FULL_CHANNELS, 6), (true, COARSE_CHANNELS, 3)] {
        let pack = |crop: &Crop| {
            let mut out = vec![0.0; channels * n * n];
            if coarse {
                sampler.pack_coarse(crop, n, &mut out, &analog);
            } else {
                sampler.pack_full(crop, n, &mut out, &analog);
            }
            out
        };
        let a = pack(&crop);
        let (bx, by) = (pack(&flipped_x), pack(&flipped_y));
        for c in 0..channels {
            for dy in 0..n {
                for dx in 0..n {
                    let place = |dx: usize, dy: usize| c * n * n + dy * n + dx;
                    assert_eq!(bx[place(dx, dy)], a[place(n - 1 - dx, dy)]);
                    assert_eq!(by[place(dx, dy)], a[place(dx, n - 1 - dy)]);
                }
            }
        }
        assert_ne!(bx, a);
        assert_ne!(by, a);
        assert_eq!(pack(&at(0, 29 + 64, 11)), a);
        assert_eq!(pack(&at(0, 29, 11 + 2 * 32)), a);
    }
}

#[test]
fn crops_wrap_and_mirror() {
    let worlds = [flat_world(8, 4)];
    let sampler = Sampler::new(&worlds);
    let crop = at(0, 6, 3);
    assert_eq!(sampler.texel(&crop, 0, 0, 4), 3 * 8 + 6);
    assert_eq!(sampler.texel(&crop, 2, 1, 4), 0);
    assert_eq!(sampler.texel(&crop, 3, 2, 4), 9);
    let mirrored = Crop {
        flip_x: true,
        flip_y: true,
        ..crop
    };
    assert_eq!(sampler.texel(&mirrored, 3, 3, 4), 3 * 8 + 6);
    assert_eq!(sampler.texel(&mirrored, 1, 2, 4), 0);
}

#[test]
fn full_patches_hold_every_channel() {
    let worlds = [World {
        name: "w".into(),
        width: 2,
        height: 2,
        h0: vec![51, 51, 102, 0],
        h1: vec![153, 153, 102, 0],
        delta: vec![15, 15, 0, 3],
        dual: vec![1, 1, 0, 0],
        m0: vec![5, 5, 2, 0],
        m1: vec![6, 6, 2, 7],
        spare: vec![0; 4],
    }];
    let sampler = Sampler::new(&worlds);
    let mut out = vec![(0, 0); FULL_CHANNELS * 4];
    sampler.pack_full(&at(0, 0, 0), 2, &mut out, &|code, span| (code, span));
    assert_eq!(out[0..4], [(51, 255), (51, 255), (102, 255), (0, 255)]);
    assert_eq!(out[4..8], [(102, 255), (102, 255), (0, 255), (0, 255)]);
    assert_eq!(out[8..12], [(15, 15), (15, 15), (0, 15), (3, 15)]);
    assert_eq!(out[12..16], [(1, 1), (1, 1), (0, 1), (0, 1)]);
    // m0: 5, 5, 2, 0
    assert_eq!(out[16..20], [(1, 1), (1, 1), (0, 1), (0, 1)]);
    assert_eq!(out[20..24], [(0, 1), (0, 1), (1, 1), (0, 1)]);
    assert_eq!(out[24..28], [(1, 1), (1, 1), (0, 1), (0, 1)]);
    // m1: 6, 6, 2, 7
    assert_eq!(out[28..32], [(0, 1), (0, 1), (0, 1), (1, 1)]);
    assert_eq!(out[32..36], [(1, 1), (1, 1), (1, 1), (1, 1)]);
    assert_eq!(out[36..40], [(1, 1), (1, 1), (0, 1), (1, 1)]);
}

#[test]
fn a_rise_is_never_below_nothing() {
    let worlds = [World {
        name: "w".into(),
        width: 1,
        height: 1,
        h0: vec![200],
        h1: vec![100],
        delta: vec![0],
        dual: vec![1],
        m0: vec![0],
        m1: vec![0],
        spare: vec![0],
    }];
    let sampler = Sampler::new(&worlds);
    let mut out = vec![0.0; FULL_CHANNELS];
    sampler.pack_full(&at(0, 0, 0), 1, &mut out, &analog);
    assert_eq!(out[0], 200.0 / 127.5 - 1.0);
    assert_eq!(out[1], -1.0);
    assert!(out.iter().all(|v| (-1.0..=1.0).contains(v)));
}

#[test]
fn coarse_patches_pool_blocks() {
    let mut w = flat_world(8, 8);
    for i in 0..64 {
        w.h0[i] = if i < 32 { 255 } else { 0 };
        // 20 texels each of types 2 and 6, the rest of type 0 and 1.
        w.m0[i] = if i < 20 {
            2
        } else if i < 40 {
            6
        } else if i < 52 {
            0
        } else {
            1
        };
    }
    let worlds = [w];
    let sampler = Sampler::new(&worlds);
    let mut out = vec![0.0; COARSE_CHANNELS];
    sampler.pack_coarse(&at(0, 0, 0), 1, &mut out, &analog);
    // The mean of 255 and 0, and of equally common types the last.
    assert_eq!(out[0], (255 * 32) as f32 / 64.0 / 127.5 - 1.0);
    assert_eq!(out[1..4], [-1.0, 1.0, 1.0]);
}

#[test]
fn pairs_hold_their_own_pooled_patch() {
    let worlds = [flat_world(32, 32)];
    let sampler = Sampler::new(&worlds);
    let crop = Crop {
        flip_x: true,
        ..at(0, 8, 16)
    };
    let size = 16;
    let plane = size * size;
    let mut pair = vec![0.0; (FULL_CHANNELS + COARSE_CHANNELS) * plane];
    sampler.pack_pair(&crop, size, &mut pair, &analog);
    let mut full = vec![0.0; FULL_CHANNELS * plane];
    sampler.pack_full(&crop, size, &mut full, &analog);
    assert_eq!(pair[..FULL_CHANNELS * plane], full[..]);
    let half = size / POOL;
    let mut coarse = vec![0.0; COARSE_CHANNELS * half * half];
    sampler.pack_coarse(&crop, half, &mut coarse, &analog);
    for c in 0..COARSE_CHANNELS {
        for y in 0..size {
            for x in 0..size {
                assert_eq!(
                    pair[(FULL_CHANNELS + c) * plane + y * size + x],
                    coarse[c * half * half + y / POOL * half + x / POOL]
                );
            }
        }
    }
}

#[test]
fn pair_batches_are_aligned() {
    let worlds = [flat_world(64, 64)];
    let sampler = Sampler::new(&worlds);
    let mut rng = StdRng::seed_from_u64(9);
    let (mut out, mut labels) = (Vec::new(), Vec::new());
    sampler.fill_batch_pair(&mut rng, 3, 16, &mut out, &mut labels, 0.0, &analog);
    assert_eq!(out.len(), 3 * 14 * 256);
    assert_eq!(labels, vec![0, 0, 0]);
    let c = Crop {
        flip_y: true,
        ..at(1, 13, 24)
    };
    assert_eq!((c.align().x, c.align().y), (8, 24));
    assert!(c.align().flip_y && c.align().world == 1);
}

#[test]
fn batches_pack_crops_in_turn() {
    let worlds = [flat_world(16, 16), flat_world(8, 8)];
    let sampler = Sampler::new(&worlds);
    let crops = vec![at(1, 2, 3), at(0, 5, 1)];
    let (mut out, mut labels) = (Vec::new(), Vec::new());
    sampler.pack_batch(PatchKind::Full, &crops, 4, &mut out, &mut labels, 0.0, &analog);
    assert_eq!(labels, vec![1, 0]);
    let mut one = vec![0.0; FULL_CHANNELS * 16];
    sampler.pack_full(&crops[0], 4, &mut one, &analog);
    assert_eq!(out[..FULL_CHANNELS * 16], one[..]);
    sampler.pack_full(&crops[1], 4, &mut one, &analog);
    assert_eq!(out[FULL_CHANNELS * 16..], one[..]);
}
