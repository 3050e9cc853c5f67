use rand::rngs::StdRng;
use rand::{Rng, SeedableRng};
use van_world::world::{
    LevelData, World, DELTA_BITS, DELTA_MASK, DOUBLE_LEVEL, NUM_TERRAINS, TERRAIN_SHIFT,
};

fn terrain(t: u8) -> u8 {
    assert!(t < NUM_TERRAINS);
    t << TERRAIN_SHIFT
}

#[test]
fn level_data_roundtrip() {
    let mut rng = StdRng::seed_from_u64(7);
    let (w, h) = (16, 8);
    let total = w * h;
    let mut height = vec![0u8; total];
    let mut meta = vec![0u8; total];
    for i in (0..total).step_by(2) {
        if rng.gen::<bool>() {
            let d: u8 = rng.gen_range(0..16); // includes delta == 0 duals
            let (h0, h1) = (rng.gen::<u8>(), rng.gen::<u8>());
            height[i] = h0.min(h1);
            height[i + 1] = h0.max(h1);
            meta[i] = DOUBLE_LEVEL | terrain(rng.gen_range(0..8)) | (d >> DELTA_BITS);
            meta[i + 1] = DOUBLE_LEVEL | terrain(rng.gen_range(0..8)) | (d & DELTA_MASK);
        } else {
            for j in i..i + 2 {
                height[j] = rng.gen();
                meta[j] = terrain(rng.gen_range(0..8));
            }
        }
    }
    let data = LevelData {
        size: (w as i32, h as i32),
        height,
        meta,
    };
    let world = World::from_level_data("test", &data);
    let back = world.to_level_data();
    assert_eq!(&data.height[..], &back.height[..]);
    assert_eq!(&data.meta[..], &back.meta[..]);
    assert_eq!(back.size, (16, 8));
    assert_eq!(world.name, "test");
}

#[test]
fn decodes_single_and_double_texels() {
    let data = LevelData {
        size: (2, 2),
        height: vec![10, 200, 30, 40],
        // A dual pair of terrains 5 and 2 with delta 0b1001, then two singles.
        meta: vec![64 | 5 << 3 | 2, 64 | 2 << 3 | 1, 7 << 3, 1 << 3],
    };
    let w = World::from_level_data("w", &data);
    assert_eq!(w.h0, vec![10, 10, 30, 40]);
    assert_eq!(w.h1, vec![200, 200, 30, 40]);
    assert_eq!(w.delta, vec![9, 9, 0, 0]);
    assert_eq!(w.dual, vec![1, 1, 0, 0]);
    assert_eq!(w.m0, vec![5, 5, 7, 1]);
    assert_eq!(w.m1, vec![2, 2, 7, 1]);
}

#[test]
fn dual_with_zero_delta_stays_dual() {
    let data = LevelData {
        size: (2, 1),
        height: vec![1, 2],
        meta: vec![64, 64],
    };
    let w = World::from_level_data("w", &data);
    assert_eq!(w.delta, vec![0, 0]);
    assert_eq!(w.dual, vec![1, 1]);
    assert_eq!(w.to_level_data().meta, vec![64, 64]);
}

#[test]
fn only_shadows_are_dropped() {
    // Every meta byte, as a pair of two singles and as a pair of two doubles.
    for m in 0..=255u8 {
        for other in [m, m ^ 0b1011_1010] {
            let data = LevelData {
                size: (2, 1),
                height: vec![1, 2],
                meta: vec![m, other],
            };
            let back = World::from_level_data("w", &data).to_level_data();
            assert_eq!(back.height, vec![1, 2]);
            assert_eq!(back.meta, vec![m & !0x84, other & !0x84]);
        }
    }
    let data = LevelData {
        size: (2, 1),
        height: vec![1, 2],
        meta: vec![1, 0],
    };
    let w = World::from_level_data("w", &data);
    assert_eq!((w.spare.clone(), w.delta.clone()), (vec![1, 0], vec![0, 0]));
    assert_eq!(w.to_level_data().meta, vec![1, 0]);
}

#[test]
fn the_first_mark_of_a_pair_counts() {
    let data = LevelData {
        size: (4, 1),
        height: vec![1, 2, 3, 4],
        meta: vec![64, 8, 8, 64],
    };
    let w = World::from_level_data("w", &data);
    assert_eq!(w.dual, vec![1, 1, 0, 0]);
    assert_eq!(w.to_level_data().meta, vec![64, 64 | 8, 8, 0]);
}

#[test]
fn encoding_a_world_and_decoding_it_gives_it_back() {
    let w = World {
        name: "w".to_string(),
        width: 4,
        height: 1,
        h0: vec![3, 3, 9, 8],
        h1: vec![77, 77, 9, 8],
        delta: vec![15, 15, 0, 0],
        dual: vec![1, 1, 0, 0],
        m0: vec![1, 1, 2, 3],
        m1: vec![4, 4, 2, 3],
        spare: vec![0, 0, 1, 3],
    };
    let back = World::from_level_data("w", &w.to_level_data());
    assert_eq!(back.h0, w.h0);
    assert_eq!(back.h1, w.h1);
    assert_eq!(back.delta, w.delta);
    assert_eq!(back.dual, w.dual);
    assert_eq!(back.m0, w.m0);
    assert_eq!(back.m1, w.m1);
    assert_eq!(back.spare, w.spare);
}

#[test]
fn counts_over_texels() {
    let w = World {
        name: "w".to_string(),
        width: 4,
        height: 1,
        h0: vec![3, 3, 9, 255],
        h1: vec![77, 77, 9, 255],
        delta: vec![0, 15, 0, 0],
        dual: vec![1, 1, 0, 0],
        m0: vec![1, 1, 2, 7],
        m1: vec![4, 4, 2, 7],
        spare: vec![0; 4],
    };
    let s = w.stats();
    assert_eq!(s.dual, 2);
    assert_eq!(s.dual_zero_delta, 1);
    assert_eq!(s.h0_sum, 270);
    assert_eq!(s.terrains, vec![0, 2, 1, 0, 0, 0, 0, 1]);
    assert_eq!(s.terrains.iter().sum::<u64>(), 4);
}
