use meganeura::graph::{Graph, NodeId};
use meganeura::nn::Linear;
use van_world::graph::{Call, Plan};
use van_world::lower::lower;
use van_world::model::{build_training_graph, build_unet, Init, StdDev, UNetConfig};
use van_world::training::find_init;

const GN_EPS: f32 = 1e-5;

/// Makes a call that takes floating-point arguments.
fn float_call(plan: &Plan, mut g: Graph, k: usize) -> Graph {
    match plan.calls[k] {
        Call::Ones { cols } => {
            g.constant(vec![1.0; cols], &[1, cols]);
        }
        Call::GroupNorm {
            x,
            weight,
            bias,
            batch,
            channels,
            spatial,
            groups,
            eps_bits,
        } => {
            let eps = f32::from_bits(eps_bits);
            g.group_norm(x, weight, bias, batch, channels, spatial, groups, eps);
        }
        _ => unreachable!(),
    }
    g
}

fn lowered(plan: &Plan) -> Graph {
    lower(plan, &|g: Graph, k: usize| float_call(plan, g, k))
}

fn show(g: &Graph) -> Vec<String> {
    g.nodes().iter().map(|n| format!("{n:?}")).collect()
}

fn dense(g: &mut Graph, name: &str, x: NodeId, in_f: usize, out_f: usize) -> NodeId {
    Linear::new(g, name, in_f, out_f).forward(g, x)
}

fn norm(g: &mut Graph, name: &str, x: NodeId, cfg: &UNetConfig, c: u32, spatial: u32) -> NodeId {
    let w = g.parameter(&format!("{name}.weight"), &[c as usize]);
    let b = g.parameter(&format!("{name}.bias"), &[c as usize]);
    let h = g.group_norm(x, w, b, cfg.batch, c, spatial, cfg.num_groups, GN_EPS);
    g.silu(h)
}

#[derive(Clone, Copy)]
struct Shape {
    side: u32,
    c: u32,
}

fn conv(
    g: &mut Graph,
    name: &str,
    x: NodeId,
    batch: u32,
    s: Shape,
    out_c: u32,
    k: u32,
    stride: u32,
) -> NodeId {
    let w = g.parameter(&format!("{name}.weight"), &[(out_c * s.c * k * k) as usize]);
    let pad = k / 2;
    g.conv2d(x, w, batch, s.c, s.side, s.side, out_c, k, k, stride, pad)
}

fn block(
    g: &mut Graph,
    p: &str,
    x: NodeId,
    emb: NodeId,
    cfg: &UNetConfig,
    s: Shape,
    out_c: u32,
) -> NodeId {
    let spatial = s.side * s.side;
    let mid = Shape { c: out_c, ..s };
    let h = norm(g, &format!("{p}.norm1"), x, cfg, s.c, spatial);
    let h = conv(g, &format!("{p}.conv1"), h, cfg.batch, s, out_c, 3, 1);
    let e = dense(g, &format!("{p}.emb_proj"), emb, cfg.emb_dim, out_c as usize);
    let rows = (cfg.batch * out_c) as usize;
    let col = g.reshape(e, &[rows, 1]);
    let ones = g.constant(vec![1.0; spatial as usize], &[1, spatial as usize]);
    let plane = g.matmul(col, ones);
    let flat = g.reshape(plane, &[rows * spatial as usize]);
    let h = g.add(h, flat);
    let h = norm(g, &format!("{p}.norm2"), h, cfg, out_c, spatial);
    let h = conv(g, &format!("{p}.conv2"), h, cfg.batch, mid, out_c, 3, 1);
    if s.c == out_c {
        g.add(x, h)
    } else {
        let x = conv(g, &format!("{p}.res_conv"), x, cfg.batch, s, out_c, 1, 1);
        g.add(x, h)
    }
}

/// The network, written down directly.
fn by_hand(g: &mut Graph, cfg: &UNetConfig) -> NodeId {
    let b = cfg.batch;
    let in_c = cfg.data_channels + cfg.cond_channels;
    let mut s = Shape {
        side: cfg.resolution,
        c: in_c,
    };
    let x = g.input("x", &[(b * in_c * s.side * s.side) as usize]);
    let t = g.input("t_emb", &[b as usize, cfg.t_dim]);
    let t = dense(g, "cond.t_proj", t, cfg.t_dim, cfg.emb_dim);
    let class = g.input_u32("class", &[b as usize]);
    let table = g.parameter("cond.class_table", &[cfg.num_classes, cfg.emb_dim]);
    let c = g.embedding(class, table);
    let e = g.add(t, c);
    let e = g.silu(e);
    let e = dense(g, "cond.trunk", e, cfg.emb_dim, cfg.emb_dim);
    let e = g.silu(e);
    let mut x = conv(g, "conv_in", x, b, s, cfg.base_channels, 3, 1);
    s.c = cfg.base_channels;
    let mut skips = Vec::new();
    for l in 0..cfg.num_levels {
        let out_c = cfg.base_channels << l;
        x = block(g, &format!("encoder.{l}.resblock"), x, e, cfg, s, out_c);
        s.c = out_c;
        skips.push((x, s));
        if l + 1 < cfg.num_levels {
            x = conv(g, &format!("encoder.{l}.downsample"), x, b, s, s.c, 3, 2);
            s.side = (s.side - 1) / 2 + 1;
        }
    }
    x = block(g, "middle.resblock", x, e, cfg, s, s.c);
    for l in (0..cfg.num_levels).rev() {
        let out_c = cfg.base_channels << l;
        if l + 1 < cfg.num_levels {
            x = g.upsample_2x(x, b, s.c, s.side, s.side);
            s.side *= 2;
        }
        let (skip, from) = skips[l];
        x = g.concat(x, skip, b, s.c, from.c, s.side * s.side);
        s.c += from.c;
        x = block(g, &format!("decoder.{l}.resblock"), x, e, cfg, s, out_c);
        s.c = out_c;
    }
    let x = norm(g, "conv_out.norm", x, cfg, s.c, s.side * s.side);
    conv(g, "conv_out", x, b, s, cfg.data_channels, 3, 1)
}

fn small(levels: usize) -> UNetConfig {
    UNetConfig {
        base_channels: 16,
        num_levels: levels,
        ..UNetConfig::sr_default(2, 8)
    }
}

#[test]
fn defaults() {
    let cfg = UNetConfig::sr_default(3, 128);
    assert_eq!((cfg.batch, cfg.resolution), (3, 128));
    assert_eq!((cfg.data_channels, cfg.cond_channels), (10, 4));
    assert_eq!((cfg.base_channels, cfg.num_levels, cfg.num_groups), (64, 3, 16));
    assert_eq!((cfg.t_dim, cfg.emb_dim, cfg.num_classes), (128, 256, 11));
    assert_eq!(f32::from_bits(cfg.gn_eps_bits), 1e-5);
    assert_eq!(cfg.in_channels(), 14);
    assert!(cfg.is_buildable());
    // An odd side cannot be halved and doubled again.
    assert!(!UNetConfig::sr_default(1, 6).is_buildable());
}

#[test]
fn lowered_networks_are_those_written_by_hand() {
    for levels in [1, 2, 3] {
        let cfg = small(levels);
        assert!(cfg.is_buildable());
        let mut plan = Plan::new();
        let (pred, _) = build_unet(&mut plan, &cfg);
        let g = lowered(&plan);
        let mut wanted = Graph::new();
        let id = by_hand(&mut wanted, &cfg);
        assert_eq!(show(&g), show(&wanted));
        assert_eq!(pred, id);
        assert_eq!(plan.len as usize, g.nodes().len());
    }
}

#[test]
fn the_training_graph_ends_in_the_loss() {
    let cfg = small(2);
    let mut plan = Plan::new();
    let (loss, inits) = build_training_graph(&mut plan, &cfg);
    let g = lowered(&plan);
    let mut wanted = Graph::new();
    let pred = by_hand(&mut wanted, &cfg);
    let target = wanted.input("v_target", &[2 * 10 * 8 * 8]);
    let id = wanted.mse_loss(pred, target);
    assert_eq!(show(&g), show(&wanted));
    assert_eq!(loss, id);
    assert!(!inits.is_empty());
}

#[test]
fn the_inputs_are_those_of_the_model() {
    let cfg = small(2);
    let inputs = |plan: &Plan| {
        let mut found: Vec<(String, Vec<usize>, bool)> = Vec::new();
        for call in &plan.calls {
            match call {
                Call::Input { name, shape } => found.push((name.clone(), shape.clone(), false)),
                Call::InputU32 { name, shape } => found.push((name.clone(), shape.clone(), true)),
                _ => {}
            }
        }
        found
    };
    let mut wanted = vec![
        ("x".to_string(), vec![2 * 14 * 64], false),
        ("t_emb".to_string(), vec![2, 128], false),
        ("class".to_string(), vec![2], true),
    ];
    let mut plan = Plan::new();
    build_unet(&mut plan, &cfg);
    assert_eq!(inputs(&plan), wanted);
    let mut plan = Plan::new();
    build_training_graph(&mut plan, &cfg);
    wanted.push(("v_target".to_string(), vec![2 * 10 * 64], false));
    assert_eq!(inputs(&plan), wanted);
}

#[test]
fn the_epsilon_is_carried() {
    let cfg = UNetConfig {
        gn_eps_bits: 0.5f32.to_bits(),
        ..small(1)
    };
    let mut plan = Plan::new();
    build_unet(&mut plan, &cfg);
    let found: Vec<f32> = plan
        .calls
        .iter()
        .filter_map(|c| match c {
            Call::GroupNorm { eps_bits, .. } => Some(f32::from_bits(*eps_bits)),
            _ => None,
        })
        .collect();
    assert!(!found.is_empty() && found.iter().all(|&e| e == 0.5));
}

#[test]
fn float_calls_are_left_to_the_caller() {
    let cfg = small(1);
    let mut plan = Plan::new();
    build_unet(&mut plan, &cfg);
    let wanted: Vec<usize> = (0..plan.calls.len())
        .filter(|&k| matches!(plan.calls[k], Call::GroupNorm { .. } | Call::Ones { .. }))
        .collect();
    let left = std::cell::RefCell::new(Vec::new());
    lower(&plan, &|g: Graph, k: usize| {
        left.borrow_mut().push(k);
        float_call(&plan, g, k)
    });
    assert_eq!(left.into_inner(), wanted);
}

#[test]
fn every_parameter_has_one_initialiser() {
    let cfg = small(2);
    let mut plan = Plan::new();
    let (_, inits) = build_unet(&mut plan, &cfg);
    let mut names: Vec<String> = Vec::new();
    for call in &plan.calls {
        match call {
            Call::Parameter { name, .. } => names.push(name.clone()),
            Call::Linear { name, .. } => {
                names.push(format!("{name}.weight"));
                names.push(format!("{name}.bias"));
            }
            _ => {}
        }
    }
    let recorded: Vec<String> = inits.iter().map(|i| i.0.clone()).collect();
    assert_eq!(names, recorded);
    for name in &names {
        assert!(find_init(&inits, name).is_some());
    }
    names.sort();
    names.dedup();
    assert_eq!(names.len(), recorded.len());
}

#[test]
fn initialisers() {
    let cfg = small(2);
    let mut plan = Plan::new();
    let (_, inits) = build_unet(&mut plan, &cfg);
    let init = |name: &str| find_init(&inits, name).unwrap();
    assert_eq!(init("cond.t_proj.weight"), Init::Normal(StdDev::RootTwoOver(128 + 256)));
    assert_eq!(init("cond.t_proj.bias"), Init::Zero);
    assert_eq!(init("cond.class_table"), Init::Normal(StdDev::Hundredths(2)));
    assert_eq!(init("cond.trunk.weight"), Init::Normal(StdDev::RootTwoOver(512)));
    assert_eq!(init("conv_in.weight"), Init::Normal(StdDev::RootTwoOver(14 * 9)));
    assert_eq!(init("encoder.0.resblock.norm1.weight"), Init::One);
    assert_eq!(init("encoder.0.resblock.norm1.bias"), Init::Zero);
    assert_eq!(init("encoder.1.resblock.conv1.weight"), Init::Normal(StdDev::RootTwoOver(16 * 9)));
    assert_eq!(init("encoder.1.resblock.res_conv.weight"), Init::Normal(StdDev::RootTwoOver(16)));
    assert_eq!(init("encoder.0.resblock.emb_proj.weight"), Init::Zero);
    assert_eq!(init("encoder.0.downsample.weight"), Init::Normal(StdDev::RootTwoOver(16 * 9)));
    assert_eq!(init("conv_out.weight"), Init::Zero);
    assert_eq!(find_init(&inits, "encoder.0.resblock.res_conv.weight"), None);
}
