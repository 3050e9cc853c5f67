//! The names of the network's parameters: no two are the same, and those that
//! every block declares are there.

use crate::graph::volume;
use crate::model::{
    downsample_name, fan_init, level_name, norm_conv_params, resblock_params, Init, ParamView,
    UNetConfig,
};
use crate::text::{decimal, digit};
use vstd::prelude::*;

verus! {

/// No name comes twice.
pub open spec fn distinct(ps: Seq<ParamView>) -> bool {
    forall|i: int, j: int|
        #![trigger ps[i], ps[j]]
        0 <= i < j < ps.len() ==> ps[i].name != ps[j].name
}

/// No name of `a` is one of `b`.
spec fn apart(a: Seq<ParamView>, b: Seq<ParamView>) -> bool {
    forall|i: int, j: int|
        #![trigger a[i], b[j]]
        0 <= i < a.len() && 0 <= j < b.len() ==> a[i].name != b[j].name
}

/// Every name starts with a prefix.
spec fn prefixed(ps: Seq<ParamView>, prefix: Seq<char>) -> bool {
    forall|i: int| 0 <= i < ps.len() ==> prefix.is_prefix_of((#[trigger] ps[i]).name)
}

/// Two prefixes differ where both have a character.
spec fn clash(p: Seq<char>, q: Seq<char>) -> bool {
    exists|k: int| 0 <= k < p.len() && k < q.len() && #[trigger] p[k] != q[k]
}

/// Names with clashing prefixes are not the same.
proof fn lemma_clash(p: Seq<char>, q: Seq<char>, a: Seq<char>, b: Seq<char>)
    requires
        clash(p, q),
        p.is_prefix_of(a),
        q.is_prefix_of(b),
    ensures
        a != b,
{
    let k = choose|k: int| 0 <= k < p.len() && k < q.len() && #[trigger] p[k] != q[k];
    assert(a[k] == a.subrange(0, p.len() as int)[k]);
    assert(b[k] == b.subrange(0, q.len() as int)[k]);
}

/// Parameters with clashing prefixes are apart.
proof fn lemma_apart(a: Seq<ParamView>, b: Seq<ParamView>, p: Seq<char>, q: Seq<char>)
    requires
        prefixed(a, p),
        prefixed(b, q),
        clash(p, q),
    ensures
        apart(a, b),
{
    assert forall|i: int, j: int|
        #![trigger a[i], b[j]]
        0 <= i < a.len() && 0 <= j < b.len() implies a[i].name != b[j].name by {
        lemma_clash(p, q, a[i].name, b[j].name);
    }
}

/// Lists that are apart can be put together.
proof fn lemma_distinct_concat(a: Seq<ParamView>, b: Seq<ParamView>)
    requires
        distinct(a),
        distinct(b),
        apart(a, b),
    ensures
        distinct(a + b),
{
    let c = a + b;
    assert forall|i: int, j: int|
        #![trigger c[i], c[j]]
        0 <= i < j < c.len() implies c[i].name != c[j].name by {
        if j < a.len() {
            assert(a[i] == c[i] && a[j] == c[j]);
        } else if i >= a.len() {
            assert(b[i - a.len()] == c[i] && b[j - a.len()] == c[j]);
        } else {
            assert(a[i] == c[i] && b[j - a.len()] == c[j]);
        }
    }
}

/// What is apart from two lists is apart from both together.
proof fn lemma_apart_concat(a: Seq<ParamView>, b: Seq<ParamView>, c: Seq<ParamView>)
    requires
        apart(a, c),
        apart(b, c),
    ensures
        apart(a + b, c),
{
    let d = a + b;
    assert forall|i: int, j: int|
        #![trigger d[i], c[j]]
        0 <= i < d.len() && 0 <= j < c.len() implies d[i].name != c[j].name by {
        if i < a.len() {
            assert(a[i] == d[i]);
        } else {
            assert(b[i - a.len()] == d[i]);
        }
    }
}

/// A digit's character is its own, and no full stop.
proof fn lemma_digit(a: nat, b: nat)
    requires
        a < 10,
        b < 10,
    ensures
        digit(a) == digit(b) ==> a == b,
        digit(a) != '.',
{
}

/// A numeral has a character, and no full stops.
proof fn lemma_decimal(n: nat)
    ensures
        decimal(n).len() >= 1,
        forall|k: int| 0 <= k < decimal(n).len() ==> #[trigger] decimal(n)[k] != '.',
        n < 10 <==> decimal(n).len() == 1,
    decreases n,
{
    lemma_digit(n % 10, n % 10);
    if n >= 10 {
        lemma_decimal(n / 10);
        let rest = decimal(n / 10);
        assert forall|k: int| 0 <= k < decimal(n).len() implies #[trigger] decimal(n)[k] != '.' by {
            if k < rest.len() {
                assert(decimal(n)[k] == rest[k]);
            }
        }
    }
}

/// Different numbers have different numerals.
proof fn lemma_decimal_injective(a: nat, b: nat)
    requires
        decimal(a) == decimal(b),
    ensures
        a == b,
    decreases a,
{
    lemma_decimal(a);
    lemma_decimal(b);
    lemma_digit(a % 10, b % 10);
    assert(decimal(a).last() == digit(a % 10));
    assert(decimal(b).last() == digit(b % 10));
    if a >= 10 {
        assert(decimal(a).drop_last() =~= decimal(a / 10));
        assert(decimal(b).drop_last() =~= decimal(b / 10));
        lemma_decimal_injective(a / 10, b / 10);
    }
}

/// What the names of a level of one side of the network start with.
spec fn level_prefix(side: Seq<char>, l: nat) -> Seq<char> {
    side + decimal(l) + seq!['.']
}

/// The prefixes of two levels clash.
proof fn lemma_levels_clash(side: Seq<char>, a: nat, b: nat)
    requires
        a != b,
    ensures
        clash(level_prefix(side, a), level_prefix(side, b)),
{
    let p = level_prefix(side, a);
    let q = level_prefix(side, b);
    let x = decimal(a);
    let y = decimal(b);
    let n = side.len() as int;
    lemma_decimal(a);
    lemma_decimal(b);
    if x.len() < y.len() {
        let k = x.len() as int;
        assert(y[k] != '.');
        assert(p[n + k] == '.' && q[n + k] == y[k]);
    } else if y.len() < x.len() {
        let k = y.len() as int;
        assert(x[k] != '.');
        assert(q[n + k] == '.' && p[n + k] == x[k]);
    } else {
        if forall|k: int| 0 <= k < x.len() ==> x[k] == y[k] {
            assert(x =~= y);
            lemma_decimal_injective(a, b);
        }
        let k = choose|k: int| 0 <= k < x.len() && x[k] != y[k];
        assert(p[n + k] == x[k] && q[n + k] == y[k]);
    }
}

/// The suffixes of a residual block's names.
proof fn lemma_block_names(prefix: Seq<char>, emb_dim: nat, in_c: nat, out_c: nat)
    ensures
        distinct(resblock_params(prefix, emb_dim, in_c, out_c)),
        prefixed(resblock_params(prefix, emb_dim, in_c, out_c), prefix),
{
    reveal_strlit(".norm1");
    reveal_strlit(".norm2");
    reveal_strlit(".weight");
    reveal_strlit(".bias");
    reveal_strlit(".conv1.weight");
    reveal_strlit(".conv2.weight");
    reveal_strlit(".emb_proj");
    reveal_strlit(".res_conv.weight");
    let ps = resblock_params(prefix, emb_dim, in_c, out_c);
    let n = prefix.len() as int;
    assert forall|i: int| 0 <= i < ps.len() implies prefix.is_prefix_of((#[trigger] ps[i]).name) by {
        assert(ps[i].name.subrange(0, n) =~= prefix);
    }
    let a = ps[0].name;
    let b = ps[1].name;
    let c = ps[2].name;
    let d = ps[3].name;
    let e = ps[4].name;
    let f = ps[5].name;
    let g = ps[6].name;
    let h = ps[7].name;
    assert(a.len() == n + 13 && b.len() == n + 11 && c.len() == n + 13 && d.len() == n + 16
        && e.len() == n + 14 && f.len() == n + 13 && g.len() == n + 11 && h.len() == n + 13);
    assert(a[n + 1] == 'n' && a[n + 5] == '1');
    assert(b[n + 5] == '1');
    assert(c[n + 1] == 'c' && c[n + 5] == '1');
    assert(d[n + 1] == 'e');
    assert(f[n + 1] == 'n' && f[n + 5] == '2');
    assert(g[n + 5] == '2');
    assert(h[n + 1] == 'c' && h[n + 5] == '2');
    if in_c != out_c {
        let r = ps[8].name;
        assert(r.len() == n + 16 && r[n + 1] == 'r');
    }
}

/// A longer prefix is a prefix.
proof fn lemma_prefixed_shorter(ps: Seq<ParamView>, long: Seq<char>, short: Seq<char>)
    requires
        prefixed(ps, long),
        short.is_prefix_of(long),
    ensures
        prefixed(ps, short),
{
    assert forall|i: int| 0 <= i < ps.len() implies short.is_prefix_of((#[trigger] ps[i]).name) by {
        let name = ps[i].name;
        assert(name.subrange(0, short.len() as int) =~= name.subrange(
            0,
            long.len() as int,
        ).subrange(0, short.len() as int));
    }
}

/// The names of one level of the encoder.
proof fn lemma_encoder_level(cfg: UNetConfig, i: nat, last: bool)
    ensures
        ({
            let block = resblock_params(
                level_name("encoder."@, i),
                cfg.emb_dim as nat,
                cfg.enc_in(i),
                cfg.channels(i),
            );
            let level = block + (if last {
                seq![]
            } else {
                seq![
                    ParamView {
                        name: downsample_name(i),
                        shape: seq![
                            volume(cfg.channels(i), cfg.channels(i), 3, 3),
                        ],
                        init: fan_init(cfg.channels(i) * 3 * 3),
                    },
                ]
            });
            distinct(level) && prefixed(level, level_prefix("encoder."@, i))
        }),
{
    let block = resblock_params(
        level_name("encoder."@, i),
        cfg.emb_dim as nat,
        cfg.enc_in(i),
        cfg.channels(i),
    );
    let down = seq![
        ParamView {
            name: downsample_name(i),
            shape: seq![volume(cfg.channels(i), cfg.channels(i), 3, 3)],
            init: fan_init(cfg.channels(i) * 3 * 3),
        },
    ];
    lemma_block_names(
        level_name("encoder."@, i),
        cfg.emb_dim as nat,
        cfg.enc_in(i),
        cfg.channels(i),
    );
    reveal_strlit(".resblock");
    reveal_strlit(".downsample.weight");
    let prefix = level_prefix("encoder."@, i);
    let name = level_name("encoder."@, i);
    let n = prefix.len() as int;
    assert(name.subrange(0, n) =~= prefix);
    assert(name[n] == 'r');
    lemma_prefixed_shorter(block, name, prefix);
    assert(downsample_name(i).subrange(0, n) =~= prefix);
    assert(downsample_name(i)[n] == 'd');
    if last {
        assert(block + Seq::<ParamView>::empty() =~= block);
    } else {
        assert(clash(name, downsample_name(i)));
        assert(down[0].name.subrange(0, down[0].name.len() as int) =~= down[0].name);
        assert(prefixed(down, downsample_name(i)));
        lemma_apart(block, down, name, downsample_name(i));
        lemma_distinct_concat(block, down);
        let level = block + down;
        assert forall|k: int| 0 <= k < level.len() implies prefix.is_prefix_of(
            (#[trigger] level[k]).name,
        ) by {
            if k < block.len() {
                assert(level[k] == block[k]);
            } else {
                assert(level[k] == down[0]);
            }
        }
    }
}

/// Every name belongs to a level of one side, from `from` to below `to`.
spec fn levelled(ps: Seq<ParamView>, side: Seq<char>, from: nat, to: nat) -> bool {
    forall|i: int|
        #![trigger ps[i]]
        0 <= i < ps.len() ==> exists|k: nat|
            from <= k < to && #[trigger] level_prefix(side, k).is_prefix_of(ps[i].name)
}

/// One more level, apart from the others, can be put behind them.
proof fn lemma_add_level(
    ps: Seq<ParamView>,
    level: Seq<ParamView>,
    side: Seq<char>,
    from: nat,
    to: nat,
    l: nat,
    low: nat,
    high: nat,
)
    requires
        distinct(ps),
        distinct(level),
        levelled(ps, side, from, to),
        prefixed(level, level_prefix(side, l)),
        l < from || l >= to,
        low <= from,
        low <= l < high,
        to <= high,
    ensures
        distinct(ps + level),
        levelled(ps + level, side, low, high),
{
    assert forall|i: int, j: int|
        #![trigger ps[i], level[j]]
        0 <= i < ps.len() && 0 <= j < level.len() implies ps[i].name != level[j].name by {
        let k = choose|k: nat|
            from <= k < to && #[trigger] level_prefix(side, k).is_prefix_of(ps[i].name);
        lemma_levels_clash(side, k, l);
        lemma_clash(level_prefix(side, k), level_prefix(side, l), ps[i].name, level[j].name);
    }
    lemma_distinct_concat(ps, level);
    let all = ps + level;
    assert forall|i: int| #![trigger all[i]] 0 <= i < all.len() implies exists|k: nat|
        low <= k < high && #[trigger] level_prefix(side, k).is_prefix_of(all[i].name) by {
        if i < ps.len() {
            assert(all[i] == ps[i]);
            let k = choose|k: nat|
                from <= k < to && #[trigger] level_prefix(side, k).is_prefix_of(ps[i].name);
            assert(level_prefix(side, k).is_prefix_of(all[i].name));
        } else {
            assert(all[i] == level[i - ps.len()]);
            assert(level_prefix(side, l).is_prefix_of(all[i].name));
        }
    }
}

/// The names of the encoder.
proof fn lemma_encoder_names(cfg: UNetConfig, l: nat)
    ensures
        distinct(cfg.encoder_params(l)),
        levelled(cfg.encoder_params(l), "encoder."@, 0, l),
    decreases l,
{
    reveal(UNetConfig::encoder_params);
    if l > 0 {
        let i = (l - 1) as nat;
        lemma_encoder_names(cfg, i);
        lemma_encoder_level(cfg, i, l >= cfg.num_levels);
        let block = resblock_params(
            level_name("encoder."@, i),
            cfg.emb_dim as nat,
            cfg.enc_in(i),
            cfg.channels(i),
        );
        let down = if l < cfg.num_levels {
            seq![
                ParamView {
                    name: downsample_name(i),
                    shape: seq![volume(cfg.channels(i), cfg.channels(i), 3, 3)],
                    init: fan_init(cfg.channels(i) * 3 * 3),
                },
            ]
        } else {
            seq![]
        };
        lemma_add_level(
            cfg.encoder_params(i),
            block + down,
            "encoder."@,
            0,
            i,
            i,
            0,
            l,
        );
        assert(cfg.encoder_params(l) =~= cfg.encoder_params(i) + (block + down));
    }
}

/// The names of the decoder.
proof fn lemma_decoder_names(cfg: UNetConfig, l: nat)
    ensures
        distinct(cfg.decoder_params(l)),
        levelled(cfg.decoder_params(l), "decoder."@, l, cfg.num_levels as nat),
    decreases cfg.num_levels - l,
{
    reveal(UNetConfig::decoder_params);
    if l < cfg.num_levels {
        lemma_decoder_names(cfg, l + 1);
        let name = level_name("decoder."@, l);
        let block = resblock_params(
            name,
            cfg.emb_dim as nat,
            cfg.below(l) + cfg.channels(l),
            cfg.channels(l),
        );
        lemma_block_names(
            name,
            cfg.emb_dim as nat,
            cfg.below(l) + cfg.channels(l),
            cfg.channels(l),
        );
        reveal_strlit(".resblock");
        let prefix = level_prefix("decoder."@, l);
        assert(name.subrange(0, prefix.len() as int) =~= prefix);
        lemma_prefixed_shorter(block, name, prefix);
        lemma_add_level(
            cfg.decoder_params(l + 1),
            block,
            "decoder."@,
            l + 1,
            cfg.num_levels as nat,
            l,
            l,
            cfg.num_levels as nat,
        );
    }
}

/// Levelled names start with the name of their side.
proof fn lemma_levelled_prefixed(ps: Seq<ParamView>, side: Seq<char>, from: nat, to: nat)
    requires
        levelled(ps, side, from, to),
    ensures
        prefixed(ps, side),
{
    assert forall|i: int| 0 <= i < ps.len() implies side.is_prefix_of((#[trigger] ps[i]).name) by {
        let k = choose|k: nat|
            from <= k < to && #[trigger] level_prefix(side, k).is_prefix_of(ps[i].name);
        let p = level_prefix(side, k);
        let name = ps[i].name;
        assert(name.subrange(0, side.len() as int) =~= name.subrange(0, p.len() as int).subrange(
            0,
            side.len() as int,
        ));
        assert(p.subrange(0, side.len() as int) =~= side);
    }
}

/// The names outside the levels, and what they start with.
proof fn lemma_outer_names(cfg: UNetConfig, stem: ParamView)
    requires
        stem.name == "conv_in.weight"@,
    ensures
        distinct(cfg.embedding_params()),
        prefixed(cfg.embedding_params(), seq!['c', 'o', 'n', 'd']),
        distinct(seq![stem]),
        prefixed(seq![stem], seq!['c', 'o', 'n', 'v', '_', 'i']),
        ({
            let out = norm_conv_params(
                "conv_out.norm"@,
                "conv_out.weight"@,
                cfg.base_channels as nat,
                cfg.data_channels as nat,
                Init::Zero,
            );
            distinct(out) && prefixed(out, seq!['c', 'o', 'n', 'v', '_', 'o'])
        }),
{
    reveal_strlit("cond.t_proj");
    reveal_strlit("cond.class_table");
    reveal_strlit("cond.trunk");
    reveal_strlit(".weight");
    reveal_strlit(".bias");
    reveal_strlit("conv_in.weight");
    reveal_strlit("conv_out.norm");
    reveal_strlit("conv_out.weight");
    let ps = cfg.embedding_params();
    let cond = seq!['c', 'o', 'n', 'd'];
    assert(ps[0].name.subrange(0, 4) =~= cond);
    assert(ps[1].name.subrange(0, 4) =~= cond);
    assert(ps[2].name.subrange(0, 4) =~= cond);
    assert(ps[3].name.subrange(0, 4) =~= cond);
    assert(ps[4].name.subrange(0, 4) =~= cond);
    assert(ps[0].name.len() == 18 && ps[1].name.len() == 16 && ps[2].name.len() == 16
        && ps[3].name.len() == 17 && ps[4].name.len() == 15);
    assert(ps[1].name[5] == 't' && ps[2].name[5] == 'c');
    assert(stem.name.subrange(0, 6) =~= seq!['c', 'o', 'n', 'v', '_', 'i']);
    let out = norm_conv_params(
        "conv_out.norm"@,
        "conv_out.weight"@,
        cfg.base_channels as nat,
        cfg.data_channels as nat,
        Init::Zero,
    );
    let conv = seq!['c', 'o', 'n', 'v', '_', 'o'];
    assert(out[0].name.subrange(0, 6) =~= conv);
    assert(out[1].name.subrange(0, 6) =~= conv);
    assert(out[2].name.subrange(0, 6) =~= conv);
    assert(out[0].name.len() == 20 && out[1].name.len() == 18 && out[2].name.len() == 15);
}

/// No two parameters of a network have the same name.
pub proof fn law_names_are_distinct(cfg: UNetConfig)
    ensures
        distinct(cfg.params()),
{
    let bottom = cfg.channels(cfg.bottom());
    let e = cfg.embedding_params();
    let stem = ParamView {
        name: "conv_in.weight"@,
        shape: seq![
            volume(cfg.base_channels as nat, cfg.input_channels(), 3, 3),
        ],
        init: fan_init(cfg.input_channels() * 3 * 3),
    };
    let s = seq![stem];
    let enc = cfg.encoder_params(cfg.num_levels as nat);
    let mid = resblock_params("middle.resblock"@, cfg.emb_dim as nat, bottom, bottom);
    let dec = cfg.decoder_params(0);
    let out = norm_conv_params(
        "conv_out.norm"@,
        "conv_out.weight"@,
        cfg.base_channels as nat,
        cfg.data_channels as nat,
        Init::Zero,
    );
    let pe = seq!['c', 'o', 'n', 'd'];
    let ps = seq!['c', 'o', 'n', 'v', '_', 'i'];
    let po = seq!['c', 'o', 'n', 'v', '_', 'o'];
    lemma_outer_names(cfg, stem);
    lemma_encoder_names(cfg, cfg.num_levels as nat);
    lemma_levelled_prefixed(enc, "encoder."@, 0, cfg.num_levels as nat);
    lemma_block_names("middle.resblock"@, cfg.emb_dim as nat, bottom, bottom);
    lemma_decoder_names(cfg, 0);
    lemma_levelled_prefixed(dec, "decoder."@, 0, cfg.num_levels as nat);
    reveal_strlit("encoder.");
    reveal_strlit("middle.resblock");
    reveal_strlit("decoder.");
    assert(pe[3] != ps[3] && pe[3] != po[3] && ps[5] != po[5]);
    assert(pe[0] != "encoder."@[0] && pe[0] != "middle.resblock"@[0] && pe[0] != "decoder."@[0]);
    assert(ps[0] != "encoder."@[0] && ps[0] != "middle.resblock"@[0] && ps[0] != "decoder."@[0]);
    assert("encoder."@[0] != "middle.resblock"@[0] && "encoder."@[0] != "decoder."@[0]
        && "middle.resblock"@[0] != "decoder."@[0]);
    assert("encoder."@[0] != po[0] && "middle.resblock"@[0] != po[0] && "decoder."@[0] != po[0]);
    lemma_apart(e, s, pe, ps);
    lemma_distinct_concat(e, s);
    lemma_apart(e, enc, pe, "encoder."@);
    lemma_apart(s, enc, ps, "encoder."@);
    lemma_apart_concat(e, s, enc);
    lemma_distinct_concat(e + s, enc);
    lemma_apart(e, mid, pe, "middle.resblock"@);
    lemma_apart(s, mid, ps, "middle.resblock"@);
    lemma_apart(enc, mid, "encoder."@, "middle.resblock"@);
    lemma_apart_concat(e, s, mid);
    lemma_apart_concat(e + s, enc, mid);
    lemma_distinct_concat(e + s + enc, mid);
    lemma_apart(e, dec, pe, "decoder."@);
    lemma_apart(s, dec, ps, "decoder."@);
    lemma_apart(enc, dec, "encoder."@, "decoder."@);
    lemma_apart(mid, dec, "middle.resblock"@, "decoder."@);
    lemma_apart_concat(e, s, dec);
    lemma_apart_concat(e + s, enc, dec);
    lemma_apart_concat(e + s + enc, mid, dec);
    lemma_distinct_concat(e + s + enc + mid, dec);
    lemma_apart(e, out, pe, po);
    lemma_apart(s, out, ps, po);
    lemma_apart(enc, out, "encoder."@, po);
    lemma_apart(mid, out, "middle.resblock"@, po);
    lemma_apart(dec, out, "decoder."@, po);
    lemma_apart_concat(e, s, out);
    lemma_apart_concat(e + s, enc, out);
    lemma_apart_concat(e + s + enc, mid, out);
    lemma_apart_concat(e + s + enc + mid, dec, out);
    lemma_distinct_concat(e + s + enc + mid + dec, out);
    assert(cfg.params() == e + s + enc + mid + dec + out);
}

/// A parameter of the given name starts out in the given way.
pub open spec fn declares(ps: Seq<ParamView>, name: Seq<char>, init: Init) -> bool {
    exists|i: int| 0 <= i < ps.len() && (#[trigger] ps[i]).name == name && ps[i].init == init
}

/// The name of a residual block of the network.
pub open spec fn is_block(cfg: UNetConfig, name: Seq<char>) -> bool {
    ||| name == "middle.resblock"@
    ||| exists|l: nat| l < cfg.num_levels && name == #[trigger] level_name("encoder."@, l)
    ||| exists|l: nat| l < cfg.num_levels && name == #[trigger] level_name("decoder."@, l)
}

/// The projection that shifts a block starts at zero.
pub open spec fn shift_starts_at_zero(ps: Seq<ParamView>, block: Seq<char>) -> bool {
    &&& declares(ps, block + ".emb_proj"@ + ".weight"@, Init::Zero)
    &&& declares(ps, block + ".emb_proj"@ + ".bias"@, Init::Zero)
}

/// What a part declares, the whole declares.
proof fn lemma_declares_concat(
    a: Seq<ParamView>,
    b: Seq<ParamView>,
    c: Seq<ParamView>,
    block: Seq<char>,
)
    requires
        shift_starts_at_zero(b, block),
    ensures
        shift_starts_at_zero(a + b + c, block),
{
    let all = a + b + c;
    let w = block + ".emb_proj"@ + ".weight"@;
    let v = block + ".emb_proj"@ + ".bias"@;
    let i = choose|i: int| 0 <= i < b.len() && (#[trigger] b[i]).name == w && b[i].init
        == Init::Zero;
    let j = choose|j: int| 0 <= j < b.len() && (#[trigger] b[j]).name == v && b[j].init
        == Init::Zero;
    assert(all[a.len() + i] == b[i]);
    assert(all[a.len() + j] == b[j]);
}

/// A block declares its projection.
proof fn lemma_block_shift(block: Seq<char>, emb_dim: nat, in_c: nat, out_c: nat)
    ensures
        shift_starts_at_zero(resblock_params(block, emb_dim, in_c, out_c), block),
{
    let ps = resblock_params(block, emb_dim, in_c, out_c);
    assert(ps[3].name == block + ".emb_proj"@ + ".weight"@ && ps[3].init == Init::Zero);
    assert(ps[4].name == block + ".emb_proj"@ + ".bias"@ && ps[4].init == Init::Zero);
}

/// The encoder declares the projections of its levels.
proof fn lemma_encoder_shift(cfg: UNetConfig, l: nat, k: nat)
    requires
        k < l,
    ensures
        shift_starts_at_zero(cfg.encoder_params(l), level_name("encoder."@, k)),
    decreases l,
{
    reveal(UNetConfig::encoder_params);
    let i = (l - 1) as nat;
    let name = level_name("encoder."@, i);
    let before = cfg.encoder_params(i);
    let block = resblock_params(name, cfg.emb_dim as nat, cfg.enc_in(i), cfg.channels(i));
    let down = if l < cfg.num_levels {
        seq![
            ParamView {
                name: downsample_name(i),
                shape: seq![volume(cfg.channels(i), cfg.channels(i), 3, 3)],
                init: fan_init(cfg.channels(i) * 3 * 3),
            },
        ]
    } else {
        seq![]
    };
    assert(cfg.encoder_params(l) == before + block + down);
    if k == i {
        lemma_block_shift(name, cfg.emb_dim as nat, cfg.enc_in(i), cfg.channels(i));
        lemma_declares_concat(before, block, down, name);
    } else {
        lemma_encoder_shift(cfg, i, k);
        let none = Seq::<ParamView>::empty();
        lemma_declares_concat(none, before, block + down, level_name("encoder."@, k));
        assert(none + before + (block + down) =~= before + block + down);
    }
}

/// The decoder declares the projections of its levels.
proof fn lemma_decoder_shift(cfg: UNetConfig, l: nat, k: nat)
    requires
        l <= k < cfg.num_levels,
    ensures
        shift_starts_at_zero(cfg.decoder_params(l), level_name("decoder."@, k)),
    decreases cfg.num_levels - l,
{
    reveal(UNetConfig::decoder_params);
    let name = level_name("decoder."@, l);
    let before = cfg.decoder_params(l + 1);
    let in_c = cfg.below(l) + cfg.channels(l);
    let block = resblock_params(name, cfg.emb_dim as nat, in_c, cfg.channels(l));
    let none = Seq::<ParamView>::empty();
    assert(cfg.decoder_params(l) == before + block);
    if k == l {
        lemma_block_shift(name, cfg.emb_dim as nat, in_c, cfg.channels(l));
        lemma_declares_concat(before, block, none, name);
        assert(before + block + none =~= before + block);
    } else {
        lemma_decoder_shift(cfg, l + 1, k);
        lemma_declares_concat(none, before, block, level_name("decoder."@, k));
        assert(none + before + block =~= before + block);
    }
}

/// The projection that shifts a block by the conditioning starts at zero, in
/// every block: training starts as the unconditional model.
pub proof fn law_shifts_start_at_zero(cfg: UNetConfig, block: Seq<char>)
    requires
        is_block(cfg, block),
    ensures
        shift_starts_at_zero(cfg.params(), block),
{
    let bottom = cfg.channels(cfg.bottom());
    let head = cfg.embedding_params() + seq![
        ParamView {
            name: "conv_in.weight"@,
            shape: seq![volume(cfg.base_channels as nat, cfg.input_channels(), 3, 3)],
            init: fan_init(cfg.input_channels() * 3 * 3),
        },
    ];
    let enc = cfg.encoder_params(cfg.num_levels as nat);
    let mid = resblock_params("middle.resblock"@, cfg.emb_dim as nat, bottom, bottom);
    let dec = cfg.decoder_params(0);
    let out = norm_conv_params(
        "conv_out.norm"@,
        "conv_out.weight"@,
        cfg.base_channels as nat,
        cfg.data_channels as nat,
        Init::Zero,
    );
    let all = cfg.params();
    assert(all == head + enc + mid + dec + out);
    if block == "middle.resblock"@ {
        lemma_block_shift(block, cfg.emb_dim as nat, bottom, bottom);
        lemma_declares_concat(head + enc, mid, dec + out, block);
        assert(head + enc + mid + (dec + out) =~= all);
    } else if exists|l: nat| l < cfg.num_levels && block == #[trigger] level_name("encoder."@, l) {
        let l = choose|l: nat| l < cfg.num_levels && block == #[trigger] level_name("encoder."@, l);
        lemma_encoder_shift(cfg, cfg.num_levels as nat, l);
        lemma_declares_concat(head, enc, mid + dec + out, block);
        assert(head + enc + (mid + dec + out) =~= all);
    } else {
        let l = choose|l: nat| l < cfg.num_levels && block == #[trigger] level_name("decoder."@, l);
        lemma_decoder_shift(cfg, 0, l);
        lemma_declares_concat(head + enc + mid, dec, out, block);
        assert(head + enc + mid + dec + out =~= all);
    }
}

} // verus!
