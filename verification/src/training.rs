//! Training: what a step is shown, how parameters start out, and what is done
//! after which step.
//!
//! Random draws and the arithmetic on values are the caller's.

use crate::model::{init_list, inits_of, shapes_of, Init, Inits, ParamView, StdDev, UNetConfig};
use crate::names::{distinct, law_names_are_distinct};
use crate::checkpoint::{encode, encoded, entry_views, mixed, Params};
use crate::planes::{filled, zipped};
use vstd::prelude::*;

verus! {

/// The class of samples whose class is withheld.
pub const NULL_CLASS: u32 = 10;

/// Steps between two updates of the averaged parameters.
pub const EMA_EVERY: u64 = 20;

/// Steps between two readings of the loss.
pub const LOSS_EVERY: u64 = 50;

/// Steps between two reports.
pub const REPORT_EVERY: u64 = 500;

/// What the model is shown in a step.
pub struct StepInputs<T> {
    /// Noisy data, then conditioning, sample by sample.
    pub x: Vec<T>,
    /// An embedding of the time of each sample.
    pub t_emb: Vec<T>,
    /// The class of each sample.
    pub classes: Vec<u32>,
    /// What the model is to predict, sample by sample.
    pub v_target: Vec<T>,
}

/// `after` is `before` with the `n` entries from `at` on made by `f` out of
/// the first entries of `a` and `b`.
pub open spec fn combined<T, F: Fn(T, T) -> T>(
    before: Seq<T>,
    after: Seq<T>,
    at: int,
    n: int,
    a: Seq<T>,
    b: Seq<T>,
    f: F,
) -> bool {
    &&& after.len() == before.len()
    &&& forall|k: int|
        #![trigger after[k]]
        0 <= k < after.len() ==> if at <= k < at + n {
            call_ensures(f, (a[k - at], b[k - at]), after[k])
        } else {
            after[k] == before[k]
        }
}

/// Makes the `n` entries from `at` on out of the first entries of `a` and `b`.
fn combine<T: Copy, F: Fn(T, T) -> T>(
    out: &mut Vec<T>,
    at: usize,
    n: usize,
    a: &[T],
    b: &[T],
    f: &F,
)
    requires
        at + n <= old(out)@.len(),
        n <= a@.len(),
        n <= b@.len(),
        forall|x: T, y: T| call_requires(*f, (x, y)),
    ensures
        combined(old(out)@, final(out)@, at as int, n as int, a@, b@, *f),
{
    let ghost before = out@;
    let mut k: usize = 0;
    while k < n
        invariant
            k <= n,
            at + n <= out@.len(),
            n <= a@.len(),
            n <= b@.len(),
            forall|x: T, y: T| call_requires(*f, (x, y)),
            combined(before, out@, at as int, k as int, a@, b@, *f),
        decreases n - k,
    {
        assert(out.len() == out@.len());
        let value = f(a[k], b[k]);
        out.set(at + k, value);
        k = k + 1;
    }
}

/// `after` is `before` with the entries from `at` on replaced by `part`.
pub open spec fn replaced<T>(before: Seq<T>, after: Seq<T>, at: int, part: Seq<T>) -> bool {
    &&& after.len() == before.len()
    &&& forall|k: int|
        #![trigger after[k]]
        0 <= k < after.len() ==> after[k] == (if at <= k < at + part.len() {
            part[k - at]
        } else {
            before[k]
        })
}

/// Replaces the entries from `at` on.
fn replace<T: Copy>(out: &mut Vec<T>, at: usize, part: &[T])
    requires
        at + part@.len() <= old(out)@.len(),
    ensures
        replaced(old(out)@, final(out)@, at as int, part@),
{
    let ghost before = out@;
    let mut k: usize = 0;
    while k < part.len()
        invariant
            k <= part@.len(),
            at + part@.len() <= out@.len(),
            out@.len() == before.len(),
            forall|j: int|
                #![trigger out@[j]]
                0 <= j < out@.len() ==> out@[j] == (if at <= j < at + k {
                    part@[j - at]
                } else {
                    before[j]
                }),
        decreases part@.len() - k,
    {
        assert(out.len() == out@.len());
        out.set(at + k, part[k]);
        k = k + 1;
    }
}

impl<T: Copy> StepInputs<T> {
    /// Room for a batch.
    pub fn new(batch: usize, in_size: usize, t_dim: usize, data_size: usize, zero: T) -> (inp:
        StepInputs<T>)
        requires
            batch * in_size <= usize::MAX,
            batch * t_dim <= usize::MAX,
            batch * data_size <= usize::MAX,
        ensures
            inp.x@ == Seq::new((batch * in_size) as nat, |k: int| zero),
            inp.t_emb@ == Seq::new((batch * t_dim) as nat, |k: int| zero),
            inp.classes@ == Seq::new(batch as nat, |k: int| 0u32),
            inp.v_target@ == Seq::new((batch * data_size) as nat, |k: int| zero),
    {
        let x = filled(batch * in_size, zero);
        let t_emb = filled(batch * t_dim, zero);
        let classes = filled(batch, 0u32);
        let v_target = filled(batch * data_size, zero);
        assert(x@ =~= Seq::new((batch * in_size) as nat, |k: int| zero));
        assert(t_emb@ =~= Seq::new((batch * t_dim) as nat, |k: int| zero));
        assert(classes@ =~= Seq::new(batch as nat, |k: int| 0u32));
        assert(v_target@ =~= Seq::new((batch * data_size) as nat, |k: int| zero));
        StepInputs { x, t_emb, classes, v_target }
    }
}

/// Puts one sample in its place: its noisy data, its time, its class and
/// what the model is to predict. `noisy` and `target` make these out of a
/// clean value and its noise; `dropped` withholds the class.
pub fn noise_sample<T: Copy, N: Fn(T, T) -> T, V: Fn(T, T) -> T>(
    inp: &mut StepInputs<T>,
    sample_index: usize,
    clean: &[T],
    noise: &[T],
    time: &[T],
    data_size: usize,
    sample_stride: usize,
    label: u32,
    dropped: bool,
    noisy: &N,
    target: &V,
)
    requires
        sample_index < old(inp).classes@.len(),
        sample_index * sample_stride + data_size <= old(inp).x@.len(),
        sample_index * data_size + data_size <= old(inp).v_target@.len(),
        sample_index * time@.len() + time@.len() <= old(inp).t_emb@.len(),
        data_size <= clean@.len(),
        data_size <= noise@.len(),
        forall|x: T, y: T| call_requires(*noisy, (x, y)),
        forall|x: T, y: T| call_requires(*target, (x, y)),
    ensures
        combined(
            old(inp).x@,
            final(inp).x@,
            sample_index * sample_stride,
            data_size as int,
            clean@,
            noise@,
            *noisy,
        ),
        combined(
            old(inp).v_target@,
            final(inp).v_target@,
            sample_index * data_size,
            data_size as int,
            clean@,
            noise@,
            *target,
        ),
        replaced(
            old(inp).t_emb@,
            final(inp).t_emb@,
            sample_index * time@.len(),
            time@,
        ),
        final(inp).classes@ == old(inp).classes@.update(
            sample_index as int,
            if dropped {
                NULL_CLASS
            } else {
                label
            },
        ),
{
    assert(inp.x.len() == inp.x@.len());
    assert(inp.v_target.len() == inp.v_target@.len());
    assert(inp.t_emb.len() == inp.t_emb@.len());
    assert(0 <= sample_index * sample_stride && 0 <= sample_index * data_size) by (nonlinear_arith)
        requires
            0 <= sample_index,
            0 <= sample_stride,
            0 <= data_size,
    ;
    let t_dim = time.len();
    assert(0 <= sample_index * t_dim) by (nonlinear_arith)
        requires
            0 <= sample_index,
            0 <= t_dim,
    ;
    replace(&mut inp.t_emb, sample_index * t_dim, time);
    inp.classes.set(
        sample_index,
        if dropped {
            NULL_CLASS
        } else {
            label
        },
    );
    combine(&mut inp.x, sample_index * sample_stride, data_size, clean, noise, noisy);
    combine(&mut inp.v_target, sample_index * data_size, data_size, clean, noise, target);
}

/// Puts the conditioning of one sample in its place, behind its data.
/// `augment` makes it out of a clean value and its noise.
pub fn condition_sample<T: Copy, A: Fn(T, T) -> T>(
    inp: &mut StepInputs<T>,
    sample_index: usize,
    cond: &[T],
    noise: &[T],
    data_size: usize,
    sample_stride: usize,
    augment: &A,
)
    requires
        sample_index * sample_stride + data_size + cond@.len() <= old(inp).x@.len(),
        cond@.len() <= noise@.len(),
        forall|x: T, y: T| call_requires(*augment, (x, y)),
    ensures
        combined(
            old(inp).x@,
            final(inp).x@,
            sample_index * sample_stride + data_size,
            cond@.len() as int,
            cond@,
            noise@,
            *augment,
        ),
        final(inp).t_emb == old(inp).t_emb,
        final(inp).classes == old(inp).classes,
        final(inp).v_target == old(inp).v_target,
{
    assert(inp.x.len() == inp.x@.len());
    assert(0 <= sample_index * sample_stride) by (nonlinear_arith)
        requires
            0 <= sample_index,
            0 <= sample_stride,
    ;
    let at: usize = sample_index * sample_stride + data_size;
    combine(&mut inp.x, at, cond.len(), cond, noise, augment);
}

/// Putting a sample in its place leaves the other samples as they are.
pub proof fn law_samples_apart<T, F: Fn(T, T) -> T>(
    before: Seq<T>,
    after: Seq<T>,
    stride: int,
    i: int,
    first: int,
    n: int,
    a: Seq<T>,
    b: Seq<T>,
    f: F,
    j: int,
    k: int,
)
    requires
        combined(before, after, i * stride + first, n, a, b, f),
        0 <= first,
        first + n <= stride,
        0 <= i,
        0 <= j,
        i != j,
        0 <= k < stride,
        j * stride + k < after.len(),
    ensures
        after[j * stride + k] == before[j * stride + k],
{
    let at = j * stride + k;
    assert(0 <= at && !(i * stride <= at < i * stride + stride)) by (nonlinear_arith)
        requires
            at == j * stride + k,
            0 <= k < stride,
            i != j,
            0 <= j,
    ;
}

/// The first values of a parameter of the given size. `scale` turns a standard
/// normal draw into one of the given standard deviation; the draws are used
/// for a normal initialiser only.
pub fn init_param<T: Copy, S: Fn(T, StdDev) -> T>(
    size: usize,
    init: Init,
    zero: T,
    one: T,
    draws: &[T],
    scale: &S,
) -> (data: Vec<T>)
    requires
        init is Normal ==> size <= draws@.len(),
        forall|d: T, s: StdDev| call_requires(*scale, (d, s)),
    ensures
        data@.len() == size,
        match init {
            Init::Zero => forall|i: int| 0 <= i < size ==> #[trigger] data@[i] == zero,
            Init::One => forall|i: int| 0 <= i < size ==> #[trigger] data@[i] == one,
            Init::Normal(std) => forall|i: int|
                0 <= i < size ==> call_ensures(*scale, (draws@[i], std), #[trigger] data@[i]),
        },
{
    match init {
        Init::Zero => filled(size, zero),
        Init::One => filled(size, one),
        Init::Normal(std) => {
            let mut data: Vec<T> = Vec::new();
            while data.len() < size
                invariant
                    data@.len() <= size <= draws@.len(),
                    forall|d: T, s: StdDev| call_requires(*scale, (d, s)),
                    forall|i: int|
                        0 <= i < data@.len() ==> call_ensures(
                            *scale,
                            (draws@[i], std),
                            #[trigger] data@[i],
                        ),
                decreases size - data@.len(),
            {
                let value = scale(draws[data.len()], std);
                data.push(value);
            }
            data
        },
    }
}

/// The initialiser of a name: the last one recorded for it.
pub open spec fn init_of(inits: Seq<(Seq<char>, Init)>, name: Seq<char>) -> Option<Init>
    decreases inits.len(),
{
    if inits.len() == 0 {
        None
    } else if inits.last().0 == name {
        Some(inits.last().1)
    } else {
        init_of(inits.drop_last(), name)
    }
}

/// The initialiser of a name: the last one recorded for it.
pub fn find_init(inits: &Inits, name: &str) -> (r: Option<Init>)
    ensures
        r == init_of(init_list(inits@), name@),
{
    let ghost list = init_list(inits@);
    let wanted = name.to_string();
    let mut i: usize = inits.len();
    assert(list.take(list.len() as int) =~= list);
    while i > 0
        invariant
            i <= inits@.len(),
            list == init_list(inits@),
            wanted@ == name@,
            init_of(list.take(i as int), name@) == init_of(list, name@),
        decreases i,
    {
        i = i - 1;
        assert(list.take(i + 1).drop_last() =~= list.take(i as int));
        assert(list.take(i + 1).last() == list[i as int]);
        if inits[i].0 == wanted {
            return Some(inits[i].1);
        }
    }
    None
}

/// Among distinct names, the initialiser of a name is the one recorded with it.
proof fn lemma_init_of(params: Seq<ParamView>, i: int)
    requires
        0 <= i < params.len(),
        distinct(params),
    ensures
        init_of(inits_of(params), params[i].name) == Some(params[i].init),
    decreases params.len(),
{
    let list = inits_of(params);
    let rest = params.drop_last();
    let last = params.len() - 1;
    assert(list.drop_last() =~= inits_of(rest));
    assert(list.last() == (params[last].name, params[last].init));
    if i < last {
        assert forall|j: int, k: int|
            #![trigger rest[j], rest[k]]
            0 <= j < k < rest.len() implies rest[j].name != rest[k].name by {
            assert(rest[j] == params[j] && rest[k] == params[k]);
        }
        lemma_init_of(rest, i);
        assert(rest[i] == params[i]);
    }
}

/// Every parameter of a network has an initialiser recorded for it, and it is
/// the one that the parameter was declared with.
pub proof fn law_every_parameter_has_its_init(cfg: UNetConfig, i: int)
    requires
        0 <= i < shapes_of(cfg.params()).len(),
    ensures
        init_of(inits_of(cfg.params()), shapes_of(cfg.params())[i].0) == Some(cfg.params()[i].init),
{
    law_names_are_distinct(cfg);
    lemma_init_of(cfg.params(), i);
}

/// What is done after a step.
#[derive(Copy, Clone, Debug, PartialEq, Eq)]
pub struct StepActions {
    /// Average the parameters.
    pub average: bool,
    /// Read the loss.
    pub read_loss: bool,
    /// Report the mean of the losses read since the last report: their number.
    pub report: Option<u64>,
    /// Save a checkpoint: the number of steps that it is taken after.
    pub save: Option<u64>,
}

/// How far a run of training steps has come.
pub struct Schedule {
    /// The step that the run started from.
    pub start: u64,
    /// Steps that are done.
    pub step: u64,
    /// The step that the run ends at.
    pub steps: u64,
    /// Steps between two checkpoints.
    pub save_every: u64,
    /// Losses read since the last report.
    pub losses: u64,
}

/// How many losses have been read since the last report, or since the start.
pub open spec fn losses_since_report(start: int, step: int) -> int {
    let last = step - step % (REPORT_EVERY as int);
    step / (LOSS_EVERY as int) - (if start > last {
        start
    } else {
        last
    }) / (LOSS_EVERY as int)
}

/// How the number of losses since the last report changes with one step.
proof fn lemma_losses(start: int, step: int)
    requires
        0 <= start <= step,
    ensures
        0 <= losses_since_report(start, step) <= 9,
        losses_since_report(start, step + 1) == (if (step + 1) % 500 == 0 {
            0
        } else if (step + 1) % 50 == 0 {
            losses_since_report(start, step) + 1
        } else {
            losses_since_report(start, step)
        }),
        (step + 1) % 500 == 0 ==> (step + 1) % 50 == 0,
{
    let q = step / 500;
    let r = step % 500;
    assert(step == 500 * q + r && 0 <= r < 500);
    assert(step / 50 == 10 * q + r / 50);
    assert(500 * q / 50 == 10 * q);
    assert((step + 1) / 50 == 10 * q + (r + 1) / 50);
    assert((step + 1) % 50 == (r + 1) % 50);
    if r == 499 {
        assert((step + 1) % 500 == 0);
    } else {
        assert((step + 1) % 500 == r + 1);
    }
}

impl Schedule {
    /// The losses are counted right.
    pub open spec fn wf(&self) -> bool {
        &&& self.start <= self.step
        &&& self.start < self.steps ==> 0 < self.save_every
        &&& self.losses == losses_since_report(self.start as int, self.step as int)
    }

    /// A run that starts from a step. One that makes no step never asks when to
    /// save.
    pub fn new(start: u64, steps: u64, save_every: u64) -> (s: Schedule)
        requires
            start < steps ==> 0 < save_every,
        ensures
            s.wf(),
            s.start == start,
            s.step == start,
            s.steps == steps,
            s.save_every == save_every,
    {
        Schedule { start, step: start, steps, save_every, losses: 0 }
    }

    /// Whether all steps are done.
    pub fn finished(&self) -> (r: bool)
        ensures
            r == (self.step >= self.steps),
    {
        self.step >= self.steps
    }

    /// Counts a step that was made, and says what is done after it.
    pub fn advance(&mut self) -> (r: StepActions)
        requires
            old(self).wf(),
            old(self).step < old(self).steps,
        ensures
            final(self).wf(),
            counted(*old(self), *final(self), r),
    {
        proof {
            lemma_losses(self.start as int, self.step as int);
        }
        self.step = self.step + 1;
        let average = self.step % EMA_EVERY == 0;
        let read_loss = self.step % LOSS_EVERY == 0;
        if read_loss {
            self.losses = self.losses + 1;
        }
        let report = if self.step % REPORT_EVERY == 0 {
            let n = self.losses;
            self.losses = 0;
            Some(n)
        } else {
            None
        };
        let save = if self.step % self.save_every == 0 || self.step == self.steps {
            Some(self.step)
        } else {
            None
        };
        StepActions { average, read_loss, report, save }
    }
}

/// A step has been counted, and `r` is what is done after it.
pub open spec fn counted(before: Schedule, after: Schedule, r: StepActions) -> bool {
    &&& after.start == before.start
    &&& after.step == before.step + 1
    &&& after.steps == before.steps
    &&& after.save_every == before.save_every
    &&& r.average <==> after.step as int % 20 == 0
    &&& r.read_loss <==> after.step as int % 50 == 0
    &&& r.report is Some <==> after.step as int % 500 == 0
    &&& r.report matches Some(n) ==> 1 <= n <= 10 && n == losses_since_report(
        before.start as int,
        before.step as int,
    ) + 1
    &&& r.save is Some <==> after.step as int % after.save_every as int == 0 || after.step
        == after.steps
    &&& r.save matches Some(n) ==> n == after.step
}

/// The states of a run from its start on, and what is done after each step.
pub open spec fn is_training(s: Seq<Schedule>, a: Seq<StepActions>) -> bool {
    &&& s.len() == a.len() + 1
    &&& s[0].wf()
    &&& s[0].step == s[0].start
    &&& forall|i: int|
        0 <= i < a.len() ==> s[i].step < s[i].steps && #[trigger] counted(s[i], s[i + 1], a[i])
}

/// The step counters that a run counts to.
proof fn lemma_counters(s: Seq<Schedule>, a: Seq<StepActions>, i: int)
    requires
        is_training(s, a),
        0 <= i < s.len(),
    ensures
        s[i].step == s[0].start + i,
        s[i].start == s[0].start,
        s[i].steps == s[0].steps,
        s[i].save_every == s[0].save_every,
    decreases i,
{
    if i > 0 {
        lemma_counters(s, a, i - 1);
        assert(counted(s[i - 1], s[i - 1 + 1], a[i - 1]));
    }
}

/// A run that starts from `start`, be it at zero or where another run was
/// saved, makes `steps - start` steps, or none where it starts beyond its end.
/// It saves after exactly those steps that lie beyond its start and are a
/// multiple of `save_every` or the last: the last counter that it saves is
/// `steps`, and one that makes no step saves nothing.
pub proof fn law_whole_run(s: Seq<Schedule>, a: Seq<StepActions>)
    requires
        is_training(s, a),
        s.last().step >= s.last().steps,
    ensures
        a.len() == (if s[0].start < s[0].steps {
            s[0].steps - s[0].start
        } else {
            0
        }),
        forall|i: int|
            #![trigger a[i]]
            0 <= i < a.len() ==> (a[i].save matches Some(c) ==> c == s[0].start + i + 1),
        forall|c: u64|
            (exists|i: int| 0 <= i < a.len() && #[trigger] a[i].save == Some(c)) <==> s[0].start < c
                <= s[0].steps && (#[trigger] (c as int % s[0].save_every as int) == 0 || c
                == s[0].steps),
        s[0].start < s[0].steps ==> a.last().save == Some(s[0].steps),
{
    let start = s[0].start as int;
    let n = a.len() as int;
    lemma_counters(s, a, n);
    if n > 0 {
        lemma_counters(s, a, n - 1);
        assert(counted(s[n - 1], s[n - 1 + 1], a[n - 1]));
    }
    assert forall|i: int| #![trigger a[i]] 0 <= i < n implies ({
        let c = start + i + 1;
        &&& c <= s[0].steps
        &&& a[i].save is Some <==> c % s[0].save_every as int == 0 || c == s[0].steps
        &&& a[i].save matches Some(k) ==> k == c
    }) by {
        lemma_counters(s, a, i);
        lemma_counters(s, a, i + 1);
        assert(counted(s[i], s[i + 1], a[i]));
    }
    assert forall|c: u64|
        (exists|i: int| 0 <= i < a.len() && #[trigger] a[i].save == Some(c)) <==> s[0].start < c
            <= s[0].steps && (#[trigger] (c as int % s[0].save_every as int) == 0 || c
            == s[0].steps) by {
        if s[0].start < c <= s[0].steps && (c as int % s[0].save_every as int == 0 || c
            == s[0].steps) {
            let i = c - start - 1;
            assert(a[i].save is Some);
            assert(a[i].save == Some(c));
        }
    }
}

/// Averaged parameters `e` beside the parameters `p` of a run: they start out
/// as the parameters, and after a step they are mixed with the parameters where
/// that is what is done after it.
pub open spec fn is_averaging<T, F: Fn(T, T) -> T>(
    a: Seq<StepActions>,
    e: Seq<Map<Seq<char>, Seq<T>>>,
    p: Seq<Map<Seq<char>, Seq<T>>>,
    mix: F,
) -> bool {
    &&& e.len() == a.len() + 1
    &&& p.len() == a.len() + 1
    &&& e[0] == p[0]
    &&& forall|i: int|
        #![trigger a[i]]
        0 <= i < a.len() ==> if a[i].average {
            mixed(e[i], p[i + 1], e[i + 1], mix)
        } else {
            e[i + 1] == e[i]
        }
}

/// The averaged parameters change after every twentieth step only, and then
/// each is mixed with the parameter of the same name.
pub proof fn law_averages_follow<T, F: Fn(T, T) -> T>(
    s: Seq<Schedule>,
    a: Seq<StepActions>,
    e: Seq<Map<Seq<char>, Seq<T>>>,
    p: Seq<Map<Seq<char>, Seq<T>>>,
    mix: F,
    i: int,
)
    requires
        is_training(s, a),
        is_averaging(a, e, p, mix),
        0 <= i < a.len(),
    ensures
        e[0] == p[0],
        (s[0].start + i + 1) % 20 == 0 ==> mixed(e[i], p[i + 1], e[i + 1], mix),
        (s[0].start + i + 1) % 20 != 0 ==> e[i + 1] == e[i],
{
    lemma_counters(s, a, i + 1);
    assert(counted(s[i], s[i + 1], a[i]));
    assert(a[i].average <==> s[i + 1].step as int % 20 == 0);
}

/// The files of a checkpoint, each by its name: the parameters and the averaged
/// parameters, after the same step.
pub fn checkpoint_files(params: &Params<u32>, averaged: &Params<u32>, step: u64) -> (files: Vec<
    (String, Vec<u8>),
>)
    ensures
        files@.len() == 2,
        files@[0].0@ == "latest.bin"@,
        files@[0].1@ == encoded(entry_views(params.entries@), step),
        files@[1].0@ == "ema.bin"@,
        files@[1].1@ == encoded(entry_views(averaged.entries@), step),
{
    let mut files: Vec<(String, Vec<u8>)> = Vec::new();
    files.push(("latest.bin".to_string(), encode(params, step)));
    files.push(("ema.bin".to_string(), encode(averaged, step)));
    files
}

/// Updates the entries of `xs` by those of `ys`, as far as both go.
pub fn zip_update<T: Copy, F: Fn(T, T) -> T>(xs: &mut Vec<T>, ys: &[T], f: &F)
    requires
        forall|x: T, y: T| call_requires(*f, (x, y)),
    ensures
        zipped(old(xs)@, ys@, final(xs)@, *f),
{
    let ghost before = xs@;
    let mut k: usize = 0;
    while k < xs.len() && k < ys.len()
        invariant
            k <= xs@.len(),
            k <= ys@.len(),
            xs@.len() == before.len(),
            forall|x: T, y: T| call_requires(*f, (x, y)),
            forall|j: int|
                #![trigger xs@[j]]
                0 <= j < xs@.len() ==> if j < k {
                    call_ensures(*f, (before[j], ys@[j]), xs@[j])
                } else {
                    xs@[j] == before[j]
                },
        decreases xs@.len() - k,
    {
        let value = f(xs[k], ys[k]);
        xs.set(k, value);
        k = k + 1;
    }
}

/// What is put in its place: exactly the `n` entries from `at` on are made, each
/// of the entries at the same distance from the start of `a` and `b`, and every
/// other entry stays as it was.
pub proof fn law_combined_entry<T, F: Fn(T, T) -> T>(
    before: Seq<T>,
    after: Seq<T>,
    at: int,
    n: int,
    a: Seq<T>,
    b: Seq<T>,
    f: F,
    k: int,
)
    requires
        combined(before, after, at, n, a, b, f),
        0 <= at,
        0 <= n,
        at + n <= before.len(),
    ensures
        after.len() == before.len(),
        0 <= k < n ==> call_ensures(f, (a[k], b[k]), after[at + k]),
        0 <= k < at || at + n <= k < before.len() ==> after[k] == before[k],
{
    if 0 <= k < n {
        let value = after[at + k];
    }
    if 0 <= k < before.len() {
        let value = after[k];
    }
}

/// What replaces entries: from `at` on they are those of `part`, and every other
/// entry stays as it was.
pub proof fn law_replaced_entry<T>(before: Seq<T>, after: Seq<T>, at: int, part: Seq<T>)
    requires
        replaced(before, after, at, part),
        0 <= at,
        at + part.len() <= before.len(),
    ensures
        after == before.take(at) + part + before.skip(at + part.len()),
{
    let wanted = before.take(at) + part + before.skip(at + part.len());
    assert forall|k: int| 0 <= k < after.len() implies after[k] == wanted[k] by {}
    assert(after =~= wanted);
}

/// What is done after which step: averaging after every twentieth, reading the
/// loss after every fiftieth, a report after every five-hundredth, and saving
/// after every `save_every`-th and after the last.
pub proof fn law_what_is_done(before: Schedule, after: Schedule, r: StepActions)
    requires
        counted(before, after, r),
    ensures
        after.step == before.step + 1,
        after.start == before.start && after.steps == before.steps && after.save_every
            == before.save_every,
        r.average <==> (before.step + 1) % 20 == 0,
        r.read_loss <==> (before.step + 1) % 50 == 0,
        r.report is Some <==> (before.step + 1) % 500 == 0,
        r.save == (if (before.step + 1) % before.save_every as int == 0 || before.step + 1
            == before.steps {
            Some((before.step + 1) as u64)
        } else {
            None
        }),
{
}

/// A report is over the losses that were read since the last one, or since the
/// start of the run: where action `r` is the last report before action `i`, or
/// `r` is -1 and there is none, it is over the readings after `r` up to `i`.
pub proof fn law_reports_cover_readings(s: Seq<Schedule>, a: Seq<StepActions>, r: int, i: int)
    requires
        is_training(s, a),
        -1 <= r < i < a.len(),
        0 <= r ==> a[r].report is Some,
        forall|j: int| r < j < i ==> (#[trigger] a[j]).report is None,
    ensures
        a[i].report matches Some(n) ==> a[i].read_loss && n == Set::new(
            |j: int| r < j <= i && a[j].read_loss,
        ).len(),
{
    let start = s[0].start as int;
    lemma_readings(s, a, r, i);
    lemma_counters(s, a, i);
    lemma_counters(s, a, i + 1);
    assert(counted(s[i], s[i + 1], a[i]));
    lemma_losses(start, start + i);
    let before = Set::new(|j: int| r < j < i && a[j].read_loss);
    if a[i].report is Some {
        assert(Set::new(|j: int| r < j <= i && a[j].read_loss) =~= before.insert(i));
    }
}

/// The readings after the last report are as many as are counted.
proof fn lemma_readings(s: Seq<Schedule>, a: Seq<StepActions>, r: int, i: int)
    requires
        is_training(s, a),
        -1 <= r < i <= a.len(),
        0 <= r ==> a[r].report is Some,
        forall|j: int| r < j < i ==> (#[trigger] a[j]).report is None,
    ensures
        Set::new(|j: int| r < j < i && a[j].read_loss).finite(),
        Set::new(|j: int| r < j < i && a[j].read_loss).len() == losses_since_report(
            s[0].start as int,
            s[0].start + i,
        ),
    decreases i - r,
{
    let start = s[0].start as int;
    let all = Set::new(|j: int| r < j < i && a[j].read_loss);
    if i == r + 1 {
        assert(all =~= Set::<int>::empty());
        if r >= 0 {
            lemma_counters(s, a, r);
            assert(counted(s[r], s[r + 1], a[r]));
            lemma_losses(start, start + r);
        }
    } else {
        let k = i - 1;
        lemma_readings(s, a, r, k);
        lemma_counters(s, a, k);
        assert(counted(s[k], s[k + 1], a[k]));
        assert(a[k].report is None);
        lemma_losses(start, start + k);
        let before = Set::new(|j: int| r < j < k && a[j].read_loss);
        if a[k].read_loss {
            assert(all =~= before.insert(k));
        } else {
            assert(all =~= before);
        }
    }
}

/// The initialiser that is found for a name is the last one recorded for it, and
/// none is found where none is recorded.
pub proof fn law_last_init_counts(inits: Seq<(Seq<char>, Init)>, name: Seq<char>, i: int)
    requires
        -1 <= i < inits.len(),
        forall|j: int| i < j < inits.len() ==> (#[trigger] inits[j]).0 != name,
    ensures
        0 <= i && inits[i].0 == name ==> init_of(inits, name) == Some(inits[i].1),
        i == -1 ==> init_of(inits, name) is None,
    decreases inits.len(),
{
    if inits.len() > 0 && i < inits.len() - 1 {
        let last = inits[inits.len() - 1];
        assert(last.0 != name);
        let rest = inits.drop_last();
        assert forall|j: int| i < j < rest.len() implies (#[trigger] rest[j]).0 != name by {
            assert(rest[j] == inits[j]);
        }
        law_last_init_counts(rest, name, i);
        if 0 <= i {
            assert(rest[i] == inits[i]);
        }
    }
}

} // verus!
