use van_world::checkpoint::{decode, Params};
use van_world::model::{Init, StdDev};
use van_world::training::{
    checkpoint_files, condition_sample, find_init, init_param, noise_sample, zip_update, Schedule,
    StepActions, StepInputs, NULL_CLASS,
};

#[test]
fn samples_are_put_in_their_places() {
    let mut inp = StepInputs::new(2, 5, 2, 3, 0i64);
    assert_eq!(inp.x, vec![0; 10]);
    assert_eq!(inp.t_emb, vec![0; 4]);
    assert_eq!(inp.classes, vec![0, 0]);
    assert_eq!(inp.v_target, vec![0; 6]);
    let clean = [1, 2, 3];
    let noise = [10, 20, 30];
    noise_sample(
        &mut inp,
        1,
        &clean,
        &noise,
        &[7, 8],
        3,
        5,
        4,
        false,
        &|x, e| x + e,
        &|x, e| e - x,
    );
    assert_eq!(inp.x, vec![0, 0, 0, 0, 0, 11, 22, 33, 0, 0]);
    assert_eq!(inp.t_emb, vec![0, 0, 7, 8]);
    assert_eq!(inp.classes, vec![0, 4]);
    assert_eq!(inp.v_target, vec![0, 0, 0, 9, 18, 27]);
    condition_sample(&mut inp, 1, &[5, 6], &[1, 1], 3, 5, &|x, e| x + 2 * e);
    assert_eq!(inp.x, vec![0, 0, 0, 0, 0, 11, 22, 33, 7, 8]);
    noise_sample(
        &mut inp,
        0,
        &clean,
        &noise,
        &[1, 2],
        3,
        5,
        4,
        true,
        &|x, _| x,
        &|_, e| e,
    );
    assert_eq!(inp.x, vec![1, 2, 3, 0, 0, 11, 22, 33, 7, 8]);
    assert_eq!(inp.classes, vec![NULL_CLASS, 4]);
    assert_eq!(inp.v_target, vec![10, 20, 30, 9, 18, 27]);
}

#[test]
fn parameters_start_out_as_asked() {
    let scale = |d: f32, s: StdDev| match s {
        StdDev::RootTwoOver(n) => d * (2.0 / n as f32).sqrt(),
        StdDev::Hundredths(n) => d * (n as f32 / 100.0),
    };
    assert_eq!(init_param(2, Init::Zero, 0.0, 1.0, &[], &scale), vec![0.0, 0.0]);
    assert_eq!(init_param(2, Init::One, 0.0, 1.0, &[], &scale), vec![1.0, 1.0]);
    assert_eq!(
        init_param(2, Init::Normal(StdDev::RootTwoOver(8)), 0.0, 1.0, &[1.0, -3.0], &scale),
        vec![0.5, -1.5]
    );
    assert_eq!(
        init_param(1, Init::Normal(StdDev::Hundredths(2)), 0.0, 1.0, &[0.5], &scale),
        vec![0.01]
    );
}

#[test]
fn the_last_initialiser_of_a_name_counts() {
    let inits = vec![
        ("a".to_string(), Init::One),
        ("b".to_string(), Init::Zero),
        ("a".to_string(), Init::Zero),
    ];
    assert_eq!(find_init(&inits, "a"), Some(Init::Zero));
    assert_eq!(find_init(&inits, "b"), Some(Init::Zero));
    assert_eq!(find_init(&inits, "c"), None);
}

/// What is done after step `step` of a run that starts there.
fn after(step: u64, steps: u64, save_every: u64) -> StepActions {
    Schedule::new(step - 1, steps, save_every).advance()
}

#[test]
fn actions_follow_the_step() {
    let a = after(20, 100, 30);
    assert!(a.average && !a.read_loss && a.report.is_none() && a.save.is_none());
    let a = after(50, 100, 30);
    assert!(!a.average && a.read_loss && a.report.is_none() && a.save.is_none());
    let a = after(500, 1000, 250);
    assert!(a.average && a.read_loss && a.report == Some(1) && a.save == Some(500));
    let a = after(13, 13, 250);
    assert!(!a.average && !a.read_loss && a.report.is_none() && a.save == Some(13));
    assert_eq!(after(30, 100, 30).save, Some(30));
}

#[test]
fn a_run_reports_and_saves() {
    let mut s = Schedule::new(430, 1520, 700);
    let (mut averages, mut losses, mut reports, mut saves) = (0, 0, vec![], vec![]);
    while !s.finished() {
        let a = s.advance();
        averages += a.average as u32;
        losses += a.read_loss as u32;
        reports.extend(a.report.map(|n| (s.step, n)));
        saves.extend(a.save);
    }
    assert_eq!(averages, 55);
    assert_eq!(losses, 22);
    assert_eq!(reports, vec![(500, 2), (1000, 10), (1500, 10)]);
    assert_eq!(saves, vec![700, 1400, 1520]);
    // Resumed where it was saved, it goes on from there.
    let mut s = Schedule::new(1520, 2000, 700);
    let (mut steps, mut saves) = (0, vec![]);
    while !s.finished() {
        saves.extend(s.advance().save);
        steps += 1;
    }
    assert_eq!((steps, saves), (480, vec![2000]));
    assert!(Schedule::new(9, 9, 1).finished() && Schedule::new(10, 9, 1).finished());
    // A run without steps needs no saves.
    assert!(Schedule::new(9, 9, 0).finished() && Schedule::new(10, 9, 0).finished());
}

#[test]
fn updates_go_as_far_as_both() {
    let mut xs = vec![1, 2, 3];
    zip_update(&mut xs, &[10, 20], &|x, y| x + y);
    assert_eq!(xs, vec![11, 22, 3]);
    zip_update(&mut xs, &[1, 1, 1, 1], &|x, y| x - y);
    assert_eq!(xs, vec![10, 21, 2]);
}

#[test]
fn the_averages_change_every_twentieth_step() {
    let mut s = Schedule::new(0, 50, 50);
    let mut ema: Params<i64> = Params::new();
    ema.insert("p".into(), vec![1]);
    let mut changes = vec![];
    while !s.finished() {
        if s.advance().average {
            let mut now = Params::new();
            now.insert("p".to_string(), vec![s.step as i64]);
            ema.mix_with(&now, &|e, p| 10 * e + p);
            changes.push((s.step, ema.entries[0].1[0]));
        }
    }
    assert_eq!(changes, vec![(20, 30), (40, 340)]);
}

#[test]
fn a_checkpoint_is_two_files() {
    let mut params = Params::new();
    params.insert("p".to_string(), vec![1u32]);
    let mut ema = Params::new();
    ema.insert("p".to_string(), vec![2u32]);
    let files = checkpoint_files(&params, &ema, 7);
    let names: Vec<&str> = files.iter().map(|f| f.0.as_str()).collect();
    assert_eq!(names, vec!["latest.bin", "ema.bin"]);
    let (back, step) = decode(&files[0].1).unwrap();
    assert_eq!((back.entries, step), (params.entries, 7));
    let (back, step) = decode(&files[1].1).unwrap();
    assert_eq!((back.entries, step), (ema.entries, 7));
}
