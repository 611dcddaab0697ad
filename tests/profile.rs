use streamer::profile::{Profile, ProfileBuilder};

fn column(profile: &Profile, unit: usize) -> Vec<u64> {
    (0..profile.step_count).map(|r| profile.data[r * profile.element_count + unit]).collect()
}

// One tick is 0.05 s here: a step of 0.5 s is 10 ticks, and a fill of 42
// watts is 420 energy units per step.
#[test]
fn push_fill() {
    let mut builder = ProfileBuilder::new(2, 10, vec![420, 420]);

    builder.push(0, 80, 20, &[]);
    assert_eq!(builder.profile().step_count, 8);
    assert_eq!(&builder.profile().data, &vec![420; 2 * 8]);

    builder.push(0, 130, 20, &[]);
    assert_eq!(builder.profile().step_count, 13);
    assert_eq!(&builder.profile().data, &vec![420; 2 * 13]);

    builder.push(0, 131, 20, &[]);
    assert_eq!(builder.profile().step_count, 14);
    assert_eq!(&builder.profile().data, &vec![420; 2 * 14]);

    let mut builder = ProfileBuilder::new(2, 1, vec![42, 69]);

    builder.push(0, 0, 1, &[8, 8]);
    assert_eq!(builder.profile().step_count, 2);
    assert_eq!(&builder.profile().data, &vec![50, 69, 50, 69]);

    builder.push(1, 1, 1, &[1, 1]);
    assert_eq!(builder.profile().step_count, 3);
    assert_eq!(&builder.profile().data, &vec![50, 69, 50, 70, 42, 70]);
}

#[test]
fn profile_push_synchronous() {
    let mut builder = ProfileBuilder::new(2, 1, vec![0, 0]);

    builder.push(0, 1, 1, &[1, 2]);
    assert_eq!(builder.profile().step_count, 3);
    assert_eq!(&builder.profile().data, &vec![0, 0, 1, 0, 2, 0]);

    builder.push(0, 1, 1, &[1, 2, 3]);
    assert_eq!(builder.profile().step_count, 4);
    assert_eq!(&builder.profile().data, &vec![0, 0, 2, 0, 4, 0, 3, 0]);
}

// One tick is 0.25 s here: a step of 1 s is 4 ticks. Cells hold energy, so
// the average power of a row is the cell divided by 4. The samples of a
// quarter of a second carry a quarter of their value into the grid, which
// keeps the area under the samples.
#[test]
fn profile_push_asynchronous() {
    let power = |profile: &Profile| -> Vec<f64> { profile.data.iter().map(|&e| e as f64 / 4.0).collect() };
    let mut builder = ProfileBuilder::new(2, 4, vec![0, 0]);

    builder.push(1, 6, 4, &[1, 2, 3]);
    assert_eq!(builder.profile().step_count, 5);
    assert_eq!(power(builder.profile()), vec![0.0, 0.0, 0.0, 0.5, 0.0, 1.5, 0.0, 2.5, 0.0, 1.5]);

    builder.push(0, 2, 1, &[1, 2, 3, 1, 3]);
    assert_eq!(builder.profile().step_count, 5);
    assert_eq!(power(builder.profile()), vec![0.75, 0.0, 1.75, 0.5, 0.0, 1.5, 0.0, 2.5, 0.0, 1.5]);

    builder.push(0, 5, 4, &[1, 2, 3, 0, 4]);
    assert_eq!(builder.profile().step_count, 7);
    assert_eq!(
        power(builder.profile()),
        vec![0.75, 0.0, 2.5, 0.5, 1.75, 1.5, 2.75, 2.5, 0.75, 1.5, 3.0, 0.0, 1.0, 0.0]
    );
}

// One tick is 0.25 s here: a step of 1 s is 4 ticks.
#[test]
fn profile_pull() {
    let mut builder = ProfileBuilder::new(2, 4, vec![0, 0]);
    builder.push(0, 0, 4, &vec![42; 42]);
    assert_eq!(builder.profile().time, 0);
    assert_eq!(builder.profile().step_count, 42);

    assert_eq!(builder.pull(0).data, Vec::<u64>::new());
    assert_eq!(builder.profile().time, 0);
    assert_eq!(builder.profile().step_count, 42);

    assert_eq!(builder.pull(3).data, Vec::<u64>::new());
    assert_eq!(builder.profile().time, 0);
    assert_eq!(builder.profile().step_count, 42);

    assert_eq!(builder.pull(4).data, vec![168, 0]);
    assert_eq!(builder.profile().time, 4);
    assert_eq!(builder.profile().step_count, 41);

    assert_eq!(builder.pull(6).data, Vec::<u64>::new());
    assert_eq!(builder.profile().time, 4);
    assert_eq!(builder.profile().step_count, 41);

    assert_eq!(builder.pull(14).data, vec![168, 0, 168, 0]);
    assert_eq!(builder.profile().time, 12);
    assert_eq!(builder.profile().step_count, 39);
}

// The grid of 1 s steps with 0.5 s ticks: 2 ticks per step.
#[test]
fn non_aligned_push() {
    let mut builder = ProfileBuilder::new(2, 2, vec![0, 0]);
    builder.push(0, 3, 2, &[1, 2, 3]);
    let profile = builder.pull(14);
    let power: Vec<f64> = column(&profile, 0).iter().take(5).map(|&e| e as f64 / 2.0).collect();
    assert_eq!(power, vec![0.0, 0.5, 1.5, 2.5, 1.5]);
}

#[test]
fn rebinning_conserves_energy() {
    let mut builder = ProfileBuilder::new(3, 7, vec![0, 0, 0]);
    let values = [5u64, 9, 2, 11, 4];
    builder.push(1, 10, 3, &values);
    let profile = builder.pull(10 + 5 * 3 + 7 * 2);
    let total: u64 = column(&profile, 1).iter().sum();
    let expected: u64 = values.iter().sum::<u64>() * 3;
    assert_eq!(total, expected);
    assert_eq!(column(&profile, 0).iter().sum::<u64>(), 0);
}

#[test]
fn leakage_baseline() {
    let mut builder = ProfileBuilder::new(2, 5, vec![3, 7]);
    let profile = builder.pull(52);
    assert_eq!(profile.step_count, 10);
    assert_eq!(column(&profile, 0).iter().sum::<u64>(), 3 * 10);
    assert_eq!(column(&profile, 1).iter().sum::<u64>(), 7 * 10);
    assert_eq!(builder.profile().time, 50);
}

#[test]
fn clone_zero_keeps_shape() {
    let mut builder = ProfileBuilder::new(2, 5, vec![3, 7]);
    let power = builder.pull(23);
    let temperature = power.clone_zero();
    assert_eq!(temperature.element_count, power.element_count);
    assert_eq!(temperature.step_count, power.step_count);
    assert_eq!(temperature.time, power.time);
    assert_eq!(temperature.time_step, power.time_step);
    assert_eq!(temperature.data, vec![0; 8]);
    assert_eq!(power.time % power.time_step, 0);
}

#[test]
fn fits_detects_overflow() {
    let builder = ProfileBuilder::new(1, 1, vec![u64::MAX - 10]);
    assert!(builder.fits(0, 0, 1, &[10]));
    assert!(!builder.fits(0, 0, 1, &[11]));
}

// One tick is 0.05 s here, as in `push_fill`; a push that ends inside the
// grid does not extend it.
#[test]
fn push_padding() {
    let mut builder = ProfileBuilder::new(2, 10, vec![420, 420]);

    builder.push(0, 80, 20, &[]);
    assert_eq!(builder.profile().step_count, 8);
    assert_eq!(&builder.profile().data, &vec![420; 2 * 8]);

    builder.push(0, 50, 20, &[]);
    assert_eq!(builder.profile().step_count, 8);
    assert_eq!(&builder.profile().data, &vec![420; 2 * 8]);

    builder.push(0, 130, 20, &[]);
    assert_eq!(builder.profile().step_count, 13);
    assert_eq!(&builder.profile().data, &vec![420; 2 * 13]);

    builder.push(0, 131, 20, &[]);
    assert_eq!(builder.profile().step_count, 14);
    assert_eq!(&builder.profile().data, &vec![420; 2 * 14]);
}
