use biquad_iir::bench::{
    buffer_count, pass_through_bank, run_array_filter_bank, run_filter_bank, run_kernel, Kernel,
    BUFFER_LEN, FILTER_COUNT, SAMPLE_COUNT,
};
use biquad_iir::biquad::Biquad;
use biquad_iir::kernels::{
    iir_array_c_style_for_loop, iir_c_style_for_loop, iir_intoiterator_enforced_len,
    iir_intoiterator_shared, iir_intoiterator_uniq_1, iir_intoiterator_uniq_2,
    iir_intoiterator_uniq_3, iir_intoiterator_uniq_4, iir_intoiterator_uniq_5,
    iir_intoiterator_uniq_6, iir_intoiterator_uniq_7, iir_intoiterator_uniq_8,
    iir_intoiterator_uniq_9, iir_unchecked_c_style_for_loop,
};

/// The direct-form biquad difference equation.
fn step(bq: &Biquad<f64>, x: f64) -> f64 {
    (bq.b0 * x) + (bq.b1 * bq.x1) + (bq.b2 * bq.x2) - (bq.a1 * bq.y1) - (bq.a2 * bq.y2)
}

/// The same equation over integers.
fn int_step(bq: &Biquad<i64>, x: i64) -> i64 {
    (bq.b0 * x) + (bq.b1 * bq.x1) + (bq.b2 * bq.x2) - (bq.a1 * bq.y1) - (bq.a2 * bq.y2)
}

fn coeffs(b0: f64, b1: f64, b2: f64, a1: f64, a2: f64) -> Biquad<f64> {
    let mut bq = Biquad::<f64>::new();
    bq.b0 = b0;
    bq.b1 = b1;
    bq.b2 = b2;
    bq.a1 = a1;
    bq.a2 = a2;
    bq
}

const ALL_KERNELS: [Kernel; 13] = [
    Kernel::IntoIteratorShared,
    Kernel::IntoIteratorUniq1,
    Kernel::IntoIteratorUniq2,
    Kernel::IntoIteratorUniq3,
    Kernel::IntoIteratorUniq4,
    Kernel::IntoIteratorUniq5,
    Kernel::IntoIteratorUniq6,
    Kernel::IntoIteratorUniq7,
    Kernel::IntoIteratorUniq8,
    Kernel::IntoIteratorUniq9,
    Kernel::IntoIteratorEnforcedLen,
    Kernel::CStyleForLoop,
    Kernel::UncheckedCStyleForLoop,
];

fn same(a: &Biquad<f64>, b: &Biquad<f64>) -> bool {
    a.b0 == b.b0 && a.b1 == b.b1 && a.b2 == b.b2 && a.a1 == b.a1 && a.a2 == b.a2
        && a.x1 == b.x1 && a.x2 == b.x2 && a.y1 == b.y1 && a.y2 == b.y2
}

#[test]
fn new_biquad_is_all_zero() {
    let bq = Biquad::<f64>::new();
    for v in [bq.b0, bq.b1, bq.b2, bq.a1, bq.a2, bq.x1, bq.x2, bq.y1, bq.y2] {
        assert_eq!(v, 0.0);
    }
    let bi = Biquad::<i64>::new();
    assert_eq!((bi.b0, bi.y2), (0, 0));
}

#[test]
fn zero_filter_silences_buffer() {
    let mut buf = vec![1.0, -2.0, 3.5];
    let mut bq = Biquad::<f64>::new();
    iir_c_style_for_loop(&mut buf, &mut bq, &step);
    assert_eq!(buf, vec![0.0, 0.0, 0.0]);
    assert_eq!((bq.x1, bq.x2, bq.y1, bq.y2), (3.5, -2.0, 0.0, 0.0));
}

#[test]
fn identity_filter_keeps_samples() {
    let mut buf = vec![1.0, 2.0, 3.0, 4.0];
    let mut bq = coeffs(1.0, 0.0, 0.0, 0.0, 0.0);
    iir_unchecked_c_style_for_loop(&mut buf, &mut bq, &step);
    assert_eq!(buf, vec![1.0, 2.0, 3.0, 4.0]);
    assert_eq!((bq.x1, bq.x2, bq.y1, bq.y2), (4.0, 3.0, 4.0, 3.0));
}

#[test]
fn feed_forward_moving_average() {
    // y[n] = (x[n] + x[n-1]) / 2, starting from an empty memory
    let mut buf = vec![2.0, 4.0, 8.0, 0.0];
    let mut bq = coeffs(0.5, 0.5, 0.0, 0.0, 0.0);
    iir_intoiterator_shared(&mut buf, &mut bq, &step);
    assert_eq!(buf, vec![1.0, 3.0, 6.0, 4.0]);
}

#[test]
fn second_order_terms_use_older_samples() {
    // y[n] = x[n-2] + 0.5 * y[n-2]
    let mut buf = vec![1.0, 2.0, 3.0, 4.0, 5.0];
    let mut bq = coeffs(0.0, 0.0, 1.0, 0.0, -0.5);
    iir_intoiterator_uniq_1(&mut buf, &mut bq, &step);
    assert_eq!(buf, vec![0.0, 0.0, 1.0, 2.0, 3.5]);
    assert_eq!((bq.y1, bq.y2), (3.5, 2.0));
}

#[test]
fn feedback_filter_with_initial_memory() {
    // y[n] = x[n] + 0.5 * y[n-1], the filter remembering y = 2 from an earlier buffer
    let mut buf = vec![1.0, 0.0, 0.0];
    let mut bq = coeffs(1.0, 0.0, 0.0, -0.5, 0.0);
    bq.y1 = 2.0;
    bq.x1 = 7.0;
    iir_intoiterator_uniq_2(&mut buf, &mut bq, &step);
    assert_eq!(buf, vec![2.0, 1.0, 0.5]);
    assert_eq!((bq.x1, bq.x2, bq.y1, bq.y2), (0.0, 0.0, 0.5, 1.0));
}

#[test]
fn empty_buffer_leaves_filter_unchanged() {
    let mut buf: Vec<f64> = vec![];
    let mut bq = coeffs(1.0, 2.0, 3.0, 4.0, 5.0);
    bq.x1 = 6.0;
    bq.y2 = 9.0;
    let before = bq;
    iir_intoiterator_uniq_3(&mut buf, &mut bq, &step);
    assert!(buf.is_empty());
    assert!(same(&bq, &before));
}

#[test]
fn single_sample_moves_memory_by_one() {
    let mut buf = vec![3.0];
    let mut bq = coeffs(2.0, 0.0, 0.0, 0.0, 0.0);
    bq.x1 = 1.0;
    bq.y1 = 5.0;
    iir_intoiterator_uniq_4(&mut buf, &mut bq, &step);
    assert_eq!(buf, vec![6.0]);
    assert_eq!((bq.x1, bq.x2, bq.y1, bq.y2), (3.0, 1.0, 6.0, 5.0));
}

#[test]
fn coefficients_survive_a_run() {
    let mut buf = vec![0.25, -1.0, 3.0, 0.5, 2.0];
    let mut bq = coeffs(0.3, -0.2, 0.1, 0.05, -0.4);
    iir_intoiterator_uniq_5(&mut buf, &mut bq, &step);
    assert_eq!((bq.b0, bq.b1, bq.b2, bq.a1, bq.a2), (0.3, -0.2, 0.1, 0.05, -0.4));
}

#[test]
fn all_loop_forms_agree() {
    let input: Vec<f64> = (0..BUFFER_LEN).map(|i| ((i * 37) % 11) as f64 - 5.0).collect();
    let start = coeffs(0.2, 0.3, -0.1, -0.6, 0.25);
    let mut expected = input.clone();
    let mut expected_bq = start;
    iir_c_style_for_loop(&mut expected, &mut expected_bq, &step);
    let kernels: [fn(&mut [f64], &mut Biquad<f64>, &fn(&Biquad<f64>, f64) -> f64); 13] = [
        iir_intoiterator_shared,
        iir_intoiterator_uniq_1,
        iir_intoiterator_uniq_2,
        iir_intoiterator_uniq_3,
        iir_intoiterator_uniq_4,
        iir_intoiterator_uniq_5,
        iir_intoiterator_uniq_6,
        iir_intoiterator_uniq_7,
        iir_intoiterator_uniq_8,
        iir_intoiterator_uniq_9,
        iir_intoiterator_enforced_len,
        iir_c_style_for_loop,
        iir_unchecked_c_style_for_loop,
    ];
    let f: fn(&Biquad<f64>, f64) -> f64 = step;
    for kernel in kernels.iter() {
        let mut buf = input.clone();
        let mut bq = start;
        kernel(&mut buf, &mut bq, &f);
        assert_eq!(buf, expected);
        assert!(same(&bq, &expected_bq));
    }
    let mut arr = [0.0; BUFFER_LEN];
    arr.copy_from_slice(&input);
    let mut bq = start;
    iir_array_c_style_for_loop(&mut arr, &mut bq, &step);
    assert_eq!(arr.to_vec(), expected);
    assert!(same(&bq, &expected_bq));
}

#[test]
fn run_kernel_dispatches_to_every_form() {
    let input: Vec<f64> = (0..BUFFER_LEN).map(|i| (i % 7) as f64).collect();
    let start = coeffs(0.5, 0.25, 0.125, -0.25, 0.0625);
    let mut expected = input.clone();
    let mut expected_bq = start;
    iir_c_style_for_loop(&mut expected, &mut expected_bq, &step);
    for kernel in ALL_KERNELS {
        let mut buf = input.clone();
        let mut bq = start;
        run_kernel(kernel, &mut buf, &mut bq, &step);
        assert_eq!(buf, expected);
        assert!(same(&bq, &expected_bq));
    }
}

#[test]
fn block_processing_equals_one_run() {
    let input = vec![1.0, -1.0, 2.0, 0.5, -3.0, 4.0, 0.0];
    let start = coeffs(0.4, 0.2, 0.1, -0.3, 0.15);
    let mut whole = input.clone();
    let mut bq_whole = start;
    iir_intoiterator_uniq_6(&mut whole, &mut bq_whole, &step);

    let mut front = input[..3].to_vec();
    let mut back = input[3..].to_vec();
    let mut bq = start;
    iir_intoiterator_uniq_7(&mut front, &mut bq, &step);
    iir_intoiterator_uniq_8(&mut back, &mut bq, &step);
    front.extend(back);
    assert_eq!(front, whole);
    assert!(same(&bq, &bq_whole));
}

#[test]
fn integer_samples() {
    // y[n] = x[n] + x[n-1] - y[n-1]
    let mut bq = Biquad::<i64>::new();
    bq.b0 = 1;
    bq.b1 = 1;
    bq.a1 = 1;
    let mut buf = vec![1i64, 2, 3, 4];
    iir_intoiterator_uniq_9(&mut buf, &mut bq, &int_step);
    assert_eq!(buf, vec![1, 2, 3, 4]);
    let mut bq2 = Biquad::<i64>::new();
    bq2.b2 = 2;
    let mut buf2 = vec![5i64, 6, 7];
    iir_c_style_for_loop(&mut buf2, &mut bq2, &int_step);
    assert_eq!(buf2, vec![0, 0, 10]);
}

#[test]
fn buffer_count_values() {
    assert_eq!(buffer_count(BUFFER_LEN), 4096);
    assert_eq!(buffer_count(1), SAMPLE_COUNT);
    assert_eq!(buffer_count(3), 174762);
    assert_eq!(buffer_count(4096), 128);
    assert_eq!(buffer_count(524289), 0);
}

#[test]
fn bank_pass_chains_filters() {
    // two doublers and a halving-average filter, one after another
    let mut bank = [coeffs(2.0, 0.0, 0.0, 0.0, 0.0), coeffs(2.0, 0.0, 0.0, 0.0, 0.0), coeffs(0.5, 0.5, 0.0, 0.0, 0.0)];
    let mut buf = vec![1.0, 2.0, 3.0];
    pass_through_bank(Kernel::CStyleForLoop, &mut buf, &mut bank, &step);
    assert_eq!(buf, vec![2.0, 6.0, 10.0]);
    assert_eq!((bank[0].x1, bank[0].y1), (3.0, 6.0));
    assert_eq!((bank[1].x1, bank[1].y1), (6.0, 12.0));
    assert_eq!((bank[2].x1, bank[2].y1), (12.0, 10.0));
}

#[test]
fn empty_bank_leaves_buffer() {
    let mut bank: Vec<Biquad<f64>> = vec![];
    let mut buf = vec![1.0, 2.0];
    run_filter_bank(Kernel::IntoIteratorShared, &mut buf, &mut bank, 3, &step);
    assert_eq!(buf, vec![1.0, 2.0]);
}

#[test]
fn zero_rounds_change_nothing() {
    let mut bank = [coeffs(3.0, 0.0, 0.0, 0.0, 0.0)];
    let mut buf = vec![1.0, 2.0];
    run_filter_bank(Kernel::CStyleForLoop, &mut buf, &mut bank, 0, &step);
    assert_eq!(buf, vec![1.0, 2.0]);
    assert_eq!(bank[0].x1, 0.0);
}

#[test]
fn rounds_carry_filter_memory() {
    // y[n] = x[n-1]: the filter delays by one sample, across buffers too
    let mut bank = [coeffs(0.0, 1.0, 0.0, 0.0, 0.0)];
    let mut buf = vec![1.0, 2.0, 3.0];
    run_filter_bank(Kernel::UncheckedCStyleForLoop, &mut buf, &mut bank, 2, &step);
    // first round: [0, 1, 2]; second round: [3, 0, 1]
    assert_eq!(buf, vec![3.0, 0.0, 1.0]);
    assert_eq!((bank[0].x1, bank[0].x2, bank[0].y1, bank[0].y2), (2.0, 1.0, 1.0, 0.0));
}

#[test]
fn bank_runs_agree_across_forms() {
    let input: Vec<f64> = (0..BUFFER_LEN).map(|i| ((i * 13) % 5) as f64 - 2.0).collect();
    let mut bank0 = [Biquad::<f64>::new(); FILTER_COUNT];
    for (i, bq) in bank0.iter_mut().enumerate() {
        *bq = coeffs(0.5 + (i % 3) as f64 * 0.25, 0.125, -0.0625, -0.25, 0.125);
    }
    let mut expected = input.clone();
    let mut expected_bank = bank0;
    run_filter_bank(Kernel::CStyleForLoop, &mut expected, &mut expected_bank, 3, &step);
    for kernel in ALL_KERNELS {
        let mut buf = input.clone();
        let mut bank = bank0;
        run_filter_bank(kernel, &mut buf, &mut bank, 3, &step);
        assert_eq!(buf, expected);
        for i in 0..FILTER_COUNT {
            assert!(same(&bank[i], &expected_bank[i]));
        }
    }
    let mut arr = [0.0; BUFFER_LEN];
    arr.copy_from_slice(&input);
    let mut bank = bank0;
    run_array_filter_bank(&mut arr, &mut bank, 3, &step);
    assert_eq!(arr.to_vec(), expected);
    for i in 0..FILTER_COUNT {
        assert!(same(&bank[i], &expected_bank[i]));
        assert_eq!(bank[i].b0, bank0[i].b0);
    }
}
