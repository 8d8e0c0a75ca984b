use audio_dsp::convolver::{ConvolutionMode, ConvolverError, FastConvolver};
use rand::Rng;

fn expected_ramp() -> Vec<i64> {
    vec![1, 2, 3, 4, 4, 4, 4, 4, 4, 4, 4, 4, 4, 4, 4, 4, 3, 2, 1]
}

/// Feeds `input` in blocks of the given sizes, then flushes.
fn run_blocks(convolver: &mut FastConvolver, input: &[i16], sizes: &[usize], ir_len: usize) -> Vec<i64> {
    let mut output = vec![0i64; input.len() + ir_len - 1];
    let mut start = 0;
    for &size in sizes {
        let end = start + size;
        convolver.process(&input[start..end], &mut output[start..end]).unwrap();
        start = end;
    }
    assert_eq!(start, input.len());
    convolver.flush(&mut output[input.len()..]).unwrap();
    output
}

/// Direct full convolution, for comparison.
fn reference(h: &[i16], x: &[i16]) -> Vec<i64> {
    let mut out = vec![0i64; x.len() + h.len() - 1];
    for (i, &xv) in x.iter().enumerate() {
        for (j, &hv) in h.iter().enumerate() {
            out[i + j] += xv as i64 * hv as i64;
        }
    }
    out
}

fn random_samples(n: usize) -> Vec<i16> {
    let mut rng = rand::thread_rng();
    (0..n).map(|_| rng.gen_range(i16::MIN..=i16::MAX)).collect()
}

#[test]
fn test_time_domain_convolver() {
    let input_len = 16;
    let ir_len = 4;

    let input = vec![1i16; input_len];
    let impulse_response = vec![1i16; ir_len];

    let mut output = vec![0i64; input_len + ir_len - 1];
    let mut convolver = FastConvolver::new(&impulse_response, ConvolutionMode::TimeDomain).unwrap();

    convolver.process(&input, &mut output[0..input_len]).unwrap();
    convolver.flush(&mut output[input_len..]).unwrap();

    let expected_output = expected_ramp();
    for i in 0..output.len() {
        assert_eq!(output[i], expected_output[i]);
    }
}

#[test]
fn test_time_domain_block() {
    let input_len = 16;
    let ir_len = 4;

    let input = vec![1i16; input_len];
    let impulse_response = vec![1i16; ir_len];

    let mut output = vec![0i64; input_len + ir_len - 1];
    let mut convolver = FastConvolver::new(&impulse_response, ConvolutionMode::TimeDomain).unwrap();

    let num_blocks = (input_len + ir_len - 1) / ir_len;
    for i in 0..num_blocks {
        let start = i * ir_len;
        let end = (i + 1) * ir_len;
        convolver.process(&input[start..end], &mut output[start..end]).unwrap();
    }
    convolver.flush(&mut output[input_len..]).unwrap();

    let expected_output = expected_ramp();
    for i in 0..output.len() {
        assert_eq!(output[i], expected_output[i]);
    }
}

#[test]
fn test_identity() {
    // A random impulse response of 51 samples.
    let impulse_response = random_samples(51);

    // An input impulse at sample index 3.
    let input: Vec<i16> = vec![0, 0, 0, 1, 0, 0, 0, 0, 0, 0];
    let mut output: Vec<i64> = vec![0; input.len() + impulse_response.len() - 1];

    let mut convolver = FastConvolver::new(&impulse_response, ConvolutionMode::TimeDomain).unwrap();
    convolver.process(&input, &mut output[..input.len()]).unwrap();
    convolver.flush(&mut output[input.len()..]).unwrap();

    // The output is the impulse response itself, shifted by 3 samples.
    for i in 0..3 {
        assert_eq!(output[i], 0);
    }
    for i in 3..output.len() - 6 {
        assert_eq!(output[i], impulse_response[i - 3] as i64);
    }
}

#[test]
fn test_block_size() {
    let input = random_samples(10000);

    // A unit impulse at sample index 3.
    let impulse_response: Vec<i16> = vec![0, 0, 0, 1];
    let mut output: Vec<i64> = vec![0; input.len() + impulse_response.len() - 1];

    let mut convolver = FastConvolver::new(&impulse_response, ConvolutionMode::TimeDomain).unwrap();
    convolver.process(&input[0..1], &mut output[0..1]).unwrap();
    convolver.process(&input[1..14], &mut output[1..14]).unwrap();
    convolver.process(&input[14..1037], &mut output[14..1037]).unwrap();
    convolver.process(&input[1037..3085], &mut output[1037..3085]).unwrap();
    convolver.process(&input[3085..3086], &mut output[3085..3086]).unwrap();
    convolver.process(&input[3086..3103], &mut output[3086..3103]).unwrap();
    convolver.process(&input[3103..8103], &mut output[3103..8103]).unwrap();
    convolver.process(&input[8103..10000], &mut output[8103..10000]).unwrap();
    convolver.flush(&mut output[10000..]).unwrap();

    // The output is the input delayed by 3 samples.
    for i in 0..3 {
        assert_eq!(output[i], 0);
    }
    for i in 3..output.len() {
        assert_eq!(output[i], input[i - 3] as i64);
    }
}

#[test]
fn test_frequency_domain_convolver_basic() {
    let input_len = 16;
    let ir_len = 4;
    let block_size = 4;

    let input = vec![1i16; input_len];
    let impulse_response = vec![1i16; ir_len];
    let mut output = vec![0i64; input_len];

    let mut convolver =
        FastConvolver::new(&impulse_response, ConvolutionMode::FrequencyDomain { block_size }).unwrap();
    convolver.process(&input, &mut output).unwrap();

    let expected_output: Vec<i64> = vec![1, 2, 3, 4, 4, 4, 4, 4, 4, 4, 4, 4, 4, 4, 4, 4];

    assert_eq!(output, expected_output, "Outputs do not match for basic frequency domain convolution.");
}

#[test]
fn test_frequency_domain_convolver_latency_compensation() {
    let input_len = 1024;
    let ir_len = 64;
    let block_size = 256;

    let mut input = vec![0i16; input_len];
    input[3] = 1; // Impulse at position 3
    let impulse_response = vec![16384i16; ir_len]; // one half, in Q15
    let mut output = vec![0i64; input_len];

    let mut convolver =
        FastConvolver::new(&impulse_response, ConvolutionMode::FrequencyDomain { block_size }).unwrap();
    convolver.process(&input, &mut output).unwrap();

    // The partitioned mode adds no latency: the first response sample lines up with the impulse.
    let expected_start = 3;
    let first_non_zero = output.iter().position(|&x| x != 0).unwrap();

    assert_eq!(first_non_zero, expected_start, "Latency compensation is incorrect.");
}

#[test]
fn frequency_domain_ramp_matches_time_domain() {
    let input = vec![1i16; 16];
    let ir = vec![1i16; 4];
    let mut convolver = FastConvolver::new(&ir, ConvolutionMode::FrequencyDomain { block_size: 4 }).unwrap();
    assert_eq!(run_blocks(&mut convolver, &input, &[16], 4), expected_ramp());
    let mut convolver = FastConvolver::new(&ir, ConvolutionMode::FrequencyDomain { block_size: 4 }).unwrap();
    assert_eq!(run_blocks(&mut convolver, &input, &[4, 4, 4, 4], 4), expected_ramp());
}

#[test]
fn uneven_blocks_match_single_block_in_both_modes() {
    let input = random_samples(300);
    let ir = random_samples(37);
    let want = reference(&ir, &input);
    let sizes: [&[usize]; 4] = [&[300], &[1; 300], &[0, 7, 1, 100, 0, 36, 156], &[150, 150]];
    for mode in [
        ConvolutionMode::TimeDomain,
        ConvolutionMode::FrequencyDomain { block_size: 8 },
        ConvolutionMode::FrequencyDomain { block_size: 5 },
        ConvolutionMode::FrequencyDomain { block_size: 64 },
    ] {
        for split in sizes {
            let mut convolver = FastConvolver::new(&ir, mode).unwrap();
            assert_eq!(run_blocks(&mut convolver, &input, split, ir.len()), want);
        }
    }
}

#[test]
fn full_scale_samples_do_not_overflow() {
    let input = vec![i16::MIN; 50];
    let ir = vec![i16::MIN; 20];
    let mut convolver = FastConvolver::new(&ir, ConvolutionMode::TimeDomain).unwrap();
    let out = run_blocks(&mut convolver, &input, &[13, 37], 20);
    assert_eq!(out[30], 20 * (1i64 << 30));
    assert_eq!(out, reference(&ir, &input));
}

#[test]
fn linearity_of_mixed_inputs() {
    let x = random_samples(64).iter().map(|v| v / 8).collect::<Vec<i16>>();
    let y = random_samples(64).iter().map(|v| v / 8).collect::<Vec<i16>>();
    let ir = random_samples(9);
    let (a, b) = (3i16, -2i16);
    let z: Vec<i16> = x.iter().zip(&y).map(|(&p, &q)| a * p + b * q).collect();
    let run = |s: &[i16]| {
        let mut c = FastConvolver::new(&ir, ConvolutionMode::TimeDomain).unwrap();
        run_blocks(&mut c, s, &[5, 40, 19], ir.len())
    };
    let (oz, ox, oy) = (run(&z), run(&x), run(&y));
    for i in 0..oz.len() {
        assert_eq!(oz[i], a as i64 * ox[i] + b as i64 * oy[i]);
    }
}

#[test]
fn flush_yields_exactly_the_tail() {
    let ir: Vec<i16> = vec![2, 3, 5];
    let mut convolver = FastConvolver::new(&ir, ConvolutionMode::TimeDomain).unwrap();
    let mut out = vec![0i64; 2];
    convolver.process(&[1, 1], &mut out).unwrap();
    assert_eq!(out, vec![2, 5]);
    let mut too_long = vec![0i64; 3];
    assert_eq!(convolver.flush(&mut too_long), Err(ConvolverError::LengthMismatch));
    assert_eq!(too_long, vec![0, 0, 0]);
    let mut tail = vec![0i64; 2];
    convolver.flush(&mut tail).unwrap();
    assert_eq!(tail, vec![8, 5]);
    // Everything owed has been emitted: the stream goes on from silence.
    convolver.flush(&mut tail).unwrap();
    assert_eq!(tail, vec![0, 0]);
}

#[test]
fn reset_restores_a_fresh_engine() {
    let ir = random_samples(12);
    let input = random_samples(40);
    let mut fresh = FastConvolver::new(&ir, ConvolutionMode::FrequencyDomain { block_size: 5 }).unwrap();
    let want = run_blocks(&mut fresh, &input, &[40], ir.len());
    let mut used = FastConvolver::new(&ir, ConvolutionMode::FrequencyDomain { block_size: 5 }).unwrap();
    let mut scratch = vec![0i64; 17];
    used.process(&random_samples(17), &mut scratch).unwrap();
    used.reset();
    assert_eq!(run_blocks(&mut used, &input, &[3, 37], ir.len()), want);
}

#[test]
fn mismatched_process_buffers_are_refused_without_change() {
    let ir: Vec<i16> = vec![1, 1];
    let mut convolver = FastConvolver::new(&ir, ConvolutionMode::TimeDomain).unwrap();
    let mut out = vec![0i64; 1];
    convolver.process(&[4], &mut out).unwrap();
    let mut wrong = vec![9i64; 3];
    assert_eq!(convolver.process(&[1, 2], &mut wrong), Err(ConvolverError::LengthMismatch));
    assert_eq!(wrong, vec![9, 9, 9]);
    let mut tail = vec![0i64; 1];
    convolver.flush(&mut tail).unwrap();
    assert_eq!(tail, vec![4]);
}

#[test]
fn bad_configurations_are_refused() {
    assert!(matches!(
        FastConvolver::new(&[], ConvolutionMode::TimeDomain),
        Err(ConvolverError::Configuration)
    ));
    assert!(matches!(
        FastConvolver::new(&[1, 2], ConvolutionMode::FrequencyDomain { block_size: 0 }),
        Err(ConvolverError::Configuration)
    ));
    assert!(FastConvolver::new(&[1], ConvolutionMode::FrequencyDomain { block_size: 1 }).is_ok());
}

#[test]
fn single_tap_has_no_tail() {
    let mut convolver = FastConvolver::new(&[-3], ConvolutionMode::TimeDomain).unwrap();
    let mut out = vec![0i64; 3];
    convolver.process(&[1, -2, 5], &mut out).unwrap();
    assert_eq!(out, vec![-3, 6, -15]);
    let mut empty: Vec<i64> = vec![];
    convolver.process(&[], &mut empty).unwrap();
    convolver.flush(&mut empty).unwrap();
}

#[test]
fn block_larger_than_response_is_zero_padded() {
    let ir: Vec<i16> = vec![1, -1, 2];
    let input: Vec<i16> = vec![3, 0, 1, 4];
    let mut convolver = FastConvolver::new(&ir, ConvolutionMode::FrequencyDomain { block_size: 16 }).unwrap();
    assert_eq!(run_blocks(&mut convolver, &input, &[2, 2], 3), vec![3, -3, 7, 3, -2, 8]);
}

#[test]
fn partitions_are_zero_padded_chunks() {
    let parts = FastConvolver::partition_and_transform_ir(&[1, 2, 3, 4, 5], 2);
    assert_eq!(parts, vec![vec![1, 2], vec![3, 4], vec![5, 0]]);
    let parts = FastConvolver::partition_and_transform_ir(&[7, 8], 4);
    assert_eq!(parts, vec![vec![7, 8, 0, 0]]);
    let parts = FastConvolver::partition_and_transform_ir(&[1, 2, 3, 4], 2);
    assert_eq!(parts, vec![vec![1, 2], vec![3, 4]]);
}
