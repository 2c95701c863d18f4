use lambdaworks_stark::bit_reverse::bitrev_permutation;
use lambdaworks_stark::bit_reverse::in_place_bit_reverse_permute;
use lambdaworks_stark::bit_reverse::log2_exact;
use lambdaworks_stark::bit_reverse::reverse_index;
use lambdaworks_stark::errors::FFTError;
use lambdaworks_stark::evaluation::evaluate;
use lambdaworks_stark::evaluation::evaluate_fft;
use lambdaworks_stark::evaluation::evaluate_slice;
use lambdaworks_stark::evaluation::interpolate_fft;
use lambdaworks_stark::evaluation::scale_coefficients;
use lambdaworks_stark::fft::fft;
use lambdaworks_stark::fft::in_place_nr_2radix_fft;
use lambdaworks_stark::fft::in_place_rn_2radix_ifft;
use lambdaworks_stark::fft::inverse_fft;
use lambdaworks_stark::field::U32TestField;
use lambdaworks_stark::roots_of_unity::gen_twiddles;
use lambdaworks_stark::roots_of_unity::get_primitive_root_of_unity;
use lambdaworks_stark::roots_of_unity::RootsConfig;
use lambdaworks_stark::roots_of_unity::TWO_ADICITY;
use lambdaworks_stark::roots_of_unity::TWO_ADIC_PRIMITVE_ROOT_OF_UNITY;

const P: u32 = 2013265921;

fn sample(len: usize, seed: u32) -> Vec<u32> {
    let mut x = seed;
    let mut out = Vec::new();
    for _ in 0..len {
        x = ((x as u64 * 1103515245 + 12345) % P as u64) as u32;
        out.push(x);
    }
    out
}

#[test]
fn test_cuda_fft_single() {
    let input = vec![1u32, 1u32];
    let order = input.len().trailing_zeros();
    let twiddles = gen_twiddles(order.into(), RootsConfig::BitReverse).unwrap();

    let mut cuda_fft = input.clone();
    in_place_nr_2radix_fft(&mut cuda_fft, &twiddles);
    in_place_bit_reverse_permute(&mut cuda_fft);
    let fft = fft(&input, &twiddles).unwrap();

    assert_eq!(cuda_fft, fft);
}

#[test]
fn in_place_permutation_leaves_other_lengths_alone() {
    let mut v = vec![1u32, 2, 3];
    in_place_bit_reverse_permute(&mut v);
    assert_eq!(v, vec![1, 2, 3]);
    let mut v: Vec<u32> = (0..8).collect();
    in_place_bit_reverse_permute(&mut v);
    assert_eq!(v, vec![0, 4, 2, 6, 1, 5, 3, 7]);
}

#[test]
fn back_end_output_permuted_is_the_ordered_transform() {
    for k in 0..7u32 {
        let input = sample(1 << k, 7 + k);
        let twiddles = gen_twiddles(k as u64, RootsConfig::BitReverse).unwrap();
        let mut back_end = input.clone();
        in_place_nr_2radix_fft(&mut back_end, &twiddles);
        let permuted = bitrev_permutation(&back_end).unwrap();
        assert_eq!(permuted, fft(&input, &twiddles).unwrap());
    }
}

#[test]
fn the_designated_root_has_order_two_to_the_27() {
    assert_eq!(TWO_ADICITY, 27);
    assert_eq!(U32TestField::pow(&TWO_ADIC_PRIMITVE_ROOT_OF_UNITY, 1 << 26), P - 1);
    assert_eq!(U32TestField::pow(&TWO_ADIC_PRIMITVE_ROOT_OF_UNITY, 1 << 27), 1);
}

#[test]
fn roots_of_unity_of_small_orders() {
    assert_eq!(get_primitive_root_of_unity(0), Ok(1));
    assert_eq!(get_primitive_root_of_unity(1), Ok(2013265920));
    assert_eq!(get_primitive_root_of_unity(2), Ok(1728404513));
    assert_eq!(get_primitive_root_of_unity(3), Ok(1592366214));
    assert_eq!(get_primitive_root_of_unity(27), Ok(440564289));
}

#[test]
fn root_of_unity_beyond_the_two_adicity_is_refused() {
    assert_eq!(get_primitive_root_of_unity(28), Err(FFTError::RootOfUnityError(28)));
    assert_eq!(get_primitive_root_of_unity(u64::MAX), Err(FFTError::RootOfUnityError(u64::MAX)));
}

#[test]
fn each_root_of_unity_has_its_exact_order() {
    for k in 1..=27u64 {
        let w = get_primitive_root_of_unity(k).unwrap();
        assert_eq!(U32TestField::pow(&w, 1 << k), 1);
        assert_eq!(U32TestField::pow(&w, 1 << (k - 1)), P - 1);
    }
}

#[test]
fn twiddles_in_the_four_orderings() {
    assert_eq!(
        gen_twiddles(3, RootsConfig::Natural).unwrap(),
        vec![1, 1592366214, 1728404513, 211723194]
    );
    assert_eq!(
        gen_twiddles(3, RootsConfig::NaturalInversed).unwrap(),
        vec![1, 1801542727, 284861408, 420899707]
    );
    assert_eq!(
        gen_twiddles(3, RootsConfig::BitReverse).unwrap(),
        vec![1, 1728404513, 1592366214, 211723194]
    );
    assert_eq!(
        gen_twiddles(3, RootsConfig::BitReverseInversed).unwrap(),
        vec![1, 284861408, 1801542727, 420899707]
    );
}

#[test]
fn twiddles_count_is_half_the_transform_size() {
    assert_eq!(gen_twiddles(0, RootsConfig::BitReverse).unwrap(), Vec::<u32>::new());
    assert_eq!(gen_twiddles(1, RootsConfig::BitReverse).unwrap(), vec![1]);
    assert_eq!(gen_twiddles(10, RootsConfig::Natural).unwrap().len(), 512);
}

#[test]
fn twiddles_beyond_the_two_adicity_are_refused() {
    assert_eq!(gen_twiddles(28, RootsConfig::Natural), Err(FFTError::RootOfUnityError(28)));
}

#[test]
fn inverse_twiddles_are_the_inverses() {
    let t = gen_twiddles(6, RootsConfig::BitReverse).unwrap();
    let ti = gen_twiddles(6, RootsConfig::BitReverseInversed).unwrap();
    for i in 0..t.len() {
        assert_eq!(U32TestField::mul(&t[i], &ti[i]), 1);
    }
}

#[test]
fn reverse_index_reverses_the_digits() {
    assert_eq!(reverse_index(0, 3), 0);
    assert_eq!(reverse_index(1, 3), 4);
    assert_eq!(reverse_index(3, 3), 6);
    assert_eq!(reverse_index(6, 3), 3);
    assert_eq!(reverse_index(1, 1), 1);
    assert_eq!(reverse_index(0, 0), 0);
    for i in 0..64usize {
        assert_eq!(reverse_index(reverse_index(i, 6), 6), i);
    }
}

#[test]
fn log2_exact_of_powers_of_two_only() {
    assert_eq!(log2_exact(0), None);
    assert_eq!(log2_exact(1), Some(0));
    assert_eq!(log2_exact(2), Some(1));
    assert_eq!(log2_exact(3), None);
    assert_eq!(log2_exact(1024), Some(10));
    assert_eq!(log2_exact(1023), None);
    assert_eq!(log2_exact(usize::MAX), None);
}

#[test]
fn bitrev_permutation_of_eight() {
    let v: Vec<u32> = (0..8).collect();
    assert_eq!(bitrev_permutation(&v).unwrap(), vec![0, 4, 2, 6, 1, 5, 3, 7]);
}

#[test]
fn bitrev_permutation_undoes_itself() {
    let v = sample(64, 3);
    let once = bitrev_permutation(&v).unwrap();
    assert_ne!(once, v);
    assert_eq!(bitrev_permutation(&once).unwrap(), v);
}

#[test]
fn bitrev_permutation_refuses_other_lengths() {
    assert_eq!(bitrev_permutation::<u32>(&[]), Err(FFTError::InputError(0)));
    assert_eq!(bitrev_permutation(&[1u32, 2, 3]), Err(FFTError::InputError(3)));
}

#[test]
fn fft_gives_the_values_at_the_powers_of_the_root() {
    let twiddles = gen_twiddles(2, RootsConfig::BitReverse).unwrap();
    assert_eq!(
        fft(&[1, 2, 3, 4], &twiddles).unwrap(),
        vec![10, 569722814, 2013265919, 1443543103]
    );
    let twiddles = gen_twiddles(3, RootsConfig::BitReverse).unwrap();
    assert_eq!(
        fft(&[5, 1, 2, 3, 0, 0, 7, 9], &twiddles).unwrap(),
        vec![27, 1746334095, 1120209563, 1312814401, 1, 1102279995, 893056350, 1878369292]
    );
}

#[test]
fn fft_of_one_element_is_its_residue() {
    assert_eq!(fft(&[P + 3], &[]).unwrap(), vec![3]);
}

#[test]
fn fft_refuses_a_length_that_is_no_power_of_two() {
    let twiddles = gen_twiddles(3, RootsConfig::BitReverse).unwrap();
    assert_eq!(fft(&[1, 2, 3], &twiddles), Err(FFTError::InputError(3)));
    assert_eq!(fft(&[], &twiddles), Err(FFTError::InputError(0)));
    assert_eq!(inverse_fft(&[1, 2, 3, 4, 5], &twiddles), Err(FFTError::InputError(5)));
}

#[test]
fn fft_agrees_with_evaluation_point_by_point() {
    for k in 0..8u64 {
        let coeffs = sample(1 << k, 11 + k as u32);
        let w = get_primitive_root_of_unity(k).unwrap();
        let out = evaluate_fft(&coeffs).unwrap();
        for j in 0..coeffs.len() {
            let x = U32TestField::pow(&w, j as u64);
            assert_eq!(out[j], evaluate(&coeffs, x));
        }
    }
}

#[test]
fn inverse_fft_of_fft_is_the_identity() {
    for k in 0..10u64 {
        let v = sample(1 << k, 17 + k as u32);
        let t = gen_twiddles(k, RootsConfig::BitReverse).unwrap();
        let ti = gen_twiddles(k, RootsConfig::BitReverseInversed).unwrap();
        let forward = fft(&v, &t).unwrap();
        assert_eq!(inverse_fft(&forward, &ti).unwrap(), v);
    }
}

#[test]
fn fft_of_inverse_fft_is_the_identity() {
    for k in 0..10u64 {
        let v = sample(1 << k, 23 + k as u32);
        let t = gen_twiddles(k, RootsConfig::BitReverse).unwrap();
        let ti = gen_twiddles(k, RootsConfig::BitReverseInversed).unwrap();
        let backward = inverse_fft(&v, &ti).unwrap();
        assert_eq!(fft(&backward, &t).unwrap(), v);
    }
}

#[test]
fn in_place_networks_undo_each_other() {
    let v = sample(32, 5);
    let t = gen_twiddles(5, RootsConfig::BitReverse).unwrap();
    let ti = gen_twiddles(5, RootsConfig::BitReverseInversed).unwrap();
    let mut work = v.clone();
    in_place_nr_2radix_fft(&mut work, &t);
    assert_ne!(work, v);
    in_place_rn_2radix_ifft(&mut work, &ti);
    assert_eq!(work, v);
}

#[test]
fn interpolate_fft_then_evaluate_gives_the_values_back() {
    let values = sample(16, 29);
    let coeffs = interpolate_fft(&values).unwrap();
    assert_eq!(evaluate_fft(&coeffs).unwrap(), values);
    let w = get_primitive_root_of_unity(4).unwrap();
    for j in 0..16 {
        assert_eq!(evaluate(&coeffs, U32TestField::pow(&w, j as u64)), values[j]);
    }
}

#[test]
fn transform_errors_name_the_length_or_the_order() {
    assert_eq!(evaluate_fft(&[1, 2, 3]), Err(FFTError::InputError(3)));
    assert_eq!(interpolate_fft(&[]), Err(FFTError::InputError(0)));
}

#[test]
fn evaluate_by_horner() {
    // 3 X^3 + 2 X^2 + X + 5
    let c = [5u32, 1, 2, 3];
    assert_eq!(evaluate(&c, 0), 5);
    assert_eq!(evaluate(&c, 1), 11);
    assert_eq!(evaluate(&c, 2), 39);
    assert_eq!(evaluate(&c, 10), 3215);
    assert_eq!(evaluate(&[], 10), 0);
    assert_eq!(evaluate_slice(&c, &[0, 1, 2, 10]), vec![5, 11, 39, 3215]);
}

#[test]
fn scaled_coefficients_move_the_point() {
    let c = sample(8, 41);
    let s = 12345u32;
    let scaled = scale_coefficients(&c, s);
    for x in [0u32, 1, 2, 999, P - 1] {
        assert_eq!(evaluate(&scaled, x), evaluate(&c, U32TestField::mul(&s, &x)));
    }
    assert_eq!(scale_coefficients(&[1, 1, 1], 2), vec![1, 2, 4]);
}

#[test]
fn a_length_that_is_no_power_of_two_is_refused_without_twiddles() {
    assert_eq!(fft(&[1, 2, 3], &[]), Err(FFTError::InputError(3)));
    assert_eq!(inverse_fft(&[1, 2, 3, 4, 5, 6], &[]), Err(FFTError::InputError(6)));
    assert_eq!(fft(&[], &[]), Err(FFTError::InputError(0)));
}
