use alloy_primitives::U256;
use tokemak::stats::{annualizers, resample, validate_series};
use tokemak::{
    prepare_dex_stats, Backing, DexStatsError, DexStatsInput, UnitsTextError, BLOCK_GRANULARITY,
    DAY_IN_SECONDS,
};

fn backing_from_u256(v: U256) -> Backing {
    Backing::from_limbs(v.into_limbs())
}

fn build_input(start_timestamp: u64, input_values: &[f64]) -> Vec<DexStatsInput> {
    input_values
        .iter()
        .enumerate()
        .map(|(i, &v)| {
            let lst_backing =
                U256::from_str_radix(&((v * 10_f64.powf(18.0)).to_string()), 10).unwrap();
            DexStatsInput {
                timestamp: start_timestamp + (i as u64 * DAY_IN_SECONDS),
                block_number: i as u64 * BLOCK_GRANULARITY,
                lst_backing: backing_from_u256(lst_backing),
            }
        })
        .collect()
}

fn daily_series(block_numbers: &[u64]) -> Vec<DexStatsInput> {
    block_numbers
        .iter()
        .enumerate()
        .map(|(i, &b)| DexStatsInput {
            timestamp: 1_000_000 + i as u64 * DAY_IN_SECONDS,
            block_number: b,
            lst_backing: Backing::from_u64(1_000_000_000_000_000_000 + i as u64),
        })
        .collect()
}

fn base_yield(input: &Vec<DexStatsInput>, skip: usize) -> f64 {
    let plan = prepare_dex_stats(input, skip).unwrap();
    let values: Vec<f64> = plan.backing_texts.iter().map(|t| t.parse::<f64>().unwrap()).collect();
    let mut total = 0.0;
    for (i, annualizer) in plan.annualizers.iter().enumerate() {
        total += (values[i + 1] / values[i] - 1.0) * (*annualizer as f64);
    }
    total / plan.annualizers.len() as f64
}

#[test]
fn it_should_work() {
    let b = U256::from_str_radix("100", 10).unwrap();
    let backing = backing_from_u256(b);
    assert_eq!(backing, Backing::from_u64(100));
    assert_eq!(backing.units_text(0).unwrap(), "100.0");
}

#[test]
fn it_should_calculate_backing_avg() {
    let inputs = build_input(1716129570, &vec![100.0, 100.01, 100.10, 100.15, 100.25]);

    let expected = 0.2279345389;

    let res = base_yield(&inputs, 1);
    let delta = (res - expected).abs();
    assert!(delta <= 0.00000001);
}

#[test]
fn daily_plan_has_texts_and_annualizers() {
    let inputs = build_input(1716129570, &vec![100.0, 100.25]);
    let plan = prepare_dex_stats(&inputs, 1).unwrap();
    assert_eq!(plan.backing_texts, vec!["100.000000000000000000".to_string(), "100.250000000000000000".to_string()]);
    assert_eq!(plan.annualizers, vec![365]);
}

#[test]
fn same_input_gives_same_yield() {
    let inputs = build_input(1716129570, &vec![100.0, 100.01, 100.10, 100.15, 100.25]);
    assert_eq!(base_yield(&inputs, 1).to_bits(), base_yield(&inputs, 1).to_bits());
    assert_eq!(base_yield(&inputs, 2).to_bits(), base_yield(&inputs, 2).to_bits());
}

#[test]
fn backing_text_has_all_decimal_places() {
    let b = Backing::from_u64(1_500_000_000_000_000_000);
    assert_eq!(b.units_text(18).unwrap(), "1.500000000000000000");
    let small = Backing::from_u64(42);
    assert_eq!(small.units_text(18).unwrap(), "0.000000000000000042");
    assert_eq!(Backing::from_u64(0).units_text(3).unwrap(), "0.000");
}

#[test]
fn backing_text_of_wide_value() {
    // 2^64 * 10^18 / 10^18 = 2^64
    let v = U256::from(u64::MAX) + U256::from(1u8);
    let b = backing_from_u256(v * U256::from(1_000_000_000_000_000_000u64));
    assert_eq!(b.units_text(18).unwrap(), "18446744073709551616.000000000000000000");
}

#[test]
fn backing_text_refuses_too_many_units() {
    assert_eq!(Backing::from_u64(1).units_text(78), Err(UnitsTextError::InvalidUnits));
    assert!(Backing::from_u64(1).units_text(77).is_ok());
}

#[test]
fn unsorted_pair_of_equal_blocks_fails() {
    let s = daily_series(&[100, 100]);
    assert_eq!(prepare_dex_stats(&s, 1).err(), Some(DexStatsError::NotSorted));
}

#[test]
fn unsorted_at_start_middle_and_end_fails() {
    let g = BLOCK_GRANULARITY;
    let start = daily_series(&[5 * g, 5 * g, 6 * g, 7 * g]);
    let middle = daily_series(&[g, 2 * g, 2 * g - 1, 3 * g]);
    let end = daily_series(&[g, 2 * g, 3 * g, 0]);
    for s in [start, middle, end] {
        assert_eq!(validate_series(&s), Err(DexStatsError::NotSorted));
        assert_eq!(prepare_dex_stats(&s, 1).err(), Some(DexStatsError::NotSorted));
    }
}

#[test]
fn off_by_one_spacing_fails() {
    let g = BLOCK_GRANULARITY;
    let longer = daily_series(&[0, g + 1, 2 * g + 1]);
    let shorter = daily_series(&[0, g, 2 * g - 1]);
    for s in [longer, shorter] {
        assert_eq!(validate_series(&s), Err(DexStatsError::WrongGranularity));
        assert_eq!(prepare_dex_stats(&s, 2).err(), Some(DexStatsError::WrongGranularity));
    }
}

#[test]
fn first_faulty_pair_decides_error() {
    let g = BLOCK_GRANULARITY;
    let s = daily_series(&[0, g + 1, g]);
    assert_eq!(validate_series(&s), Err(DexStatsError::WrongGranularity));
}

#[test]
fn valid_series_passes_check() {
    let g = BLOCK_GRANULARITY;
    assert_eq!(validate_series(&daily_series(&[3 * g, 4 * g, 5 * g])), Ok(()));
    assert_eq!(validate_series(&daily_series(&[7])), Ok(()));
}

#[test]
fn empty_and_single_series_are_insufficient() {
    let empty: Vec<DexStatsInput> = Vec::new();
    let e = prepare_dex_stats(&empty, 1).err().unwrap();
    assert_eq!(e, DexStatsError::InputTooShort);
    assert!(e.is_insufficient_data());
    let single = daily_series(&[0]);
    let e = prepare_dex_stats(&single, 1).err().unwrap();
    assert_eq!(e, DexStatsError::ResampledInsufficient);
    assert!(e.is_insufficient_data());
    assert!(!DexStatsError::NotSorted.is_insufficient_data());
}

#[test]
fn stride_beyond_series_is_insufficient() {
    let g = BLOCK_GRANULARITY;
    let s = daily_series(&[0, g, 2 * g]);
    assert_eq!(prepare_dex_stats(&s, 3).err(), Some(DexStatsError::ResampledInsufficient));
    assert!(prepare_dex_stats(&s, 2).is_ok());
}

#[test]
fn stride_one_keeps_series() {
    let g = BLOCK_GRANULARITY;
    let s = daily_series(&[0, g, 2 * g, 3 * g]);
    assert_eq!(resample(&s, 1), s);
}

#[test]
fn stride_keeps_newest_and_every_kth() {
    let g = BLOCK_GRANULARITY;
    let s = daily_series(&[0, g, 2 * g, 3 * g, 4 * g]);
    assert_eq!(resample(&s, 2), vec![s[0], s[2], s[4]]);
    assert_eq!(resample(&s, 3), vec![s[1], s[4]]);
    assert_eq!(resample(&s, 5), vec![s[4]]);
    assert_eq!(resample(&s, 9), vec![s[4]]);
    assert_eq!(resample(&Vec::new(), 2), Vec::<DexStatsInput>::new());
}

#[test]
fn annualizer_uses_whole_intervals() {
    let mut s = daily_series(&[0, 1, 2]);
    s[1].timestamp = s[0].timestamp + 2 * DAY_IN_SECONDS;
    s[2].timestamp = s[1].timestamp + 1;
    assert_eq!(annualizers(&s), Ok(vec![182, 31_536_000]));
    assert_eq!(annualizers(&Vec::new()), Ok(vec![]));
}

#[test]
fn equal_timestamps_fail() {
    let g = BLOCK_GRANULARITY;
    let mut s = daily_series(&[0, g, 2 * g]);
    s[2].timestamp = s[1].timestamp;
    assert_eq!(annualizers(&s), Err(DexStatsError::TimestampsNotIncreasing));
    assert_eq!(prepare_dex_stats(&s, 1).err(), Some(DexStatsError::TimestampsNotIncreasing));
}

#[test]
fn stride_two_averages_two_day_intervals() {
    let g = BLOCK_GRANULARITY;
    let s = daily_series(&[0, g, 2 * g, 3 * g, 4 * g]);
    let plan = prepare_dex_stats(&s, 2).unwrap();
    assert_eq!(plan.annualizers, vec![182, 182]);
    assert_eq!(
        plan.backing_texts,
        vec![
            "1.000000000000000000".to_string(),
            "1.000000000000000002".to_string(),
            "1.000000000000000004".to_string()
        ]
    );
}
