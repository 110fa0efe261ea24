//! Degree distributions.

use sgraph::degree::fixed::{ln_q32, sqrt_q32, LN2_Q64};
use sgraph::degree::{cumulate, WEIGHT_SCALE};
use sgraph::rng::SplitMix64;
use sgraph::{Constant, Cumulative, DegreeDistribution, GraphError, RobustSoliton};

const DRAWS: u32 = 100_000;

const TOLERANCE: i64 = 200;

#[test]
fn constant_rejects_zero() {
    assert_eq!(Constant::new(0), Err(GraphError::ZeroDegree));
    assert_eq!(Constant::new(1).unwrap().degree(), 1);
}

#[test]
fn constant_always_returns_its_degree() {
    let d = Constant::new(7).unwrap();
    let mut rng = SplitMix64::new(12345);
    for _ in 0..100 {
        assert_eq!(d.sample(&mut rng), 7);
    }
    assert_eq!(d.max_degree(), 7);
}

/// Checked against generator state rather than against the sampled value. Only the state check catches a future point-mass
/// distribution that draws and discards.
#[test]
fn constant_consumes_no_generator_state() {
    let d = Constant::new(3).unwrap();
    let mut rng = SplitMix64::new(0xABCD_1234);
    let before = rng.clone();

    for _ in 0..10 {
        let _ = d.sample(&mut rng);
    }

    // Identical state means identical futures.
    let mut after = rng;
    let mut untouched = before;
    for _ in 0..8 {
        assert_eq!(
            after.next_u64(),
            untouched.next_u64(),
            "sampling a point mass advanced the stream"
        );
    }
}

/// `sqrt_q32` is exact, so the bracketing identity `v^2 <= x < (v + 1)^2`
/// holds for every input; the literals are values that identity pins.
#[test]
fn sqrt_q32_is_the_exact_integer_root() {
    for k in [1u32, 2, 3, 4, 8, 9, 10, 1000, 65_536, 65_537, u32::MAX] {
        let root = u128::from(sqrt_q32(k));
        let square = u128::from(k) << 64;
        assert!(root * root <= square, "root too large for k={k}");
        assert!(square < (root + 1) * (root + 1), "root too small for k={k}");
    }

    // Perfect squares land exactly on a power of two.
    assert_eq!(sqrt_q32(1), 1 << 32);
    assert_eq!(sqrt_q32(4), 1 << 33);
    assert_eq!(sqrt_q32(65_536), 1 << 40);
    // sqrt(2) = 1.41421356237309504880..., sqrt(8) = 2.82842712474619009760...
    assert_eq!(sqrt_q32(2), 6_074_000_999);
    assert_eq!(sqrt_q32(8), 12_148_001_999);
    assert_eq!(sqrt_q32(u32::MAX), 281_474_976_677_887);
}

/// Decimal expansions of `ln(x) * 2^32`, as their floors:
///
/// | `x`                | `ln(x) * 2^32`             |
/// |--------------------|----------------------------|
/// | `2^-32`            | `-95265423098.22630628...` |
/// | `2^-16`            | `-47632711549.11315314...` |
/// | `0.5`              | `-2977044471.819572071...` |
/// | `1 - 2^-32`        | `-1.000000000116415321...` |
/// | `1`                | `0`                        |
/// | `1 + 2^-32`        | `0.9999999998835846781...` |
/// | `2`                | `2977044471.819572071...`  |
/// | `3`                | `4718503850.813242522...`  |
/// | `floor(e * 2^32)`  | `4294967295.800358684...`  |
/// | `100`              | `19779055341.33308987...`  |
/// | `65536`            | `47632711549.11315314...`  |
/// | `2^32 - 2^-32`     | `95265423098.22630628...`  |
#[test]
fn ln_q32_matches_decimal_constants() {
    assert_eq!(ln_q32(1), -95_265_423_099);
    assert_eq!(ln_q32(1 << 16), -47_632_711_550);
    assert_eq!(ln_q32(1 << 31), -2_977_044_472);
    assert_eq!(ln_q32((1 << 32) - 1), -2);
    assert_eq!(ln_q32(1 << 32), 0);
    assert_eq!(ln_q32((1 << 32) + 1), 0);
    assert_eq!(ln_q32(2 << 32), 2_977_044_471);
    assert_eq!(ln_q32(3 << 32), 4_718_503_850);
    assert_eq!(ln_q32(11_674_931_554), 4_294_967_295);
    assert_eq!(ln_q32(100 << 32), 19_779_055_341);
    assert_eq!(ln_q32(1 << 48), 47_632_711_549);
    assert_eq!(ln_q32(u64::MAX), 95_265_423_098);
}

/// `ln` of a power of two is that power times `ln(2)`, exactly: the series
/// contributes nothing for a mantissa of one, so only the exponent term is
/// left and it must not drift as the exponent grows.
#[test]
fn ln_q32_scales_with_the_exponent() {
    for power in 0..32u64 {
        let expected = i64::try_from((u128::from(power) * u128::from(LN2_Q64)) >> 32).unwrap();
        assert_eq!(ln_q32(1u64 << (32 + power)), expected, "ln(2^{power})");
    }
    assert_eq!(ln_q32(0), i64::MIN);
}

#[test]
fn cumulative_rejects_a_table_it_cannot_sample() {
    assert_eq!(
        Cumulative::new(Vec::new()),
        Err(GraphError::EmptyCumulative)
    );
    assert_eq!(
        Cumulative::new(vec![3, 9, 4, 20]),
        Err(GraphError::CumulativeNotMonotone {
            index: 2,
            previous: 9,
            current: 4,
        })
    );
    assert_eq!(Cumulative::new(vec![0, 0, 0]), Err(GraphError::ZeroDegree));
    // Only the total matters for emptiness: a leading plateau is legal.
    assert_eq!(
        Cumulative::new(vec![0, 0, 1]).unwrap().weights(),
        &[0, 0, 1]
    );
}

#[test]
fn cumulate_reports_the_index_that_overflowed() {
    assert_eq!(
        cumulate(2, &[u128::from(u64::MAX), 1]),
        Err(GraphError::CumulativeOverflow { index: 1 })
    );
    assert_eq!(
        cumulate(3, &[1u128, 2, u128::from(u64::MAX)]),
        Err(GraphError::CumulativeOverflow { index: 2 })
    );
    // The bound is inclusive: a total of exactly `u64::MAX` still fits.
    assert_eq!(
        cumulate(2, &[u128::from(u64::MAX), 0]),
        Ok(vec![u64::MAX, u64::MAX])
    );
}

/// Degrees `1, 2, 3, 4` carry weights `1, 3, 0, 6` out of ten. The total
/// fits in a `u32`, so this pins the 32-bit reduction branch.
#[test]
fn cumulative_samples_a_narrow_table() {
    let table = Cumulative::new(vec![1, 4, 4, 10]).unwrap();
    assert_eq!(table.max_degree(), 4);

    let mut rng = SplitMix64::new(7);
    let drawn: Vec<u32> = (0..24).map(|_| table.sample(&mut rng)).collect();
    assert_eq!(
        drawn,
        vec![
            2, 4, 4, 4, 4, 4, 2, 2, 4, 4, 1, 2, 2, 4, 1, 2, 4, 4, 2, 2, 1, 2, 4, 2
        ]
    );

    // A zero-weight degree is unreachable, not merely unlikely.
    let mut rng = SplitMix64::new(7);
    for _ in 0..10_000 {
        assert_ne!(table.sample(&mut rng), 3);
    }
}

/// The same ratios scaled past `u32::MAX` take the widened reduction, which
/// is a different sampler and therefore a different sequence.
#[test]
fn cumulative_samples_a_wide_table() {
    let table = Cumulative::new(vec![1 << 40, 4 << 40, 4 << 40, 10 << 40]).unwrap();

    let mut rng = SplitMix64::new(7);
    let drawn: Vec<u32> = (0..24).map(|_| table.sample(&mut rng)).collect();
    assert_eq!(
        drawn,
        vec![
            2, 1, 4, 4, 4, 2, 4, 2, 2, 4, 2, 4, 4, 4, 4, 4, 4, 2, 4, 4, 4, 2, 2, 4
        ]
    );
}

#[test]
fn robust_soliton_rejects_unusable_parameters() {
    assert_eq!(
        RobustSoliton::from_q32(0, 1 << 31, 1 << 31),
        Err(GraphError::ZeroSymbolCount)
    );
    assert_eq!(
        RobustSoliton::from_q32(8, 0, 1 << 31),
        Err(GraphError::ZeroSolitonC)
    );
    assert_eq!(
        RobustSoliton::from_q32(8, 1 << 31, 0),
        Err(GraphError::SolitonDeltaOutOfRange { delta_q32: 0 })
    );
}

/// `k = 8`, `c = 0.5`, `delta = 0.5`, worked through the documented
/// construction with `S = 2^48`:
///
/// `R = 16840706669` (`3.9210325733...`), so `s = ceil(8/R) = 3` and the
/// spike weight is `284127007719424`. Below it `tau(i) = ramp/(8i)` with
/// `ramp = 1103672552259584`; above it `tau` is zero.
///
/// | `i` | `rho(i) * S`      | `tau(i) * S`      | sum               |
/// |-----|-------------------|-------------------|-------------------|
/// | 1   | `35184372088832`  | `137959069032448` | `173143441121280` |
/// | 2   | `140737488355328` | `68979534516224`  | `209717022871552` |
/// | 3   | `46912496118442`  | `284127007719424` | `331039503837866` |
/// | 4   | `23456248059221`  | `0`               | `23456248059221`  |
/// | 5   | `14073748835532`  | `0`               | `14073748835532`  |
/// | 6   | `9382499223688`   | `0`               | `9382499223688`   |
/// | 7   | `6701785159777`   | `0`               | `6701785159777`   |
/// | 8   | `5026338869833`   | `0`               | `5026338869833`   |
#[test]
fn robust_soliton_builds_the_documented_table() {
    let soliton = RobustSoliton::from_q32(8, 1 << 31, 1 << 31).unwrap();
    assert_eq!(
        soliton.cumulative(),
        &[
            173_143_441_121_280,
            382_860_463_992_832,
            713_899_967_830_698,
            737_356_215_889_919,
            751_429_964_725_451,
            760_812_463_949_139,
            767_514_249_108_916,
            772_540_587_978_749,
        ]
    );
    assert_eq!(soliton.max_degree(), 8);

    // The ideal soliton part alone, so a `tau` regression cannot hide in the
    // running sum: `S/k` at one and `S/(i * (i - 1))` above it.
    let table = soliton.cumulative();
    let ideal = [
        WEIGHT_SCALE / 8,
        WEIGHT_SCALE / 2,
        WEIGHT_SCALE / 6,
        WEIGHT_SCALE / 12,
        WEIGHT_SCALE / 20,
        WEIGHT_SCALE / 30,
        WEIGHT_SCALE / 42,
        WEIGHT_SCALE / 56,
    ];
    for degree in 4..8 {
        assert_eq!(table[degree] - table[degree - 1], ideal[degree]);
    }
}

/// `R` truncates to five ulps here, so `s = 6871947674` sits far past `k`:
/// no spike, and `tau(i) = 40960/i` on top of the ideal soliton.
#[test]
fn robust_soliton_without_a_spike_is_the_ideal_soliton_plus_a_ramp() {
    let soliton = RobustSoliton::from_q32(8, 1, u32::MAX).unwrap();
    assert_eq!(
        soliton.cumulative(),
        &[
            35_184_372_129_792,
            175_921_860_505_600,
            222_834_356_637_695,
            246_290_604_707_156,
            260_364_353_550_880,
            269_746_852_781_394,
            276_448_637_947_022,
            281_474_976_821_975,
        ]
    );

    // Weight of degree `i`, minus the ideal soliton, is the ramp.
    let table = soliton.cumulative();
    assert_eq!(table[0] - WEIGHT_SCALE / 8, 40_960);
    for degree in 2..=8u64 {
        let index = degree as usize - 1;
        let weight = table[index] - table[index - 1];
        let ideal = WEIGHT_SCALE / (degree * (degree - 1));
        assert_eq!(weight - ideal, 40_960 / degree);
    }
}

/// `R = 24.953...` exceeds `k`, so `s = 1` and the spike lands on degree
/// one with no ramp below it at all.
#[test]
fn robust_soliton_spike_can_land_on_degree_one() {
    let soliton = RobustSoliton::from_q32(4, u32::MAX, 1 << 16).unwrap();
    assert_eq!(
        soliton.cumulative(),
        &[
            25_193_125_575_180_288,
            25_333_863_063_535_616,
            25_380_775_559_654_058,
            25_404_231_807_713_279,
        ]
    );
    // Degrees above the spike carry the ideal soliton and nothing else.
    let table = soliton.cumulative();
    assert_eq!(table[1] - table[0], WEIGHT_SCALE / 2);
    assert_eq!(table[2] - table[1], WEIGHT_SCALE / 6);
    assert_eq!(table[3] - table[2], WEIGHT_SCALE / 12);
}

/// A single symbol leaves one degree, so sampling is a point mass, but one
/// that still consumes a draw, since the table path always reduces one.
#[test]
fn robust_soliton_of_one_symbol_has_one_degree() {
    let soliton = RobustSoliton::from_q32(1, 1, u32::MAX).unwrap();
    assert_eq!(soliton.cumulative(), &[281_474_976_776_192]);
    assert_eq!(soliton.max_degree(), 1);

    let mut rng = SplitMix64::new(99);
    for _ in 0..64 {
        assert_eq!(soliton.sample(&mut rng), 1);
    }
}

/// The cross-platform fingerprint: integer construction and integer
/// sampling must produce this sequence on every target.
#[test]
fn robust_soliton_sample_sequence_is_fixed() {
    let soliton = RobustSoliton::from_q32(8, 1 << 31, 1 << 31).unwrap();
    let mut rng = SplitMix64::new(0x5EED);
    let drawn: Vec<u32> = (0..24).map(|_| soliton.sample(&mut rng)).collect();
    assert_eq!(
        drawn,
        vec![
            1, 2, 2, 2, 1, 2, 1, 1, 3, 2, 2, 2, 1, 1, 3, 3, 5, 1, 2, 3, 3, 2, 3, 3
        ]
    );
}

/// Sampled frequencies must track the table's own ratios. The deviation is
/// deterministic for a fixed seed; the largest one observed is 118 draws,
/// so 200 is a bound the sampler passes and a biased one would not.
#[test]
fn robust_soliton_frequencies_track_the_table() {
    let soliton = RobustSoliton::from_q32(8, 1 << 31, 1 << 31).unwrap();
    let mut counts = [0i64; 8];
    let mut rng = SplitMix64::new(0x00C0_FFEE);
    for _ in 0..DRAWS {
        counts[soliton.sample(&mut rng) as usize - 1] += 1;
    }

    let table = soliton.cumulative();
    let total = u128::from(table[7]);
    let mut previous = 0;
    for (index, &entry) in table.iter().enumerate() {
        let weight = u128::from(entry - previous);
        previous = entry;
        let expected = i64::try_from(u128::from(DRAWS) * weight / total).unwrap();
        let deviation = counts[index] - expected;
        assert!(
            deviation.abs() <= TOLERANCE,
            "degree {} drawn {} times, expected about {expected}",
            index + 1,
            counts[index]
        );
    }
    assert_eq!(counts.iter().sum::<i64>(), i64::from(DRAWS));
}
