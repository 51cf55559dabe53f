use outagefs::bisect::classify;
use outagefs::bisect::next_index;
use outagefs::bisect::BisectDriver;
use outagefs::bisect::Tested;
use outagefs::bisect::Verdict;

fn run(total: usize, verifier: &dyn Fn(usize) -> i32) -> (Vec<usize>, BisectDriver) {
    let mut driver = BisectDriver::new(total);
    let mut order = Vec::new();
    while let Some(index) = driver.next_test() {
        assert_eq!(driver.tested(index), Tested::Unknown);
        order.push(index);
        driver.record(verifier(index));
        assert!(order.len() <= total);
    }
    (order, driver)
}

#[test]
fn exit_codes_map_to_verdicts() {
    assert_eq!(classify(0), Verdict::Pass(0));
    assert_eq!(classify(10), Verdict::Pass(0));
    assert_eq!(classify(15), Verdict::Pass(5));
    assert_eq!(classify(19), Verdict::Pass(9));
    assert_eq!(classify(20), Verdict::Fail(20));
    assert_eq!(classify(9), Verdict::Fail(9));
    assert_eq!(classify(1), Verdict::Fail(1));
    assert_eq!(classify(-1), Verdict::Fail(-1));
    assert_eq!(classify(i32::MIN), Verdict::Fail(i32::MIN));
    assert_eq!(classify(i32::MAX), Verdict::Fail(i32::MAX));
}

#[test]
fn bisects_between_differing_variants() {
    let (order, driver) = run(9, &|i| if i < 5 { 10 } else { 11 });
    assert_eq!(&order[..5], &[0, 8, 4, 6, 5]);
    assert_eq!(order, vec![0, 8, 4, 6, 5, 7, 1, 2, 3]);
    assert_eq!(driver.tested_count(), 9);
    assert_eq!(driver.exit_code(), 0);
    assert_eq!(driver.failure(), None);
    for i in 0..9 {
        let variant = if i < 5 { 0 } else { 1 };
        assert_eq!(driver.tested(i), Tested::Pass(variant));
    }
}

#[test]
fn same_variant_everywhere_goes_round_in_order() {
    let (order, driver) = run(6, &|_| 0);
    assert_eq!(order, vec![0, 5, 1, 2, 3, 4]);
    assert_eq!(driver.tested_count(), 6);
}

#[test]
fn every_test_is_verified_once() {
    for total in 0..40usize {
        for seed in 0..7usize {
            let verifier = move |i: usize| 10 + ((i * 7 + seed * 3) % (seed + 1)) as i32;
            let (order, driver) = run(total, &verifier);
            assert_eq!(order.len(), total);
            let mut sorted = order.clone();
            sorted.sort();
            sorted.dedup();
            assert_eq!(sorted, (0..total).collect::<Vec<usize>>());
            assert_eq!(driver.tested_count(), total);
            assert_eq!(driver.total(), total);
            assert_eq!(driver.exit_code(), 0);
            assert_eq!(driver.next_test(), None);
        }
    }
}

#[test]
fn halts_on_the_first_fail() {
    let (order, driver) = run(9, &|i| if i == 4 { 3 } else { 0 });
    assert_eq!(order, vec![0, 8, 1, 2, 3, 4]);
    assert_eq!(driver.failure(), Some((4, 3)));
    assert_eq!(driver.exit_code(), 3);
    assert_eq!(driver.tested_count(), 5);
    assert_eq!(driver.tested(4), Tested::Unknown);
    assert_eq!(driver.next_test(), None);
}

#[test]
fn fail_on_the_first_test_runs_nothing_else() {
    let (order, driver) = run(5, &|_| 1);
    assert_eq!(order, vec![0]);
    assert_eq!(driver.failure(), Some((0, 1)));
    assert_eq!(driver.tested_count(), 0);
}

#[test]
fn no_tests_is_done_at_once() {
    let driver = BisectDriver::new(0);
    assert_eq!(driver.next_test(), None);
    assert_eq!(driver.exit_code(), 0);
    assert_eq!(driver.total(), 0);
}

#[test]
fn one_test_runs_once() {
    let mut driver = BisectDriver::new(1);
    assert_eq!(driver.next_test(), Some(0));
    assert_eq!(driver.record(12), Verdict::Pass(2));
    assert_eq!(driver.next_test(), None);
    assert_eq!(driver.tested(0), Tested::Pass(2));
}

#[test]
fn next_index_after_the_first_is_the_last() {
    let mut tested = vec![Tested::Unknown; 7];
    tested[0] = Tested::Pass(0);
    assert_eq!(next_index(&tested, 0), 6);
}

#[test]
fn next_index_halves_the_widest_gap() {
    let tested = vec![
        Tested::Pass(0),
        Tested::Unknown,
        Tested::Unknown,
        Tested::Pass(1),
        Tested::Unknown,
        Tested::Unknown,
        Tested::Unknown,
        Tested::Unknown,
        Tested::Pass(2),
        Tested::Unknown,
        Tested::Pass(2),
    ];
    assert_eq!(next_index(&tested, 3), 5);
}

#[test]
fn next_index_takes_the_first_of_equal_gaps() {
    let tested = vec![
        Tested::Pass(0),
        Tested::Unknown,
        Tested::Unknown,
        Tested::Pass(1),
        Tested::Unknown,
        Tested::Unknown,
        Tested::Pass(0),
    ];
    assert_eq!(next_index(&tested, 6), 1);
}

#[test]
fn next_index_skips_gaps_of_equal_variants() {
    let tested = vec![
        Tested::Pass(3),
        Tested::Unknown,
        Tested::Unknown,
        Tested::Unknown,
        Tested::Pass(3),
        Tested::Pass(4),
        Tested::Unknown,
    ];
    assert_eq!(next_index(&tested, 4), 6);
    assert_eq!(next_index(&tested, 5), 6);
    assert_eq!(next_index(&tested, 6), 1);
}
