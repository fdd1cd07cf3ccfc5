use grid_puzzle::{GenConfig, GenMethod, PROB_SCALE};
use rand::rngs::StdRng;
use rand::SeedableRng;

#[test]
fn table_under_one_is_kept() {
    let methods = vec![GenMethod::Random(200_000), GenMethod::Default, GenMethod::Never, GenMethod::Random(300_000)];
    let table = GenConfig::from_gen_methods(&methods);
    assert_eq!(table.default, 1);
    assert_eq!(table.probs, vec![(200_000, 0), (500_000, 3)]);
}

#[test]
fn table_over_one_is_rescaled() {
    let methods = vec![GenMethod::Random(1_500_000), GenMethod::Random(500_000)];
    let table = GenConfig::from_gen_methods(&methods);
    assert_eq!(table.default, 0);
    assert_eq!(table.probs, vec![(750_000, 0), (1_000_000, 1)]);
}

#[test]
fn last_default_wins() {
    let methods = vec![GenMethod::Default, GenMethod::Random(10), GenMethod::Default];
    let table = GenConfig::from_gen_methods(&methods);
    assert_eq!(table.default, 2);
    assert_eq!(table.probs, vec![(10, 1)]);
}

#[test]
fn table_is_bounded_and_zero_draw_picks_first() {
    let cases = vec![
        vec![GenMethod::Random(3), GenMethod::Random(999_999), GenMethod::Random(7)],
        vec![GenMethod::Random(100), GenMethod::Default],
        vec![GenMethod::Random(4_000_000_000), GenMethod::Random(4_000_000_000), GenMethod::Random(1)],
    ];
    for methods in cases {
        let table = GenConfig::from_gen_methods(&methods);
        let last = table.probs.last().unwrap().0;
        assert!(last <= PROB_SCALE);
        for w in table.probs.windows(2) {
            assert!(w[0].0 <= w[1].0);
        }
        assert_eq!(table.sample(0), table.probs[0].1);
    }
}

#[test]
fn rescaled_table_ends_at_one() {
    let methods = vec![GenMethod::Random(4_000_000_000), GenMethod::Random(4_000_000_000), GenMethod::Random(1)];
    let table = GenConfig::from_gen_methods(&methods);
    assert_eq!(table.probs.last().unwrap().0, PROB_SCALE);
    assert_eq!(table.probs[0].0, 499_999);
}

#[test]
fn sample_picks_first_at_least_draw() {
    let methods = vec![GenMethod::Random(200_000), GenMethod::Default, GenMethod::Random(300_000)];
    let table = GenConfig::from_gen_methods(&methods);
    assert_eq!(table.sample(1), 0);
    assert_eq!(table.sample(200_000), 0);
    assert_eq!(table.sample(200_001), 2);
    assert_eq!(table.sample(500_000), 2);
    assert_eq!(table.sample(500_001), 1);
    assert_eq!(table.sample(PROB_SCALE), 1);
}

#[test]
fn populate_gives_drawable_ids() {
    let methods = vec![GenMethod::Random(200_000), GenMethod::Default, GenMethod::Random(300_000)];
    let table = GenConfig::from_gen_methods(&methods);
    let mut rng = StdRng::seed_from_u64(7);
    let ids = table.populate(4, 5, &mut rng);
    assert_eq!(ids.len(), 4);
    for row in &ids {
        assert_eq!(row.len(), 5);
        for id in row {
            assert!(*id == 0 || *id == 1 || *id == 2);
        }
    }
    let certain = GenConfig::from_gen_methods(&vec![GenMethod::Never, GenMethod::Random(1_000_000)]);
    let all = certain.populate(3, 3, &mut rng);
    for row in &all {
        for id in row {
            assert_eq!(*id, 1);
        }
    }
}
