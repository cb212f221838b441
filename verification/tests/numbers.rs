use lau_free_probability::numbers::{binomial, binomial_in_range, narayana, narayana_in_range};
use lau_free_probability::partition::{catalan, catalan_in_range};
use lau_free_probability::rng::SimpleRng;

#[test]
fn catalan_range_limit() {
    assert!(catalan_in_range(0));
    assert!(catalan_in_range(33));
    assert!(!catalan_in_range(34));
    assert_eq!(catalan(33), 212336130412243110);
}

#[test]
fn binomial_range_limit() {
    assert!(binomial_in_range(62, 31));
    assert!(!binomial_in_range(63, 31));
    assert!(binomial_in_range(1000, 0));
    assert!(binomial_in_range(1000, 1000));
    assert!(binomial_in_range(3, 7));
    assert_eq!(binomial(62, 31), 465428353255261088);
}

#[test]
fn xorshift_sequence_from_seed() {
    let mut rng = SimpleRng::new(42);
    assert_eq!(rng.next_state(), 45454805674);
    assert_eq!(rng.next_state(), 11532217803599905471);
    assert_eq!(rng.next_state(), 10021416941527320954);
}

#[test]
fn narayana_values() {
    let row: Vec<usize> = (0..4).map(|k| narayana(4, k)).collect();
    assert_eq!(row, vec![1, 6, 6, 1]);
    assert_eq!(row.iter().sum::<usize>(), 14);
    assert_eq!(narayana(1, 0), 1);
    assert_eq!(narayana(5, 2), 20);
    assert!(narayana_in_range(30, 15));
    assert!(!narayana_in_range(66, 33));
}

#[test]
fn catalan_recurrence_values() {
    for n in 0..20 {
        let conv: usize = (0..=n).map(|i| catalan(i) * catalan(n - i)).sum();
        assert_eq!(catalan(n + 1), conv);
    }
}
