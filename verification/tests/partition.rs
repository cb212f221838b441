use lau_free_probability::partition::{catalan, nc_partition_count, NCPartition, PartitionError};
use lau_free_probability::binomial;
use std::collections::BTreeSet;

fn set(elems: &[usize]) -> BTreeSet<usize> {
    elems.iter().copied().collect()
}

#[test]
fn test_catalan_numbers() {
    assert_eq!(catalan(0), 1);
    assert_eq!(catalan(1), 1);
    assert_eq!(catalan(2), 2);
    assert_eq!(catalan(3), 5);
    assert_eq!(catalan(4), 14);
    assert_eq!(catalan(5), 42);
}

#[test]
fn test_nc_partition_count() {
    // C_n counts NC partitions of {1,...,n}
    assert_eq!(NCPartition::all_nc_partitions(1).len(), 1);
    assert_eq!(NCPartition::all_nc_partitions(2).len(), 2);
    assert_eq!(NCPartition::all_nc_partitions(3).len(), 5);
    assert_eq!(NCPartition::all_nc_partitions(4).len(), 14);
}

#[test]
fn test_one_block() {
    let p = NCPartition::one_block(3);
    assert_eq!(p.num_blocks(), 1);
    assert_eq!(p.n(), 3);
}

#[test]
fn test_finest() {
    let p = NCPartition::finest(3);
    assert_eq!(p.num_blocks(), 3);
}

#[test]
fn test_non_crossing_validation() {
    // {{1,3}, {2,4}} is crossing
    let mut b1 = BTreeSet::new();
    b1.insert(1);
    b1.insert(3);
    let mut b2 = BTreeSet::new();
    b2.insert(2);
    b2.insert(4);
    assert!(NCPartition::new(vec![b1, b2]).is_err());

    // {{1,3}, {2}} is non-crossing
    let mut b1 = BTreeSet::new();
    b1.insert(1);
    b1.insert(3);
    let mut b2 = BTreeSet::new();
    b2.insert(2);
    assert!(NCPartition::new(vec![b1, b2]).is_ok());
}

#[test]
fn test_moebius_from_bottom() {
    // μ(0_1, 1_1) = 1
    let p = NCPartition::one_block(1);
    assert_eq!(p.moebius_from_bottom(), 1);

    // μ(0_2, {{1,2}}) = -1
    let p = NCPartition::one_block(2);
    assert_eq!(p.moebius_from_bottom(), -1);

    // μ(0_3, 1_3) = C_2 = 2
    let p = NCPartition::one_block(3);
    assert_eq!(p.moebius_from_bottom(), 2);
}

#[test]
fn test_kreweras_complement() {
    // Kreweras complement of 1_n is 0_n
    let p = NCPartition::one_block(3);
    let k = p.kreweras_complement();
    assert_eq!(k.num_blocks(), 3); // finest partition
}

#[test]
fn test_nc_partitions_n3() {
    let parts = NCPartition::all_nc_partitions(3);
    assert_eq!(parts.len(), 5);
    // Verify all are valid
    for p in &parts {
        assert_eq!(p.n(), 3);
    }
}

#[test]
fn test_nc_partitions_n4() {
    let parts = NCPartition::all_nc_partitions(4);
    assert_eq!(parts.len(), 14);
}

#[test]
fn catalan_larger_values() {
    assert_eq!(catalan(6), 132);
    assert_eq!(catalan(10), 16796);
    assert_eq!(catalan(15), 9694845);
    assert_eq!(nc_partition_count(5), 42);
    assert_eq!(nc_partition_count(0), 1);
}

#[test]
fn binomial_values() {
    assert_eq!(binomial(5, 2), 10);
    assert_eq!(binomial(5, 3), 10);
    assert_eq!(binomial(10, 0), 1);
    assert_eq!(binomial(10, 10), 1);
    assert_eq!(binomial(3, 5), 0);
    assert_eq!(binomial(52, 5), 2598960);
    assert_eq!(binomial(0, 0), 1);
}

#[test]
fn new_reports_duplicate_element() {
    let r = NCPartition::new(vec![set(&[1, 2]), set(&[2])]);
    assert_eq!(r.err(), Some(PartitionError::DuplicateElement(2)));
}

#[test]
fn new_reports_out_of_range() {
    let r = NCPartition::new(vec![set(&[1, 5])]);
    assert_eq!(r.err(), Some(PartitionError::OutOfRange { element: 5, size: 2 }));
    let r = NCPartition::new(vec![set(&[0, 1])]);
    assert_eq!(r.err(), Some(PartitionError::OutOfRange { element: 0, size: 2 }));
}

#[test]
fn new_reports_first_offending_element() {
    // Block order first, then increasing order within a block.
    let r = NCPartition::new(vec![set(&[3]), set(&[1, 3, 9])]);
    assert_eq!(r.err(), Some(PartitionError::DuplicateElement(3)));
    let r = NCPartition::new(vec![set(&[5, 1]), set(&[1])]);
    assert_eq!(r.err(), Some(PartitionError::OutOfRange { element: 5, size: 3 }));
    let r = NCPartition::new(vec![set(&[2, 7]), set(&[2, 1])]);
    assert_eq!(r.err(), Some(PartitionError::OutOfRange { element: 7, size: 4 }));
}

#[test]
fn new_reports_crossing() {
    let r = NCPartition::new(vec![set(&[1, 3]), set(&[2, 4])]);
    assert_eq!(r.err(), Some(PartitionError::Crossing));
}

#[test]
fn new_keeps_blocks_and_size() {
    let p = NCPartition::new(vec![set(&[1, 4]), set(&[2, 3]), set(&[5])]).unwrap();
    assert_eq!(p.n(), 5);
    assert_eq!(p.num_blocks(), 3);
    assert_eq!(p.blocks()[1], set(&[2, 3]));
}

#[test]
fn new_reports_empty_block() {
    let r = NCPartition::new(vec![BTreeSet::new()]);
    assert_eq!(r.err(), Some(PartitionError::EmptyBlock(0)));
    let r = NCPartition::new(vec![set(&[1]), set(&[])]);
    assert_eq!(r.err(), Some(PartitionError::EmptyBlock(1)));
    // the first empty block is reported before any other fault
    let r = NCPartition::new(vec![set(&[1]), set(&[]), set(&[1]), set(&[])]);
    assert_eq!(r.err(), Some(PartitionError::EmptyBlock(1)));
    // no blocks at all is the partition of the empty set
    let r = NCPartition::new(vec![]).unwrap();
    assert_eq!(r.n(), 0);
}

#[test]
fn new_accepts_every_enumerated_partition() {
    for n in 1..=5 {
        for p in NCPartition::all_nc_partitions(n) {
            let q = NCPartition::new(p.blocks().to_vec()).unwrap();
            assert_eq!(q, p);
        }
    }
}

#[test]
fn enumerated_partitions_are_distinct_and_ordered() {
    let parts = NCPartition::all_nc_partitions(5);
    assert_eq!(parts.len(), 42);
    for i in 0..parts.len() {
        for j in 0..parts.len() {
            if i != j {
                assert_ne!(parts[i], parts[j]);
            }
        }
        let mins: Vec<usize> = parts[i].blocks().iter().map(|b| *b.iter().next().unwrap()).collect();
        for w in mins.windows(2) {
            assert!(w[0] < w[1]);
        }
    }
    // first in order: one block; last: all singletons
    assert_eq!(parts[0], NCPartition::one_block(5));
    assert_eq!(parts[41], NCPartition::finest(5));
}

#[test]
fn enumeration_of_zero_is_empty() {
    assert!(NCPartition::all_nc_partitions(0).is_empty());
}

#[test]
fn enumeration_counts_match_catalan() {
    for n in 1..=7 {
        assert_eq!(NCPartition::all_nc_partitions(n).len(), catalan(n));
    }
}

#[test]
fn kreweras_complement_values() {
    let k = NCPartition::one_block(4).kreweras_complement();
    assert_eq!(k, NCPartition::finest(4));
    let k = NCPartition::finest(3).kreweras_complement();
    assert_eq!(k, NCPartition::one_block(3));
    let p = NCPartition::new(vec![set(&[1, 3]), set(&[2])]).unwrap();
    let k = p.kreweras_complement();
    assert_eq!(k.blocks().to_vec(), vec![set(&[1, 2]), set(&[3])]);
    let p = NCPartition::new(vec![set(&[1, 2]), set(&[3])]).unwrap();
    let k = p.kreweras_complement();
    assert_eq!(k.blocks().to_vec(), vec![set(&[1]), set(&[2, 3])]);
    let p = NCPartition::new(vec![set(&[1, 3]), set(&[2]), set(&[4])]).unwrap();
    let k = p.kreweras_complement();
    assert_eq!(k.blocks().to_vec(), vec![set(&[1, 2]), set(&[3, 4])]);
    assert_eq!(k.n(), 4);
    // n = 0: the empty partition
    let k = NCPartition::finest(0).kreweras_complement();
    assert_eq!(k.num_blocks(), 0);
    assert_eq!(k.n(), 0);
}

#[test]
fn kreweras_complement_is_a_bijection_of_nc_partitions() {
    for n in 1..=6 {
        let parts = NCPartition::all_nc_partitions(n);
        let mut images = Vec::new();
        for p in &parts {
            let k = p.kreweras_complement();
            // |π| + |K(π)| = n + 1
            assert_eq!(p.num_blocks() + k.num_blocks(), n + 1);
            // K(π) is again a non-crossing partition of {1, ..., n}
            let again = NCPartition::new(k.blocks().to_vec()).unwrap();
            assert_eq!(again.n(), n);
            assert!(!images.contains(&k));
            images.push(k);
        }
        assert_eq!(images.len(), parts.len());
    }
}

#[test]
fn moebius_cases() {
    let bottom = NCPartition::finest(4);
    let top = NCPartition::one_block(4);
    assert_eq!(NCPartition::moebius(&bottom, &top), -5);
    assert_eq!(NCPartition::moebius(&top, &top), 1);
    assert_eq!(NCPartition::moebius(&bottom, &bottom), 1);
    assert_eq!(NCPartition::moebius(&bottom, &top), top.moebius_from_bottom());
    let mid = NCPartition::new(vec![set(&[1, 2]), set(&[3]), set(&[4])]).unwrap();
    assert_eq!(NCPartition::moebius(&bottom, &mid), -1);
    // [mid, 1_4] is a copy of NC(3): μ = C_2
    assert_eq!(NCPartition::moebius(&mid, &top), 2);
    let p = NCPartition::new(vec![set(&[1, 2, 3]), set(&[4])]).unwrap();
    assert_eq!(NCPartition::moebius(&bottom, &p), 2);
    // pairs that are not comparable, or in the wrong order
    assert_eq!(NCPartition::moebius(&top, &bottom), 0);
    let q = NCPartition::new(vec![set(&[1]), set(&[2, 3, 4])]).unwrap();
    assert_eq!(NCPartition::moebius(&mid, &q), 0);
}

#[test]
fn moebius_from_bottom_agrees_with_moebius() {
    for n in 1..=5 {
        let bottom = NCPartition::finest(n);
        for p in NCPartition::all_nc_partitions(n) {
            assert_eq!(NCPartition::moebius(&bottom, &p), p.moebius_from_bottom());
            assert_eq!(NCPartition::moebius(&p, &p), 1);
        }
    }
}

#[test]
fn moebius_sums_to_zero_over_the_lattice() {
    // Σ_{π ∈ NC(n)} μ(0_n, π) = 0 for n >= 2
    for n in 2..=7 {
        let total: i64 = NCPartition::all_nc_partitions(n)
            .iter()
            .map(|p| p.moebius_from_bottom())
            .sum();
        assert_eq!(total, 0);
    }
    // Σ_{σ ≥ π} μ(π, σ) = 0 for π below the top
    let parts = NCPartition::all_nc_partitions(4);
    for p in &parts {
        if p.num_blocks() > 1 {
            let total: i64 = parts.iter().map(|s| NCPartition::moebius(p, s)).sum();
            assert_eq!(total, 0);
        }
    }
}

#[test]
fn moebius_from_bottom_products() {
    assert_eq!(NCPartition::finest(3).moebius_from_bottom(), 1);
    assert_eq!(NCPartition::one_block(4).moebius_from_bottom(), -5);
    let p = NCPartition::new(vec![set(&[1, 2, 3]), set(&[4, 5])]).unwrap();
    assert_eq!(p.moebius_from_bottom(), -2);
}

#[test]
fn partitions_compare_by_blocks_and_size() {
    assert_eq!(NCPartition::finest(3), NCPartition::finest(3));
    assert_ne!(NCPartition::finest(1), NCPartition::one_block(2));
    let a = NCPartition::new_unchecked(vec![set(&[1])], 1);
    let b = NCPartition::new_unchecked(vec![set(&[1])], 2);
    assert_ne!(a, b);
}

#[test]
fn moebius_sign_follows_block_counts() {
    // μ(π, σ) has the sign (-1)^(|π| - |σ|) whenever π ≤ σ
    let parts = NCPartition::all_nc_partitions(5);
    for p in &parts {
        for s in &parts {
            let m = NCPartition::moebius(p, s);
            if m != 0 {
                let sign = if (p.num_blocks() + s.num_blocks()) % 2 == 0 { 1 } else { -1 };
                assert!(m * sign > 0);
            }
        }
    }
}
