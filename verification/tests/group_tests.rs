use cayley_walk::gens::{cnot, generators, id, sx1, sx2, sz1, sz2};
use cayley_walk::group::{generate_map, mat_eq, GroupTable};
use cayley_walk::matrix::{canonicalized, dot, CNum, Mat};

fn c(re: i64, im: i64) -> CNum {
    CNum { re, im }
}

fn sz_q() -> Mat {
    Mat::new(2, vec![c(2, 0), c(0, 0), c(0, 0), c(0, 2)]).unwrap()
}

fn sx_q() -> Mat {
    Mat::new(2, vec![c(1, 1), c(1, -1), c(1, -1), c(1, 1)]).unwrap()
}

fn id_q() -> Mat {
    Mat::new(2, vec![c(2, 0), c(0, 0), c(0, 0), c(2, 0)]).unwrap()
}

#[test]
fn push_collapses_duplicates() {
    let mut t = GroupTable::new(2);
    assert!(t.push(&sz_q()).unwrap());
    assert!(!t.push(&sz_q()).unwrap());
    assert_eq!(t.len(), 1);
    // A phase-rotated copy of sz denotes the same element.
    let phased = Mat::new(2, vec![c(0, 2), c(0, 0), c(0, 0), c(-2, 0)]).unwrap();
    assert!(!t.push(&phased).unwrap());
    assert_eq!(t.len(), 1);
}

#[test]
fn lookup_finds_only_stored_elements() {
    let mut t = GroupTable::new(2);
    t.push(&sz_q()).unwrap();
    let canon_sz = canonicalized(&sz_q()).unwrap();
    assert_eq!(t.lookup(&canon_sz), Some(0));
    let canon_sx = canonicalized(&sx_q()).unwrap();
    assert_eq!(t.lookup(&canon_sx), None);
}

#[test]
fn single_qubit_closure_is_a_fixed_point() {
    // One additional full pass over every discovered element with every
    // generator discovers nothing new.
    let gens = vec![sz_q(), sx_q()];
    let table = generate_map(&gens).unwrap();
    let n = table.len();
    assert!(n >= 2);
    for i in 0..n {
        for g in &gens {
            let prod = dot(&table.mats[i], g).unwrap();
            let canon = canonicalized(&prod).unwrap();
            assert!(table.lookup(&canon).is_some());
        }
    }
}

#[test]
fn generators_get_the_first_ids() {
    let gens = vec![sz_q(), sx_q()];
    let table = generate_map(&gens).unwrap();
    for (j, g) in gens.iter().enumerate() {
        let canon = canonicalized(g).unwrap();
        let idx = table.lookup(&canon).unwrap();
        assert!(idx <= j);
    }
}

#[test]
fn closure_elements_are_distinct_and_canonical() {
    let gens = vec![sz_q(), sx_q()];
    let table = generate_map(&gens).unwrap();
    let n = table.len();
    for i in 0..n {
        let canon = canonicalized(&table.mats[i]).unwrap();
        assert!(mat_eq(&canon, &table.mats[i]));
        for j in 0..i {
            assert!(!mat_eq(&table.mats[i], &table.mats[j]));
        }
    }
}

#[test]
fn two_qubit_generators_close_to_expected_group_order() {
    // The regression oracle for the fixed two-qubit configuration: the five
    // generators close to exactly 11520 canonical elements.
    let gens = generators();
    let table = generate_map(&gens).unwrap();
    assert_eq!(table.len(), 11520);
}

#[test]
fn two_qubit_generators_are_distinct_elements() {
    let gens = vec![sz1(), sx1(), sz2(), sx2(), cnot()];
    let table = generate_map(&gens).unwrap();
    for (j, g) in gens.iter().enumerate() {
        let canon = canonicalized(g).unwrap();
        assert_eq!(table.lookup(&canon), Some(j));
    }
    // The scaled identity is discovered along the way.
    let canon_id = canonicalized(&id()).unwrap();
    assert!(table.lookup(&canon_id).is_some());
}
