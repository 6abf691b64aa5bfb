use cayley_walk::matrix::{calc_offset, canonicalize, canonicalized, dot, CNum, GroupError, Mat};

fn c(re: i64, im: i64) -> CNum {
    CNum { re, im }
}

fn m2(entries: Vec<CNum>) -> Mat {
    Mat::new(2, entries).unwrap()
}

/// The scaled single-qubit phase gate: diag(1, i) times the scale factor.
fn sz_q() -> Mat {
    m2(vec![c(2, 0), c(0, 0), c(0, 0), c(0, 2)])
}

/// The scaled single-qubit square-root-of-X gate.
fn sx_q() -> Mat {
    m2(vec![c(1, 1), c(1, -1), c(1, -1), c(1, 1)])
}

fn entries_of(m: &Mat) -> Vec<(i64, i64)> {
    let mut v = Vec::new();
    for e in m.e.iter() {
        v.push((e.re, e.im));
    }
    v
}

#[test]
fn canonicalize_is_idempotent() {
    for g in [sz_q(), sx_q()] {
        let once = canonicalized(&g).unwrap();
        let twice = canonicalized(&once).unwrap();
        assert_eq!(entries_of(&once), entries_of(&twice));
    }
}

#[test]
fn canonicalize_ignores_global_phase() {
    // Multiply a matrix by each phase factor 1, i, -1, -i by rotating every
    // entry, and check that the canonical form never changes.
    let m = sx_q();
    let base = canonicalized(&m).unwrap();
    let rot = |m: &Mat| -> Mat {
        let mut v = Vec::new();
        for e in m.e.iter() {
            v.push(c(-e.im, e.re));
        }
        Mat::new(2, v).unwrap()
    };
    let mut phased = m;
    for _ in 0..3 {
        phased = rot(&phased);
        let canon = canonicalized(&phased).unwrap();
        assert_eq!(entries_of(&base), entries_of(&canon));
    }
}

#[test]
fn calc_offset_rotates_into_half_plane() {
    // First non-zero entry (2, 0): one rotation by i lands on (0, 2).
    assert_eq!(calc_offset(&sz_q()).unwrap(), 1);
    // First non-zero entry (1, 1) is already in the half-plane.
    assert_eq!(calc_offset(&sx_q()).unwrap(), 0);
}

#[test]
fn canonicalize_rejects_zero_matrix() {
    let z = m2(vec![c(0, 0), c(0, 0), c(0, 0), c(0, 0)]);
    assert_eq!(canonicalized(&z).unwrap_err(), GroupError::ZeroMatrix);
    let mut z2 = m2(vec![c(0, 0), c(0, 0), c(0, 0), c(0, 0)]);
    assert_eq!(canonicalize(&mut z2).unwrap_err(), GroupError::ZeroMatrix);
    assert_eq!(calc_offset(&z2).unwrap_err(), GroupError::ZeroMatrix);
}

#[test]
fn canonicalize_in_place_matches_fresh() {
    let mut a = sz_q();
    canonicalize(&mut a).unwrap();
    let b = canonicalized(&sz_q()).unwrap();
    assert_eq!(entries_of(&a), entries_of(&b));
}

#[test]
fn dot_computes_scaled_product() {
    // sx squared is twice the Pauli X gate.
    let sx = sx_q();
    let xx = dot(&sx, &sx).unwrap();
    assert_eq!(entries_of(&xx), vec![(0, 0), (2, 0), (2, 0), (0, 0)]);
    // sz squared is twice the Pauli Z gate.
    let sz = sz_q();
    let zz = dot(&sz, &sz).unwrap();
    assert_eq!(entries_of(&zz), vec![(2, 0), (0, 0), (0, 0), (-2, 0)]);
}

#[test]
fn dot_rejects_odd_residue() {
    // An unscaled identity: the product entries are odd and cannot rescale.
    let one = Mat::new(1, vec![c(1, 0)]).unwrap();
    assert_eq!(dot(&one, &one).unwrap_err(), GroupError::OddEntry);
}

#[test]
fn dot_rejects_entry_out_of_range() {
    // All-twos matrix: entries rescale to 4, outside the magnitude disk.
    let m = m2(vec![c(2, 0), c(2, 0), c(2, 0), c(2, 0)]);
    assert_eq!(dot(&m, &m).unwrap_err(), GroupError::EntryOutOfRange);
}

#[test]
fn mat_new_validates() {
    assert!(Mat::new(2, vec![c(0, 0)]).is_none());
    assert!(Mat::new(5, vec![c(0, 0); 25]).is_none());
    assert!(Mat::new(1, vec![c(3, 0)]).is_none());
    assert!(Mat::new(1, vec![c(2, 0)]).is_some());
}

#[test]
fn order_four_cycles_return_to_identity() {
    // Repeated self-multiplication of sx four times, canonicalizing at the
    // end, gives the canonical identity; likewise for sz.
    let id2 = m2(vec![c(2, 0), c(0, 0), c(0, 0), c(2, 0)]);
    let canon_id = canonicalized(&id2).unwrap();
    for g in [sx_q(), sz_q()] {
        let mut m = g.clone();
        for _ in 0..3 {
            m = dot(&m, &g).unwrap();
        }
        let canon = canonicalized(&m).unwrap();
        assert_eq!(entries_of(&canon), entries_of(&canon_id));
    }
}
