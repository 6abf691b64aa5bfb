use cayley_walk::codec::{decode_lut, encode_lut};
use cayley_walk::group::GroupTable;
use cayley_walk::matrix::GroupError;
use cayley_walk::group::generate_map;
use cayley_walk::matrix::{canonicalized, dot, CNum, Mat};
use cayley_walk::table::{generate_lut, TransTable};
use cayley_walk::walk::test_lut;

fn c(re: i64, im: i64) -> CNum {
    CNum { re, im }
}

fn sz_q() -> Mat {
    Mat::new(2, vec![c(2, 0), c(0, 0), c(0, 0), c(0, 2)]).unwrap()
}

fn sx_q() -> Mat {
    Mat::new(2, vec![c(1, 1), c(1, -1), c(1, -1), c(1, 1)]).unwrap()
}

fn id_q() -> Mat {
    Mat::new(2, vec![c(2, 0), c(0, 0), c(0, 0), c(2, 0)]).unwrap()
}

fn toy_table() -> TransTable {
    let gens = vec![sz_q(), sx_q()];
    let table = generate_map(&gens).unwrap();
    generate_lut(&table).unwrap()
}

#[test]
fn every_cell_is_a_valid_id() {
    let lut = toy_table();
    assert_eq!(lut.cells.len(), lut.size * lut.size);
    for i in 0..lut.size {
        for j in 0..lut.size {
            assert!((lut.at(i, j) as usize) < lut.size);
        }
    }
}

#[test]
fn cells_hold_canonical_products() {
    let gens = vec![sz_q(), sx_q()];
    let table = generate_map(&gens).unwrap();
    let lut = generate_lut(&table).unwrap();
    for i in 0..table.len() {
        for j in 0..table.len() {
            let prod = dot(&table.mats[i], &table.mats[j]).unwrap();
            let canon = canonicalized(&prod).unwrap();
            let id = table.lookup(&canon).unwrap();
            assert_eq!(lut.at(i, j) as usize, id);
        }
    }
}

#[test]
fn identity_generator_column_is_the_identity_map() {
    // With the scaled identity as the first generator, multiplying any
    // discovered element by it yields that element's own id.
    let gens = vec![id_q(), sz_q(), sx_q()];
    let table = generate_map(&gens).unwrap();
    let lut = generate_lut(&table).unwrap();
    let canon_id = canonicalized(&id_q()).unwrap();
    let idcol = table.lookup(&canon_id).unwrap();
    for i in 0..lut.size {
        assert_eq!(lut.at(i, idcol) as usize, i);
        assert_eq!(lut.at(idcol, i) as usize, i);
    }
}

#[test]
fn codec_round_trip_restores_the_table() {
    let lut = toy_table();
    let bytes = encode_lut(&lut);
    assert_eq!(bytes.len(), 2 * lut.size * lut.size);
    let back = decode_lut(&bytes, lut.size).unwrap();
    assert_eq!(back.size, lut.size);
    assert_eq!(back.cells, lut.cells);
}

#[test]
fn codec_round_trip_tiny_sizes() {
    for size in 1..4usize {
        let cells: Vec<u16> = (0..size * size).map(|k| (k % size) as u16).collect();
        let t = TransTable { size, cells };
        let bytes = encode_lut(&t);
        let back = decode_lut(&bytes, size).unwrap();
        assert_eq!(back.cells, t.cells);
    }
}

#[test]
fn decode_rejects_wrong_length() {
    let lut = toy_table();
    let mut bytes = encode_lut(&lut);
    bytes.pop();
    assert!(decode_lut(&bytes, lut.size).is_none());
    assert!(decode_lut(&Vec::new(), lut.size).is_none());
}

#[test]
fn decode_rejects_out_of_range_cell() {
    // A two-element table with a cell pointing past the last id.
    let bytes = vec![7u8, 0, 0, 0, 0, 0, 0, 0];
    assert!(decode_lut(&bytes, 2).is_none());
    let ok = vec![1u8, 0, 0, 0, 0, 0, 1, 0];
    assert!(decode_lut(&ok, 2).is_some());
}

#[test]
fn walk_stays_in_range_and_records_draws() {
    let lut = toy_table();
    let mut draws = Vec::new();
    let state = test_lut(&lut, 1000, &mut draws);
    assert_eq!(draws.len(), 1000);
    assert!(state < lut.size);
    for d in draws {
        assert!(d < lut.size);
    }
}

#[test]
fn walk_follows_the_table() {
    let lut = toy_table();
    let mut draws = Vec::new();
    let state = test_lut(&lut, 50, &mut draws);
    let mut expect: usize = 0;
    for d in &draws {
        expect = lut.at(expect, *d) as usize;
    }
    assert_eq!(state, expect);
}

#[test]
fn incomplete_closure_is_a_fatal_build_error() {
    // A well-formed element table that is not closed: building the dense
    // transition table must fail loudly instead of truncating.
    let mut table = GroupTable::new(2);
    table.push(&sz_q()).unwrap();
    assert_eq!(generate_lut(&table).unwrap_err(), GroupError::MissingProduct);
}
