//! The dense transition table: cell `(i, j)` holds the id of the canonical
//! product of the elements with ids `i` and `j`, built once from a closed
//! group table and read-only thereafter.

use crate::group::{closed, lemma_closure_fixed_point, GroupTable, GROUP_LIMIT};
use crate::matrix::{
    canon_seq, canonicalized, dot, first_nz, has_nz, is_canon, lemma_canon_phase, lemma_first_nz,
    lemma_has_nz_rotk, lemma_offset4_works, lemma_prod_id, lemma_prod_id_left,
    lemma_step_rot_left, lemma_step_rot_right, offset4, prod_half, rot_all, scaled_id, step_ok,
    GroupError, Mat, GC,
};
use vstd::prelude::*;

verus! {

/// A square table of 16-bit element ids, row-major, with every cell a valid
/// id below `size`.
#[derive(Clone, Debug)]
pub struct TransTable {
    /// Number of rows and of columns: the number of group elements.
    pub size: usize,
    /// The `size * size` cells, row-major: cell `(i, j)` sits at
    /// `i * size + j`.
    pub cells: Vec<u16>,
}

impl TransTable {
    /// Shape and range invariant: square, and every cell a valid id.
    pub open spec fn wf(&self) -> bool {
        &&& self.size <= GROUP_LIMIT
    &&& self.cells@.len() == self.size * self.size
    &&& forall|t: int|
        0 <= t < self.cells@.len() ==> (#[trigger] self.cells@[t]) < self.size
    }

    /// The id stored in cell `(i, j)`.
    pub open spec fn spec_at(&self, i: int, j: int) -> int {
        self.cells@[i * self.size + j] as int
    }

    /// Reads cell `(i, j)`.
    pub fn at(&self, i: usize, j: usize) -> (r: u16)
        requires
            self.wf(),
            i < self.size,
            j < self.size,
        ensures
            r as int == self.spec_at(i as int, j as int),
            (r as int) < self.size as int,
    {
        proof {
            assert(i * self.size + j < self.size * self.size && self.size * self.size
                <= 0xFFFE0001) by (nonlinear_arith)
                requires
                    i < self.size && j < self.size && self.size <= 0xFFFF,
            ;
        }
        self.cells[i * self.size + j]
    }
}

/// The product of elements `i` and `j` rescales exactly, is non-zero, and has
/// its canonical form stored: exactly what one cell of the transition table
/// needs.
pub open spec fn cell_total(g: GroupTable, i: int, j: int) -> bool {
    &&& step_ok(g.mats@[i]@, g.mats@[j]@, g.dim as nat)
&&& has_nz(prod_half(g.mats@[i]@, g.mats@[j]@, g.dim as nat))
&&& g.contains(canon_seq(prod_half(g.mats@[i]@, g.mats@[j]@, g.dim as nat)))
}

/// Cell `(i, j)` of table `t` holds the id of the canonical product of
/// elements `i` and `j` of `g`.
pub open spec fn cell_matches(g: GroupTable, t: TransTable, i: int, j: int) -> bool {
    &&& t.spec_at(i, j) < g.mats@.len()
&&& g.mats@[t.spec_at(i, j)]@ == canon_seq(prod_half(g.mats@[i]@, g.mats@[j]@, g.dim as nat))
}

/// Builds the dense transition table of a discovered group: for every pair of
/// ids, the canonical product is computed and looked up.  A missing canonical
/// form means the closure was incomplete and is reported as a fatal error,
/// never silently truncated.
pub fn generate_lut(g: &GroupTable) -> (r: Result<TransTable, GroupError>)
    requires
        g.wf(),
        g.mats@.len() >= 1,
    ensures
        (r is Ok <==> (forall|i: int, j: int|
            0 <= i < g.mats@.len() && 0 <= j < g.mats@.len() ==> #[trigger] cell_total(
                *g,
                i,
                j,
            ))),
        (r matches Ok(t) ==> t.wf() && t.size == g.mats@.len() && (forall|i: int, j: int|
            0 <= i < g.mats@.len() && 0 <= j < g.mats@.len() ==> #[trigger] cell_matches(
                *g,
                t,
                i,
                j,
            ))),
        (r matches Err(e) ==> (e == GroupError::OddEntry || e == GroupError::EntryOutOfRange
            || e == GroupError::ZeroMatrix || e == GroupError::MissingProduct)),
{
    let size = g.len();
    let mut cells: Vec<u16> = Vec::new();
    let mut i: usize = 0;
    while i < size
        invariant
            g.wf(),
            size == g.mats@.len(),
            1 <= size <= GROUP_LIMIT,
            i <= size,
            cells@.len() == i * size,
            forall|ii: int, jj: int|
                0 <= ii < size && 0 <= jj < size && ii * (size as int) + jj < cells@.len()
                    ==> #[trigger] cell_total(*g, ii, jj) && cell_matches(
                    *g,
                    TransTable { size, cells },
                    ii,
                    jj,
                ),
        decreases size - i,
    {
        let mut j: usize = 0;
        while j < size
            invariant
                g.wf(),
                size == g.mats@.len(),
                1 <= size <= GROUP_LIMIT,
                i < size,
                j <= size,
                cells@.len() == i * size + j,
                forall|ii: int, jj: int|
                    0 <= ii < size && 0 <= jj < size && ii * (size as int) + jj < cells@.len()
                        ==> #[trigger] cell_total(*g, ii, jj) && cell_matches(
                        *g,
                        TransTable { size, cells },
                        ii,
                        jj,
                    ),
            decreases size - j,
        {
            let prod = match dot(&g.mats[i], &g.mats[j]) {
                Ok(m) => m,
                Err(e) => {
                    proof {
                        assert(!cell_total(*g, i as int, j as int));
                    }
                    return Err(e);
                },
            };
            let c = match canonicalized(&prod) {
                Ok(c) => c,
                Err(e) => {
                    proof {
                        assert(!cell_total(*g, i as int, j as int));
                    }
                    return Err(e);
                },
            };
            let id = match g.lookup(&c) {
                Some(id) => id,
                None => {
                    proof {
                        assert(!cell_total(*g, i as int, j as int));
                    }
                    return Err(GroupError::MissingProduct);
                },
            };
            let ghost cpre = cells;
            cells.push(id as u16);
            proof {
                assert(cell_total(*g, i as int, j as int));
                let t = TransTable { size, cells };
                assert(t.spec_at(i as int, j as int) == id);
                assert(cell_matches(*g, t, i as int, j as int));
                assert forall|ii: int, jj: int|
                    0 <= ii < size && 0 <= jj < size && ii * (size as int) + jj
                        < cells@.len() implies #[trigger] cell_total(*g, ii, jj) && cell_matches(
                    *g,
                    t,
                    ii,
                    jj,
                ) by {
                    if ii * (size as int) + jj == cells@.len() - 1 {
                        assert(ii == i as int && jj == j as int) by (nonlinear_arith)
                            requires
                                0 <= ii < size && 0 <= jj < size && 0 <= i < size && 0 <= j < size
                                    && ii * (size as int) + jj == i as int * (size as int)
                                    + j as int,
                        ;
                    } else {
                        assert(cpre@.len() + 1 == cells@.len());
                        assert(ii * (size as int) + jj < cpre@.len());
                        assert(cell_total(*g, ii, jj));
                        assert(cell_matches(*g, TransTable { size, cells: cpre }, ii, jj));
                        assert(t.spec_at(ii, jj) == TransTable {
                            size,
                            cells: cpre,
                        }.spec_at(ii, jj));
                    }
                }
            }
            j += 1;
        }
        i += 1;
        proof {
            assert((i - 1) * (size as int) + size == i * (size as int)) by (nonlinear_arith);
        }
    }
    let t = TransTable { size, cells };
    proof {
        assert forall|ii: int, jj: int|
            0 <= ii < g.mats@.len() && 0 <= jj < g.mats@.len() implies #[trigger] cell_total(
            *g,
            ii,
            jj,
        ) by {
            assert(ii * (size as int) + jj < cells@.len()) by (nonlinear_arith)
                requires
                    0 <= ii < size && 0 <= jj < size && cells@.len() == (size as int) * (
                    size as int),
            ;
        }
        assert forall|ii: int, jj: int|
            0 <= ii < g.mats@.len() && 0 <= jj < g.mats@.len() implies #[trigger] cell_matches(
            *g,
            t,
            ii,
            jj,
        ) by {
            assert(ii * (size as int) + jj < cells@.len()) by (nonlinear_arith)
                requires
                    0 <= ii < size && 0 <= jj < size && cells@.len() == (size as int) * (
                    size as int),
            ;
            assert(cell_total(*g, ii, jj));
        }
        assert forall|tt: int| 0 <= tt < t.cells@.len() implies (#[trigger] t.cells@[tt])
            < t.size by {
            let nn = size as int;
            vstd::arithmetic::div_mod::lemma_fundamental_div_mod(tt, nn);
            vstd::arithmetic::div_mod::lemma_mod_bound(tt, nn);
            let ii = tt / nn;
            let jj = tt % nn;
            assert(0 <= ii < nn) by (nonlinear_arith)
                requires
                    0 <= tt < nn * nn && tt == nn * ii + jj && 0 <= jj < nn,
            ;
            assert(ii * (size as int) + jj == tt) by (nonlinear_arith)
                requires
                    tt == nn * ii + jj && size as int == nn,
            ;
            assert(cell_total(*g, ii, jj));
            assert(cell_matches(*g, t, ii, jj));
        }
    }
    Ok(t)
}

/// On a generator column no table-builder lookup can fail: for any element
/// id `i` and the stored canonical form of any generator, the product
/// rescales exactly, is non-zero, and its canonical form is already stored.
/// This follows from the closure fixed point and from phase invariance,
/// because the stored form of a generator differs from the raw generator
/// only by a global phase.
pub proof fn lemma_generator_column_total(
    g: GroupTable,
    gens: Seq<Mat>,
    i: int,
    j: int,
    jg: int,
)
    requires
        g.wf(),
        closed(g, gens),
        0 <= i < g.mats@.len(),
        0 <= j < gens.len(),
        gens[j].wf(),
        gens[j].n == g.dim,
        has_nz(gens[j]@),
        0 <= jg < g.mats@.len(),
        g.mats@[jg]@ == canon_seq(gens[j]@),
    ensures
        cell_total(g, i, jg),
{
    let d = g.dim as nat;
    let e = g.mats@[i]@;
    let gj = gens[j]@;
    lemma_closure_fixed_point(g, gens, i, j);
    lemma_first_nz(gj);
    let kk = offset4(gj[first_nz(gj)]);
    lemma_offset4_works(gj[first_nz(gj)]);
    assert(g.mats@[jg]@ == rot_all(gj, kk));
    assert(gj.len() == d * d);
    lemma_step_rot_right(e, gj, d, kk);
    let ph = prod_half(e, gj, d);
    lemma_has_nz_rotk(ph, kk);
    lemma_canon_phase(ph, kk);
    assert(prod_half(e, g.mats@[jg]@, d) == rot_all(ph, kk));
}

/// Multiplying any discovered element by the identity generator, stored as
/// its canonical form, yields the same element's id: the identity column of
/// the transition table is the identity map on ids.
pub proof fn lemma_identity_column(g: GroupTable, t: TransTable, i: int, j: int)
    requires
        g.wf(),
        cell_matches(g, t, i, j),
        0 <= i < g.mats@.len(),
        0 <= j < g.mats@.len(),
        g.mats@[j]@ == canon_seq(scaled_id(g.dim as nat)),
    ensures
        t.spec_at(i, j) == i,
{
    let d = g.dim as nat;
    let e = g.mats@[i]@;
    let sid = scaled_id(d);
    vstd::arithmetic::div_mod::lemma_fundamental_div_mod_converse(0, d as int, 0, 0);
    assert(sid[0] == (GC { re: 2, im: 0 }));
    assert(has_nz(sid));
    lemma_first_nz(sid);
    let kk = offset4(sid[first_nz(sid)]);
    lemma_offset4_works(sid[first_nz(sid)]);
    assert(g.mats@[j]@ == rot_all(sid, kk));
    assert(e.len() == d * d);
    lemma_prod_id(e, d);
    lemma_step_rot_right(e, sid, d, kk);
    assert(prod_half(e, g.mats@[j]@, d) == rot_all(e, kk));
    assert(is_canon(e));
    lemma_canon_phase(e, kk);
    assert(canon_seq(prod_half(e, g.mats@[j]@, d)) == e);
    let c = t.spec_at(i, j);
    assert(g.mats@[c]@ == g.mats@[i]@);
    if c < i {
        assert(g.mats@[c]@ != g.mats@[i]@);
    }
    if i < c {
        assert(g.mats@[i]@ != g.mats@[c]@);
    }
}

/// The mirror image: multiplying the identity generator, stored as its
/// canonical form, by any discovered element yields that element's id, so
/// the identity row of the transition table is the identity map on ids.
pub proof fn lemma_identity_row(g: GroupTable, t: TransTable, i: int, j: int)
    requires
        g.wf(),
        cell_matches(g, t, i, j),
        0 <= i < g.mats@.len(),
        0 <= j < g.mats@.len(),
        g.mats@[i]@ == canon_seq(scaled_id(g.dim as nat)),
    ensures
        t.spec_at(i, j) == j,
{
    let d = g.dim as nat;
    let e = g.mats@[j]@;
    let sid = scaled_id(d);
    vstd::arithmetic::div_mod::lemma_fundamental_div_mod_converse(0, d as int, 0, 0);
    assert(sid[0] == (GC { re: 2, im: 0 }));
    assert(has_nz(sid));
    lemma_first_nz(sid);
    let kk = offset4(sid[first_nz(sid)]);
    lemma_offset4_works(sid[first_nz(sid)]);
    assert(g.mats@[i]@ == rot_all(sid, kk));
    assert(e.len() == d * d);
    lemma_prod_id_left(e, d);
    lemma_step_rot_left(sid, e, d, kk);
    assert(prod_half(g.mats@[i]@, e, d) == rot_all(e, kk));
    assert(is_canon(e));
    lemma_canon_phase(e, kk);
    assert(canon_seq(prod_half(g.mats@[i]@, g.mats@[j]@, d)) == e);
    let c = t.spec_at(i, j);
    assert(g.mats@[c]@ == g.mats@[j]@);
    if c < j {
        assert(g.mats@[c]@ != g.mats@[j]@);
    }
    if j < c {
        assert(g.mats@[j]@ != g.mats@[c]@);
    }
}

} // verus!
