//! The fixed two-qubit generator set: stabilizer-circuit gates, each
//! pre-multiplied by the common scale factor so that every entry is an exact
//! Gaussian integer.

use crate::matrix::{indisk, scaled_id, CNum, Mat, GC};
use vstd::prelude::*;

verus! {

/// Entries of the generator set lie in the magnitude disk: each is either on
/// an axis with magnitude at most the scale factor, or has both coordinates
/// of magnitude one.
proof fn lemma_entry_disk(c: GC)
    requires
        -2 <= c.re <= 2,
        -2 <= c.im <= 2,
        c.re == 0 || c.im == 0 || (-1 <= c.re <= 1 && -1 <= c.im <= 1),
    ensures
        indisk(c),
{
    assert(c.re * c.re + c.im * c.im <= 4) by (nonlinear_arith)
        requires
            -2 <= c.re <= 2 && -2 <= c.im <= 2 && (c.re == 0 || c.im == 0 || (-1 <= c.re <= 1
                && -1 <= c.im <= 1)),
    ;
}

/// One spec-level entry value.
pub open spec fn gcv(re: int, im: int) -> GC {
    GC { re, im }
}

/// The entries of the scaled phase gate on the first qubit.
pub open spec fn sz1_spec() -> Seq<GC> {
    seq![
        gcv(2, 0), gcv(0, 0), gcv(0, 0), gcv(0, 0),
        gcv(0, 0), gcv(0, 2), gcv(0, 0), gcv(0, 0),
        gcv(0, 0), gcv(0, 0), gcv(2, 0), gcv(0, 0),
        gcv(0, 0), gcv(0, 0), gcv(0, 0), gcv(0, 2),
    ]
}

/// The entries of the scaled square-root-of-X gate on the first qubit.
pub open spec fn sx1_spec() -> Seq<GC> {
    seq![
        gcv(1, 1), gcv(1, -1), gcv(0, 0), gcv(0, 0),
        gcv(1, -1), gcv(1, 1), gcv(0, 0), gcv(0, 0),
        gcv(0, 0), gcv(0, 0), gcv(1, 1), gcv(1, -1),
        gcv(0, 0), gcv(0, 0), gcv(1, -1), gcv(1, 1),
    ]
}

/// The entries of the scaled square-root-of-X gate on the second qubit.
pub open spec fn sx2_spec() -> Seq<GC> {
    seq![
        gcv(1, 1), gcv(0, 0), gcv(1, -1), gcv(0, 0),
        gcv(0, 0), gcv(1, 1), gcv(0, 0), gcv(1, -1),
        gcv(1, -1), gcv(0, 0), gcv(1, 1), gcv(0, 0),
        gcv(0, 0), gcv(1, -1), gcv(0, 0), gcv(1, 1),
    ]
}

/// The entries of the scaled phase gate on the second qubit.
pub open spec fn sz2_spec() -> Seq<GC> {
    seq![
        gcv(2, 0), gcv(0, 0), gcv(0, 0), gcv(0, 0),
        gcv(0, 0), gcv(2, 0), gcv(0, 0), gcv(0, 0),
        gcv(0, 0), gcv(0, 0), gcv(0, 2), gcv(0, 0),
        gcv(0, 0), gcv(0, 0), gcv(0, 0), gcv(0, 2),
    ]
}

/// The entries of the scaled controlled-NOT gate.
pub open spec fn cnot_spec() -> Seq<GC> {
    seq![
        gcv(2, 0), gcv(0, 0), gcv(0, 0), gcv(0, 0),
        gcv(0, 0), gcv(2, 0), gcv(0, 0), gcv(0, 0),
        gcv(0, 0), gcv(0, 0), gcv(0, 0), gcv(2, 0),
        gcv(0, 0), gcv(0, 0), gcv(2, 0), gcv(0, 0),
    ]
}

/// Builds one entry.
fn cn(re: i64, im: i64) -> (r: CNum)
    ensures
        r.re == re && r.im == im,
{
    CNum { re, im }
}

/// A 4 by 4 matrix from sixteen entries, checked well-formed.
fn mat4(entries: Vec<CNum>) -> (r: Mat)
    requires
        entries@.len() == 16,
        forall|k: int| 0 <= k < 16 ==> indisk(#[trigger] entries@[k]@),
    ensures
        r.wf(),
        r.n == 4,
        r.e@ == entries@,
{
    Mat { n: 4, e: entries }
}

/// The scaled identity: twice the 4 by 4 identity matrix.
pub fn id() -> (r: Mat)
    ensures
        r.wf(),
        r.n == 4,
        r@ == scaled_id(4),
{
    let e = vec![
        cn(2, 0), cn(0, 0), cn(0, 0), cn(0, 0),
        cn(0, 0), cn(2, 0), cn(0, 0), cn(0, 0),
        cn(0, 0), cn(0, 0), cn(2, 0), cn(0, 0),
        cn(0, 0), cn(0, 0), cn(0, 0), cn(2, 0),
    ];
    proof {
        assert forall|k: int| 0 <= k < 16 implies indisk(#[trigger] e@[k]@) by {
            lemma_entry_disk(e@[k]@);
        }
    }
    let m = mat4(e);
    proof {
        assert forall|t: int| 0 <= t < 16 implies m@[t] == scaled_id(4)[t] by {
            vstd::arithmetic::div_mod::lemma_fundamental_div_mod(t, 4);
            vstd::arithmetic::div_mod::lemma_mod_bound(t, 4);
        }
        assert(m@ =~= scaled_id(4));
    }
    m
}

/// The scaled phase gate on the first qubit: `diag(1, i, 1, i)` times the
/// scale factor.
pub fn sz1() -> (r: Mat)
    ensures
        r.wf(),
        r.n == 4,
        r@ == sz1_spec(),
{
    let e = vec![
        cn(2, 0), cn(0, 0), cn(0, 0), cn(0, 0),
        cn(0, 0), cn(0, 2), cn(0, 0), cn(0, 0),
        cn(0, 0), cn(0, 0), cn(2, 0), cn(0, 0),
        cn(0, 0), cn(0, 0), cn(0, 0), cn(0, 2),
    ];
    proof {
        assert forall|k: int| 0 <= k < 16 implies indisk(#[trigger] e@[k]@) by {
            lemma_entry_disk(e@[k]@);
        }
    }
    let m = mat4(e);
    proof {
        assert(m@ =~= sz1_spec());
    }
    m
}

/// The scaled square-root-of-X gate on the first qubit: entries `1 + i` and
/// `1 - i`, already carrying the scale factor.
pub fn sx1() -> (r: Mat)
    ensures
        r.wf(),
        r.n == 4,
        r@ == sx1_spec(),
{
    let e = vec![
        cn(1, 1), cn(1, -1), cn(0, 0), cn(0, 0),
        cn(1, -1), cn(1, 1), cn(0, 0), cn(0, 0),
        cn(0, 0), cn(0, 0), cn(1, 1), cn(1, -1),
        cn(0, 0), cn(0, 0), cn(1, -1), cn(1, 1),
    ];
    proof {
        assert forall|k: int| 0 <= k < 16 implies indisk(#[trigger] e@[k]@) by {
            lemma_entry_disk(e@[k]@);
        }
    }
    let m = mat4(e);
    proof {
        assert(m@ =~= sx1_spec());
    }
    m
}

/// The scaled square-root-of-X gate on the second qubit.
pub fn sx2() -> (r: Mat)
    ensures
        r.wf(),
        r.n == 4,
        r@ == sx2_spec(),
{
    let e = vec![
        cn(1, 1), cn(0, 0), cn(1, -1), cn(0, 0),
        cn(0, 0), cn(1, 1), cn(0, 0), cn(1, -1),
        cn(1, -1), cn(0, 0), cn(1, 1), cn(0, 0),
        cn(0, 0), cn(1, -1), cn(0, 0), cn(1, 1),
    ];
    proof {
        assert forall|k: int| 0 <= k < 16 implies indisk(#[trigger] e@[k]@) by {
            lemma_entry_disk(e@[k]@);
        }
    }
    let m = mat4(e);
    proof {
        assert(m@ =~= sx2_spec());
    }
    m
}

/// The scaled phase gate on the second qubit: `diag(1, 1, i, i)` times the
/// scale factor.
pub fn sz2() -> (r: Mat)
    ensures
        r.wf(),
        r.n == 4,
        r@ == sz2_spec(),
{
    let e = vec![
        cn(2, 0), cn(0, 0), cn(0, 0), cn(0, 0),
        cn(0, 0), cn(2, 0), cn(0, 0), cn(0, 0),
        cn(0, 0), cn(0, 0), cn(0, 2), cn(0, 0),
        cn(0, 0), cn(0, 0), cn(0, 0), cn(0, 2),
    ];
    proof {
        assert forall|k: int| 0 <= k < 16 implies indisk(#[trigger] e@[k]@) by {
            lemma_entry_disk(e@[k]@);
        }
    }
    let m = mat4(e);
    proof {
        assert(m@ =~= sz2_spec());
    }
    m
}

/// The scaled controlled-NOT gate: a permutation of the last two basis
/// states, times the scale factor.
pub fn cnot() -> (r: Mat)
    ensures
        r.wf(),
        r.n == 4,
        r@ == cnot_spec(),
{
    let e = vec![
        cn(2, 0), cn(0, 0), cn(0, 0), cn(0, 0),
        cn(0, 0), cn(2, 0), cn(0, 0), cn(0, 0),
        cn(0, 0), cn(0, 0), cn(0, 0), cn(2, 0),
        cn(0, 0), cn(0, 0), cn(2, 0), cn(0, 0),
    ];
    proof {
        assert forall|k: int| 0 <= k < 16 implies indisk(#[trigger] e@[k]@) by {
            lemma_entry_disk(e@[k]@);
        }
    }
    let m = mat4(e);
    proof {
        assert(m@ =~= cnot_spec());
    }
    m
}

/// The full two-qubit generator list, in the id order the closure will give
/// them.
pub fn generators() -> (r: Vec<Mat>)
    ensures
        r@.len() == 5,
        forall|j: int| 0 <= j < 5 ==> (#[trigger] r@[j]).wf() && r@[j].n == 4,
        r@[0]@ == sz1_spec(),
        r@[1]@ == sx1_spec(),
        r@[2]@ == sz2_spec(),
        r@[3]@ == sx2_spec(),
        r@[4]@ == cnot_spec(),
{
    let mut v: Vec<Mat> = Vec::new();
    v.push(sz1());
    v.push(sx1());
    v.push(sz2());
    v.push(sx2());
    v.push(cnot());
    v
}

} // verus!
