//! Scaled complex numbers and square matrices over them, with exact integer
//! arithmetic, the phase-rotation canonicalization rule, and the
//! multiplication-with-rescale step used to build the group.

use vstd::prelude::*;

verus! {

/// One complex entry of a scaled matrix: `re + im * i`, both parts exact
/// integers.  Generator matrices are pre-multiplied by the scale factor
/// [`SCALE`], which keeps every product of group elements integral.
#[derive(Clone, Copy, PartialEq, Eq, Structural, Debug)]
pub struct CNum {
    pub re: i64,
    pub im: i64,
}

/// The mathematical value of a [`CNum`]: a Gaussian integer with unbounded
/// parts, used by all specifications.
pub ghost struct GC {
    pub re: int,
    pub im: int,
}

impl View for CNum {
    type V = GC;

    open spec fn view(&self) -> GC {
        GC { re: self.re as int, im: self.im as int }
    }
}

/// The common scale factor of all generator matrices: entries are stored
/// doubled so that rescaled products stay integral.
pub const SCALE: i64 = 2;

/// Squared-magnitude bound on every entry of a well-formed matrix: a scaled
/// unitary row has squared norm `SCALE * SCALE`, so no single entry exceeds it.
pub const NORM_BOUND: i64 = SCALE * SCALE;

pub open spec fn czero(c: GC) -> bool {
    c.re == 0 && c.im == 0
}

/// Multiplication by the phase factor `i`.
pub open spec fn rot1(c: GC) -> GC {
    GC { re: -c.im, im: c.re }
}

/// Multiplication by `i` applied `k` times.
pub open spec fn rotk(c: GC, k: nat) -> GC
    decreases k,
{
    if k == 0 {
        c
    } else {
        rot1(rotk(c, (k - 1) as nat))
    }
}

/// The canonical half-plane: the unique phase rotation of a non-zero entry
/// with `re >= 0` and `im > 0` defines the representative of a phase class.
pub open spec fn in_half(c: GC) -> bool {
    c.re >= 0 && c.im > 0
}

/// How many multiplications by `i` rotate `c` into the canonical half-plane.
pub open spec fn offset4(c: GC) -> nat {
    if in_half(c) {
        0
    } else if in_half(rotk(c, 1)) {
        1
    } else if in_half(rotk(c, 2)) {
        2
    } else {
        3
    }
}

pub proof fn lemma_rotk_unfold(c: GC)
    ensures
        rotk(c, 0) == c,
        rotk(c, 1) == (GC { re: -c.im, im: c.re }),
        rotk(c, 2) == (GC { re: -c.re, im: -c.im }),
        rotk(c, 3) == (GC { re: c.im, im: -c.re }),
        rotk(c, 4) == c,
{
    assert(rotk(c, 1) == rot1(rotk(c, 0)));
    assert(rotk(c, 2) == rot1(rotk(c, 1)));
    assert(rotk(c, 3) == rot1(rotk(c, 2)));
    assert(rotk(c, 4) == rot1(rotk(c, 3)));
}

/// A non-zero entry lands in the canonical half-plane after exactly
/// `offset4(c)` rotations, and no other rotation count below four works.
pub proof fn lemma_offset4_works(c: GC)
    requires
        !czero(c),
    ensures
        offset4(c) < 4,
        in_half(rotk(c, offset4(c))),
{
    lemma_rotk_unfold(c);
}

pub proof fn lemma_offset4_unique(c: GC, k: nat)
    requires
        k < 4,
        in_half(rotk(c, k)),
    ensures
        k == offset4(c),
{
    lemma_rotk_unfold(c);
}

/// Rotating by `i` preserves the zero test and the squared magnitude.
pub proof fn lemma_rotk_preserves(c: GC, k: nat)
    ensures
        czero(rotk(c, k)) <==> czero(c),
        rotk(c, k).re * rotk(c, k).re + rotk(c, k).im * rotk(c, k).im == c.re * c.re + c.im
            * c.im,
    decreases k,
{
    if k > 0 {
        lemma_rotk_preserves(c, (k - 1) as nat);
        let d = rotk(c, (k - 1) as nat);
        assert(rot1(d).re * rot1(d).re + rot1(d).im * rot1(d).im == d.re * d.re + d.im * d.im)
            by (nonlinear_arith);
    }
}

/// Rotation counts add up: `k` rotations after `j` rotations equal `j + k`.
pub proof fn lemma_rotk_add(c: GC, j: nat, k: nat)
    ensures
        rotk(rotk(c, j), k) == rotk(c, j + k),
    decreases k,
{
    if k > 0 {
        lemma_rotk_add(c, j, (k - 1) as nat);
    }
}

/// Four rotations are the identity, so any count may be reduced modulo 4.
pub proof fn lemma_rotk_mod4(c: GC, k: nat)
    ensures
        rotk(c, k) == rotk(c, (k % 4) as nat),
    decreases k,
{
    if k >= 4 {
        lemma_rotk_unfold(rotk(c, (k - 4) as nat));
        lemma_rotk_add(c, (k - 4) as nat, 4);
        lemma_rotk_mod4(c, (k - 4) as nat);
    }
}

/// An entry lies in the closed disk of squared radius [`NORM_BOUND`].
pub open spec fn indisk(c: GC) -> bool {
    c.re * c.re + c.im * c.im <= NORM_BOUND
}

pub proof fn lemma_disk_bounds(c: GC)
    requires
        indisk(c),
    ensures
        -2 <= c.re <= 2,
        -2 <= c.im <= 2,
{
    assert(-2 <= c.re <= 2 && -2 <= c.im <= 2) by (nonlinear_arith)
        requires
            c.re * c.re + c.im * c.im <= 4,
    ;
}

/// A square matrix of scaled complex entries, stored row-major.
#[derive(Clone, Debug)]
pub struct Mat {
    /// Side length of the square matrix.
    pub n: usize,
    /// The `n * n` entries, row-major: entry `(i, j)` sits at `i * n + j`.
    pub e: Vec<CNum>,
}

impl View for Mat {
    type V = Seq<GC>;

    open spec fn view(&self) -> Seq<GC> {
        Seq::new(self.e@.len() as nat, |i: int| self.e@[i]@)
    }
}

impl Mat {
    /// Shape and entry-magnitude invariant: a small square grid whose entries
    /// all lie in the disk that scaled-unitary rows allow.
    pub open spec fn wf(&self) -> bool {
        &&& 1 <= self.n <= 4
    &&& self.e@.len() == self.n * self.n
    &&& forall|k: int| 0 <= k < self@.len() ==> indisk(self@[k])
    }

    /// Builds a matrix after checking the well-formedness conditions.
    pub fn new(n: usize, entries: Vec<CNum>) -> (r: Option<Mat>)
        ensures
            (r matches Some(m) ==> m.wf() && m.n == n && m.e@ == entries@),
            r is Some <==> (1 <= n <= 4 && entries@.len() == n * n && (forall|k: int|
                0 <= k < entries@.len() ==> indisk(#[trigger] entries@[k]@))),
    {
        if n < 1 || n > 4 {
            return None;
        }
        proof {
            assert(n * n <= 16) by (nonlinear_arith)
                requires
                    n <= 4,
            ;
        }
        if entries.len() != n * n {
            return None;
        }
        let mut k: usize = 0;
        while k < entries.len()
            invariant
                k <= entries@.len(),
                forall|i: int| 0 <= i < k ==> indisk(#[trigger] entries@[i]@),
            decreases entries@.len() - k,
        {
            let c = entries[k];
            if c.re < -2 || c.re > 2 || c.im < -2 || c.im > 2 {
                proof {
                    if indisk(c@) {
                        lemma_disk_bounds(c@);
                    }
                }
                return None;
            }
            proof {
                assert(0 <= c.re * c.re <= 4 && 0 <= c.im * c.im <= 4) by (nonlinear_arith)
                    requires
                        -2 <= c.re <= 2 && -2 <= c.im <= 2,
                ;
            }
            if c.re * c.re + c.im * c.im > NORM_BOUND {
                proof {
                    assert(entries@[k as int]@ == c@);
                    assert(!indisk(entries@[k as int]@));
                }
                return None;
            }
            k += 1;
        }
        let m = Mat { n, e: entries };
        proof {
            assert(forall|i: int| 0 <= i < m@.len() ==> indisk(m@[i]));
        }
        Some(m)
    }
}

/// Whether a matrix (viewed as its flat entry sequence) has a non-zero entry;
/// only such matrices can stand for group elements.
pub open spec fn has_nz(s: Seq<GC>) -> bool {
    exists|i: int| 0 <= i < s.len() && !czero(s[i])
}

/// Index of the first non-zero entry in row-major order; the reference entry
/// of the canonicalization rule.
pub open spec fn first_nz(s: Seq<GC>) -> int
    decreases s.len(),
{
    if s.len() == 0 {
        0
    } else if !czero(s[0]) {
        0
    } else {
        1 + first_nz(s.subrange(1, s.len() as int))
    }
}

pub proof fn lemma_first_nz(s: Seq<GC>)
    requires
        has_nz(s),
    ensures
        0 <= first_nz(s) < s.len(),
        !czero(s[first_nz(s)]),
        forall|i: int| 0 <= i < first_nz(s) ==> czero(s[i]),
    decreases s.len(),
{
    if czero(s[0]) {
        let t = s.subrange(1, s.len() as int);
        let w = choose|i: int| 0 <= i < s.len() && !czero(s[i]);
        assert(t[w - 1] == s[w]);
        lemma_first_nz(t);
        assert(s[first_nz(s)] == t[first_nz(t)]);
        assert forall|i: int| 0 <= i < first_nz(s) implies czero(s[i]) by {
            if i >= 1 {
                assert(s[i] == t[i - 1]);
            }
        }
    }
}

/// Two matrices whose entries are zero in exactly the same positions share the
/// same reference-entry index.
pub proof fn lemma_first_nz_same_pattern(s: Seq<GC>, t: Seq<GC>)
    requires
        s.len() == t.len(),
        forall|i: int| 0 <= i < s.len() ==> (czero(s[i]) <==> czero(t[i])),
    ensures
        first_nz(s) == first_nz(t),
    decreases s.len(),
{
    if s.len() > 0 && czero(s[0]) {
        let s1 = s.subrange(1, s.len() as int);
        let t1 = t.subrange(1, t.len() as int);
        assert(forall|i: int| 0 <= i < s1.len() ==> (czero(s1[i]) <==> czero(t1[i])));
        lemma_first_nz_same_pattern(s1, t1);
    }
}

/// Every entry rotated `k` times: multiplication of the whole matrix by the
/// phase factor `i^k`.
pub open spec fn rot_all(s: Seq<GC>, k: nat) -> Seq<GC> {
    Seq::new(s.len(), |i: int| rotk(s[i], k))
}

/// The canonical representative of a phase class: the whole matrix rotated by
/// however many factors of `i` bring its first non-zero entry into the
/// canonical half-plane.
pub open spec fn canon_seq(s: Seq<GC>) -> Seq<GC> {
    rot_all(s, offset4(s[first_nz(s)]))
}

/// Everything that can go wrong while building the group; each variant names
/// one violated internal invariant of the construction.
#[derive(Clone, Copy, PartialEq, Eq, Structural, Debug)]
pub enum GroupError {
    /// A product entry was not exactly divisible by the scale factor.
    OddEntry,
    /// A rescaled product entry left the magnitude disk of scaled unitaries.
    EntryOutOfRange,
    /// A matrix without a non-zero entry cannot stand for a group element.
    ZeroMatrix,
    /// A canonical product was missing from a table that should be closed.
    MissingProduct,
    /// The group outgrew the id space of the transition table.
    TooManyElements,
}

/// How many multiplications by the phase factor `i` rotate the first non-zero
/// entry of `m` into the canonical half-plane.
pub fn calc_offset(m: &Mat) -> (r: Result<usize, GroupError>)
    ensures
        r is Ok <==> has_nz(m@),
        (r matches Ok(k) ==> k == offset4(m@[first_nz(m@)]) && k < 4),
        (r matches Err(e) ==> e == GroupError::ZeroMatrix),
{
    let mut f: usize = 0;
    while f < m.e.len() && m.e[f].re == 0 && m.e[f].im == 0
        invariant
            f <= m.e@.len(),
            forall|i: int| 0 <= i < f ==> czero(m@[i]),
        decreases m.e@.len() - f,
    {
        f += 1;
    }
    if f == m.e.len() {
        return Err(GroupError::ZeroMatrix);
    }
    let c = m.e[f];
    proof {
        assert(c@ == m@[f as int]);
        assert(!czero(m@[f as int]));
        lemma_first_nz(m@);
        assert(first_nz(m@) == f) by {
            if first_nz(m@) < f {
                assert(czero(m@[first_nz(m@)]));
            }
            if first_nz(m@) > f {
                assert(czero(m@[f as int]));
            }
        }
    }
    let k: usize = if c.re >= 0 && c.im > 0 {
        0
    } else if c.re > 0 && c.im <= 0 {
        1
    } else if c.re <= 0 && c.im < 0 {
        2
    } else {
        3
    };
    proof {
        lemma_rotk_unfold(c@);
    }
    Ok(k)
}

/// One entry rotated `k` times by the phase factor `i`, executably.
fn rot_cnum(c: CNum, k: usize) -> (r: CNum)
    requires
        k < 4,
        -2 <= c.re <= 2,
        -2 <= c.im <= 2,
    ensures
        r@ == rotk(c@, k as nat),
{
    proof {
        lemma_rotk_unfold(c@);
    }
    if k == 0 {
        c
    } else if k == 1 {
        CNum { re: -c.im, im: c.re }
    } else if k == 2 {
        CNum { re: -c.re, im: -c.im }
    } else {
        CNum { re: c.im, im: -c.re }
    }
}

/// The canonical representative of `m`'s phase class, as a fresh matrix.
pub fn canonicalized(m: &Mat) -> (r: Result<Mat, GroupError>)
    requires
        m.wf(),
    ensures
        r is Ok <==> has_nz(m@),
        (r matches Ok(c) ==> c.n == m.n && c@ == canon_seq(m@) && c.wf() && has_nz(c@)),
        (r matches Err(e) ==> e == GroupError::ZeroMatrix),
{
    let k = match calc_offset(m) {
        Ok(k) => k,
        Err(e) => {
            return Err(e);
        },
    };
    let mut out: Vec<CNum> = Vec::new();
    let mut t: usize = 0;
    while t < m.e.len()
        invariant
            m.wf(),
            k < 4,
            t <= m.e@.len(),
            out@.len() == t,
            forall|i: int| 0 <= i < t ==> #[trigger] out@[i]@ == rotk(m@[i], k as nat),
        decreases m.e@.len() - t,
    {
        let c = m.e[t];
        proof {
            assert(indisk(m@[t as int]));
            lemma_disk_bounds(m@[t as int]);
        }
        out.push(rot_cnum(c, k));
        t += 1;
    }
    let r = Mat { n: m.n, e: out };
    proof {
        assert(r@ =~= rot_all(m@, k as nat));
        assert forall|i: int| 0 <= i < r@.len() implies indisk(r@[i]) by {
            lemma_rotk_preserves(m@[i], k as nat);
        }
        let w = choose|i: int| 0 <= i < m@.len() && !czero(m@[i]);
        lemma_rotk_preserves(m@[w], k as nat);
        assert(!czero(r@[w]));
    }
    Ok(r)
}

/// A matrix that is the chosen representative of its own phase class.
pub open spec fn is_canon(s: Seq<GC>) -> bool {
    has_nz(s) && canon_seq(s) == s
}

/// Canonicalization is idempotent: the representative of a phase class is its
/// own representative.
pub proof fn lemma_canon_idempotent(s: Seq<GC>)
    requires
        has_nz(s),
    ensures
        canon_seq(canon_seq(s)) == canon_seq(s),
        is_canon(canon_seq(s)),
{
    lemma_first_nz(s);
    let f = first_nz(s);
    let k = offset4(s[f]);
    lemma_offset4_works(s[f]);
    let s2 = canon_seq(s);
    assert forall|i: int| 0 <= i < s.len() implies (czero(s2[i]) <==> czero(s[i])) by {
        lemma_rotk_preserves(s[i], k);
    }
    lemma_first_nz_same_pattern(s2, s);
    assert(has_nz(s2)) by {
        lemma_rotk_preserves(s[f], k);
    }
    assert(s2[f] == rotk(s[f], k));
    lemma_offset4_unique(s2[f], 0);
    assert(canon_seq(s2) =~= s2);
}

/// Canonicalization ignores a global phase: multiplying a matrix by any of the
/// four phase factors `i^j` leaves its canonical form unchanged.
pub proof fn lemma_canon_phase(s: Seq<GC>, j: nat)
    requires
        has_nz(s),
        j < 4,
    ensures
        canon_seq(rot_all(s, j)) == canon_seq(s),
{
    lemma_first_nz(s);
    let f = first_nz(s);
    let k = offset4(s[f]);
    lemma_offset4_works(s[f]);
    let sj = rot_all(s, j);
    assert forall|i: int| 0 <= i < s.len() implies (czero(sj[i]) <==> czero(s[i])) by {
        lemma_rotk_preserves(s[i], j);
    }
    lemma_first_nz_same_pattern(sj, s);
    let k2 = (((k + 4) - j) % 4) as nat;
    assert((j + k2) % 4 == k);
    lemma_rotk_add(s[f], j, k2);
    lemma_rotk_mod4(s[f], j + k2);
    assert(in_half(rotk(sj[f], k2)));
    lemma_offset4_unique(sj[f], k2);
    assert forall|i: int| 0 <= i < s.len() implies rotk(sj[i], k2) == rotk(s[i], k) by {
        lemma_rotk_add(s[i], j, k2);
        lemma_rotk_mod4(s[i], j + k2);
    }
    assert(canon_seq(sj) =~= canon_seq(s));
}

pub open spec fn cadd(a: GC, b: GC) -> GC {
    GC { re: a.re + b.re, im: a.im + b.im }
}

/// Complex multiplication of two Gaussian integers.
pub open spec fn cmul(a: GC, b: GC) -> GC {
    GC { re: a.re * b.re - a.im * b.im, im: a.re * b.im + a.im * b.re }
}

/// Partial inner product: the first `k` terms of row `i` of `a` against
/// column `j` of `b`, both flat row-major sequences of an `n` by `n` matrix.
pub open spec fn pdot(a: Seq<GC>, b: Seq<GC>, n: nat, i: int, j: int, k: nat) -> GC
    decreases k,
{
    if k == 0 {
        GC { re: 0, im: 0 }
    } else {
        cadd(pdot(a, b, n, i, j, (k - 1) as nat), cmul(a[i * n + (k - 1)], b[(k - 1) * n + j]))
    }
}

/// Entry `(i, j)` of the full matrix product, before rescaling.
pub open spec fn prod_entry(a: Seq<GC>, b: Seq<GC>, n: nat, i: int, j: int) -> GC {
    pdot(a, b, n, i, j, n)
}

/// Both parts exactly divisible by the scale factor.
pub open spec fn evenc(c: GC) -> bool {
    c.re % 2 == 0 && c.im % 2 == 0
}

/// Both parts divided by the scale factor.
pub open spec fn halfc(c: GC) -> GC {
    GC { re: c.re / 2, im: c.im / 2 }
}

/// Every entry of the raw product of `a` and `b` rescales exactly.
pub open spec fn prod_all_even(a: Seq<GC>, b: Seq<GC>, n: nat) -> bool {
    forall|i: int, j: int|
        0 <= i < n && 0 <= j < n ==> evenc(#[trigger] prod_entry(a, b, n, i, j))
}

/// Every rescaled product entry stays inside the magnitude disk.
pub open spec fn prod_all_indisk(a: Seq<GC>, b: Seq<GC>, n: nat) -> bool {
    forall|i: int, j: int|
        0 <= i < n && 0 <= j < n ==> indisk(halfc(#[trigger] prod_entry(a, b, n, i, j)))
}

/// The multiplication-with-rescale step succeeds on this pair: the arithmetic
/// invariant of the group construction.
pub open spec fn step_ok(a: Seq<GC>, b: Seq<GC>, n: nat) -> bool {
    prod_all_even(a, b, n) && prod_all_indisk(a, b, n)
}

/// The rescaled matrix product, as a flat row-major sequence.
pub open spec fn prod_half(a: Seq<GC>, b: Seq<GC>, n: nat) -> Seq<GC> {
    Seq::new(n * n, |t: int| halfc(prod_entry(a, b, n, t / (n as int), t % (n as int))))
}

/// One product term of two disk entries is bounded by the disk radii.
proof fn lemma_cmul_bound(a: GC, b: GC)
    requires
        indisk(a),
        indisk(b),
    ensures
        -8 <= cmul(a, b).re <= 8,
        -8 <= cmul(a, b).im <= 8,
{
    lemma_disk_bounds(a);
    lemma_disk_bounds(b);
    assert(-8 <= a.re * b.re - a.im * b.im <= 8 && -8 <= a.re * b.im + a.im * b.re <= 8)
        by (nonlinear_arith)
        requires
            -2 <= a.re <= 2 && -2 <= a.im <= 2 && -2 <= b.re <= 2 && -2 <= b.im <= 2,
    ;
}

/// Exact halving of one doubled coordinate, with the parity check that the
/// rescale step demands.
fn half_exact(x: i64) -> (r: Option<i64>)
    requires
        -64 <= x <= 64,
    ensures
        r is Some <==> (x as int) % 2 == 0,
        (r matches Some(h) ==> h == (x as int) / 2),
{
    proof {
        vstd::arithmetic::div_mod::lemma_fundamental_div_mod(x as int, 2);
        vstd::arithmetic::div_mod::lemma_mod_bound(x as int, 2);
        vstd::arithmetic::div_mod::lemma_fundamental_div_mod_converse(
            x as int + 64,
            2,
            (x as int) / 2 + 32,
            (x as int) % 2,
        );
    }
    let y: u64 = (x + 64) as u64;
    if y % 2 == 0 {
        Some((y / 2) as i64 - 32)
    } else {
        None
    }
}

/// The standard matrix product of two same-sized square matrices, rescaled by
/// the common scale factor.  Fails loudly when an entry does not divide
/// exactly or leaves the magnitude disk: either means the inputs were not
/// scaled group elements.
pub fn dot(a: &Mat, b: &Mat) -> (r: Result<Mat, GroupError>)
    requires
        a.wf(),
        b.wf(),
        a.n == b.n,
    ensures
        r is Ok <==> step_ok(a@, b@, a.n as nat),
        (r matches Ok(m) ==> m.n == a.n && m@ == prod_half(a@, b@, a.n as nat) && m.wf()),
        ((r matches Err(e) && e == GroupError::OddEntry) <==> !prod_all_even(
            a@,
            b@,
            a.n as nat,
        )),
        ((r matches Err(e) && e == GroupError::EntryOutOfRange) <==> (prod_all_even(
            a@,
            b@,
            a.n as nat,
        ) && !prod_all_indisk(a@, b@, a.n as nat))),
{
    let n = a.n;
    let gn: Ghost<nat> = Ghost(n as nat);
    proof {
        assert(n * n <= 16) by (nonlinear_arith)
            requires
                n <= 4,
        ;
    }
    // First pass: the raw product, exact and unrescaled.
    let mut raw: Vec<CNum> = Vec::new();
    let mut i: usize = 0;
    while i < n
        invariant
            a.wf(),
            b.wf(),
            a.n == n && b.n == n,
            gn@ == n as nat,
            i <= n,
            raw@.len() == i * n,
            n * n <= 16,
            forall|ii: int, jj: int|
                0 <= ii < gn@ && 0 <= jj < gn@ && ii * gn@ + jj < raw@.len()
                    ==> (#[trigger] raw@[ii * gn@ + jj])@ == prod_entry(a@, b@, gn@, ii, jj)
                    && -32 <= raw@[ii * gn@ + jj].re <= 32 && -32 <= raw@[ii * gn@ + jj].im <= 32,
        decreases n - i,
    {
        let mut j: usize = 0;
        while j < n
            invariant
                a.wf(),
                b.wf(),
                a.n == n && b.n == n,
                gn@ == n as nat,
                i < n,
                j <= n,
                raw@.len() == i * n + j,
                n * n <= 16,
                forall|ii: int, jj: int|
                    0 <= ii < gn@ && 0 <= jj < gn@ && ii * gn@ + jj < raw@.len()
                        ==> (#[trigger] raw@[ii * gn@ + jj])@ == prod_entry(a@, b@, gn@, ii, jj)
                        && -32 <= raw@[ii * gn@ + jj].re <= 32 && -32 <= raw@[ii * gn@ + jj].im
                        <= 32,
            decreases n - j,
        {
            let mut re: i64 = 0;
            let mut im: i64 = 0;
            let mut k: usize = 0;
            while k < n
                invariant
                    a.wf(),
                    b.wf(),
                    a.n == n && b.n == n,
                    gn@ == n as nat,
                    i < n,
                    j < n,
                    k <= n,
                    n * n <= 16,
                    -8 * (k as int) <= re as int <= 8 * (k as int),
                    -8 * (k as int) <= im as int <= 8 * (k as int),
                    (GC { re: re as int, im: im as int }) == pdot(
                        a@,
                        b@,
                        gn@,
                        i as int,
                        j as int,
                        k as nat,
                    ),
                decreases n - k,
            {
                proof {
                    assert(i * n + k < n * n && k * n + j < n * n) by (nonlinear_arith)
                        requires
                            i < n && k < n && j < n,
                    ;
                }
                let x = a.e[i * n + k];
                let y = b.e[k * n + j];
                proof {
                    assert(x@ == a@[(i * n + k) as int]);
                    assert(y@ == b@[(k * n + j) as int]);
                    lemma_disk_bounds(x@);
                    lemma_disk_bounds(y@);
                    assert(-4 <= x.re * y.re <= 4 && -4 <= x.im * y.im <= 4 && -4 <= x.re * y.im
                        <= 4 && -4 <= x.im * y.re <= 4) by (nonlinear_arith)
                        requires
                            -2 <= x.re <= 2 && -2 <= x.im <= 2 && -2 <= y.re <= 2 && -2 <= y.im
                                <= 2,
                    ;
                }
                let tre = x.re * y.re - x.im * y.im;
                let tim = x.re * y.im + x.im * y.re;
                re = re + tre;
                im = im + tim;
                proof {
                    assert(pdot(a@, b@, gn@, i as int, j as int, (k + 1) as nat) == cadd(
                        pdot(a@, b@, gn@, i as int, j as int, k as nat),
                        cmul(a@[i as int * gn@ + k as int], b@[k as int * gn@ + j as int]),
                    ));
                }
                k += 1;
            }
            raw.push(CNum { re, im });
            proof {
                assert forall|ii: int, jj: int|
                    0 <= ii < gn@ && 0 <= jj < gn@ && ii * gn@ + jj
                        < raw@.len() implies (#[trigger] raw@[ii * gn@ + jj])@ == prod_entry(
                    a@,
                    b@,
                    gn@,
                    ii,
                    jj,
                ) && -32 <= raw@[ii * gn@ + jj].re <= 32 && -32 <= raw@[ii * gn@ + jj].im
                    <= 32 by {
                    if ii * gn@ + jj == raw@.len() - 1 {
                        assert(ii == i as int && jj == j as int) by (nonlinear_arith)
                            requires
                                0 <= ii < gn@ && 0 <= jj < gn@ && 0 <= i < gn@ && 0 <= j < gn@
                                    && ii * gn@ + jj == i as int * gn@ + j as int,
                        ;
                    }
                }
            }
            j += 1;
        }
        i += 1;
        proof {
            assert((i - 1) * (n as int) + n == i * (n as int)) by (nonlinear_arith);
        }
    }
    proof {
        assert forall|ii: int, jj: int|
            0 <= ii < gn@ && 0 <= jj < gn@ implies (#[trigger] raw@[ii * gn@ + jj])@ == prod_entry(
            a@,
            b@,
            gn@,
            ii,
            jj,
        ) && -32 <= raw@[ii * gn@ + jj].re <= 32 && -32 <= raw@[ii * gn@ + jj].im <= 32 by {
            assert(ii * gn@ + jj < gn@ * gn@) by (nonlinear_arith)
                requires
                    0 <= ii < gn@ && 0 <= jj < gn@,
            ;
        }
    }
    // Second pass: every entry must be exactly divisible by the scale factor
    // before any is rescaled, so that a parity violation is always detected.
    let mut i: usize = 0;
    while i < n
        invariant
            a.n == n && b.n == n,
            gn@ == n as nat,
            i <= n,
            n * n <= 16,
            raw@.len() == n * n,
            forall|ii: int, jj: int|
                0 <= ii < gn@ && 0 <= jj < gn@ ==> (#[trigger] raw@[ii * gn@ + jj])@ == prod_entry(
                    a@,
                    b@,
                    gn@,
                    ii,
                    jj,
                ) && -32 <= raw@[ii * gn@ + jj].re <= 32 && -32 <= raw@[ii * gn@ + jj].im <= 32,
            forall|ii: int, jj: int|
                0 <= ii < i && 0 <= jj < gn@ ==> evenc(#[trigger] prod_entry(a@, b@, gn@, ii, jj)),
        decreases n - i,
    {
        let mut j: usize = 0;
        while j < n
            invariant
                a.n == n && b.n == n,
                gn@ == n as nat,
                i < n,
                j <= n,
                n * n <= 16,
                raw@.len() == n * n,
                forall|ii: int, jj: int|
                    0 <= ii < gn@ && 0 <= jj < gn@ ==> (#[trigger] raw@[ii * gn@ + jj])@
                        == prod_entry(a@, b@, gn@, ii, jj) && -32 <= raw@[ii * gn@ + jj].re <= 32
                        && -32 <= raw@[ii * gn@ + jj].im <= 32,
                forall|ii: int, jj: int|
                    0 <= ii < i && 0 <= jj < gn@ ==> evenc(
                        #[trigger] prod_entry(a@, b@, gn@, ii, jj),
                    ),
                forall|jj: int|
                    0 <= jj < j ==> evenc(#[trigger] prod_entry(a@, b@, gn@, i as int, jj)),
            decreases n - j,
        {
            proof {
                assert(i * n + j < n * n) by (nonlinear_arith)
                    requires
                        i < n && j < n,
                ;
            }
            let c = raw[i * n + j];
            let even_re = match half_exact(c.re) {
                Some(_) => true,
                None => false,
            };
            let even_im = match half_exact(c.im) {
                Some(_) => true,
                None => false,
            };
            if !even_re || !even_im {
                proof {
                    assert(!evenc(prod_entry(a@, b@, gn@, i as int, j as int)));
                }
                return Err(GroupError::OddEntry);
            }
            j += 1;
        }
        i += 1;
    }
    proof {
        assert(prod_all_even(a@, b@, gn@));
    }
    // Third pass: rescale, and check that every entry stays in the disk.
    let mut out: Vec<CNum> = Vec::new();
    let mut i: usize = 0;
    while i < n
        invariant
            a.n == n && b.n == n,
            gn@ == n as nat,
            i <= n,
            n * n <= 16,
            raw@.len() == n * n,
            prod_all_even(a@, b@, gn@),
            out@.len() == i * n,
            forall|ii: int, jj: int|
                0 <= ii < gn@ && 0 <= jj < gn@ ==> (#[trigger] raw@[ii * gn@ + jj])@ == prod_entry(
                    a@,
                    b@,
                    gn@,
                    ii,
                    jj,
                ) && -32 <= raw@[ii * gn@ + jj].re <= 32 && -32 <= raw@[ii * gn@ + jj].im <= 32,
            forall|ii: int, jj: int|
                0 <= ii < gn@ && 0 <= jj < gn@ && ii * gn@ + jj < out@.len()
                    ==> (#[trigger] out@[ii * gn@ + jj])@ == halfc(prod_entry(a@, b@, gn@, ii, jj))
                    && indisk(out@[ii * gn@ + jj]@),
        decreases n - i,
    {
        let mut j: usize = 0;
        while j < n
            invariant
                a.n == n && b.n == n,
                gn@ == n as nat,
                i < n,
                j <= n,
                n * n <= 16,
                raw@.len() == n * n,
                prod_all_even(a@, b@, gn@),
                out@.len() == i * n + j,
                forall|ii: int, jj: int|
                    0 <= ii < gn@ && 0 <= jj < gn@ ==> (#[trigger] raw@[ii * gn@ + jj])@
                        == prod_entry(a@, b@, gn@, ii, jj) && -32 <= raw@[ii * gn@ + jj].re <= 32
                        && -32 <= raw@[ii * gn@ + jj].im <= 32,
                forall|ii: int, jj: int|
                    0 <= ii < gn@ && 0 <= jj < gn@ && ii * gn@ + jj < out@.len()
                        ==> (#[trigger] out@[ii * gn@ + jj])@ == halfc(
                        prod_entry(a@, b@, gn@, ii, jj),
                    ) && indisk(out@[ii * gn@ + jj]@),
            decreases n - j,
        {
            proof {
                assert(i * n + j < n * n) by (nonlinear_arith)
                    requires
                        i < n && j < n,
                ;
            }
            let c = raw[i * n + j];
            let ghost pe = prod_entry(a@, b@, gn@, i as int, j as int);
            proof {
                assert(c@ == pe && evenc(pe));
            }
            let hr = match half_exact(c.re) {
                Some(h) => h,
                None => {
                    proof {
                        assert(false);
                    }
                    return Err(GroupError::OddEntry);
                },
            };
            let hi = match half_exact(c.im) {
                Some(h) => h,
                None => {
                    proof {
                        assert(false);
                    }
                    return Err(GroupError::OddEntry);
                },
            };
            let h = CNum { re: hr, im: hi };
            proof {
                assert(h@ == halfc(pe));
            }
            if hr < -2 || hr > 2 || hi < -2 || hi > 2 {
                proof {
                    if indisk(h@) {
                        lemma_disk_bounds(h@);
                    }
                    assert(!indisk(halfc(pe)));
                }
                return Err(GroupError::EntryOutOfRange);
            }
            proof {
                assert(0 <= hr * hr <= 4 && 0 <= hi * hi <= 4) by (nonlinear_arith)
                    requires
                        -2 <= hr <= 2 && -2 <= hi <= 2,
                ;
            }
            if h.re * h.re + h.im * h.im > NORM_BOUND {
                proof {
                    assert(!indisk(halfc(pe)));
                }
                return Err(GroupError::EntryOutOfRange);
            }
            out.push(h);
            proof {
                assert(indisk(h@));
                assert forall|ii: int, jj: int|
                    0 <= ii < gn@ && 0 <= jj < gn@ && ii * gn@ + jj
                        < out@.len() implies (#[trigger] out@[ii * gn@ + jj])@ == halfc(
                    prod_entry(a@, b@, gn@, ii, jj),
                ) && indisk(out@[ii * gn@ + jj]@) by {
                    if ii * gn@ + jj == out@.len() - 1 {
                        assert(ii == i as int && jj == j as int) by (nonlinear_arith)
                            requires
                                0 <= ii < gn@ && 0 <= jj < gn@ && 0 <= i < gn@ && 0 <= j < gn@
                                    && ii * gn@ + jj == i as int * gn@ + j as int,
                        ;
                    }
                }
            }
            j += 1;
        }
        i += 1;
        proof {
            assert((i - 1) * (n as int) + n == i * (n as int)) by (nonlinear_arith);
        }
    }
    let m = Mat { n, e: out };
    proof {
        assert forall|ii: int, jj: int| 0 <= ii < gn@ && 0 <= jj < gn@ implies indisk(
            halfc(#[trigger] prod_entry(a@, b@, gn@, ii, jj)),
        ) by {
            assert(ii * gn@ + jj < out@.len()) by (nonlinear_arith)
                requires
                    0 <= ii < gn@ && 0 <= jj < gn@ && out@.len() == gn@ * gn@,
            ;
            assert(out@[ii * gn@ + jj]@ == halfc(prod_entry(a@, b@, gn@, ii, jj)));
        }
        assert forall|t: int|
            0 <= t < m@.len() implies m@[t] == prod_half(a@, b@, gn@)[t] && indisk(m@[t]) by {
            let nn = n as int;
            vstd::arithmetic::div_mod::lemma_fundamental_div_mod(t, nn);
            vstd::arithmetic::div_mod::lemma_mod_bound(t, nn);
            let ii = t / nn;
            let jj = t % nn;
            assert(0 <= ii < nn) by (nonlinear_arith)
                requires
                    0 <= t < nn * nn && t == nn * ii + jj && 0 <= jj < nn,
            ;
            assert(ii * gn@ + jj == t) by (nonlinear_arith)
                requires
                    t == nn * ii + jj && gn@ == nn,
            ;
            assert(out@[ii * gn@ + jj]@ == halfc(prod_entry(a@, b@, gn@, ii, jj)));
            assert(indisk(out@[ii * gn@ + jj]@));
        }
        assert(m@ =~= prod_half(a@, b@, gn@));
    }
    Ok(m)
}

/// Canonicalizes `m` in place.
pub fn canonicalize(m: &mut Mat) -> (r: Result<(), GroupError>)
    requires
        old(m).wf(),
    ensures
        r is Ok <==> has_nz(old(m)@),
        (r is Ok ==> final(m).n == old(m).n && final(m)@ == canon_seq(old(m)@) && final(m).wf()),
        (r is Err ==> *final(m) == *old(m)),
        (r matches Err(e) ==> e == GroupError::ZeroMatrix),
{
    match canonicalized(&*m) {
        Ok(c) => {
            *m = c;
            Ok(())
        },
        Err(e) => Err(e),
    }
}

/// Negation preserves evenness, and the half of a negation is the negated
/// half.
proof fn lemma_neg_even_half(x: int)
    ensures
        ((-x) % 2 == 0) <==> (x % 2 == 0),
        x % 2 == 0 ==> (-x) / 2 == -(x / 2),
{
    vstd::arithmetic::div_mod::lemma_fundamental_div_mod(x, 2);
    vstd::arithmetic::div_mod::lemma_mod_bound(x, 2);
    vstd::arithmetic::div_mod::lemma_fundamental_div_mod(-x, 2);
    vstd::arithmetic::div_mod::lemma_mod_bound(-x, 2);
    if x % 2 == 0 {
        vstd::arithmetic::div_mod::lemma_fundamental_div_mod_converse(-x, 2, -(x / 2), 0);
    }
    if (-x) % 2 == 0 && x % 2 != 0 {
        vstd::arithmetic::div_mod::lemma_fundamental_div_mod_converse(x, 2, -((-x) / 2), 0);
    }
}

/// Rotating the right factor of a complex product rotates the product.
proof fn lemma_cmul_rot1(a: GC, b: GC)
    ensures
        cmul(a, rot1(b)) == rot1(cmul(a, b)),
{
    let l = cmul(a, rot1(b));
    let r = rot1(cmul(a, b));
    assert(l.re == a.re * (-b.im) - a.im * b.re);
    assert(l.im == a.re * b.re + a.im * (-b.im));
    assert(l.re == r.re && l.im == r.im) by (nonlinear_arith)
        requires
            l.re == a.re * (-b.im) - a.im * b.re && l.im == a.re * b.re + a.im * (-b.im) && r.re
                == -(a.re * b.im + a.im * b.re) && r.im == a.re * b.re - a.im * b.im,
    ;
}

/// Rotating the right matrix factor once rotates every partial inner
/// product.
proof fn lemma_pdot_rot1(a: Seq<GC>, b: Seq<GC>, n: nat, i: int, j: int, k: nat)
    requires
        b.len() == n * n,
        0 <= j < n,
        k <= n,
    ensures
        pdot(a, rot_all(b, 1), n, i, j, k) == rot1(pdot(a, b, n, i, j, k)),
    decreases k,
{
    if k > 0 {
        lemma_pdot_rot1(a, b, n, i, j, (k - 1) as nat);
        let idx = (k - 1) * n + j;
        assert(0 <= (k - 1) * n + j < n * n) by (nonlinear_arith)
            requires
                0 <= k - 1 < n && 0 <= j < n,
        ;
        assert(rot_all(b, 1)[idx] == rotk(b[idx], 1));
        lemma_rotk_unfold(b[idx]);
        lemma_cmul_rot1(a[i * n + (k - 1)], b[idx]);
    }
}

/// Rotating the right matrix factor `kk` times rotates every product entry
/// `kk` times.
proof fn lemma_prod_entry_rotk(a: Seq<GC>, b: Seq<GC>, n: nat, i: int, j: int, kk: nat)
    requires
        b.len() == n * n,
        0 <= j < n,
    ensures
        prod_entry(a, rot_all(b, kk), n, i, j) == rotk(prod_entry(a, b, n, i, j), kk),
    decreases kk,
{
    if kk == 0 {
        assert(rot_all(b, 0) =~= b);
    } else {
        lemma_prod_entry_rotk(a, b, n, i, j, (kk - 1) as nat);
        let bp = rot_all(b, (kk - 1) as nat);
        assert forall|t: int| 0 <= t < b.len() implies rot_all(b, kk)[t] == rot_all(bp, 1)[t] by {
            lemma_rotk_unfold(rotk(b[t], (kk - 1) as nat));
            lemma_rotk_add(b[t], (kk - 1) as nat, 1);
        }
        assert(rot_all(b, kk) =~= rot_all(bp, 1));
        lemma_pdot_rot1(a, bp, n, i, j, n);
        lemma_rotk_unfold(pdot(a, bp, n, i, j, n));
        lemma_rotk_add(prod_entry(a, b, n, i, j), (kk - 1) as nat, 1);
    }
}

/// Rotation keeps evenness, and commutes with exact halving.
proof fn lemma_even_half_rotk(c: GC, kk: nat)
    ensures
        evenc(rotk(c, kk)) <==> evenc(c),
        evenc(c) ==> halfc(rotk(c, kk)) == rotk(halfc(c), kk),
    decreases kk,
{
    if kk > 0 {
        lemma_even_half_rotk(c, (kk - 1) as nat);
        let d = rotk(c, (kk - 1) as nat);
        lemma_neg_even_half(d.im);
        if evenc(c) {
            lemma_neg_even_half(rotk(halfc(c), (kk - 1) as nat).im);
        }
    }
}

/// The zero pattern survives rotation, so a non-zero matrix stays non-zero.
pub proof fn lemma_has_nz_rotk(s: Seq<GC>, kk: nat)
    ensures
        has_nz(rot_all(s, kk)) <==> has_nz(s),
{
    if has_nz(s) {
        let w = choose|i: int| 0 <= i < s.len() && !czero(s[i]);
        lemma_rotk_preserves(s[w], kk);
        assert(!czero(rot_all(s, kk)[w]));
    }
    if has_nz(rot_all(s, kk)) {
        let w = choose|i: int| 0 <= i < rot_all(s, kk).len() && !czero(rot_all(s, kk)[i]);
        lemma_rotk_preserves(s[w], kk);
        assert(!czero(s[w]));
    }
}

/// Multiplying the right factor by a global phase rotates the rescaled
/// product by the same phase: the arithmetic invariant is untouched and the
/// rescaled product is the rotated one.
pub proof fn lemma_step_rot_right(a: Seq<GC>, b: Seq<GC>, n: nat, kk: nat)
    requires
        b.len() == n * n,
        n >= 1,
    ensures
        prod_all_even(a, rot_all(b, kk), n) <==> prod_all_even(a, b, n),
        prod_all_even(a, b, n) ==> (prod_all_indisk(a, rot_all(b, kk), n) <==> prod_all_indisk(
            a,
            b,
            n,
        )),
        step_ok(a, rot_all(b, kk), n) <==> step_ok(a, b, n),
        prod_all_even(a, b, n) ==> prod_half(a, rot_all(b, kk), n) == rot_all(
            prod_half(a, b, n),
            kk,
        ),
{
    let br = rot_all(b, kk);
    assert forall|i: int, j: int| 0 <= i < n && 0 <= j < n implies #[trigger] prod_entry(
        a,
        br,
        n,
        i,
        j,
    ) == rotk(prod_entry(a, b, n, i, j), kk) by {
        lemma_prod_entry_rotk(a, b, n, i, j, kk);
    }
    assert forall|i: int, j: int| 0 <= i < n && 0 <= j < n implies (evenc(
        #[trigger] prod_entry(a, br, n, i, j),
    ) <==> evenc(prod_entry(a, b, n, i, j))) by {
        lemma_even_half_rotk(prod_entry(a, b, n, i, j), kk);
    }
    if prod_all_even(a, b, n) {
        assert forall|i: int, j: int| 0 <= i < n && 0 <= j < n implies halfc(
            #[trigger] prod_entry(a, br, n, i, j),
        ) == rotk(halfc(prod_entry(a, b, n, i, j)), kk) && (indisk(
            halfc(prod_entry(a, br, n, i, j)),
        ) <==> indisk(halfc(prod_entry(a, b, n, i, j)))) by {
            lemma_even_half_rotk(prod_entry(a, b, n, i, j), kk);
            lemma_rotk_preserves(halfc(prod_entry(a, b, n, i, j)), kk);
        }
        assert forall|t: int| 0 <= t < n * n implies prod_half(a, br, n)[t] == rot_all(
            prod_half(a, b, n),
            kk,
        )[t] by {
            let nn = n as int;
            vstd::arithmetic::div_mod::lemma_fundamental_div_mod(t, nn);
            vstd::arithmetic::div_mod::lemma_mod_bound(t, nn);
            let ii = t / nn;
            let jj = t % nn;
            assert(0 <= ii < nn) by (nonlinear_arith)
                requires
                    0 <= t < nn * nn && t == nn * ii + jj && 0 <= jj < nn,
            ;
            assert(halfc(prod_entry(a, br, n, ii, jj)) == rotk(
                halfc(prod_entry(a, b, n, ii, jj)),
                kk,
            ));
        }
        assert(prod_half(a, br, n) =~= rot_all(prod_half(a, b, n), kk));
    }
    if prod_all_even(a, br, n) {
        assert forall|i: int, j: int| 0 <= i < n && 0 <= j < n implies evenc(
            #[trigger] prod_entry(a, b, n, i, j),
        ) by {
            assert(evenc(prod_entry(a, br, n, i, j)));
        }
    }
    if prod_all_even(a, b, n) && prod_all_indisk(a, br, n) {
        assert forall|i: int, j: int| 0 <= i < n && 0 <= j < n implies indisk(
            halfc(#[trigger] prod_entry(a, b, n, i, j)),
        ) by {
            assert(indisk(halfc(prod_entry(a, br, n, i, j))));
        }
    }
}

/// The scaled identity matrix as a flat entry sequence: the scale factor on
/// the diagonal, zero elsewhere.
pub open spec fn scaled_id(n: nat) -> Seq<GC> {
    Seq::new(
        n * n,
        |t: int|
            if t / (n as int) == t % (n as int) {
                GC { re: 2, im: 0 }
            } else {
                GC { re: 0, im: 0 }
            },
    )
}

/// Partial inner products against the scaled identity pick out one doubled
/// entry of the left factor.
proof fn lemma_pdot_id(e: Seq<GC>, n: nat, i: int, j: int, k: nat)
    requires
        0 <= j < n,
        k <= n,
    ensures
        pdot(e, scaled_id(n), n, i, j, k) == (if k > j {
            GC { re: 2 * e[i * n + j].re, im: 2 * e[i * n + j].im }
        } else {
            GC { re: 0, im: 0 }
        }),
    decreases k,
{
    if k > 0 {
        lemma_pdot_id(e, n, i, j, (k - 1) as nat);
        assert(0 <= (k - 1) * n + j < n * n) by (nonlinear_arith)
            requires
                0 <= k - 1 < n && 0 <= j < n,
        ;
        let idx = (k - 1) * n + j;
        vstd::arithmetic::div_mod::lemma_fundamental_div_mod_converse(idx, n as int, k - 1, j);
        let x = e[i * n + (k - 1)];
        if k - 1 == j {
            assert(scaled_id(n)[idx] == (GC { re: 2, im: 0 }));
            assert(cmul(x, GC { re: 2, im: 0 }) == (GC { re: 2 * x.re, im: 2 * x.im }))
                by (nonlinear_arith);
        } else {
            assert(scaled_id(n)[idx] == (GC { re: 0, im: 0 }));
            assert(cmul(x, GC { re: 0, im: 0 }) == (GC { re: 0, im: 0 })) by (nonlinear_arith);
        }
    }
}

/// Multiplying by the scaled identity on the right rescales back to the same
/// matrix, and the arithmetic invariant always holds for it.
pub proof fn lemma_prod_id(e: Seq<GC>, n: nat)
    requires
        e.len() == n * n,
        n >= 1,
        forall|t: int| 0 <= t < e.len() ==> indisk(#[trigger] e[t]),
    ensures
        step_ok(e, scaled_id(n), n),
        prod_half(e, scaled_id(n), n) == e,
{
    assert forall|i: int, j: int| 0 <= i < n && 0 <= j < n implies #[trigger] prod_entry(
        e,
        scaled_id(n),
        n,
        i,
        j,
    ) == (GC { re: 2 * e[i * n + j].re, im: 2 * e[i * n + j].im }) by {
        lemma_pdot_id(e, n, i, j, n);
    }
    assert forall|i: int, j: int| 0 <= i < n && 0 <= j < n implies evenc(
        #[trigger] prod_entry(e, scaled_id(n), n, i, j),
    ) && halfc(prod_entry(e, scaled_id(n), n, i, j)) == e[i * n + j] && indisk(
        halfc(prod_entry(e, scaled_id(n), n, i, j)),
    ) by {
        let c = e[i * n + j];
        vstd::arithmetic::div_mod::lemma_fundamental_div_mod_converse(2 * c.re, 2, c.re, 0);
        vstd::arithmetic::div_mod::lemma_fundamental_div_mod_converse(2 * c.im, 2, c.im, 0);
        assert(0 <= i * n + j < n * n) by (nonlinear_arith)
            requires
                0 <= i < n && 0 <= j < n,
        ;
    }
    assert forall|t: int| 0 <= t < n * n implies prod_half(e, scaled_id(n), n)[t] == e[t] by {
        let nn = n as int;
        vstd::arithmetic::div_mod::lemma_fundamental_div_mod(t, nn);
        vstd::arithmetic::div_mod::lemma_mod_bound(t, nn);
        let ii = t / nn;
        let jj = t % nn;
        assert(0 <= ii < nn) by (nonlinear_arith)
            requires
                0 <= t < nn * nn && t == nn * ii + jj && 0 <= jj < nn,
        ;
        assert(halfc(prod_entry(e, scaled_id(n), n, ii, jj)) == e[ii * n + jj]);
        assert(ii * nn + jj == t) by (nonlinear_arith)
            requires
                t == nn * ii + jj,
        ;
    }
    assert(prod_half(e, scaled_id(n), n) =~= e);
}

/// Rotating the left factor of a complex product rotates the product.
proof fn lemma_cmul_rot1_left(a: GC, b: GC)
    ensures
        cmul(rot1(a), b) == rot1(cmul(a, b)),
{
    let l = cmul(rot1(a), b);
    let r = rot1(cmul(a, b));
    assert(l.re == (-a.im) * b.re - a.re * b.im);
    assert(l.im == (-a.im) * b.im + a.re * b.re);
    assert(l.re == r.re && l.im == r.im) by (nonlinear_arith)
        requires
            l.re == (-a.im) * b.re - a.re * b.im && l.im == (-a.im) * b.im + a.re * b.re && r.re
                == -(a.re * b.im + a.im * b.re) && r.im == a.re * b.re - a.im * b.im,
    ;
}

/// Rotating the left matrix factor once rotates every partial inner product.
proof fn lemma_pdot_rot1_left(a: Seq<GC>, b: Seq<GC>, n: nat, i: int, j: int, k: nat)
    requires
        a.len() == n * n,
        0 <= i < n,
        k <= n,
    ensures
        pdot(rot_all(a, 1), b, n, i, j, k) == rot1(pdot(a, b, n, i, j, k)),
    decreases k,
{
    if k > 0 {
        lemma_pdot_rot1_left(a, b, n, i, j, (k - 1) as nat);
        assert(0 <= i * n + (k - 1) < n * n) by (nonlinear_arith)
            requires
                0 <= k - 1 < n && 0 <= i < n,
        ;
        let idx = i * n + (k - 1);
        assert(rot_all(a, 1)[idx] == rotk(a[idx], 1));
        lemma_rotk_unfold(a[idx]);
        lemma_cmul_rot1_left(a[idx], b[(k - 1) * n + j]);
    }
}

/// Rotating the left matrix factor `kk` times rotates every product entry
/// `kk` times.
proof fn lemma_prod_entry_rotk_left(a: Seq<GC>, b: Seq<GC>, n: nat, i: int, j: int, kk: nat)
    requires
        a.len() == n * n,
        0 <= i < n,
    ensures
        prod_entry(rot_all(a, kk), b, n, i, j) == rotk(prod_entry(a, b, n, i, j), kk),
    decreases kk,
{
    if kk == 0 {
        assert(rot_all(a, 0) =~= a);
    } else {
        lemma_prod_entry_rotk_left(a, b, n, i, j, (kk - 1) as nat);
        let ap = rot_all(a, (kk - 1) as nat);
        assert forall|t: int| 0 <= t < a.len() implies rot_all(a, kk)[t] == rot_all(ap, 1)[t] by {
            lemma_rotk_unfold(rotk(a[t], (kk - 1) as nat));
            lemma_rotk_add(a[t], (kk - 1) as nat, 1);
        }
        assert(rot_all(a, kk) =~= rot_all(ap, 1));
        lemma_pdot_rot1_left(ap, b, n, i, j, n);
        lemma_rotk_unfold(pdot(ap, b, n, i, j, n));
        lemma_rotk_add(prod_entry(a, b, n, i, j), (kk - 1) as nat, 1);
    }
}

/// Multiplying the left factor by a global phase rotates the rescaled
/// product by the same phase, leaving the arithmetic invariant untouched.
pub proof fn lemma_step_rot_left(a: Seq<GC>, b: Seq<GC>, n: nat, kk: nat)
    requires
        a.len() == n * n,
        n >= 1,
    ensures
        prod_all_even(rot_all(a, kk), b, n) <==> prod_all_even(a, b, n),
        prod_all_even(a, b, n) ==> (prod_all_indisk(rot_all(a, kk), b, n) <==> prod_all_indisk(
            a,
            b,
            n,
        )),
        step_ok(rot_all(a, kk), b, n) <==> step_ok(a, b, n),
        prod_all_even(a, b, n) ==> prod_half(rot_all(a, kk), b, n) == rot_all(
            prod_half(a, b, n),
            kk,
        ),
{
    let ar = rot_all(a, kk);
    assert forall|i: int, j: int| 0 <= i < n && 0 <= j < n implies #[trigger] prod_entry(
        ar,
        b,
        n,
        i,
        j,
    ) == rotk(prod_entry(a, b, n, i, j), kk) by {
        lemma_prod_entry_rotk_left(a, b, n, i, j, kk);
    }
    assert forall|i: int, j: int| 0 <= i < n && 0 <= j < n implies (evenc(
        #[trigger] prod_entry(ar, b, n, i, j),
    ) <==> evenc(prod_entry(a, b, n, i, j))) by {
        lemma_even_half_rotk(prod_entry(a, b, n, i, j), kk);
    }
    if prod_all_even(a, b, n) {
        assert forall|i: int, j: int| 0 <= i < n && 0 <= j < n implies halfc(
            #[trigger] prod_entry(ar, b, n, i, j),
        ) == rotk(halfc(prod_entry(a, b, n, i, j)), kk) && (indisk(
            halfc(prod_entry(ar, b, n, i, j)),
        ) <==> indisk(halfc(prod_entry(a, b, n, i, j)))) by {
            lemma_even_half_rotk(prod_entry(a, b, n, i, j), kk);
            lemma_rotk_preserves(halfc(prod_entry(a, b, n, i, j)), kk);
        }
        assert forall|t: int| 0 <= t < n * n implies prod_half(ar, b, n)[t] == rot_all(
            prod_half(a, b, n),
            kk,
        )[t] by {
            let nn = n as int;
            vstd::arithmetic::div_mod::lemma_fundamental_div_mod(t, nn);
            vstd::arithmetic::div_mod::lemma_mod_bound(t, nn);
            let ii = t / nn;
            let jj = t % nn;
            assert(0 <= ii < nn) by (nonlinear_arith)
                requires
                    0 <= t < nn * nn && t == nn * ii + jj && 0 <= jj < nn,
            ;
            assert(halfc(prod_entry(ar, b, n, ii, jj)) == rotk(
                halfc(prod_entry(a, b, n, ii, jj)),
                kk,
            ));
        }
        assert(prod_half(ar, b, n) =~= rot_all(prod_half(a, b, n), kk));
    }
    if prod_all_even(ar, b, n) {
        assert forall|i: int, j: int| 0 <= i < n && 0 <= j < n implies evenc(
            #[trigger] prod_entry(a, b, n, i, j),
        ) by {
            assert(evenc(prod_entry(ar, b, n, i, j)));
        }
    }
    if prod_all_even(a, b, n) && prod_all_indisk(ar, b, n) {
        assert forall|i: int, j: int| 0 <= i < n && 0 <= j < n implies indisk(
            halfc(#[trigger] prod_entry(a, b, n, i, j)),
        ) by {
            assert(indisk(halfc(prod_entry(ar, b, n, i, j))));
        }
    }
}

/// Partial inner products of the scaled identity on the left pick out one
/// doubled entry of the right factor.
proof fn lemma_pdot_id_left(e: Seq<GC>, n: nat, i: int, j: int, k: nat)
    requires
        0 <= i < n,
        k <= n,
    ensures
        pdot(scaled_id(n), e, n, i, j, k) == (if k > i {
            GC { re: 2 * e[i * n + j].re, im: 2 * e[i * n + j].im }
        } else {
            GC { re: 0, im: 0 }
        }),
    decreases k,
{
    if k > 0 {
        lemma_pdot_id_left(e, n, i, j, (k - 1) as nat);
        assert(0 <= i * n + (k - 1) < n * n) by (nonlinear_arith)
            requires
                0 <= k - 1 < n && 0 <= i < n,
        ;
        let idx = i * n + (k - 1);
        vstd::arithmetic::div_mod::lemma_fundamental_div_mod_converse(idx, n as int, i, k - 1);
        let y = e[(k - 1) * n + j];
        if k - 1 == i {
            assert(scaled_id(n)[idx] == (GC { re: 2, im: 0 }));
            assert(cmul(GC { re: 2, im: 0 }, y) == (GC { re: 2 * y.re, im: 2 * y.im }))
                by (nonlinear_arith);
            assert((k - 1) * n + j == i * n + j);
        } else {
            assert(scaled_id(n)[idx] == (GC { re: 0, im: 0 }));
            assert(cmul(GC { re: 0, im: 0 }, y) == (GC { re: 0, im: 0 })) by (nonlinear_arith);
        }
    }
}

/// Multiplying by the scaled identity on the left also rescales back to the
/// same matrix, and the arithmetic invariant always holds for it.
pub proof fn lemma_prod_id_left(e: Seq<GC>, n: nat)
    requires
        e.len() == n * n,
        n >= 1,
        forall|t: int| 0 <= t < e.len() ==> indisk(#[trigger] e[t]),
    ensures
        step_ok(scaled_id(n), e, n),
        prod_half(scaled_id(n), e, n) == e,
{
    assert forall|i: int, j: int| 0 <= i < n && 0 <= j < n implies #[trigger] prod_entry(
        scaled_id(n),
        e,
        n,
        i,
        j,
    ) == (GC { re: 2 * e[i * n + j].re, im: 2 * e[i * n + j].im }) by {
        lemma_pdot_id_left(e, n, i, j, n);
    }
    assert forall|i: int, j: int| 0 <= i < n && 0 <= j < n implies evenc(
        #[trigger] prod_entry(scaled_id(n), e, n, i, j),
    ) && halfc(prod_entry(scaled_id(n), e, n, i, j)) == e[i * n + j] && indisk(
        halfc(prod_entry(scaled_id(n), e, n, i, j)),
    ) by {
        let c = e[i * n + j];
        vstd::arithmetic::div_mod::lemma_fundamental_div_mod_converse(2 * c.re, 2, c.re, 0);
        vstd::arithmetic::div_mod::lemma_fundamental_div_mod_converse(2 * c.im, 2, c.im, 0);
        assert(0 <= i * n + j < n * n) by (nonlinear_arith)
            requires
                0 <= i < n && 0 <= j < n,
        ;
    }
    assert forall|t: int| 0 <= t < n * n implies prod_half(scaled_id(n), e, n)[t] == e[t] by {
        let nn = n as int;
        vstd::arithmetic::div_mod::lemma_fundamental_div_mod(t, nn);
        vstd::arithmetic::div_mod::lemma_mod_bound(t, nn);
        let ii = t / nn;
        let jj = t % nn;
        assert(0 <= ii < nn) by (nonlinear_arith)
            requires
                0 <= t < nn * nn && t == nn * ii + jj && 0 <= jj < nn,
        ;
        assert(halfc(prod_entry(scaled_id(n), e, n, ii, jj)) == e[ii * n + jj]);
        assert(ii * nn + jj == t) by (nonlinear_arith)
            requires
                t == nn * ii + jj,
        ;
    }
    assert(prod_half(scaled_id(n), e, n) =~= e);
}

} // verus!
