//! The group-element table: every distinct canonical matrix reachable from
//! the generator set, each with a stable dense id in first-discovery order,
//! and the breadth-first closure that enumerates them.

use crate::matrix::{
    canon_seq, canonicalized, dot, has_nz, indisk, is_canon, lemma_canon_idempotent,
    lemma_disk_bounds, prod_half, step_ok, GroupError, Mat, GC,
};
use vstd::prelude::*;

verus! {

/// Upper bound on the number of group elements: ids must fit the 16-bit
/// cells of the transition table.
pub const GROUP_LIMIT: usize = 65535;

/// Code of one entry in a fixed injective numbering of the 25 lattice points
/// with both coordinates in `[-2, 2]`.
pub open spec fn entry_code(c: GC) -> int {
    (c.re + 2) * 5 + (c.im + 2)
}

/// Numeric key of a whole entry sequence: entry codes combined base 25 in
/// row-major order.  Injective on well-formed matrices of equal size.
pub open spec fn key_of(s: Seq<GC>) -> int
    decreases s.len(),
{
    if s.len() == 0 {
        0
    } else {
        key_of(s.drop_last()) * 25 + entry_code(s.last())
    }
}

/// 25 to the `k`-th power: the range of a `k`-entry key.
pub open spec fn pow25(k: nat) -> int
    decreases k,
{
    if k == 0 {
        1
    } else {
        25 * pow25((k - 1) as nat)
    }
}

proof fn lemma_pow25_16()
    ensures
        pow25(16) == 0x4EE2D6D415B85ACEF81,
{
    assert(pow25(0) == 1);
    assert(pow25(1) == 25);
    assert(pow25(2) == 625);
    assert(pow25(3) == 15625);
    assert(pow25(4) == 390625);
    assert(pow25(5) == 9765625);
    assert(pow25(6) == 244140625);
    assert(pow25(7) == 6103515625);
    assert(pow25(8) == 152587890625);
    assert(pow25(9) == 3814697265625);
    assert(pow25(10) == 95367431640625);
    assert(pow25(11) == 2384185791015625);
    assert(pow25(12) == 59604644775390625);
    assert(pow25(13) == 1490116119384765625);
    assert(pow25(14) == 37252902984619140625);
    assert(pow25(15) == 931322574615478515625);
    assert(pow25(16) == 23283064365386962890625);
}

/// The numeric key of a matrix, computed executably.  Two matrices with equal
/// entry sequences always get equal keys, which makes the key a sound first
/// filter for membership scans.
fn mat_key(m: &Mat) -> (r: u128)
    requires
        m.wf(),
    ensures
        r as int == key_of(m@),
{
    let mut acc: u128 = 0;
    let mut k: usize = 0;
    proof {
        lemma_pow25_16();
        assert(m@.take(0) =~= Seq::<GC>::empty());
        assert(m.e@.len() <= 16) by (nonlinear_arith)
            requires
                m.e@.len() == m.n * m.n && m.n <= 4,
        ;
    }
    while k < m.e.len()
        invariant
            m.wf(),
            k <= m.e@.len(),
            m.e@.len() <= 16,
            acc as int == key_of(m@.take(k as int)),
            (acc as int) < pow25(k as nat),
            pow25(16) == 0x4EE2D6D415B85ACEF81,
            pow25(k as nat) <= pow25(16),
        decreases m.e@.len() - k,
    {
        let c = m.e[k];
        proof {
            assert(indisk(m@[k as int]));
            lemma_disk_bounds(m@[k as int]);
            let t = m@.take(k + 1);
            assert(t.drop_last() =~= m@.take(k as int));
            assert(t.last() == m@[k as int]);
            assert(pow25((k + 1) as nat) == 25 * pow25(k as nat));
            assert(pow25((k + 1) as nat) <= pow25(16)) by {
                lemma_pow25_mono((k + 1) as nat, 16);
            }
        }
        let code: u128 = ((c.re + 2) * 5 + (c.im + 2)) as u128;
        acc = acc * 25 + code;
        k += 1;
    }
    proof {
        assert(m@.take(m@.len() as int) =~= m@);
    }
    acc
}

/// Larger keys need more entries: the key range grows with the entry count.
proof fn lemma_pow25_mono(a: nat, b: nat)
    requires
        a <= b,
    ensures
        pow25(a) <= pow25(b),
        pow25(a) >= 1,
    decreases b,
{
    if b > 0 {
        if a == b {
            lemma_pow25_mono((a - 1) as nat, (b - 1) as nat);
        } else {
            lemma_pow25_mono(a, (b - 1) as nat);
        }
    }
}

/// Entry-wise equality of two matrices, the equality of group elements once
/// both sides are canonical.
pub fn mat_eq(a: &Mat, b: &Mat) -> (r: bool)
    ensures
        r <==> (a.n == b.n && a@ == b@),
{
    if a.n != b.n || a.e.len() != b.e.len() {
        proof {
            assert(a@.len() == a.e@.len());
            assert(b@.len() == b.e@.len());
        }
        return false;
    }
    let mut k: usize = 0;
    while k < a.e.len()
        invariant
            a.e@.len() == b.e@.len(),
            k <= a.e@.len(),
            forall|i: int| 0 <= i < k ==> a@[i] == b@[i],
        decreases a.e@.len() - k,
    {
        let x = a.e[k];
        let y = b.e[k];
        if x.re != y.re || x.im != y.im {
            proof {
                assert(a@[k as int] != b@[k as int]);
            }
            return false;
        }
        proof {
            assert(a@[k as int] == b@[k as int]);
        }
        k += 1;
    }
    proof {
        assert(a@ =~= b@);
    }
    true
}

/// The table of discovered group elements: `mats[i]` is the canonical matrix
/// with id `i`, in first-discovery order; `keys[i]` caches its numeric key so
/// that membership scans compare one word before comparing entries.
pub struct GroupTable {
    /// Side length shared by every matrix in the table.
    pub dim: usize,
    /// The canonical representative of each discovered element, by id.
    pub mats: Vec<Mat>,
    /// `keys[i]` is the numeric key of `mats[i]`.
    pub keys: Vec<u128>,
}

impl GroupTable {
    /// Some discovered element has exactly this entry sequence.
    pub open spec fn contains(&self, s: Seq<GC>) -> bool {
        exists|i: int| 0 <= i < self.mats@.len() && self.mats@[i]@ == s
    }

    /// Every stored matrix is well-formed, canonical, of the shared size, has
    /// its key cached, and no element is stored twice.
    pub open spec fn wf(&self) -> bool {
        &&& 1 <= self.dim <= 4
    &&& self.keys@.len() == self.mats@.len()
    &&& self.mats@.len() <= GROUP_LIMIT
    &&& forall|i: int|
        0 <= i < self.mats@.len() ==> (#[trigger] self.mats@[i]).wf() && self.mats@[i].n
            == self.dim && is_canon(self.mats@[i]@)
    &&& forall|i: int|
        0 <= i < self.keys@.len() ==> (#[trigger] self.keys@[i]) as int == key_of(
            self.mats@[i]@,
        )
    &&& forall|i: int, j: int| 0 <= i < j < self.mats@.len() ==> self.mats@[i]@ != self.mats@[j]@
    }

    /// An empty table for elements of side length `dim`.
    pub fn new(dim: usize) -> (r: GroupTable)
        requires
            1 <= dim <= 4,
        ensures
            r.wf(),
            r.dim == dim,
            r.mats@.len() == 0,
    {
        GroupTable { dim, mats: Vec::new(), keys: Vec::new() }
    }

    /// Number of discovered elements.
    pub fn len(&self) -> (r: usize)
        ensures
            r == self.mats@.len(),
    {
        self.mats.len()
    }

    /// The id of the element equal to `m`, if `m` has been discovered.
    pub fn lookup(&self, m: &Mat) -> (r: Option<usize>)
        requires
            self.wf(),
            m.wf(),
            m.n == self.dim,
        ensures
            r is Some <==> self.contains(m@),
            (r matches Some(i) ==> i < self.mats@.len() && self.mats@[i as int]@ == m@),
    {
        let key = mat_key(m);
        let mut t: usize = 0;
        while t < self.keys.len()
            invariant
                self.wf(),
                m.wf(),
                m.n == self.dim,
                key as int == key_of(m@),
                t <= self.keys@.len(),
                forall|i: int| 0 <= i < t ==> self.mats@[i]@ != m@,
            decreases self.keys@.len() - t,
        {
            if self.keys[t] == key {
                let same = mat_eq(&self.mats[t], m);
                if same {
                    return Some(t);
                }
                proof {
                    assert(self.mats@[t as int].n == self.dim);
                    assert(self.mats@[t as int]@ != m@);
                }
            } else {
                proof {
                    assert(self.keys@[t as int] as int == key_of(self.mats@[t as int]@));
                    assert(self.mats@[t as int]@ != m@);
                }
            }
            t += 1;
        }
        None
    }

    /// Canonicalizes `key` and inserts it if it denotes a new element, exactly
    /// as the closure engine discovers elements.  Returns whether an insertion
    /// happened.  The table changes only by appending the one new element.
    pub fn push(&mut self, key: &Mat) -> (r: Result<bool, GroupError>)
        requires
            old(self).wf(),
            key.wf(),
            key.n == old(self).dim,
        ensures
            final(self).wf(),
            final(self).dim == old(self).dim,
            ((r matches Err(e) && e == GroupError::ZeroMatrix) <==> !has_nz(key@)),
            ((r matches Err(e) && e == GroupError::TooManyElements) <==> (has_nz(key@)
                && !old(self).contains(canon_seq(key@)) && old(self).mats@.len()
                >= GROUP_LIMIT)),
            (r matches Err(e) ==> (e == GroupError::ZeroMatrix
                || e == GroupError::TooManyElements)),
            (r is Err ==> *final(self) == *old(self)),
            (r matches Ok(added) ==> (added <==> !old(self).contains(canon_seq(key@)))),
            ((r matches Ok(added) && !added) ==> *final(self) == *old(self)),
            ((r matches Ok(added) && added) ==> final(self).mats@.len() == old(self).mats@.len()
                + 1 && (forall|i: int|
                0 <= i < old(self).mats@.len() ==> final(self).mats@[i] == old(self).mats@[i])
                && final(self).mats@[old(self).mats@.len() as int]@ == canon_seq(key@)),
            (r is Ok ==> final(self).contains(canon_seq(key@)) && has_nz(key@)),
    {
        let c = match canonicalized(key) {
            Ok(c) => c,
            Err(e) => {
                return Err(e);
            },
        };
        proof {
            lemma_canon_idempotent(key@);
        }
        match self.lookup(&c) {
            Some(_) => Ok(false),
            None => {
                if self.mats.len() >= GROUP_LIMIT {
                    return Err(GroupError::TooManyElements);
                }
                let k = mat_key(&c);
                self.mats.push(c);
                self.keys.push(k);
                proof {
                    let n = self.mats@.len() - 1;
                    assert(self.mats@[n]@ == canon_seq(key@));
                    assert forall|i: int, j: int|
                        0 <= i < j < self.mats@.len() implies self.mats@[i]@ != self.mats@[j]@ by {
                        if j == n {
                            assert(old(self).mats@[i]@ != canon_seq(key@));
                        }
                    }
                }
                Ok(true)
            },
        }
    }
}

/// Membership of an id in a frontier list.
pub open spec fn id_in(s: Seq<usize>, i: int) -> bool {
    exists|p: int| 0 <= p < s.len() && s[p] == i
}

/// The product of element `i` with generator `j` rescales exactly, is
/// non-zero, and its canonical form is already in the table.
pub open spec fn step_closed_at(t: GroupTable, gens: Seq<Mat>, i: int, j: int) -> bool {
    &&& step_ok(t.mats@[i]@, gens[j]@, t.dim as nat)
&&& has_nz(prod_half(t.mats@[i]@, gens[j]@, t.dim as nat))
&&& t.contains(canon_seq(prod_half(t.mats@[i]@, gens[j]@, t.dim as nat)))
}

/// Element `i` multiplied by each of the first `q` generators lands back in
/// the table.
pub open spec fn processed_upto(t: GroupTable, gens: Seq<Mat>, i: int, q: int) -> bool {
    forall|j: int| 0 <= j < q ==> step_closed_at(t, gens, i, j)
}

/// The table is closed under right-multiplication by every generator: a full
/// further pass over any frontier discovers nothing new.
pub open spec fn closed(t: GroupTable, gens: Seq<Mat>) -> bool {
    forall|i: int|
        0 <= i < t.mats@.len() ==> processed_upto(t, gens, i, gens.len() as int)
}

/// The canonical form of generator `j` is stored under some id no larger
/// than `j`: generators seed the table in order, duplicates collapsed.
pub open spec fn marked_at(t: GroupTable, gens: Seq<Mat>, j: int) -> bool {
    exists|i: int| 0 <= i <= j && i < t.mats@.len() && t.mats@[i]@ == canon_seq(gens[j]@)
}

/// Every generator is non-zero and its canonical form is one of the first
/// ids.
pub open spec fn gens_marked(t: GroupTable, gens: Seq<Mat>) -> bool {
    &&& forall|j: int| 0 <= j < gens.len() ==> has_nz(#[trigger] gens[j]@)
&&& forall|j: int| 0 <= j < gens.len() ==> #[trigger] marked_at(t, gens, j)
}

/// All frontier ids denote table entries.
pub open spec fn frontier_ok(s: Seq<usize>, len: int) -> bool {
    forall|p: int| 0 <= p < s.len() ==> (#[trigger] s[p]) < len
}

/// `post` extends `pre` by appending elements: ids and their matrices are
/// stable.
pub open spec fn extends(pre: GroupTable, post: GroupTable) -> bool {
    &&& pre.dim == post.dim
&&& pre.mats@.len() <= post.mats@.len()
&&& forall|i: int| 0 <= i < pre.mats@.len() ==> post.mats@[i] == pre.mats@[i]
}

proof fn lemma_extends_contains(pre: GroupTable, post: GroupTable, s: Seq<GC>)
    requires
        extends(pre, post),
        pre.contains(s),
    ensures
        post.contains(s),
{
    let w = choose|i: int| 0 <= i < pre.mats@.len() && pre.mats@[i]@ == s;
    assert(post.mats@[w]@ == s);
}

proof fn lemma_extends_processed(pre: GroupTable, post: GroupTable, gens: Seq<Mat>, i: int, q: int)
    requires
        extends(pre, post),
        0 <= i < pre.mats@.len(),
        processed_upto(pre, gens, i, q),
    ensures
        processed_upto(post, gens, i, q),
{
    assert forall|j: int| 0 <= j < q implies step_closed_at(post, gens, i, j) by {
        assert(step_closed_at(pre, gens, i, j));
        assert(post.mats@[i] == pre.mats@[i]);
        lemma_extends_contains(
            pre,
            post,
            canon_seq(prod_half(pre.mats@[i]@, gens[j]@, pre.dim as nat)),
        );
    }
}

proof fn lemma_extends_gens_marked(pre: GroupTable, post: GroupTable, gens: Seq<Mat>)
    requires
        extends(pre, post),
        gens_marked(pre, gens),
    ensures
        gens_marked(post, gens),
{
    assert forall|j: int| 0 <= j < gens.len() implies #[trigger] marked_at(post, gens, j) by {
        assert(marked_at(pre, gens, j));
        let w = choose|i: int|
            0 <= i <= j && i < pre.mats@.len() && pre.mats@[i]@ == canon_seq(gens[j]@);
        assert(post.mats@[w]@ == canon_seq(gens[j]@));
    }
}

/// One right-multiplication step of the closure: from the canonical form
/// `p`, generator `j` yields the canonical form `s`, with the product
/// rescaling exactly and staying non-zero.
pub open spec fn gen_step(gens: Seq<Mat>, d: nat, p: Seq<GC>, j: int, s: Seq<GC>) -> bool {
    &&& 0 <= j < gens.len()
&&& step_ok(p, gens[j]@, d)
&&& has_nz(prod_half(p, gens[j]@, d))
&&& s == canon_seq(prod_half(p, gens[j]@, d))
}

/// `s` arises from a generator by at most `fuel` steps of canonicalized
/// right-multiplication.
#[verifier::opaque]
pub open spec fn reach(gens: Seq<Mat>, d: nat, s: Seq<GC>, fuel: nat) -> bool
    decreases fuel,
{
    fuel > 0 && ((exists|j: int|
        0 <= j < gens.len() && has_nz(gens[j]@) && s == #[trigger] canon_seq(gens[j]@)) || (
    exists|p: Seq<GC>, j: int|
        reach(gens, d, p, (fuel - 1) as nat) && #[trigger] gen_step(gens, d, p, j, s)))
}

/// `s` is one of the canonical forms the generator set reaches at all: the
/// group, as spelled out by products of generators.
#[verifier::opaque]
pub open spec fn reachable(gens: Seq<Mat>, d: nat, s: Seq<GC>) -> bool {
    exists|fuel: nat| reach(gens, d, s, fuel)
}

/// A finite family of canonical forms, no larger than the id space, that
/// contains each canonicalized generator and is closed under canonicalized
/// right-multiplication with every step exact and non-zero.
#[verifier::opaque]
pub open spec fn closed_superset(gens: Seq<Mat>, d: nat, ss: Set<Seq<GC>>) -> bool {
    &&& ss.finite()
&&& ss.len() <= GROUP_LIMIT
&&& forall|j: int| 0 <= j < gens.len() ==> has_nz(#[trigger] gens[j]@)
&&& forall|j: int| 0 <= j < gens.len() ==> ss.contains(#[trigger] canon_seq(gens[j]@))
&&& forall|s: Seq<GC>, j: int|
    #![trigger ss.contains(s), gens[j]@]
    ss.contains(s) && 0 <= j < gens.len() ==> step_ok(s, gens[j]@, d) && has_nz(
        prod_half(s, gens[j]@, d),
    ) && ss.contains(canon_seq(prod_half(s, gens[j]@, d)))
}

/// The generator set generates a group that fits the id space: some closed
/// finite family of canonical forms covers it.  On such a set the closure
/// cannot fail.
#[verifier::opaque]
pub open spec fn buildable(gens: Seq<Mat>, d: nat) -> bool {
    exists|ss: Set<Seq<GC>>| closed_superset(gens, d, ss)
}

/// Pairwise-distinct values drawn from a finite set are no more numerous
/// than the set itself.
proof fn lemma_distinct_in_set_bound(views: Seq<Seq<GC>>, ss: Set<Seq<GC>>)
    requires
        forall|i: int, j: int| 0 <= i < j < views.len() ==> views[i] != views[j],
        forall|i: int| 0 <= i < views.len() ==> ss.contains(#[trigger] views[i]),
        ss.finite(),
    ensures
        views.len() <= ss.len(),
    decreases views.len(),
{
    broadcast use vstd::set::group_set_axioms;

    if views.len() > 0 {
        let last = views.last();
        let rest = views.drop_last();
        let ss2 = ss.remove(last);
        assert forall|i: int| 0 <= i < rest.len() implies ss2.contains(#[trigger] rest[i]) by {
            assert(views[i] != last);
            assert(ss.contains(views[i]));
        }
        lemma_distinct_in_set_bound(rest, ss2);
        assert(ss.contains(last));
        assert(ss.len() == ss2.len() + 1);
    }
}

/// A table of distinct elements of a closed family always has room for one
/// more of the family's forms: insertion can never overrun the id space.
proof fn lemma_room_for_new(t: GroupTable, ss: Set<Seq<GC>>, c: Seq<GC>)
    requires
        t.wf(),
        ss.finite(),
        ss.len() <= GROUP_LIMIT,
        forall|i: int| 0 <= i < t.mats@.len() ==> ss.contains(#[trigger] t.mats@[i]@),
        ss.contains(c),
        !t.contains(c),
    ensures
        t.mats@.len() < GROUP_LIMIT,
{
    let n = t.mats@.len();
    let views = Seq::new(n as nat, |i: int| t.mats@[i]@).push(c);
    assert forall|i: int, j: int| 0 <= i < j < views.len() implies views[i] != views[j] by {
        if j < n {
            assert(views[i] == t.mats@[i]@ && views[j] == t.mats@[j]@);
        } else {
            assert(views[i] == t.mats@[i]@ && views[j] == c);
            assert(t.mats@[i]@ != c);
        }
    }
    assert forall|i: int| 0 <= i < views.len() implies ss.contains(#[trigger] views[i]) by {
        if i < n {
            assert(views[i] == t.mats@[i]@);
        } else {
            assert(views[i] == c);
        }
    }
    lemma_distinct_in_set_bound(views, ss);
}

/// Enumerates the group generated by `gens`: starting from the canonicalized
/// generators, repeatedly right-multiplies every frontier element by every
/// generator, canonicalizes, and inserts what is new, until a whole round
/// discovers nothing.  Ids are assigned in first-discovery order.
#[verifier::rlimit(50)]
pub fn generate_map(gens: &Vec<Mat>) -> (r: Result<GroupTable, GroupError>)
    requires
        gens@.len() >= 1,
        forall|j: int|
            0 <= j < gens@.len() ==> (#[trigger] gens@[j]).wf() && gens@[j].n == gens@[0].n,
    ensures
        (r matches Ok(t) ==> t.wf() && t.dim == gens@[0].n && 1 <= t.mats@.len() <= GROUP_LIMIT),
        (r matches Ok(t) ==> closed(t, gens@)),
        (r matches Ok(t) ==> gens_marked(t, gens@)),
        (r matches Err(e) ==> (e == GroupError::OddEntry || e == GroupError::EntryOutOfRange
            || e == GroupError::ZeroMatrix || e == GroupError::TooManyElements)),
        (r matches Ok(t) ==> (forall|i: int|
            0 <= i < t.mats@.len() ==> reachable(
                gens@,
                gens@[0].n as nat,
                #[trigger] t.mats@[i]@,
            ))),
        buildable(gens@, gens@[0].n as nat) ==> r is Ok,
{
    let dim = gens[0].n;
    let mut table = GroupTable::new(dim);
    let ghost dn: nat = dim as nat;
    let ghost bd: bool = buildable(gens@, dn);
    let ghost ssw: Set<Seq<GC>> = if bd {
        choose|ss: Set<Seq<GC>>| closed_superset(gens@, dn, ss)
    } else {
        Set::empty()
    };
    proof {
        reveal(buildable);
        if bd {
            assert(closed_superset(gens@, dn, ssw));
        }
    }
    let mut s: usize = 0;
    while s < gens.len()
        invariant
            gens@.len() >= 1,
            forall|j: int|
                0 <= j < gens@.len() ==> (#[trigger] gens@[j]).wf() && gens@[j].n == gens@[0].n,
            dim == gens@[0].n,
            table.wf(),
            table.dim == dim,
            s <= gens@.len(),
            table.mats@.len() <= s,
            dn == dim as nat,
            bd == buildable(gens@, dn),
            bd ==> closed_superset(gens@, dn, ssw),
            bd ==> (forall|i: int|
                0 <= i < table.mats@.len() ==> ssw.contains(#[trigger] table.mats@[i]@)),
            forall|i: int|
                0 <= i < table.mats@.len() ==> reachable(gens@, dn, #[trigger] table.mats@[i]@),
            forall|j: int| 0 <= j < s ==> has_nz(#[trigger] gens@[j]@),
            forall|j: int| 0 <= j < s ==> #[trigger] marked_at(table, gens@, j),
        decreases gens@.len() - s,
    {
        let ghost pre = table;
        let added = match table.push(&gens[s]) {
            Ok(a) => a,
            Err(e) => {
                proof {
                    reveal(closed_superset);
                    if bd {
                        assert(has_nz(gens@[s as int]@));
                        let c = canon_seq(gens@[s as int]@);
                        assert(ssw.contains(c));
                        if e == GroupError::TooManyElements {
                            lemma_room_for_new(pre, ssw, c);
                        }
                        assert(false);
                    }
                    assert(!bd);
                }
                return Err(e);
            },
        };
        proof {
            assert(extends(pre, table));
            assert forall|j: int| 0 <= j < s + 1 implies has_nz(#[trigger] gens@[j]@) by {
                if j == s {
                    assert(has_nz(gens@[s as int]@));
                }
            }
            assert forall|j: int| 0 <= j < s + 1 implies #[trigger] marked_at(
                table,
                gens@,
                j,
            ) by {
                if j < s {
                    assert(marked_at(pre, gens@, j));
                    let w = choose|i: int|
                        0 <= i <= j && i < pre.mats@.len() && pre.mats@[i]@ == canon_seq(
                            gens@[j]@,
                        );
                    assert(table.mats@[w]@ == canon_seq(gens@[j]@));
                } else {
                    assert(j == s);
                    if added {
                        assert(pre.mats@.len() <= s);
                        assert(table.mats@[pre.mats@.len() as int]@ == canon_seq(gens@[j]@));
                    } else {
                        assert(table.contains(canon_seq(gens@[s as int]@)));
                        let w = choose|i: int|
                            0 <= i < table.mats@.len() && table.mats@[i]@ == canon_seq(
                                gens@[s as int]@,
                            );
                        assert(0 <= w <= j && w < table.mats@.len() && table.mats@[w]@
                            == canon_seq(gens@[j]@));
                    }
                }
            }
            assert forall|i: int|
                0 <= i < table.mats@.len() implies reachable(
                gens@,
                dn,
                #[trigger] table.mats@[i]@,
            ) by {
                if i < pre.mats@.len() {
                    assert(table.mats@[i] == pre.mats@[i]);
                    assert(reachable(gens@, dn, pre.mats@[i]@));
                } else {
                    reveal(reach);
                    reveal(reachable);
                    assert(added && i == pre.mats@.len());
                    assert(table.mats@[i]@ == canon_seq(gens@[s as int]@));
                    assert(has_nz(gens@[s as int]@));
                    assert(reach(gens@, dn, canon_seq(gens@[s as int]@), 1));
                }
            }
            if bd {
                reveal(closed_superset);
                assert forall|i: int|
                    0 <= i < table.mats@.len() implies ssw.contains(
                    #[trigger] table.mats@[i]@,
                ) by {
                    if i < pre.mats@.len() {
                        assert(table.mats@[i] == pre.mats@[i]);
                        assert(ssw.contains(pre.mats@[i]@));
                    } else {
                        assert(table.mats@[i]@ == canon_seq(gens@[s as int]@));
                        assert(ssw.contains(canon_seq(gens@[s as int]@)));
                    }
                }
            }
        }
        s += 1;
    }
    let mut new_ids: Vec<usize> = Vec::new();
    let mut t0: usize = 0;
    while t0 < table.len()
        invariant
            t0 <= table.mats@.len(),
            new_ids@.len() == t0,
            forall|p: int| 0 <= p < t0 ==> (#[trigger] new_ids@[p]) == p,
        decreases table.mats@.len() - t0,
    {
        new_ids.push(t0);
        t0 += 1;
    }
    let mut newer_ids: Vec<usize> = Vec::new();
    proof {
        assert(marked_at(table, gens@, 0));
        let w = choose|i: int|
            0 <= i <= 0 && i < table.mats@.len() && table.mats@[i]@ == canon_seq(gens@[0]@);
        assert(table.mats@.len() >= 1);
        assert forall|i: int| 0 <= i < table.mats@.len() implies id_in(new_ids@, i) || processed_upto(
            table,
            gens@,
            i,
            gens@.len() as int,
        ) by {
            assert(new_ids@[i] == i);
        }
    }
    loop
        invariant_except_break
            gens@.len() >= 1,
            forall|j: int|
                0 <= j < gens@.len() ==> (#[trigger] gens@[j]).wf() && gens@[j].n == gens@[0].n,
            dim == gens@[0].n,
            table.wf(),
            table.dim == dim,
            1 <= table.mats@.len(),
            dn == dim as nat,
            bd == buildable(gens@, dn),
            bd ==> closed_superset(gens@, dn, ssw),
            bd ==> (forall|i: int|
                0 <= i < table.mats@.len() ==> ssw.contains(#[trigger] table.mats@[i]@)),
            forall|i: int|
                0 <= i < table.mats@.len() ==> reachable(gens@, dn, #[trigger] table.mats@[i]@),
            gens_marked(table, gens@),
            frontier_ok(new_ids@, table.mats@.len() as int),
            newer_ids@.len() == 0,
            forall|i: int|
                0 <= i < table.mats@.len() ==> id_in(new_ids@, i) || processed_upto(
                    table,
                    gens@,
                    i,
                    gens@.len() as int,
                ),
        ensures
            table.wf(),
            table.dim == dim,
            1 <= table.mats@.len(),
            gens_marked(table, gens@),
            closed(table, gens@),
            forall|i: int|
                0 <= i < table.mats@.len() ==> reachable(gens@, dn, #[trigger] table.mats@[i]@),
        decreases GROUP_LIMIT - table.mats@.len(),
    {
        let ghost len0 = table.mats@.len();
        proof {
            assert(new_ids@.subrange(0, new_ids@.len() as int) =~= new_ids@);
        }
        let mut p: usize = 0;
        while p < new_ids.len()
            invariant
                gens@.len() >= 1,
                forall|j: int|
                    0 <= j < gens@.len() ==> (#[trigger] gens@[j]).wf() && gens@[j].n
                        == gens@[0].n,
                dim == gens@[0].n,
                table.wf(),
                table.dim == dim,
                1 <= table.mats@.len(),
                dn == dim as nat,
                bd == buildable(gens@, dn),
                bd ==> closed_superset(gens@, dn, ssw),
                bd ==> (forall|i: int|
                    0 <= i < table.mats@.len() ==> ssw.contains(#[trigger] table.mats@[i]@)),
                forall|i: int|
                    0 <= i < table.mats@.len() ==> reachable(gens@, dn, #[trigger] table.mats@[i]@),
                gens_marked(table, gens@),
                frontier_ok(new_ids@, table.mats@.len() as int),
                frontier_ok(newer_ids@, table.mats@.len() as int),
                p <= new_ids@.len(),
                len0 <= table.mats@.len(),
                table.mats@.len() >= len0 + newer_ids@.len(),
                forall|i: int|
                    0 <= i < table.mats@.len() ==> id_in(
                        new_ids@.subrange(p as int, new_ids@.len() as int),
                        i,
                    ) || id_in(newer_ids@, i) || processed_upto(
                        table,
                        gens@,
                        i,
                        gens@.len() as int,
                    ),
            decreases new_ids@.len() - p,
        {
            let e = new_ids[p];
            proof {
                let nlen = new_ids@.len() as int;
                assert forall|i: int| 0 <= i < table.mats@.len() implies id_in(
                    new_ids@.subrange(p + 1, nlen),
                    i,
                ) || id_in(newer_ids@, i) || processed_upto(table, gens@, i, gens@.len() as int)
                    || (i == e && processed_upto(table, gens@, i, 0)) by {
                    if i != e && id_in(new_ids@.subrange(p as int, nlen), i) {
                        let sub = new_ids@.subrange(p as int, nlen);
                        let w = choose|w: int| 0 <= w < sub.len() && sub[w] == i;
                        assert(new_ids@[p + w] == i);
                        assert(w != 0);
                        assert(new_ids@.subrange(p + 1, nlen)[w - 1] == i);
                    }
                }
            }
            let mut q: usize = 0;
            while q < gens.len()
                invariant
                    gens@.len() >= 1,
                    forall|j: int|
                        0 <= j < gens@.len() ==> (#[trigger] gens@[j]).wf() && gens@[j].n
                            == gens@[0].n,
                    dim == gens@[0].n,
                    table.wf(),
                    table.dim == dim,
                    1 <= table.mats@.len(),
                    dn == dim as nat,
                    bd == buildable(gens@, dn),
                    bd ==> closed_superset(gens@, dn, ssw),
                    bd ==> (forall|i: int|
                        0 <= i < table.mats@.len() ==> ssw.contains(#[trigger] table.mats@[i]@)),
                    forall|i: int|
                        0 <= i < table.mats@.len() ==> reachable(gens@, dn, #[trigger] table.mats@[i]@),
                    gens_marked(table, gens@),
                    frontier_ok(new_ids@, table.mats@.len() as int),
                    frontier_ok(newer_ids@, table.mats@.len() as int),
                    p < new_ids@.len(),
                    e == new_ids@[p as int],
                    e < table.mats@.len(),
                    q <= gens@.len(),
                    len0 <= table.mats@.len(),
                    table.mats@.len() >= len0 + newer_ids@.len(),
                    forall|i: int|
                        0 <= i < table.mats@.len() ==> id_in(
                            new_ids@.subrange(p + 1, new_ids@.len() as int),
                            i,
                        ) || id_in(newer_ids@, i) || processed_upto(
                            table,
                            gens@,
                            i,
                            gens@.len() as int,
                        ) || (i == e && processed_upto(table, gens@, i, q as int)),
                decreases gens@.len() - q,
            {
                let prod = match dot(&table.mats[e], &gens[q]) {
                    Ok(m) => m,
                    Err(err) => {
                        proof {
                            reveal(closed_superset);
                            if bd {
                                assert(ssw.contains(table.mats@[e as int]@));
                                assert(step_ok(
                                    table.mats@[e as int]@,
                                    gens@[q as int]@,
                                    dn,
                                ));
                                assert(false);
                            }
                            assert(!bd);
                        }
                        return Err(err);
                    },
                };
                let ghost pre = table;
                let added = match table.push(&prod) {
                    Ok(a) => a,
                    Err(err) => {
                        proof {
                            reveal(closed_superset);
                            if bd {
                                assert(ssw.contains(pre.mats@[e as int]@));
                                assert(has_nz(prod_half(
                                    pre.mats@[e as int]@,
                                    gens@[q as int]@,
                                    dn,
                                )));
                                assert(has_nz(prod@));
                                let c = canon_seq(prod@);
                                assert(ssw.contains(c));
                                if err == GroupError::TooManyElements {
                                    lemma_room_for_new(pre, ssw, c);
                                }
                                assert(false);
                            }
                            assert(!bd);
                        }
                        return Err(err);
                    },
                };
                let ghost newer_pre = newer_ids@;
                if added {
                    let id = table.len() - 1;
                    newer_ids.push(id);
                }
                proof {
                    assert(extends(pre, table));
                    lemma_extends_gens_marked(pre, table, gens@);
                    assert(table.mats@[e as int] == pre.mats@[e as int]);
                    assert(step_closed_at(table, gens@, e as int, q as int)) by {
                        assert(prod@ == prod_half(
                            table.mats@[e as int]@,
                            gens@[q as int]@,
                            dim as nat,
                        ));
                        assert(table.contains(canon_seq(prod@)));
                    }
                    assert forall|i: int| 0 <= i < table.mats@.len() implies id_in(
                        new_ids@.subrange(p + 1, new_ids@.len() as int),
                        i,
                    ) || id_in(newer_ids@, i) || processed_upto(
                        table,
                        gens@,
                        i,
                        gens@.len() as int,
                    ) || (i == e && processed_upto(table, gens@, i, q + 1)) by {
                        if i < pre.mats@.len() {
                            if id_in(new_ids@.subrange(p + 1, new_ids@.len() as int), i) {
                            } else if id_in(newer_pre, i) {
                                let w = choose|w: int|
                                    0 <= w < newer_pre.len() && newer_pre[w] == i;
                                assert(newer_ids@[w] == i);
                            } else if processed_upto(pre, gens@, i, gens@.len() as int) {
                                lemma_extends_processed(pre, table, gens@, i, gens@.len() as int);
                            } else {
                                assert(i == e && processed_upto(pre, gens@, i, q as int));
                                lemma_extends_processed(pre, table, gens@, i, q as int);
                            }
                        } else {
                            assert(added);
                            assert(newer_ids@[newer_ids@.len() - 1] == i);
                        }
                    }
                    assert forall|i: int|
                        0 <= i < table.mats@.len() implies reachable(
                        gens@,
                        dn,
                        #[trigger] table.mats@[i]@,
                    ) by {
                        if i < pre.mats@.len() {
                            assert(table.mats@[i] == pre.mats@[i]);
                            assert(reachable(gens@, dn, pre.mats@[i]@));
                        } else {
                            reveal(reach);
                            reveal(reachable);
                            assert(reachable(gens@, dn, pre.mats@[e as int]@));
                            let f = choose|f: nat| reach(gens@, dn, pre.mats@[e as int]@, f);
                            assert(gen_step(
                                gens@,
                                dn,
                                pre.mats@[e as int]@,
                                q as int,
                                table.mats@[i]@,
                            ));
                            assert(reach(gens@, dn, table.mats@[i]@, f + 1));
                        }
                    }
                    if bd {
                        reveal(closed_superset);
                        assert forall|i: int|
                            0 <= i < table.mats@.len() implies ssw.contains(
                            #[trigger] table.mats@[i]@,
                        ) by {
                            if i < pre.mats@.len() {
                                assert(table.mats@[i] == pre.mats@[i]);
                                assert(ssw.contains(pre.mats@[i]@));
                            } else {
                                assert(ssw.contains(pre.mats@[e as int]@));
                                assert(table.mats@[i]@ == canon_seq(prod_half(
                                    pre.mats@[e as int]@,
                                    gens@[q as int]@,
                                    dn,
                                )));
                            }
                        }
                    }
                }
                q += 1;
            }
            proof {
                assert forall|i: int| 0 <= i < table.mats@.len() implies id_in(
                    new_ids@.subrange(p + 1, new_ids@.len() as int),
                    i,
                ) || id_in(newer_ids@, i) || processed_upto(
                    table,
                    gens@,
                    i,
                    gens@.len() as int,
                ) by {}
            }
            p += 1;
        }
        if newer_ids.is_empty() {
            proof {
                assert forall|i: int| 0 <= i < table.mats@.len() implies processed_upto(
                    table,
                    gens@,
                    i,
                    gens@.len() as int,
                ) by {
                    assert(!id_in(new_ids@.subrange(p as int, new_ids@.len() as int), i));
                    assert(!id_in(newer_ids@, i));
                }
            }
            break;
        }
        proof {
            assert(table.mats@.len() >= len0 + 1);
        }
        new_ids = newer_ids;
        newer_ids = Vec::new();
        proof {
            assert forall|i: int| 0 <= i < table.mats@.len() implies id_in(new_ids@, i)
                || processed_upto(table, gens@, i, gens@.len() as int) by {
                if id_in(new_ids@.subrange(0, new_ids@.len() as int), i) {
                    assert(new_ids@.subrange(0, new_ids@.len() as int) =~= new_ids@);
                }
            }
        }
    }
    Ok(table)
}

/// The closure is a fixed point: one more full pass over any frontier with
/// every generator discovers nothing new, because every product of a stored
/// element with a generator rescales exactly, is non-zero, and already has
/// its canonical form stored.
pub proof fn lemma_closure_fixed_point(t: GroupTable, gens: Seq<Mat>, i: int, j: int)
    requires
        closed(t, gens),
        0 <= i < t.mats@.len(),
        0 <= j < gens.len(),
    ensures
        step_ok(t.mats@[i]@, gens[j]@, t.dim as nat),
        has_nz(prod_half(t.mats@[i]@, gens[j]@, t.dim as nat)),
        t.contains(canon_seq(prod_half(t.mats@[i]@, gens[j]@, t.dim as nat))),
{
    assert(processed_upto(t, gens, i, gens.len() as int));
    assert(step_closed_at(t, gens, i, j));
}

} // verus!
