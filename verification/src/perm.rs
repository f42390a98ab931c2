//! Row-permutation type with tracked transposition parity.

use vstd::prelude::*;

verus! {

/// `s` lists every index of `0..s.len()` exactly once.
pub open spec fn is_permutation(s: Seq<usize>) -> bool {
    &&& s.len() <= usize::MAX
    &&& forall|i: int| 0 <= i < s.len() ==> #[trigger] s[i] < s.len()
    &&& forall|i: int, j: int| 0 <= i < s.len() && 0 <= j < s.len() && i != j ==> s[i] != s[j]
    &&& forall|k: usize| k < s.len() ==> #[trigger] s.contains(k)
}

/// The identity ordering `[0, 1, ..., n - 1]`.
pub open spec fn identity_order(n: nat) -> Seq<usize> {
    Seq::new(n, |i: int| i as usize)
}

/// `(P v)[i] = v[p[i]]`.
pub open spec fn permuted<T>(p: Seq<usize>, v: Seq<T>) -> Seq<T> {
    Seq::new(p.len(), |i: int| v[p[i] as int])
}

/// `w` is the inverse permutation of `p` applied to `v`: `w[p[i]] = v[i]`.
pub open spec fn is_inverse_image<T>(p: Seq<usize>, v: Seq<T>, w: Seq<T>) -> bool {
    &&& w.len() == p.len()
    &&& forall|i: int| 0 <= i < p.len() ==> w[#[trigger] p[i] as int] == v[i]
}

/// Entries among the first `p` of `s` that exceed `x`.
pub open spec fn count_greater(s: Seq<usize>, p: int, x: usize) -> nat
    decreases p,
{
    if p <= 0 {
        0
    } else {
        count_greater(s, p - 1, x) + if s[p - 1] > x {
            1nat
        } else {
            0nat
        }
    }
}

/// Inversions among the first `m` positions: pairs `i < j < m` with
/// `s[i] > s[j]`.
pub open spec fn inversions(s: Seq<usize>, m: int) -> nat
    decreases m,
{
    if m <= 0 {
        0
    } else {
        inversions(s, m - 1) + count_greater(s, m - 1, s[m - 1])
    }
}

/// An odd number of pairs of entries stand in decreasing order.
pub open spec fn is_odd_permutation(s: Seq<usize>) -> bool {
    inversions(s, s.len() as int) % 2 == 1
}

/// `s` with the entries at positions `i` and `j` exchanged.
pub open spec fn swapped(s: Seq<usize>, i: int, j: int) -> Seq<usize> {
    s.update(i, s[j]).update(j, s[i])
}

proof fn lemma_count_greater_prefix(s: Seq<usize>, t: Seq<usize>, p: int, x: usize)
    requires
        0 <= p <= s.len(),
        p <= t.len(),
        forall|i: int| 0 <= i < p ==> s[i] == t[i],
    ensures
        count_greater(s, p, x) == count_greater(t, p, x),
    decreases p,
{
    if p > 0 {
        lemma_count_greater_prefix(s, t, p - 1, x);
    }
}

proof fn lemma_inversions_prefix(s: Seq<usize>, t: Seq<usize>, m: int)
    requires
        0 <= m <= s.len(),
        m <= t.len(),
        forall|i: int| 0 <= i < m ==> s[i] == t[i],
    ensures
        inversions(s, m) == inversions(t, m),
    decreases m,
{
    if m > 0 {
        lemma_inversions_prefix(s, t, m - 1);
        lemma_count_greater_prefix(s, t, m - 1, s[m - 1]);
    }
}

/// Exchanging two neighbours inside a prefix keeps its count above `x`.
proof fn lemma_count_greater_adjacent(s: Seq<usize>, k: int, p: int, x: usize)
    requires
        0 <= k,
        k + 2 <= p <= s.len(),
    ensures
        count_greater(swapped(s, k, k + 1), p, x) == count_greater(s, p, x),
    decreases p,
{
    let t = swapped(s, k, k + 1);
    if p == k + 2 {
        lemma_count_greater_prefix(s, t, k, x);
        assert(t[k] == s[k + 1]);
        assert(t[k + 1] == s[k]);
        assert(count_greater(t, k + 1, x) == count_greater(t, k, x) + if t[k] > x {
            1nat
        } else {
            0nat
        });
        assert(count_greater(t, k + 2, x) == count_greater(t, k + 1, x) + if t[k + 1] > x {
            1nat
        } else {
            0nat
        });
        assert(count_greater(s, k + 1, x) == count_greater(s, k, x) + if s[k] > x {
            1nat
        } else {
            0nat
        });
        assert(count_greater(s, k + 2, x) == count_greater(s, k + 1, x) + if s[k + 1] > x {
            1nat
        } else {
            0nat
        });
    } else {
        lemma_count_greater_adjacent(s, k, p - 1, x);
        assert(t[p - 1] == s[p - 1]);
    }
}

/// Exchanging two distinct neighbours adds or removes exactly one inversion.
proof fn lemma_inversions_adjacent(s: Seq<usize>, k: int, m: int)
    requires
        0 <= k,
        k + 2 <= m <= s.len(),
        s[k] != s[k + 1],
    ensures
        inversions(swapped(s, k, k + 1), m) + (if s[k] > s[k + 1] {
            1int
        } else {
            0int
        }) == inversions(s, m) + (if s[k + 1] > s[k] {
            1int
        } else {
            0int
        }),
    decreases m,
{
    let t = swapped(s, k, k + 1);
    if m == k + 2 {
        let a = s[k];
        let b = s[k + 1];
        lemma_inversions_prefix(s, t, k);
        lemma_count_greater_prefix(s, t, k, a);
        lemma_count_greater_prefix(s, t, k, b);
        assert(t[k] == b);
        assert(t[k + 1] == a);
        assert(inversions(t, k + 1) == inversions(t, k) + count_greater(t, k, b));
        assert(inversions(t, k + 2) == inversions(t, k + 1) + count_greater(t, k + 1, a));
        assert(count_greater(t, k + 1, a) == count_greater(t, k, a) + if b > a {
            1nat
        } else {
            0nat
        });
        assert(inversions(s, k + 1) == inversions(s, k) + count_greater(s, k, a));
        assert(inversions(s, k + 2) == inversions(s, k + 1) + count_greater(s, k + 1, b));
        assert(count_greater(s, k + 1, b) == count_greater(s, k, b) + if a > b {
            1nat
        } else {
            0nat
        });
    } else {
        lemma_inversions_adjacent(s, k, m - 1);
        lemma_count_greater_adjacent(s, k, m - 1, s[m - 1]);
        assert(t[m - 1] == s[m - 1]);
    }
}

/// Exchanging two entries of a sequence without duplicates changes the
/// parity of its inversions.
pub proof fn lemma_swap_flips_parity(s: Seq<usize>, i: int, j: int)
    requires
        s.no_duplicates(),
        0 <= i < j < s.len(),
    ensures
        swapped(s, i, j).no_duplicates(),
        inversions(swapped(s, i, j), s.len() as int) % 2 != inversions(s, s.len() as int) % 2,
    decreases j - i,
{
    let n = s.len() as int;
    assert(swapped(s, i, j).no_duplicates()) by {
        let v = swapped(s, i, j);
        assert forall|a: int, b: int| 0 <= a < v.len() && 0 <= b < v.len() && a != b implies v[a]
            != v[b] by {
            let sa = if a == i {
                j
            } else if a == j {
                i
            } else {
                a
            };
            let sb = if b == i {
                j
            } else if b == j {
                i
            } else {
                b
            };
            assert(v[a] == s[sa]);
            assert(v[b] == s[sb]);
        }
    }
    if j == i + 1 {
        lemma_inversions_adjacent(s, i, n);
    } else {
        let t = swapped(s, j - 1, j);
        lemma_swap_flips_parity(s, j - 1, j);
        let u = swapped(t, i, j - 1);
        lemma_swap_flips_parity(t, i, j - 1);
        let v = swapped(u, j - 1, j);
        lemma_swap_flips_parity(u, j - 1, j);
        assert(v =~= swapped(s, i, j));
    }
}

proof fn lemma_identity_inversions(n: nat, m: int)
    requires
        0 <= m <= n,
        n <= usize::MAX + 1,
    ensures
        inversions(identity_order(n), m) == 0,
    decreases m,
{
    if m > 0 {
        lemma_identity_inversions(n, m - 1);
        lemma_identity_count_greater(n, m - 1, (m - 1) as usize);
    }
}

proof fn lemma_identity_count_greater(n: nat, p: int, x: usize)
    requires
        0 <= p <= n,
        p <= x + 1,
    ensures
        count_greater(identity_order(n), p, x) == 0,
    decreases p,
{
    if p > 0 {
        lemma_identity_count_greater(n, p - 1, x);
    }
}

/// A permutation of `0..n`, tracked together with its transposition parity.
///
/// Convention: entry `i` is the original index that occupies position `i`
/// after permuting, so `(P v)[i] = v[perm[i]]`.
#[derive(Debug, Clone, PartialEq, Eq)]
pub struct Perm {
    perm: Vec<usize>,
    odd: bool,
}

impl View for Perm {
    type V = Seq<usize>;

    closed spec fn view(&self) -> Seq<usize> {
        self.perm@
    }
}

impl Perm {
    /// Whether an odd number of proper transpositions produced this permutation.
    pub closed spec fn odd_parity(&self) -> bool {
        self.odd
    }

    /// The entries form a permutation of `0..len` whose tracked parity is
    /// the parity of its inversions.
    pub open spec fn wf(&self) -> bool {
        &&& is_permutation(self@)
        &&& self.odd_parity() == is_odd_permutation(self@)
    }

    /// The identity permutation on `0..n`.
    pub fn identity(n: usize) -> (p: Self)
        ensures
            p@ == identity_order(n as nat),
            !p.odd_parity(),
            p.wf(),
    {
        let mut perm: Vec<usize> = Vec::with_capacity(n);
        let mut i: usize = 0;
        while i < n
            invariant
                i <= n,
                perm@ == identity_order(i as nat),
            decreases n - i,
        {
            perm.push(i);
            i = i + 1;
        }
        let p = Self { perm, odd: false };
        assert forall|k: usize| k < p@.len() implies #[trigger] p@.contains(k) by {
            assert(p@[k as int] == k);
        }
        proof {
            lemma_identity_inversions(n as nat, n as int);
        }
        p
    }

    /// Number of elements permuted.
    pub fn len(&self) -> (n: usize)
        ensures
            n == self@.len(),
    {
        self.perm.len()
    }

    /// Whether the permutation is over zero elements.
    pub fn is_empty(&self) -> (b: bool)
        ensures
            b <==> self@.len() == 0,
    {
        self.perm.len() == 0
    }

    /// Sign of the permutation: `1` for even, `-1` for odd.
    pub fn sign(&self) -> (sign: i8)
        ensures
            sign == if self.odd_parity() {
                -1i8
            } else {
                1i8
            },
            self.wf() ==> (sign == -1 <==> is_odd_permutation(self@)),
    {
        if self.odd {
            -1
        } else {
            1
        }
    }

    /// Swaps positions `i` and `j`, flipping parity when `i != j`.
    pub fn swap(&mut self, i: usize, j: usize)
        requires
            i < old(self)@.len(),
            j < old(self)@.len(),
            old(self).wf(),
        ensures
            final(self)@ == old(self)@.update(i as int, old(self)@[j as int]).update(
                j as int,
                old(self)@[i as int],
            ),
            final(self).odd_parity() == (old(self).odd_parity() != (i != j)),
            final(self).wf(),
    {
        if i != j {
            let a = self.perm[i];
            let b = self.perm[j];
            self.perm.set(i, b);
            self.perm.set(j, a);
            self.odd = !self.odd;
        }
        proof {
            let old_s = old(self)@;
            let s = self@;
            if i != j {
                assert(old_s.no_duplicates());
                if i < j {
                    lemma_swap_flips_parity(old_s, i as int, j as int);
                    assert(s =~= swapped(old_s, i as int, j as int));
                } else {
                    lemma_swap_flips_parity(old_s, j as int, i as int);
                    assert(s =~= swapped(old_s, j as int, i as int));
                }
            } else {
                assert(s =~= old_s);
            }
            assert forall|k: usize| k < s.len() implies #[trigger] s.contains(k) by {
                assert(old_s.contains(k));
                let x = choose|x: int| 0 <= x < old_s.len() && old_s[x] == k;
                if x == i {
                    assert(s[j as int] == k);
                } else if x == j {
                    assert(s[i as int] == k);
                } else {
                    assert(s[x] == k);
                }
            }
        }
    }

    /// Applies the permutation: `out[i] = v[perm[i]]`.
    pub fn apply<T: Copy>(&self, v: &[T]) -> (out: Vec<T>)
        requires
            v@.len() == self@.len(),
            self.wf(),
        ensures
            out@ == permuted(self@, v@),
    {
        let n = self.perm.len();
        let mut out: Vec<T> = Vec::with_capacity(n);
        let mut i: usize = 0;
        while i < n
            invariant
                n == self@.len(),
                v@.len() == n,
                self.wf(),
                i <= n,
                out@ == permuted(self@, v@).subrange(0, i as int),
            decreases n - i,
        {
            let k = self.perm[i];
            out.push(v[k]);
            i = i + 1;
        }
        assert(out@ =~= permuted(self@, v@));
        out
    }

    /// Applies the inverse permutation: `out[perm[i]] = v[i]`.
    pub fn apply_inverse<T: Copy>(&self, v: &[T]) -> (out: Vec<T>)
        requires
            v@.len() == self@.len(),
            self.wf(),
        ensures
            is_inverse_image(self@, v@, out@),
    {
        let n = self.perm.len();
        let mut out: Vec<T> = Vec::with_capacity(n);
        let mut i: usize = 0;
        while i < n
            invariant
                n == self@.len(),
                v@.len() == n,
                i <= n,
                out@.len() == i,
            decreases n - i,
        {
            out.push(v[i]);
            i = i + 1;
        }
        let mut i: usize = 0;
        while i < n
            invariant
                n == self@.len(),
                v@.len() == n,
                self.wf(),
                i <= n,
                out@.len() == n,
                forall|k: int| 0 <= k < i ==> out@[#[trigger] self@[k] as int] == v@[k],
            decreases n - i,
        {
            let target = self.perm[i];
            out.set(target, v[i]);
            i = i + 1;
        }
        out
    }
}

/// Applying the inverse permutation undoes applying the permutation, and the
/// inverse image of a vector is unique.
pub proof fn lemma_apply_inverse_round_trip<T>(p: Seq<usize>, v: Seq<T>, w: Seq<T>)
    requires
        is_permutation(p),
        v.len() == p.len(),
        is_inverse_image(p, permuted(p, v), w),
    ensures
        w == v,
{
    assert forall|k: int| 0 <= k < v.len() implies w[k] == v[k] by {
        assert(p.contains(k as usize));
        let i = choose|i: int| 0 <= i < p.len() && p[i] == k;
        assert(w[p[i] as int] == permuted(p, v)[i]);
    }
    assert(w =~= v);
}

/// Applying the permutation undoes applying its inverse.
pub proof fn lemma_apply_after_inverse<T>(p: Seq<usize>, v: Seq<T>, w: Seq<T>)
    requires
        is_permutation(p),
        v.len() == p.len(),
        is_inverse_image(p, v, w),
    ensures
        permuted(p, w) == v,
{
    assert forall|i: int| 0 <= i < p.len() implies permuted(p, w)[i] == v[i] by {
        assert(w[p[i] as int] == v[i]);
    }
    assert(permuted(p, w) =~= v);
}

/// The identity permutation leaves every vector unchanged.
pub proof fn lemma_identity_is_noop<T>(n: usize, v: Seq<T>)
    requires
        v.len() == n,
    ensures
        permuted(identity_order(n as nat), v) == v,
        is_inverse_image(identity_order(n as nat), v, v),
{
    assert(permuted(identity_order(n as nat), v) =~= v);
}

/// Swapping the same two positions twice restores the ordering.
pub proof fn lemma_swap_is_involution(s: Seq<usize>, i: int, j: int)
    requires
        0 <= i < s.len(),
        0 <= j < s.len(),
    ensures
        ({
            let once = s.update(i, s[j]).update(j, s[i]);
            once.update(i, once[j]).update(j, once[i])
        }) == s,
{
    let once = s.update(i, s[j]).update(j, s[i]);
    assert(once.update(i, once[j]).update(j, once[i]) =~= s);
}

} // verus!
