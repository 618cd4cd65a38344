//! Divisor computation and the memoizing factor cache.
//!
//! A beam's legal step lengths are exactly the divisors of its remaining
//! value, listed once each and sorted largest first (larger steps shrink the
//! value faster and are tried first by the search).

use vstd::prelude::*;

verus! {

use vstd::arithmetic::div_mod::{
    lemma_fundamental_div_mod,
    lemma_mod_division_less_than_divisor,
};

/// Every pair of positions is strictly ordered, largest first.
pub open spec fn strictly_descending(s: Seq<usize>) -> bool {
    forall|i: int, j: int| 0 <= i < j < s.len() ==> s[i] > s[j]
}

/// Every listed number divides `n` and lies in `1 ..= n`.
pub open spec fn all_divide(n: usize, s: Seq<usize>) -> bool {
    forall|i: int| 0 <= i < s.len() ==> 1 <= #[trigger] s[i] <= n && n as int % (s[i] as int) == 0
}

/// Every divisor of `n` appears in the list.
pub open spec fn divisors_complete(n: usize, s: Seq<usize>) -> bool {
    forall|d: usize| 1 <= d <= n && n as int % (d as int) == 0 ==> #[trigger] s.contains(d)
}

/// `s` is exactly the divisor set of `n`, without duplicates, sorted
/// descending.
pub open spec fn is_factor_list(n: usize, s: Seq<usize>) -> bool {
    strictly_descending(s) && all_divide(n, s) && divisors_complete(n, s)
}

/// What the factor computation returns: the divisor list for positive `n`,
/// and the single entry 1 for `n == 0` (0 has no finite divisor set; the
/// degenerate entry keeps a beam whose value bottomed out at a single legal
/// step).
pub open spec fn factor_result(n: usize, s: Seq<usize>) -> bool {
    if n == 0 {
        s.len() == 1 && s[0] == 1
    } else {
        is_factor_list(n, s)
    }
}

/// For a divisor `d` of `n`, the cofactor `n / d` is a divisor as well and
/// the two divide `n` into each other.
pub proof fn lemma_cofactor(n: int, d: int)
    requires
        1 <= d <= n,
        n % d == 0,
    ensures
        1 <= n / d <= n,
        n % (n / d) == 0,
        n / (n / d) == d,
        n == d * (n / d),
{
    lemma_fundamental_div_mod(n, d);
    let q = n / d;
    assert(n == d * q);
    assert(1 <= q <= n) by (nonlinear_arith)
        requires n == d * q, 1 <= d <= n;
    lemma_fundamental_div_mod(n, q);
    lemma_mod_division_less_than_divisor(n, q);
    let r = n % q;
    let e = n / q;
    assert(n == q * e + r && 0 <= r < q);
    assert(e == d && r == 0) by (nonlinear_arith)
        requires n == d * q, n == q * e + r, 0 <= r < q, 1 <= d, 1 <= q;
}

/// Among divisors of `n`, a larger divisor has a smaller cofactor.
pub proof fn lemma_cofactor_anti(n: int, a: int, b: int)
    requires
        1 <= a < b <= n,
        n % a == 0,
        n % b == 0,
    ensures
        n / a > n / b,
{
    lemma_cofactor(n, a);
    lemma_cofactor(n, b);
    assert(n / a > n / b) by (nonlinear_arith)
        requires
            n == a * (n / a),
            n == b * (n / b),
            1 <= a < b,
            1 <= n / a,
            1 <= n / b;
}

/// `i <= n / i` says the same as `i * i <= n`.
pub proof fn lemma_le_div_iff_sq(n: int, i: int)
    requires
        0 <= n,
        1 <= i,
    ensures
        (i <= n / i) <==> (i * i <= n),
{
    lemma_fundamental_div_mod(n, i);
    lemma_mod_division_less_than_divisor(n, i);
    let q = n / i;
    let r = n % i;
    assert(n == i * q + r && 0 <= r < i);
    assert((i <= q) <==> (i * i <= n)) by (nonlinear_arith)
        requires n == i * q + r, 0 <= r < i, 1 <= i;
}

/// Law (divisor-list ends): the divisor list of a positive `n` always
/// holds 1 and `n` itself, and opens with `n`.
pub proof fn lemma_factor_list_extremes(n: usize, s: Seq<usize>)
    requires
        n >= 1,
        is_factor_list(n, s),
    ensures
        s.contains(1),
        s.contains(n),
        s.len() >= 1,
        s[0] == n,
{
    assert(n as int % (1int) == 0);
    assert(n as int % (n as int) == 0) by {
        vstd::arithmetic::div_mod::lemma_mod_self_0(n as int);
    }
    assert(s.contains(1usize));
    assert(s.contains(n));
    let j = choose|j: int| 0 <= j < s.len() && s[j] == n;
    assert(1 <= s[0] <= n);
    if j > 0 {
        assert(s[0] > s[j]);
    }
}

/// From one position on, two divisor lists of `n` that already agree on
/// their prefix agree everywhere: strict descent plus identical membership
/// leaves no freedom.
proof fn lemma_factor_ext(n: usize, s1: Seq<usize>, s2: Seq<usize>, i: int)
    requires
        is_factor_list(n, s1),
        is_factor_list(n, s2),
        0 <= i <= s1.len(),
        i <= s2.len(),
        forall|j: int| 0 <= j < i ==> s1[j] == s2[j],
    ensures
        s1 == s2,
    decreases s1.len() - i,
{
    if i < s1.len() {
        assert(1 <= s1[i] <= n && n as int % (s1[i] as int) == 0);
        assert(s2.contains(s1[i]));
        let m = choose|m: int| 0 <= m < s2.len() && s2[m] == s1[i];
        if m < i {
            assert(s2[m] == s1[m]);
            assert(s1[m] > s1[i]);
        }
        assert(m >= i);
        assert(i < s2.len());
        assert(s2[i] >= s2[m]);
        assert(1 <= s2[i] <= n && n as int % (s2[i] as int) == 0);
        assert(s1.contains(s2[i]));
        let m2 = choose|m2: int| 0 <= m2 < s1.len() && s1[m2] == s2[i];
        if m2 < i {
            assert(s1[m2] == s2[m2]);
            assert(s2[m2] > s2[i]);
        }
        assert(m2 >= i);
        assert(s1[i] >= s1[m2]);
        assert(s1[i] == s2[i]);
        lemma_factor_ext(n, s1, s2, i + 1);
    } else {
        if i < s2.len() {
            assert(1 <= s2[i] <= n && n as int % (s2[i] as int) == 0);
            assert(s1.contains(s2[i]));
            let m2 = choose|m2: int| 0 <= m2 < s1.len() && s1[m2] == s2[i];
            assert(s1[m2] == s2[m2]);
            assert(s2[m2] > s2[i]);
        }
        assert(s1 =~= s2);
    }
}

/// Law (divisor lists are unique): a number has exactly one divisor list,
/// so any two values the factor computation may hand out are the same.
pub proof fn lemma_factor_result_unique(n: usize, s1: Seq<usize>, s2: Seq<usize>)
    requires
        factor_result(n, s1),
        factor_result(n, s2),
    ensures
        s1 == s2,
{
    if n == 0 {
        assert(s1 =~= s2);
    } else {
        lemma_factor_ext(n, s1, s2, 0);
    }
}

/// The divisors of `n`, each once, sorted descending.  Candidates are probed
/// up to the integer square root; each hit contributes both the candidate
/// and its cofactor.
#[verifier::loop_isolation(false)]
pub fn compute_factors(n: usize) -> (r: Vec<usize>)
    ensures
        factor_result(n, r@),
{
    if n == 0 {
        let mut r: Vec<usize> = Vec::new();
        r.push(1);
        return r;
    }
    // Divisors at or below the square root, ascending.
    let mut small: Vec<usize> = Vec::new();
    // Divisors above the square root, descending.
    let mut large: Vec<usize> = Vec::new();
    proof {
        // A divisor's cofactor is at least 1, so no divisor is missed when
        // the probe starts at 1.
        assert forall|e: usize| 1 <= e <= n && n as int % (e as int) == 0
            implies #[trigger] (n as int / (e as int)) >= 1 by {
            lemma_cofactor(n as int, e as int);
        }
    }
    let mut i: usize = 1;
    while i <= n / i
        invariant
            1 <= i,
            1 <= n,
            forall|k: int, l: int| 0 <= k < l < small@.len() ==> small@[k] < small@[l],
            forall|k: int| 0 <= k < small@.len()
                ==> 1 <= #[trigger] small@[k] < i && small@[k] <= n
                    && n as int % (small@[k] as int) == 0
                    && small@[k] * small@[k] <= n,
            forall|d: usize| 1 <= d < i && n as int % (d as int) == 0
                ==> #[trigger] small@.contains(d),
            forall|k: int, l: int| 0 <= k < l < large@.len() ==> large@[k] > large@[l],
            forall|k: int| 0 <= k < large@.len()
                ==> 1 <= #[trigger] large@[k] <= n && n as int % (large@[k] as int) == 0
                    && large@[k] * large@[k] > n
                    && n as int / (large@[k] as int) < i,
            forall|e: usize| 1 <= e <= n && n as int % (e as int) == 0
                && e * e > n && n as int / (e as int) < i
                ==> #[trigger] large@.contains(e),
        decreases n + 1 - i,
    {
        proof {
            lemma_le_div_iff_sq(n as int, i as int);
            assert(i <= n) by (nonlinear_arith)
                requires 1 <= i, (i as int) * (i as int) <= n as int;
            assert(i < usize::MAX) by (nonlinear_arith)
                requires
                    1 <= i,
                    (i as int) * (i as int) <= n as int,
                    n <= usize::MAX;
        }
        if n % i == 0 {
            let c = n / i;
            proof {
                lemma_cofactor(n as int, i as int);
                // Every earlier large entry has a cofactor below i, hence
                // exceeds c.
                assert forall|k: int| 0 <= k < large@.len() implies large@[k] > c by {
                    let e = large@[k];
                    lemma_cofactor(n as int, e as int);
                    lemma_cofactor_anti(n as int, n as int / (e as int), i as int);
                }
            }
            let ghost sm0 = small@;
            let ghost lg0 = large@;
            small.push(i);
            if i != c {
                proof {
                    assert(c * c > n) by (nonlinear_arith)
                        requires
                            n as int == (i as int) * (c as int),
                            1 <= i < c;
                }
                large.push(c);
            }
            proof {
                assert forall|d: usize| 1 <= d < i + 1 && n as int % (d as int) == 0
                    implies small@.contains(d) by {
                    if d == i {
                        assert(small@[sm0.len() as int] == i);
                    } else {
                        assert(sm0.contains(d));
                        let j = choose|j: int| 0 <= j < sm0.len() && sm0[j] == d;
                        assert(small@[j] == d);
                    }
                }
                // A divisor whose cofactor is exactly i is c itself.
                assert forall|e: usize| 1 <= e <= n && n as int % (e as int) == 0
                    && e * e > n && n as int / (e as int) < i + 1
                    implies large@.contains(e) by {
                    if n as int / (e as int) == i as int {
                        lemma_cofactor(n as int, e as int);
                        assert(e == c);
                        assert(i != c) by (nonlinear_arith)
                            requires
                                (e as int) * (e as int) > n as int,
                                (i as int) * (i as int) <= n as int,
                                e == c;
                        assert(large@[lg0.len() as int] == c);
                    } else {
                        assert(lg0.contains(e));
                        let j = choose|j: int| 0 <= j < lg0.len() && lg0[j] == e;
                        assert(large@[j] == e);
                    }
                }
            }
        } else {
            proof {
                // No divisor has cofactor i here, else i would divide n.
                assert forall|e: usize| 1 <= e <= n && n as int % (e as int) == 0
                    && e * e > n && n as int / (e as int) < i + 1
                    implies large@.contains(e) by {
                    if n as int / (e as int) == i as int {
                        lemma_cofactor(n as int, e as int);
                        assert(n as int % (i as int) == 0);
                    }
                }
            }
        }
        i = i + 1;
    }
    proof {
        lemma_le_div_iff_sq(n as int, i as int);
        // Each divisor falls on one side of the square root; either way its
        // representative candidate was probed.
        assert forall|d: usize| 1 <= d <= n && n as int % (d as int) == 0
            implies small@.contains(d) || large@.contains(d) by {
            if d * d <= n {
                assert(d < i) by (nonlinear_arith)
                    requires d * d <= n, (i as int) * (i as int) > n, 1 <= d, 1 <= i;
            } else {
                lemma_cofactor(n as int, d as int);
                let c = n as int / (d as int);
                assert(c * c <= n) by (nonlinear_arith)
                    requires n as int == (d as int) * c, d * d > n, 1 <= c, 1 <= d;
                assert(c < i) by (nonlinear_arith)
                    requires c * c <= n, (i as int) * (i as int) > n, 1 <= c, 1 <= i;
            }
        }
    }
    // Assemble: the large divisors already descend; the small ones are
    // appended in reverse.
    let ghost gl = large@;
    let ghost gs = small@;
    proof {
        assert(forall|k: int| 0 <= k < gl.len()
            ==> 1 <= #[trigger] gl[k] <= n && n as int % (gl[k] as int) == 0
                && gl[k] * gl[k] > n);
        assert(forall|k: int, l: int| 0 <= k < l < gl.len() ==> gl[k] > gl[l]);
        assert(forall|k: int| 0 <= k < gs.len()
            ==> 1 <= #[trigger] gs[k] <= n && n as int % (gs[k] as int) == 0
                && gs[k] * gs[k] <= n);
        assert(forall|k: int, l: int| 0 <= k < l < gs.len() ==> gs[k] < gs[l]);
    }
    let mut r = large;
    let mut k = small.len();
    while k > 0
        invariant
            k <= gs.len(),
            small@ == gs,
            r@.len() == gl.len() + (gs.len() - k),
            forall|j: int| 0 <= j < gl.len() ==> r@[j] == gl[j],
            forall|j: int| gl.len() <= j < r@.len() ==> r@[j] == gs[gs.len() - 1 - (j - gl.len())],
        decreases k,
    {
        k = k - 1;
        let v = small[k];
        r.push(v);
    }
    proof {
        assert forall|p: int, q: int| 0 <= p < q < r@.len() implies r@[p] > r@[q] by {
            if p < gl.len() && q >= gl.len() {
                let e = r@[p];
                let d = r@[q];
                assert(e == gl[p]);
                assert(d == gs[gs.len() - 1 - (q - gl.len())]);
                assert(e * e > n && d * d <= n && 1 <= d && 1 <= e);
                assert(e > d) by (nonlinear_arith)
                    requires e * e > n, d * d <= n, 1 <= (d as int), 1 <= (e as int);
            } else if q < gl.len() {
                assert(r@[p] == gl[p] && r@[q] == gl[q]);
            } else {
                let ip = gs.len() - 1 - (p - gl.len());
                let iq = gs.len() - 1 - (q - gl.len());
                assert(r@[p] == gs[ip] && r@[q] == gs[iq]);
                assert(iq < ip);
            }
        }
        assert forall|j: int| 0 <= j < r@.len()
            implies 1 <= #[trigger] r@[j] <= n && n as int % (r@[j] as int) == 0 by {
            if j < gl.len() {
                assert(r@[j] == gl[j]);
            } else {
                assert(r@[j] == gs[gs.len() - 1 - (j - gl.len())]);
            }
        }
        assert forall|d: usize| 1 <= d <= n && n as int % (d as int) == 0
            implies #[trigger] r@.contains(d) by {
            if gs.contains(d) {
                let j = choose|j: int| 0 <= j < gs.len() && gs[j] == d;
                assert(r@[gl.len() + (gs.len() - 1 - j)] == d);
            } else {
                assert(gl.contains(d));
                let j = choose|j: int| 0 <= j < gl.len() && gl[j] == d;
                assert(r@[j] == d);
            }
        }
        assert(strictly_descending(r@));
        assert(all_divide(n, r@));
        assert(divisors_complete(n, r@));
    }
    r
}

/// The factor cache: a map from a number to its divisor list, filled at
/// most once per distinct key.  It is carried as an explicit value and
/// handed to whatever derives move sets, so its lifetime is plain.
pub struct FactorCache {
    pub table: std::collections::BTreeMap<usize, Vec<usize>>,
}

impl FactorCache {
    /// Every cached entry is the divisor list of its key.
    pub open spec fn wf(self) -> bool {
        forall|n: usize| self.table@.contains_key(n) ==> factor_result(n, #[trigger] self.table@[n]@)
    }

    pub fn new() -> (c: FactorCache)
        ensures
            c.wf(),
    {
        FactorCache { table: std::collections::BTreeMap::new() }
    }

    /// The divisor list of `n`, from the cache when present, computed and
    /// remembered otherwise.
    pub fn get_factors(&mut self, n: usize) -> (r: Vec<usize>)
        requires
            old(self).wf(),
        ensures
            final(self).wf(),
            factor_result(n, r@),
    {
        proof {
            broadcast use vstd::laws_cmp::group_laws_cmp;
        }
        let cached = self.table.get(&n);
        match cached {
            Some(v) => copy_list(v),
            None => {
                let f = compute_factors(n);
                let out = copy_list(&f);
                self.table.insert(n, f);
                out
            },
        }
    }
}

/// A plain element-by-element copy of a list.
pub(crate) fn copy_list(v: &Vec<usize>) -> (r: Vec<usize>)
    ensures
        r@ == v@,
{
    let mut r: Vec<usize> = Vec::new();
    let mut i: usize = 0;
    while i < v.len()
        invariant
            i <= v@.len(),
            r@ == v@.subrange(0, i as int),
        decreases v@.len() - i,
    {
        let x = v[i];
        r.push(x);
        proof {
            assert(r@ =~= v@.subrange(0, i + 1));
        }
        i = i + 1;
    }
    proof {
        assert(r@ =~= v@);
    }
    r
}

} // verus!
