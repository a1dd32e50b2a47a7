//! Pairwise and list greatest common divisors.
use vstd::arithmetic::div_mod::lemma_small_mod;
use vstd::prelude::*;

verus! {

/// `d` divides `a`: some integer multiple of `d` is `a`.
pub open spec fn divides(d: int, a: int) -> bool {
    exists|k: int| #[trigger] (k * d) == a
}

/// Euclid's recursion on remainders.
pub open spec fn spec_gcd(a: nat, b: nat) -> nat
    decreases b,
{
    if b == 0 {
        a
    } else {
        spec_gcd(b, a % b)
    }
}

/// `g` is the greatest common divisor of `a` and `b`: a positive common divisor
/// that every common divisor divides.
pub open spec fn is_gcd_of(g: int, a: int, b: int) -> bool {
    &&& g > 0
    &&& divides(g, a)
    &&& divides(g, b)
    &&& forall|d: int| divides(d, a) && divides(d, b) ==> #[trigger] divides(d, g)
}

/// The greatest common divisor of a non-empty sequence, folded from the left
/// and seeded with its first element.
pub open spec fn list_gcd(s: Seq<u64>) -> nat
    decreases s.len(),
{
    if s.len() <= 1 {
        if s.len() == 0 { 0 } else { s[0] as nat }
    } else {
        spec_gcd(list_gcd(s.drop_last()), s.last() as nat)
    }
}

pub open spec fn all_positive(s: Seq<u64>) -> bool {
    forall|i: int| 0 <= i < s.len() ==> #[trigger] s[i] > 0
}

/// `g` is the greatest common divisor of all of `s`: a positive divisor of each
/// element that every common divisor of the elements divides.
pub open spec fn is_list_gcd_of(g: int, s: Seq<u64>) -> bool {
    &&& g > 0
    &&& forall|i: int| 0 <= i < s.len() ==> #[trigger] divides(g, s[i] as int)
    &&& forall|d: int|
        (forall|i: int| 0 <= i < s.len() ==> #[trigger] divides(d, s[i] as int))
            ==> #[trigger] divides(d, g)
}

proof fn lemma_divides_self(a: int)
    ensures
        divides(a, a),
        divides(a, 0),
{
    assert(1 * a == a);
    assert(0 * a == 0);
}

/// A common divisor of `a` and `b` also divides `a % b`, and one of `b` and
/// `a % b` also divides `a`.
proof fn lemma_divides_mod(d: int, a: nat, b: nat)
    requires
        b > 0,
    ensures
        divides(d, a as int) && divides(d, b as int) ==> divides(d, (a % b) as int),
        divides(d, b as int) && divides(d, (a % b) as int) ==> divides(d, a as int),
{
    let q = (a / b) as int;
    let r = (a % b) as int;
    assert(a == q * b + r) by (nonlinear_arith)
        requires
            b > 0,
            q == a / b,
            r == a % b,
    ;
    if divides(d, a as int) && divides(d, b as int) {
        let k = choose|k: int| #[trigger] (k * d) == a;
        let j = choose|j: int| #[trigger] (j * d) == b;
        assert((k - q * j) * d == k * d - q * (j * d)) by (nonlinear_arith);
        assert(((k - q * j) * d) == r);
    }
    if divides(d, b as int) && divides(d, r) {
        let j = choose|j: int| #[trigger] (j * d) == b;
        let t = choose|t: int| #[trigger] (t * d) == r;
        assert((q * j + t) * d == q * (j * d) + t * d) by (nonlinear_arith);
        assert(((q * j + t) * d) == a);
    }
}

/// A positive multiple of a positive `d` is at least `d`.
pub proof fn lemma_divisor_le(d: int, g: int)
    requires
        d > 0,
        g > 0,
        divides(d, g),
    ensures
        d <= g,
{
    let k = choose|k: int| #[trigger] (k * d) == g;
    assert(k >= 1) by (nonlinear_arith)
        requires
            k * d == g,
            d > 0,
            g > 0,
    ;
    assert(k * d >= d) by (nonlinear_arith)
        requires
            k >= 1,
            d > 0,
    ;
}

/// Euclid's recursion yields the greatest common divisor.
pub proof fn lemma_spec_gcd_is_gcd(a: nat, b: nat)
    requires
        a > 0,
    ensures
        is_gcd_of(spec_gcd(a, b) as int, a as int, b as int),
    decreases b,
{
    if b == 0 {
        lemma_divides_self(a as int);
    } else {
        let r = a % b;
        if r == 0 {
            assert(spec_gcd(b, 0) == b);
            lemma_divides_self(b as int);
        }
        lemma_spec_gcd_is_gcd(b, r);
        let g = spec_gcd(a, b) as int;
        assert(g == spec_gcd(b, r) as int);
        lemma_divides_mod(g, a, b);
        assert forall|d: int| divides(d, a as int) && divides(d, b as int) implies #[trigger] divides(d, g) by {
            lemma_divides_mod(d, a, b);
        }
    }
}

/// Two greatest common divisors of the same pair are equal.
proof fn lemma_gcd_unique(g1: int, g2: int, a: int, b: int)
    requires
        is_gcd_of(g1, a, b),
        is_gcd_of(g2, a, b),
    ensures
        g1 == g2,
{
    assert(divides(g1, g2));
    assert(divides(g2, g1));
    lemma_divisor_le(g1, g2);
    lemma_divisor_le(g2, g1);
}

/// Exchanging the arguments does not change Euclid's recursion.
proof fn lemma_spec_gcd_swap(a: nat, b: nat)
    ensures
        spec_gcd(a, b) == spec_gcd(b, a),
{
    if a == b {
    } else if b == 0 {
        assert(0nat % a == 0);
        assert(spec_gcd(a, 0) == a);
        assert(spec_gcd(0, a) == spec_gcd(a, 0));
    } else if a == 0 {
        assert(0nat % b == 0);
        assert(spec_gcd(0, b) == spec_gcd(b, 0));
    } else if a < b {
        lemma_small_mod(a, b);
    } else {
        lemma_small_mod(b, a);
    }
}

/// The greatest common divisor of two positive integers, by Euclid's
/// algorithm on remainders.
pub fn gcd(n: u64, m: u64) -> (r: u64)
    requires
        n > 0,
        m > 0,
    ensures
        r == spec_gcd(n as nat, m as nat),
        is_gcd_of(r as int, n as int, m as int),
{
    let mut n: u64 = n;
    let mut m: u64 = m;
    let ghost g = spec_gcd(n as nat, m as nat);
    proof {
        lemma_spec_gcd_is_gcd(n as nat, m as nat);
    }
    while m != 0
        invariant
            n > 0,
            spec_gcd(n as nat, m as nat) == g,
        decreases m,
    {
        if m < n {
            proof {
                lemma_spec_gcd_swap(n as nat, m as nat);
            }
            let t = m;
            m = n;
            n = t;
        }
        proof {
            lemma_spec_gcd_swap(n as nat, m as nat);
        }
        m = m % n;
    }
    n
}

/// Divisibility is transitive.
proof fn lemma_divides_trans(a: int, b: int, c: int)
    requires
        divides(a, b),
        divides(b, c),
    ensures
        divides(a, c),
{
    let k = choose|k: int| #[trigger] (k * a) == b;
    let j = choose|j: int| #[trigger] (j * b) == c;
    assert((j * k) * a == j * (k * a)) by (nonlinear_arith);
    assert(((j * k) * a) == c);
}

/// The left fold yields the greatest common divisor of all the elements.
pub proof fn lemma_list_gcd_is_gcd(s: Seq<u64>)
    requires
        s.len() > 0,
        all_positive(s),
    ensures
        is_list_gcd_of(list_gcd(s) as int, s),
    decreases s.len(),
{
    let g = list_gcd(s) as int;
    if s.len() == 1 {
        lemma_divides_self(s[0] as int);
        assert forall|d: int|
            (forall|i: int| 0 <= i < s.len() ==> #[trigger] divides(d, s[i] as int)) implies #[trigger] divides(d, g) by {
            assert(divides(d, s[0] as int));
        }
    } else {
        let p = s.drop_last();
        let x = s.last();
        lemma_list_gcd_is_gcd(p);
        let l = list_gcd(p);
        assert(x > 0) by { assert(s[s.len() - 1] > 0); }
        lemma_spec_gcd_is_gcd(l, x as nat);
        assert forall|i: int| 0 <= i < s.len() implies #[trigger] divides(g, s[i] as int) by {
            if i < s.len() - 1 {
                assert(divides(l as int, p[i] as int));
                lemma_divides_trans(g, l as int, s[i] as int);
            }
        }
        assert forall|d: int|
            (forall|i: int| 0 <= i < s.len() ==> #[trigger] divides(d, s[i] as int)) implies #[trigger] divides(d, g) by {
            assert forall|i: int| 0 <= i < p.len() implies #[trigger] divides(d, p[i] as int) by {
                assert(divides(d, s[i] as int));
            }
            assert(divides(d, l as int));
            assert(divides(d, s[s.len() - 1] as int));
        }
    }
}

/// Exchanging the arguments does not change the greatest common divisor.
pub proof fn law_gcd_commutative(a: nat, b: nat)
    requires
        a > 0,
        b > 0,
    ensures
        spec_gcd(a, b) == spec_gcd(b, a),
{
    lemma_spec_gcd_swap(a, b);
}

/// The greatest common divisor of a number with itself is that number.
pub proof fn law_gcd_idempotent(a: nat)
    requires
        a > 0,
    ensures
        spec_gcd(a, a) == a,
{
    assert(a % a == 0) by (nonlinear_arith)
        requires
            a > 0,
    ;
    assert(spec_gcd(a, 0) == a);
}

/// The greatest common divisor divides both of its arguments.
pub proof fn law_gcd_divides_both(a: nat, b: nat)
    requires
        a > 0,
        b > 0,
    ensures
        divides(spec_gcd(a, b) as int, a as int),
        divides(spec_gcd(a, b) as int, b as int),
{
    lemma_spec_gcd_is_gcd(a, b);
}

/// Grouping does not matter: `gcd(gcd(a, b), c) == gcd(a, gcd(b, c))`.
pub proof fn law_gcd_associative(a: nat, b: nat, c: nat)
    requires
        a > 0,
        b > 0,
        c > 0,
    ensures
        spec_gcd(spec_gcd(a, b), c) == spec_gcd(a, spec_gcd(b, c)),
{
    let ab = spec_gcd(a, b);
    let bc = spec_gcd(b, c);
    lemma_spec_gcd_is_gcd(a, b);
    lemma_spec_gcd_is_gcd(b, c);
    lemma_spec_gcd_is_gcd(ab, c);
    lemma_spec_gcd_is_gcd(a, bc);
    let g1 = spec_gcd(ab, c) as int;
    let g2 = spec_gcd(a, bc) as int;
    lemma_divides_trans(g2, bc as int, b as int);
    lemma_divides_trans(g2, bc as int, c as int);
    assert(divides(g2, ab as int));
    assert forall|d: int| divides(d, ab as int) && divides(d, c as int) implies #[trigger] divides(d, g2) by {
        lemma_divides_trans(d, ab as int, a as int);
        lemma_divides_trans(d, ab as int, b as int);
        assert(divides(d, bc as int));
    }
    assert(is_gcd_of(g2, ab as int, c as int));
    lemma_gcd_unique(g1, g2, ab as int, c as int);
}

/// Reordering a non-empty list does not change its greatest common divisor.
pub proof fn law_list_gcd_permutation(s: Seq<u64>, t: Seq<u64>)
    requires
        s.len() > 0,
        all_positive(s),
        s.to_multiset() == t.to_multiset(),
    ensures
        list_gcd(s) == list_gcd(t),
{
    broadcast use vstd::seq_lib::group_to_multiset_ensures;

    assert(s.len() == t.len()) by {
        assert(s.len() == s.to_multiset().len());
        assert(t.len() == t.to_multiset().len());
    }
    assert forall|i: int| 0 <= i < t.len() implies exists|j: int| 0 <= j < s.len() && s[j] == #[trigger] t[i] by {
        assert(t.contains(t[i]));
        assert(t.to_multiset().count(t[i]) > 0);
        assert(s.contains(t[i]));
    }
    assert forall|i: int| 0 <= i < s.len() implies exists|j: int| 0 <= j < t.len() && t[j] == #[trigger] s[i] by {
        assert(s.contains(s[i]));
        assert(s.to_multiset().count(s[i]) > 0);
        assert(t.contains(s[i]));
    }
    assert(all_positive(t)) by {
        assert forall|i: int| 0 <= i < t.len() implies #[trigger] t[i] > 0 by {
            let j = choose|j: int| 0 <= j < s.len() && s[j] == t[i];
            assert(s[j] > 0);
        }
    }
    lemma_list_gcd_is_gcd(s);
    lemma_list_gcd_is_gcd(t);
    let gs = list_gcd(s) as int;
    let gt = list_gcd(t) as int;
    assert forall|i: int| 0 <= i < t.len() implies #[trigger] divides(gs, t[i] as int) by {
        let j = choose|j: int| 0 <= j < s.len() && s[j] == t[i];
        assert(divides(gs, s[j] as int));
    }
    assert forall|i: int| 0 <= i < s.len() implies #[trigger] divides(gt, s[i] as int) by {
        let j = choose|j: int| 0 <= j < t.len() && t[j] == s[i];
        assert(divides(gt, t[j] as int));
    }
    assert(divides(gs, gt));
    assert(divides(gt, gs));
    lemma_divisor_le(gs, gt);
    lemma_divisor_le(gt, gs);
}

/// A one-element list has that element as its greatest common divisor.
pub proof fn law_list_gcd_singleton(x: u64)
    ensures
        list_gcd(seq![x]) == x,
{
}

/// A list of positive integers that holds `1` has `1` as its greatest common
/// divisor.
pub proof fn law_list_gcd_with_one(s: Seq<u64>)
    requires
        all_positive(s),
        s.contains(1),
    ensures
        list_gcd(s) == 1,
{
    lemma_list_gcd_is_gcd(s);
    let i = choose|i: int| 0 <= i < s.len() && s[i] == 1;
    let g = list_gcd(s) as int;
    assert(divides(g, s[i] as int));
    lemma_divisor_le(g, 1);
}

/// The greatest common divisor of a list of positive integers, or `None` for
/// an empty list.
pub fn compute_gcd(numbers: &[u64]) -> (r: Option<u64>)
    requires
        all_positive(numbers@),
    ensures
        numbers@.len() == 0 <==> r is None,
        r matches Some(g) ==> g as nat == list_gcd(numbers@) && is_list_gcd_of(g as int, numbers@),
{
    if numbers.len() == 0 {
        return None;
    }
    let mut g: u64 = numbers[0];
    let mut i: usize = 1;
    assert(numbers@.subrange(0, 1).drop_last() =~= Seq::<u64>::empty());
    while i < numbers.len()
        invariant
            1 <= i <= numbers@.len(),
            all_positive(numbers@),
            g > 0,
            g as nat == list_gcd(numbers@.subrange(0, i as int)),
        decreases numbers@.len() - i,
    {
        let x = numbers[i];
        assert(numbers@.subrange(0, i as int + 1).drop_last() =~= numbers@.subrange(0, i as int));
        g = gcd(g, x);
        i = i + 1;
    }
    assert(numbers@.subrange(0, i as int) =~= numbers@);
    proof {
        lemma_list_gcd_is_gcd(numbers@);
    }
    Some(g)
}

} // verus!
