use vstd::prelude::*;

verus! {

/// n! over the naturals.
pub open spec fn factorial(n: nat) -> nat
    decreases n,
{
    if n == 0 {
        1
    } else {
        n * factorial((n - 1) as nat)
    }
}

/// `p` orders exactly the elements of `s` (for `s` without duplicates): same length,
/// no repeated element, and every element drawn from `s`.
pub open spec fn is_permutation_of<T>(p: Seq<T>, s: Seq<T>) -> bool {
    &&& p.len() == s.len()
    &&& p.no_duplicates()
    &&& forall|k: int| 0 <= k < p.len() ==> s.contains(#[trigger] p[k])
}

/// Some entry of `r` holds the sequence `p`.
pub open spec fn listed<T>(r: Seq<Vec<T>>, p: Seq<T>) -> bool {
    exists|k: int| 0 <= k < r.len() && (#[trigger] r[k])@ == p
}

/// No two entries of `r` hold the same sequence.
pub open spec fn pairwise_distinct<T>(r: Seq<Vec<T>>) -> bool {
    forall|a: int, b: int|
        0 <= a < r.len() && 0 <= b < r.len() && a != b ==> (#[trigger] r[a])@ != (#[trigger] r[b])@
}

/// `s` without the element at position `i`, copied into a fresh vector.
fn without<T: Copy>(s: &Vec<T>, i: usize) -> (r: Vec<T>)
    requires
        i < s@.len(),
    ensures
        r@ == s@.remove(i as int),
{
    let mut r: Vec<T> = Vec::new();
    let mut j: usize = 0;
    while j < s.len()
        invariant
            i < s@.len(),
            j <= s@.len(),
            r@ == (if j <= i { s@.subrange(0, j as int) } else { s@.remove(i as int).subrange(0, j - 1) }),
        decreases s@.len() - j,
    {
        if j != i {
            r.push(s[j]);
        }
        j = j + 1;
    }
    r
}

/// `[x]` followed by the elements of `q`, as a fresh vector.
fn prepend<T: Copy>(x: T, q: &Vec<T>) -> (r: Vec<T>)
    ensures
        r@ == seq![x] + q@,
{
    let mut r: Vec<T> = Vec::new();
    r.push(x);
    let mut j: usize = 0;
    while j < q.len()
        invariant
            j <= q@.len(),
            r@ == seq![x] + q@.subrange(0, j as int),
        decreases q@.len() - j,
    {
        r.push(q[j]);
        j = j + 1;
        assert(q@.subrange(0, j as int) == q@.subrange(0, j - 1).push(q@[j - 1]));
    }
    assert(q@.subrange(0, q@.len() as int) == q@);
    r
}

/// Prepending an element of `s` to an ordering of the rest of `s` gives an ordering of `s`.
proof fn lemma_prepend_permutation<T>(s: Seq<T>, i: int, q: Seq<T>)
    requires
        s.no_duplicates(),
        0 <= i < s.len(),
        is_permutation_of(q, s.remove(i)),
    ensures
        is_permutation_of(seq![s[i]] + q, s),
{
    let p = seq![s[i]] + q;
    assert forall|k: int| 0 <= k < q.len() implies q[k] != s[i] && s.contains(q[k]) by {
        let rest = s.remove(i);
        let m = choose|m: int| 0 <= m < rest.len() && rest[m] == q[k];
        if m < i {
            assert(s[m] == q[k]);
        } else {
            assert(s[m + 1] == q[k]);
        }
    }
    assert forall|a: int, b: int| 0 <= a < p.len() && 0 <= b < p.len() && a != b implies p[a] != p[b] by {
        if a > 0 && b > 0 {
            assert(p[a] == q[a - 1] && p[b] == q[b - 1]);
        } else if a == 0 {
            assert(p[b] == q[b - 1]);
        } else {
            assert(p[a] == q[a - 1]);
        }
    }
    assert forall|k: int| 0 <= k < p.len() implies s.contains(#[trigger] p[k]) by {
        if k > 0 {
            assert(p[k] == q[k - 1]);
        }
    }
}

/// Removing the first element of an ordering of `s` leaves an ordering of the rest of `s`.
proof fn lemma_drop_first_permutation<T>(s: Seq<T>, p: Seq<T>, i: int)
    requires
        s.no_duplicates(),
        is_permutation_of(p, s),
        0 <= i < s.len(),
        p.len() > 0,
        p[0] == s[i],
    ensures
        is_permutation_of(p.drop_first(), s.remove(i)),
{
    let q = p.drop_first();
    let rest = s.remove(i);
    assert forall|k: int| 0 <= k < q.len() implies rest.contains(#[trigger] q[k]) by {
        assert(q[k] == p[k + 1]);
        assert(s.contains(p[k + 1]));
        let m = choose|m: int| 0 <= m < s.len() && s[m] == p[k + 1];
        assert(p[k + 1] != p[0]);
        assert(m != i);
        if m < i {
            assert(rest[m] == q[k]);
        } else {
            assert(rest[m - 1] == q[k]);
        }
    }
    assert forall|a: int, b: int| 0 <= a < q.len() && 0 <= b < q.len() && a != b implies q[a] != q[b] by {
        assert(q[a] == p[a + 1] && q[b] == p[b + 1]);
    }
}

/// Every ordering of the elements of `set`. On a non-empty `set` without duplicates the
/// result holds `set.len()!` vectors, all different, each an ordering of `set`, and every
/// ordering of `set` stands among them. An empty `set` gives no ordering at all.
///
/// Orderings are built recursively: each element in turn is put first, followed by every
/// ordering of the remaining elements.
pub fn permutations<T: Copy>(set: &Vec<T>) -> (r: Vec<Vec<T>>)
    requires
        set@.no_duplicates(),
    ensures
        set@.len() == 0 ==> r@.len() == 0,
        set@.len() > 0 ==> r@.len() == factorial(set@.len()),
        forall|k: int| 0 <= k < r@.len() ==> is_permutation_of(#[trigger] r@[k]@, set@),
        pairwise_distinct(r@),
        set@.len() > 0 ==> forall|p: Seq<T>| is_permutation_of(p, set@) ==> listed(r@, p),
    decreases set@.len(),
{
    let n = set.len();
    if n == 1 {
        let only = prepend(set[0], &Vec::new());
        assert(only@ == set@);
        let mut r: Vec<Vec<T>> = Vec::new();
        r.push(only);
        assert forall|p: Seq<T>| is_permutation_of(p, set@) implies listed(r@, p) by {
            assert(set@.contains(p[0]));
            assert(p == set@);
            assert(r@[0]@ == p);
        }
        assert(factorial(1) == 1 * factorial(0));
        return r;
    }
    let ghost f = factorial((n - 1) as nat);
    let mut perms: Vec<Vec<T>> = Vec::new();
    let mut i: usize = 0;
    while i < n
        invariant
            n == set@.len(),
            n != 1,
            set@.no_duplicates(),
            i <= n,
            n > 0 ==> f == factorial((n - 1) as nat),
            n > 0 ==> perms@.len() == i * f,
            n == 0 ==> perms@.len() == 0,
            forall|k: int| 0 <= k < perms@.len() ==> is_permutation_of(#[trigger] perms@[k]@, set@),
            forall|k: int, j: int|
                0 <= k < perms@.len() && i <= j < n ==> (#[trigger] perms@[k])@[0] != #[trigger] set@[j],
            pairwise_distinct(perms@),
            forall|p: Seq<T>, j: int|
                0 <= j < i && is_permutation_of(p, set@) && p[0] == #[trigger] set@[j] ==> #[trigger] listed(perms@, p),
        decreases n - i,
    {
        let rest = without(set, i);
        proof {
            assert forall|a: int, b: int| 0 <= a < rest@.len() && 0 <= b < rest@.len() && a != b implies rest@[a] != rest@[b] by {
                let a1 = if a < i { a } else { a + 1 };
                let b1 = if b < i { b } else { b + 1 };
                assert(rest@[a] == set@[a1] && rest@[b] == set@[b1]);
            }
        }
        let subs = permutations(&rest);
        let ghost start = perms@.len();
        let x = set[i];
        let mut m: usize = 0;
        while m < subs.len()
            invariant
                n == set@.len(),
                n >= 2,
                set@.no_duplicates(),
                i < n,
                rest@ == set@.remove(i as int),
                x == set@[i as int],
                subs@.len() == f,
                f == factorial((n - 1) as nat),
                forall|k: int| 0 <= k < subs@.len() ==> is_permutation_of(#[trigger] subs@[k]@, rest@),
                pairwise_distinct(subs@),
                forall|q: Seq<T>| is_permutation_of(q, rest@) ==> listed(subs@, q),
                m <= subs@.len(),
                start == i * f,
                perms@.len() == start + m,
                forall|k: int| 0 <= k < start ==> is_permutation_of(#[trigger] perms@[k]@, set@),
                forall|k: int, j: int|
                    0 <= k < start && i <= j < n ==> (#[trigger] perms@[k])@[0] != #[trigger] set@[j],
                forall|k: int| start <= k < perms@.len() ==> (#[trigger] perms@[k])@ == seq![x] + subs@[k - start]@,
                forall|a: int, b: int|
                    0 <= a < start && 0 <= b < start && a != b ==> (#[trigger] perms@[a])@ != (#[trigger] perms@[b])@,
                forall|p: Seq<T>, j: int|
                    0 <= j < i && is_permutation_of(p, set@) && p[0] == #[trigger] set@[j] ==> #[trigger] listed(perms@, p),
            decreases subs@.len() - m,
        {
            let perm = prepend(x, &subs[m]);
            let ghost before = perms@;
            perms.push(perm);
            proof {
                assert forall|p: Seq<T>, j: int|
                    0 <= j < i && is_permutation_of(p, set@) && p[0] == #[trigger] set@[j] implies #[trigger] listed(perms@, p) by {
                    assert(listed(before, p));
                    let k = choose|k: int| 0 <= k < before.len() && (#[trigger] before[k])@ == p;
                    assert(perms@[k] == before[k]);
                }
            }
            m = m + 1;
        }
        proof {
            let end = perms@.len() as int;
            assert forall|k: int| 0 <= k < end implies is_permutation_of(#[trigger] perms@[k]@, set@) by {
                if k >= start {
                    lemma_prepend_permutation(set@, i as int, subs@[k - start]@);
                }
            }
            assert forall|k: int, j: int|
                0 <= k < end && i + 1 <= j < n implies (#[trigger] perms@[k])@[0] != #[trigger] set@[j] by {
                if k >= start {
                    assert(perms@[k]@[0] == x);
                }
            }
            assert forall|a: int, b: int| 0 <= a < end && 0 <= b < end && a != b implies (#[trigger] perms@[a])@ != (#[trigger] perms@[b])@ by {
                if a >= start && b >= start {
                    let qa = subs@[a - start]@;
                    let qb = subs@[b - start]@;
                    if perms@[a]@ == perms@[b]@ {
                        assert(qa == perms@[a]@.drop_first());
                        assert(qb == perms@[b]@.drop_first());
                    }
                } else if a >= start {
                    assert(perms@[a]@[0] == set@[i as int]);
                } else if b >= start {
                    assert(perms@[b]@[0] == set@[i as int]);
                }
            }
            assert forall|p: Seq<T>, j: int|
                0 <= j < i + 1 && is_permutation_of(p, set@) && p[0] == #[trigger] set@[j] implies #[trigger] listed(perms@, p) by {
                if j == i {
                    lemma_drop_first_permutation(set@, p, j);
                    let q = p.drop_first();
                    assert(listed(subs@, q));
                    let m2 = choose|m2: int| 0 <= m2 < subs@.len() && (#[trigger] subs@[m2])@ == q;
                    assert(perms@[start + m2]@ == seq![x] + q);
                    assert(seq![x] + q == p);
                }
            }
            assert((i + 1) * f == i * f + f) by (nonlinear_arith);
        }
        i = i + 1;
    }
    proof {
        if n > 0 {
            assert forall|p: Seq<T>| is_permutation_of(p, set@) implies listed(perms@, p) by {
                assert(set@.contains(p[0]));
                let j = choose|j: int| 0 <= j < n && set@[j] == p[0];
            }
            assert(factorial(n as nat) == n * factorial((n - 1) as nat));
        }
    }
    perms
}

/// Number of positions `j` with `i < j < end` whose entry is smaller than the entry at `i`.
pub open spec fn inversions_at(p: Seq<i32>, i: int, end: int) -> nat
    decreases end - i,
{
    if end <= i + 1 {
        0
    } else {
        inversions_at(p, i, end - 1) + if p[i] > p[end - 1] { 1nat } else { 0nat }
    }
}

/// Number of inversions whose first position lies below `i`.
pub open spec fn inversions_before(p: Seq<i32>, i: int) -> nat
    decreases i,
{
    if i <= 0 {
        0
    } else {
        inversions_before(p, i - 1) + inversions_at(p, i - 1, p.len() as int)
    }
}

/// Number of inversions of `p`: pairs of positions `i < j` with `p[i] > p[j]`.
pub open spec fn inversions(p: Seq<i32>) -> nat {
    inversions_before(p, p.len() as int)
}

/// The sign of an ordering: 1 for an even number of inversions, -1 for an odd one.
pub open spec fn sign_of(p: Seq<i32>) -> i8 {
    if inversions(p) % 2 == 0 {
        1i8
    } else {
        -1i8
    }
}

/// The sign of `permutation`, from the parity of its inversion count. Every pair of
/// positions is compared once.
pub fn parity(permutation: &Vec<i32>) -> (r: i8)
    ensures
        r == sign_of(permutation@),
{
    let p = permutation;
    let n = p.len();
    let mut odd = false;
    let mut i: usize = 0;
    while i < n
        invariant
            n == p@.len(),
            i <= n,
            odd == (inversions_before(p@, i as int) % 2 == 1),
        decreases n - i,
    {
        let mut j: usize = i + 1;
        let ghost base = inversions_before(p@, i as int);
        while j < n
            invariant
                n == p@.len(),
                i < n,
                i + 1 <= j <= n,
                base == inversions_before(p@, i as int),
                odd == ((base + inversions_at(p@, i as int, j as int)) % 2 == 1),
            decreases n - j,
        {
            if p[i] > p[j] {
                odd = !odd;
            }
            j = j + 1;
        }
        i = i + 1;
    }
    if odd {
        -1
    } else {
        1
    }
}

/// A strictly increasing sequence has no inversion.
pub proof fn lemma_increasing_no_inversions(p: Seq<i32>)
    requires
        forall|a: int, b: int| 0 <= a < b < p.len() ==> p[a] < p[b],
    ensures
        inversions(p) == 0,
        sign_of(p) == 1,
{
    assert forall|i: int, end: int| 0 <= i && end <= p.len() implies #[trigger] inversions_at(p, i, end) == 0 by {
        lemma_increasing_row(p, i, end);
    }
    lemma_increasing_before(p, p.len() as int);
}

proof fn lemma_increasing_row(p: Seq<i32>, i: int, end: int)
    requires
        0 <= i,
        end <= p.len(),
        forall|a: int, b: int| 0 <= a < b < p.len() ==> p[a] < p[b],
    ensures
        inversions_at(p, i, end) == 0,
    decreases end - i,
{
    if end > i + 1 {
        lemma_increasing_row(p, i, end - 1);
    }
}

proof fn lemma_increasing_before(p: Seq<i32>, i: int)
    requires
        i <= p.len(),
        forall|a: int, b: int| 0 <= a < b < p.len() ==> p[a] < p[b],
    ensures
        inversions_before(p, i) == 0,
    decreases i,
{
    if i > 0 {
        lemma_increasing_before(p, i - 1);
        lemma_increasing_row(p, i - 1, p.len() as int);
    }
}

} // verus!
