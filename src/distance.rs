//! Bounded edit distance with adjacent transpositions (optimal string alignment).
use vstd::prelude::*;

verus! {

pub open spec fn min_nat(x: nat, y: nat) -> nat {
    if x <= y {
        x
    } else {
        y
    }
}

/// The edit distance in which insertion, deletion, substitution and the swap of
/// two adjacent characters each cost one, and no substring is edited twice
/// (the optimal-string-alignment form of Damerau–Levenshtein).
pub open spec fn osa_distance(a: Seq<char>, b: Seq<char>) -> nat
    decreases a.len() + b.len(),
{
    if a.len() == 0 {
        b.len()
    } else if b.len() == 0 {
        a.len()
    } else {
        let i = a.len();
        let j = b.len();
        let cost: nat = if a[i - 1] == b[j - 1] {
            0
        } else {
            1
        };
        let m = min_nat(
            osa_distance(a.drop_last(), b) + 1,
            min_nat(
                osa_distance(a, b.drop_last()) + 1,
                osa_distance(a.drop_last(), b.drop_last()) + cost,
            ),
        );
        if i >= 2 && j >= 2 && a[i - 1] == b[j - 2] && a[i - 2] == b[j - 1] {
            min_nat(m, osa_distance(a.subrange(0, i - 2), b.subrange(0, j - 2)) + 1)
        } else {
            m
        }
    }
}

/// The distance is symmetric.
pub proof fn lemma_osa_symmetric(a: Seq<char>, b: Seq<char>)
    ensures
        osa_distance(a, b) == osa_distance(b, a),
    decreases a.len() + b.len(),
{
    if a.len() > 0 && b.len() > 0 {
        lemma_osa_symmetric(a.drop_last(), b);
        lemma_osa_symmetric(a, b.drop_last());
        lemma_osa_symmetric(a.drop_last(), b.drop_last());
        if a.len() >= 2 && b.len() >= 2 {
            lemma_osa_symmetric(
                a.subrange(0, a.len() - 2),
                b.subrange(0, b.len() - 2),
            );
        }
    }
}

/// A string is at distance zero from itself.
pub proof fn lemma_osa_self(a: Seq<char>)
    ensures
        osa_distance(a, a) == 0,
    decreases a.len(),
{
    if a.len() > 0 {
        lemma_osa_self(a.drop_last());
    }
}

/// The distance is at least the difference of the lengths.
pub proof fn lemma_osa_length_gap(a: Seq<char>, b: Seq<char>)
    ensures
        osa_distance(a, b) >= a.len() - b.len(),
        osa_distance(a, b) >= b.len() - a.len(),
    decreases a.len() + b.len(),
{
    if a.len() > 0 && b.len() > 0 {
        lemma_osa_length_gap(a.drop_last(), b);
        lemma_osa_length_gap(a, b.drop_last());
        lemma_osa_length_gap(a.drop_last(), b.drop_last());
        if a.len() >= 2 && b.len() >= 2 {
            lemma_osa_length_gap(a.subrange(0, a.len() - 2), b.subrange(0, b.len() - 2));
        }
    }
}

/// The distance is at most the longer length.
pub proof fn lemma_osa_upper(a: Seq<char>, b: Seq<char>)
    ensures
        osa_distance(a, b) <= a.len() || osa_distance(a, b) <= b.len(),
        a.len() <= b.len() ==> osa_distance(a, b) <= b.len(),
        b.len() <= a.len() ==> osa_distance(a, b) <= a.len(),
    decreases a.len() + b.len(),
{
    if a.len() > 0 && b.len() > 0 {
        lemma_osa_upper(a.drop_last(), b.drop_last());
    }
}

/// Dropping the last character of either side changes the distance by at most one.
proof fn lemma_osa_drop_last_bounds(a: Seq<char>, b: Seq<char>)
    ensures
        a.len() > 0 ==> osa_distance(a, b) <= osa_distance(a.drop_last(), b) + 1,
        b.len() > 0 ==> osa_distance(a, b) <= osa_distance(a, b.drop_last()) + 1,
        a.len() > 0 && b.len() > 0 ==> osa_distance(a, b) <= osa_distance(
            a.drop_last(),
            b.drop_last(),
        ) + 1,
{
    if a.len() > 0 && b.len() == 0 {
        assert(osa_distance(a.drop_last(), b) == a.len() - 1);
    }
    if a.len() == 0 && b.len() > 0 {
        assert(osa_distance(a, b.drop_last()) == b.len() - 1);
    }
}

/// Appending one character to the second side lowers the distance by at most one.
proof fn lemma_osa_push_right(a: Seq<char>, b: Seq<char>)
    requires
        b.len() > 0,
    ensures
        osa_distance(a, b.drop_last()) <= osa_distance(a, b) + 1,
    decreases a.len() + b.len(),
{
    let c = b.drop_last();
    if a.len() > 0 {
        lemma_osa_push_right(a.drop_last(), b);
        lemma_osa_drop_last_bounds(a, c);
        let i = a.len();
        let j = b.len();
        if i >= 2 && j >= 2 && a[i - 1] == b[j - 2] && a[i - 2] == b[j - 1] {
            lemma_osa_drop_last_bounds(a.drop_last(), c.drop_last());
            assert(a.drop_last().drop_last() =~= a.subrange(0, i - 2));
            assert(c.drop_last() =~= b.subrange(0, j - 2));
        }
    }
}

/// Appending one character to the first side lowers the distance by at most one.
proof fn lemma_osa_push_left(a: Seq<char>, b: Seq<char>)
    requires
        a.len() > 0,
    ensures
        osa_distance(a.drop_last(), b) <= osa_distance(a, b) + 1,
{
    lemma_osa_push_right(b, a);
    lemma_osa_symmetric(a, b);
    lemma_osa_symmetric(a.drop_last(), b);
}

/// A common last character does not change the distance.
proof fn lemma_osa_common_last(a: Seq<char>, b: Seq<char>, x: char)
    ensures
        osa_distance(a.push(x), b.push(x)) == osa_distance(a, b),
{
    let ax = a.push(x);
    let bx = b.push(x);
    assert(ax.drop_last() =~= a);
    assert(bx.drop_last() =~= b);
    lemma_osa_push_right(a, bx);
    lemma_osa_push_left(ax, b);
    let i = ax.len();
    let j = bx.len();
    if i >= 2 && j >= 2 && ax[i - 1] == bx[j - 2] && ax[i - 2] == bx[j - 1] {
        assert(ax.subrange(0, i - 2) =~= a.drop_last());
        assert(bx.subrange(0, j - 2) =~= b.drop_last());
        lemma_osa_drop_last_bounds(a, b);
    }
}

/// A common suffix does not change the distance.
pub proof fn lemma_osa_common_suffix(a: Seq<char>, b: Seq<char>, s: Seq<char>)
    ensures
        osa_distance(a + s, b + s) == osa_distance(a, b),
    decreases s.len(),
{
    if s.len() > 0 {
        let t = s.drop_last();
        let x = s.last();
        lemma_osa_common_suffix(a, b, t);
        lemma_osa_common_last(a + t, b + t, x);
        assert((a + t).push(x) =~= a + s);
        assert((b + t).push(x) =~= b + s);
    } else {
        assert(a + s =~= a);
        assert(b + s =~= b);
    }
}

/// A common first character does not change the distance.
proof fn lemma_osa_common_first(c: char, a: Seq<char>, b: Seq<char>)
    ensures
        osa_distance(seq![c] + a, seq![c] + b) == osa_distance(a, b),
    decreases a.len() + b.len(),
{
    let ca = seq![c] + a;
    let cb = seq![c] + b;
    if a.len() == 0 && b.len() == 0 {
        assert(ca =~= cb);
        lemma_osa_self(ca);
    } else if a.len() == 0 {
        lemma_osa_length_gap(ca, cb);
        lemma_osa_drop_last_bounds(ca, cb);
        lemma_osa_common_first(c, a, b.drop_last());
        assert(cb.drop_last() =~= seq![c] + b.drop_last());
    } else if b.len() == 0 {
        lemma_osa_length_gap(ca, cb);
        lemma_osa_drop_last_bounds(ca, cb);
        lemma_osa_common_first(c, a.drop_last(), b);
        assert(ca.drop_last() =~= seq![c] + a.drop_last());
    } else {
        let i = a.len() as int;
        let j = b.len() as int;
        assert(ca.drop_last() =~= seq![c] + a.drop_last());
        assert(cb.drop_last() =~= seq![c] + b.drop_last());
        lemma_osa_common_first(c, a.drop_last(), b);
        lemma_osa_common_first(c, a, b.drop_last());
        lemma_osa_common_first(c, a.drop_last(), b.drop_last());
        assert(ca[i] == a[i - 1]);
        assert(cb[j] == b[j - 1]);
        if i >= 2 && j >= 2 {
            assert(ca[i - 1] == a[i - 2]);
            assert(cb[j - 1] == b[j - 2]);
            assert(ca.subrange(0, i - 1) =~= seq![c] + a.subrange(0, i - 2));
            assert(cb.subrange(0, j - 1) =~= seq![c] + b.subrange(0, j - 2));
            lemma_osa_common_first(c, a.subrange(0, i - 2), b.subrange(0, j - 2));
        } else {
            lemma_osa_drop_last_bounds(a, b);
            let ta = ca.subrange(0, i - 1);
            let tb = cb.subrange(0, j - 1);
            if i == 1 {
                assert(ta.len() == 0);
                assert(osa_distance(ta, tb) == j - 1);
                assert(osa_distance(a.drop_last(), b.drop_last()) == j - 1);
            } else {
                assert(tb.len() == 0);
                assert(osa_distance(ta, tb) == i - 1);
                assert(osa_distance(a.drop_last(), b.drop_last()) == i - 1);
            }
            assert(osa_distance(a, b) <= osa_distance(ta, tb) + 1);
        }
        assert(osa_distance(ca.drop_last(), cb) == osa_distance(a.drop_last(), b));
        assert(osa_distance(ca, cb.drop_last()) == osa_distance(a, b.drop_last()));
        assert(osa_distance(ca.drop_last(), cb.drop_last()) == osa_distance(a.drop_last(), b.drop_last()));
    }
}

/// A common prefix does not change the distance.
pub proof fn lemma_osa_common_prefix(p: Seq<char>, a: Seq<char>, b: Seq<char>)
    ensures
        osa_distance(p + a, p + b) == osa_distance(a, b),
    decreases p.len(),
{
    if p.len() > 0 {
        let q = p.subrange(1, p.len() as int);
        lemma_osa_common_prefix(q, a, b);
        lemma_osa_common_first(p[0], q + a, q + b);
        assert(seq![p[0]] + (q + a) =~= p + a);
        assert(seq![p[0]] + (q + b) =~= p + b);
    } else {
        assert(p + a =~= a);
        assert(p + b =~= b);
    }
}

/// The characters of `s`, in order.
pub fn chars_of(s: &str) -> (r: Vec<char>)
    ensures
        r@ == s@,
{
    let mut v: Vec<char> = Vec::new();
    for c in it: s.chars()
        invariant
            it.seq() == s@,
            v@ == s@.subrange(0, it.index() as int),
    {
        v.push(c);
    }
    assert(v@ =~= s@);
    v
}

/// `edit_distance` reports `Some(d)` exactly when the distance `d` is within `limit`.
pub open spec fn reports(r: Option<usize>, a: Seq<char>, b: Seq<char>, limit: usize) -> bool {
    match r {
        Some(d) => d == osa_distance(a, b) && d <= limit,
        None => osa_distance(a, b) > limit,
    }
}

/// The distance between `a` and `b` when it is at most `limit`, else `None`.
pub fn edit_distance(a: &str, b: &str, limit: usize) -> (r: Option<usize>)
    requires
        a@.len() < usize::MAX,
        b@.len() < usize::MAX,
    ensures
        reports(r, a@, b@, limit),
{
    let av = chars_of(a);
    let bv = chars_of(b);
    // The shorter sequence runs along the columns, keeping the rows small.
    if av.len() < bv.len() {
        proof {
            lemma_osa_symmetric(a@, b@);
        }
        bounded_distance(&bv, &av, limit)
    } else {
        bounded_distance(&av, &bv, limit)
    }
}

fn bounded_distance(a: &Vec<char>, b: &Vec<char>, limit: usize) -> (r: Option<usize>)
    requires
        b.len() <= a.len() < usize::MAX,
    ensures
        reports(r, a@, b@, limit),
{
    let la = a.len();
    let lb = b.len();
    let min_dist = la - lb;
    if min_dist > limit {
        proof {
            lemma_osa_length_gap(a@, b@);
        }
        return None;
    }
    // Strip the common prefix.
    let mut p: usize = 0;
    while p < lb && a[p] == b[p]
        invariant
            p <= lb <= la,
            lb == b.len(),
            la == a.len(),
            forall|k: int| 0 <= k < p ==> a@[k] == b@[k],
        decreases lb - p,
    {
        p += 1;
    }
    // Strip the common suffix.
    let mut s: usize = 0;
    while s < lb - p && a[la - 1 - s] == b[lb - 1 - s]
        invariant
            p + s <= lb <= la,
            lb == b.len(),
            la == a.len(),
            forall|k: int| 0 <= k < s ==> #[trigger] a@[la - 1 - k] == b@[lb - 1 - k],
        decreases lb - p - s,
    {
        s += 1;
    }
    let sa = slice_of(a, p, la - s);
    let sb = slice_of(b, p, lb - s);
    proof {
        let pre = a@.subrange(0, p as int);
        let suf = a@.subrange(la - s, la as int);
        assert(pre =~= b@.subrange(0, p as int));
        assert forall|k: int| 0 <= k < s implies suf[k] == b@.subrange(lb - s, lb as int)[k] by {
            assert(a@[la - 1 - (s - 1 - k)] == b@[lb - 1 - (s - 1 - k)]);
        }
        assert(suf =~= b@.subrange(lb - s, lb as int));
        assert(a@ =~= pre + (sa@ + suf));
        assert(b@ =~= pre + (sb@ + suf));
        lemma_osa_common_prefix(pre, sa@ + suf, sb@ + suf);
        lemma_osa_common_suffix(sa@, sb@, suf);
    }
    if sb.len() == 0 {
        return Some(min_dist);
    }
    let distance = full_distance(&sa, &sb);
    if distance <= limit {
        Some(distance)
    } else {
        None
    }
}

/// The characters of `v` from `lo` up to `hi`.
pub(crate) fn slice_of(v: &Vec<char>, lo: usize, hi: usize) -> (r: Vec<char>)
    requires
        lo <= hi <= v.len(),
    ensures
        r@ == v@.subrange(lo as int, hi as int),
{
    let mut r: Vec<char> = Vec::new();
    let mut k: usize = lo;
    while k < hi
        invariant
            lo <= k <= hi <= v.len(),
            r@ == v@.subrange(lo as int, k as int),
        decreases hi - k,
    {
        r.push(v[k]);
        k += 1;
    }
    r
}

/// The unbounded distance, by dynamic programming over three rolling rows.
fn full_distance(a: &Vec<char>, b: &Vec<char>) -> (r: usize)
    requires
        1 <= b.len() <= a.len() < usize::MAX,
    ensures
        r == osa_distance(a@, b@),
{
    let n = a.len();
    let m = b.len();
    let mut prev_prev: Vec<usize> = vec![usize::MAX; m + 1];
    let mut prev: Vec<usize> = Vec::new();
    let mut current: Vec<usize> = vec![0; m + 1];
    let mut k: usize = 0;
    while k <= m
        invariant
            k <= m + 1,
            m == b.len(),
            m < usize::MAX,
            prev.len() == k,
            forall|q: int| 0 <= q < k ==> prev@[q] == q,
        decreases m + 1 - k,
    {
        prev.push(k);
        k += 1;
    }
    proof {
        assert forall|q: int| 0 <= q <= m implies prev@[q] == osa_distance(
            a@.subrange(0, 0),
            b@.subrange(0, q),
        ) by {}
    }
    let mut i: usize = 1;
    while i <= n
        invariant
            1 <= i <= n + 1,
            n == a.len(),
            m == b.len(),
            1 <= m <= n < usize::MAX,
            prev.len() == m + 1,
            prev_prev.len() == m + 1,
            current.len() == m + 1,
            row_holds(prev@, a@.subrange(0, i - 1), b@),
            i >= 2 ==> row_holds(prev_prev@, a@.subrange(0, i - 2), b@),
        decreases n + 1 - i,
    {
        fill_row(a, b, i, &prev_prev, &prev, &mut current);
        // Rotate the rows, reusing their memory.
        let tmp = prev_prev;
        prev_prev = prev;
        prev = current;
        current = tmp;
        i += 1;
    }
    proof {
        assert(a@.subrange(0, n as int) =~= a@);
        assert(b@.subrange(0, m as int) =~= b@);
    }
    prev[m]
}

/// `row[k]` is the distance from `x` to the first `k` characters of `b`.
pub open spec fn row_holds(row: Seq<usize>, x: Seq<char>, b: Seq<char>) -> bool {
    &&& row.len() == b.len() + 1
    &&& forall|k: int| 0 <= k <= b.len() ==> row[k] == osa_distance(x, #[trigger] b.subrange(0, k))
}

/// Computes row `i` from the two rows before it.
fn fill_row(
    a: &Vec<char>,
    b: &Vec<char>,
    i: usize,
    prev_prev: &Vec<usize>,
    prev: &Vec<usize>,
    current: &mut Vec<usize>,
)
    requires
        1 <= i <= a.len(),
        1 <= b.len() <= a.len() < usize::MAX,
        old(current).len() == b.len() + 1,
        row_holds(prev@, a@.subrange(0, i - 1), b@),
        i >= 2 ==> row_holds(prev_prev@, a@.subrange(0, i - 2), b@),
    ensures
        row_holds(final(current)@, a@.subrange(0, i as int), b@),
{
    let m = b.len();
    let ghost x = a@.subrange(0, i as int);
    current[0] = i;
    let mut j: usize = 1;
    while j <= m
        invariant
            1 <= i <= a.len(),
            1 <= j <= m + 1,
            m == b.len(),
            1 <= m <= a.len() < usize::MAX,
            x == a@.subrange(0, i as int),
            current.len() == m + 1,
            row_holds(prev@, a@.subrange(0, i - 1), b@),
            i >= 2 ==> row_holds(prev_prev@, a@.subrange(0, i - 2), b@),
            forall|k: int| 0 <= k < j ==> current@[k] == osa_distance(x, #[trigger] b@.subrange(0, k)),
        decreases m + 1 - j,
    {
        let ghost y = b@.subrange(0, j as int);
        let ghost xd = a@.subrange(0, i - 1);
        let ghost yd = b@.subrange(0, j - 1);
        proof {
            assert(x.drop_last() =~= xd);
            assert(y.drop_last() =~= yd);
            assert(prev@[j as int] == osa_distance(xd, y));
            assert(prev@[j - 1] == osa_distance(xd, yd));
            assert(current@[j - 1] == osa_distance(x, yd));
            lemma_osa_upper(xd, y);
            lemma_osa_upper(x, yd);
            lemma_osa_upper(xd, yd);
        }
        let ai = a[i - 1];
        let bj = b[j - 1];
        let cost: usize = if ai == bj {
            0
        } else {
            1
        };
        let deletion = prev[j] + 1;
        let insertion = current[j - 1] + 1;
        let substitution = prev[j - 1] + cost;
        let mut best = if deletion <= insertion {
            deletion
        } else {
            insertion
        };
        if substitution < best {
            best = substitution;
        }
        if i > 1 && j > 1 && ai == b[j - 2] && a[i - 2] == bj {
            proof {
                assert(x.subrange(0, i - 2) =~= a@.subrange(0, i - 2));
                assert(y.subrange(0, j - 2) =~= b@.subrange(0, j - 2));
                assert(prev_prev@[j - 2] == osa_distance(
                    a@.subrange(0, i - 2),
                    b@.subrange(0, j - 2),
                ));
                lemma_osa_upper(a@.subrange(0, i - 2), b@.subrange(0, j - 2));
            }
            let transposition = prev_prev[j - 2] + 1;
            if transposition < best {
                best = transposition;
            }
        }
        current[j] = best;
        j += 1;
    }
}

/// Swapping the two strings does not change what `edit_distance` reports.
pub proof fn law_edit_distance_symmetric(
    a: Seq<char>,
    b: Seq<char>,
    limit: usize,
    r1: Option<usize>,
    r2: Option<usize>,
)
    requires
        reports(r1, a, b, limit),
        reports(r2, b, a, limit),
    ensures
        r1 == r2,
{
    lemma_osa_symmetric(a, b);
}

/// `edit_distance` reports distance zero between a string and itself, whatever the limit.
pub proof fn law_edit_distance_self(a: Seq<char>, limit: usize, r: Option<usize>)
    requires
        reports(r, a, a, limit),
    ensures
        r == Some(0usize),
{
    lemma_osa_self(a);
}

} // verus!
