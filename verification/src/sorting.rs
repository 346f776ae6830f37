//! Stable insertion sort, as a definition and as an implementation.
use vstd::prelude::*;

verus! {

/// Inserts `x` into `s` after every element that is not above it, scanning from the end.
pub open spec fn insert_sorted<T>(s: Seq<T>, x: T, le: spec_fn(T, T) -> bool) -> Seq<T>
    decreases s.len(),
{
    if s.len() == 0 {
        seq![x]
    } else if le(s.last(), x) {
        s.push(x)
    } else {
        insert_sorted(s.drop_last(), x, le).push(s.last())
    }
}

/// `s` sorted by `le`, equal elements keeping their order.
pub open spec fn sort_by<T>(s: Seq<T>, le: spec_fn(T, T) -> bool) -> Seq<T>
    decreases s.len(),
{
    if s.len() == 0 {
        s
    } else {
        insert_sorted(sort_by(s.drop_last(), le), s.last(), le)
    }
}

/// Where `insert_sorted` puts `x`: after the last element not above it.
proof fn lemma_insert_sorted_at<T>(s: Seq<T>, x: T, le: spec_fn(T, T) -> bool, j: int)
    requires
        0 <= j <= s.len(),
        j == 0 || le(s[j - 1], x),
        forall|k: int| j <= k < s.len() ==> !le(#[trigger] s[k], x),
    ensures
        insert_sorted(s, x, le) == s.insert(j, x),
    decreases s.len(),
{
    if s.len() == 0 {
        assert(s.insert(j, x) =~= seq![x]);
    } else if j == s.len() {
        assert(s.insert(j, x) =~= s.push(x));
    } else {
        assert(!le(s.last(), x));
        let t = s.drop_last();
        assert forall|k: int| j <= k < t.len() implies !le(#[trigger] t[k], x) by {
            assert(t[k] == s[k]);
        }
        if j > 0 {
            assert(t[j - 1] == s[j - 1]);
        }
        lemma_insert_sorted_at(t, x, le, j);
        assert(t.insert(j, x).push(s.last()) =~= s.insert(j, x));
    }
}

/// The positions `0..n` ordered by `le_exec`, which must agree with `le`; equal positions keep
/// their order.
pub fn sort_positions<F: Fn(usize, usize) -> bool>(n: usize, le_exec: F, Ghost(le): Ghost<spec_fn(usize, usize) -> bool>) -> (r: Vec<usize>)
    requires
        forall|a: usize, b: usize| a < n && b < n ==> #[trigger] le_exec.requires((a, b)),
        forall|a: usize, b: usize, res: bool| a < n && b < n && #[trigger] le_exec.ensures((a, b), res) ==> res == le(a, b),
    ensures
        r@ == sort_by(Seq::new(n as nat, |i: int| i as usize), le),
        r@.len() == n,
        forall|i: int| 0 <= i < n ==> #[trigger] r@[i] < n,
{
    let ghost all = Seq::new(n as nat, |i: int| i as usize);
    let mut sorted: Vec<usize> = Vec::new();
    let mut i: usize = 0;
    while i < n
        invariant
            i <= n,
            all == Seq::new(n as nat, |i: int| i as usize),
            sorted@ == sort_by(all.take(i as int), le),
            sorted@.len() == i,
            forall|k: int| 0 <= k < sorted@.len() ==> #[trigger] sorted@[k] < n,
            forall|a: usize, b: usize| a < n && b < n ==> #[trigger] le_exec.requires((a, b)),
            forall|a: usize, b: usize, res: bool| a < n && b < n && #[trigger] le_exec.ensures((a, b), res) ==> res == le(a, b),
        decreases n - i,
    {
        let mut j = sorted.len();
        while j > 0 && !le_exec(sorted[j - 1], i)
            invariant
                j <= sorted@.len(),
                i < n,
                forall|k: int| 0 <= k < sorted@.len() ==> #[trigger] sorted@[k] < n,
                forall|k: int| j <= k < sorted@.len() ==> !le(#[trigger] sorted@[k], i),
                forall|a: usize, b: usize| a < n && b < n ==> #[trigger] le_exec.requires((a, b)),
                forall|a: usize, b: usize, res: bool| a < n && b < n && #[trigger] le_exec.ensures((a, b), res) ==> res == le(a, b),
            decreases j,
        {
            j = j - 1;
        }
        proof {
            lemma_insert_sorted_at(sorted@, i, le, j as int);
            assert(all.take(i + 1).drop_last() =~= all.take(i as int));
            assert(all.take(i + 1).last() == i);
        }
        sorted.insert(j, i);
        i = i + 1;
    }
    assert(all.take(n as int) =~= all);
    sorted
}

/// `s` is ordered by `le`: every element may come before each later one.
pub open spec fn sorted_by<T>(s: Seq<T>, le: spec_fn(T, T) -> bool) -> bool {
    forall|i: int, j: int| 0 <= i < j < s.len() ==> #[trigger] le(s[i], s[j])
}

/// `le` is total and transitive on the values that `dom` admits.
pub open spec fn total_preorder_on<T>(le: spec_fn(T, T) -> bool, dom: spec_fn(T) -> bool) -> bool {
    &&& forall|a: T, b: T| #![trigger le(a, b)] dom(a) && dom(b) ==> le(a, b) || le(b, a)
    &&& forall|a: T, b: T, c: T| #![trigger le(a, b), le(b, c)] dom(a) && dom(b) && dom(c) && le(a, b) && le(b, c) ==> le(a, c)
}

/// `insert_sorted` puts `x` at some position of `s`.
pub proof fn lemma_insert_sorted_shape<T>(s: Seq<T>, x: T, le: spec_fn(T, T) -> bool) -> (j: int)
    ensures
        0 <= j <= s.len(),
        insert_sorted(s, x, le) == s.insert(j, x),
    decreases s.len(),
{
    if s.len() == 0 {
        assert(s.insert(0, x) =~= seq![x]);
        0
    } else if le(s.last(), x) {
        assert(s.insert(s.len() as int, x) =~= s.push(x));
        s.len() as int
    } else {
        let t = s.drop_last();
        let j = lemma_insert_sorted_shape(t, x, le);
        assert(t.insert(j, x).push(s.last()) =~= s.insert(j, x));
        j
    }
}

/// Inserting into a sorted sequence keeps it sorted, for a total preorder.
pub proof fn lemma_insert_sorted_sorted<T>(s: Seq<T>, x: T, le: spec_fn(T, T) -> bool, dom: spec_fn(T) -> bool)
    requires
        sorted_by(s, le),
        total_preorder_on(le, dom),
        forall|i: int| 0 <= i < s.len() ==> dom(#[trigger] s[i]),
        dom(x),
    ensures
        sorted_by(insert_sorted(s, x, le), le),
    decreases s.len(),
{
    let r = insert_sorted(s, x, le);
    if s.len() == 0 {
    } else if le(s.last(), x) {
        assert forall|i: int, j: int| 0 <= i < j < r.len() implies #[trigger] le(r[i], r[j]) by {
            if j == s.len() && i < s.len() - 1 {
                assert(le(s[i], s[s.len() - 1]));
                assert(dom(s[i]) && dom(s[s.len() - 1]));
            }
        }
    } else {
        let t = s.drop_last();
        assert(le(x, s.last()));
        assert forall|i: int, j: int| 0 <= i < j < t.len() implies #[trigger] le(t[i], t[j]) by {
            assert(le(s[i], s[j]));
        }
        lemma_insert_sorted_sorted(t, x, le, dom);
        let k = lemma_insert_sorted_shape(t, x, le);
        let u = t.insert(k, x);
        assert forall|i: int, j: int| 0 <= i < j < r.len() implies #[trigger] le(r[i], r[j]) by {
            if j == r.len() - 1 {
                if i == k {
                    assert(r[i] == x);
                } else if i < k {
                    assert(r[i] == s[i]);
                    assert(le(s[i], s[s.len() - 1]));
                } else {
                    assert(r[i] == s[i - 1]);
                    assert(le(s[i - 1], s[s.len() - 1]));
                }
            } else {
                assert(r[i] == u[i] && r[j] == u[j]);
            }
        }
    }
}

/// `sort_by` orders by a total preorder, keeps the length, and keeps elements in `dom`.
pub proof fn lemma_sort_by_sorted<T>(s: Seq<T>, le: spec_fn(T, T) -> bool, dom: spec_fn(T) -> bool)
    requires
        total_preorder_on(le, dom),
        forall|i: int| 0 <= i < s.len() ==> dom(#[trigger] s[i]),
    ensures
        sorted_by(sort_by(s, le), le),
        sort_by(s, le).len() == s.len(),
        forall|i: int| 0 <= i < s.len() ==> dom(#[trigger] sort_by(s, le)[i]),
    decreases s.len(),
{
    if s.len() > 0 {
        let t = s.drop_last();
        assert forall|i: int| 0 <= i < t.len() implies dom(#[trigger] t[i]) by {
            assert(dom(s[i]));
        }
        lemma_sort_by_sorted(t, le, dom);
        let p = sort_by(t, le);
        assert(dom(s[s.len() - 1]));
        lemma_insert_sorted_sorted(p, s.last(), le, dom);
        let k = lemma_insert_sorted_shape(p, s.last(), le);
        let r = sort_by(s, le);
        assert forall|i: int| 0 <= i < s.len() implies dom(#[trigger] r[i]) by {
            if i < k {
                assert(r[i] == p[i]);
            } else if i > k {
                assert(r[i] == p[i - 1]);
            }
        }
    }
}

/// `insert_sorted` adds one element; `sort_by` keeps the length.
pub proof fn lemma_sort_by_len<T>(s: Seq<T>, le: spec_fn(T, T) -> bool)
    ensures
        sort_by(s, le).len() == s.len(),
    decreases s.len(),
{
    if s.len() > 0 {
        lemma_sort_by_len(s.drop_last(), le);
        lemma_insert_sorted_shape(sort_by(s.drop_last(), le), s.last(), le);
    }
}

/// The positions `0..n` in order.
pub open spec fn positions(n: nat) -> Seq<usize> {
    Seq::new(n, |i: int| i as usize)
}

/// `insert_sorted` puts `x` after every element it does not go before: the elements after
/// it may not come before it.
pub proof fn lemma_insert_sorted_after<T>(s: Seq<T>, x: T, le: spec_fn(T, T) -> bool) -> (j: int)
    ensures
        0 <= j <= s.len(),
        insert_sorted(s, x, le) == s.insert(j, x),
        forall|k: int| j <= k < s.len() ==> !le(#[trigger] s[k], x),
    decreases s.len(),
{
    if s.len() == 0 {
        assert(s.insert(0, x) =~= seq![x]);
        0
    } else if le(s.last(), x) {
        assert(s.insert(s.len() as int, x) =~= s.push(x));
        s.len() as int
    } else {
        let t = s.drop_last();
        let j = lemma_insert_sorted_after(t, x, le);
        assert(t.insert(j, x).push(s.last()) =~= s.insert(j, x));
        assert forall|k: int| j <= k < s.len() implies !le(#[trigger] s[k], x) by {
            if k < t.len() {
                assert(s[k] == t[k]);
            }
        }
        j
    }
}

/// Sorting positions is stable: of two positions that may each come before the other,
/// the smaller comes first.
pub proof fn lemma_sort_positions_stable(n: nat, le: spec_fn(usize, usize) -> bool)
    requires
        n <= usize::MAX,
    ensures
        sort_by(positions(n), le).len() == n,
        forall|i: int| 0 <= i < n ==> (#[trigger] sort_by(positions(n), le)[i] as int) < n,
        forall|i: int, j: int|
            0 <= i < j < n && le(
                #[trigger] sort_by(positions(n), le)[j],
                #[trigger] sort_by(positions(n), le)[i],
            ) ==> sort_by(positions(n), le)[i] < sort_by(positions(n), le)[j],
    decreases n,
{
    if n > 0 {
        let p = positions(n);
        let q = positions((n - 1) as nat);
        assert(p.drop_last() =~= q);
        lemma_sort_positions_stable((n - 1) as nat, le);
        let sq = sort_by(q, le);
        let x = (n - 1) as usize;
        assert(p.last() == x);
        let k = lemma_insert_sorted_after(sq, x, le);
        let r = sort_by(p, le);
        assert(r == sq.insert(k, x));
        assert forall|i: int| 0 <= i < n implies (#[trigger] r[i] as int) < n by {
            if i < k {
                assert(r[i] == sq[i]);
            } else if i > k {
                assert(r[i] == sq[i - 1]);
            }
        }
        assert forall|i: int, j: int| 0 <= i < j < n && le(#[trigger] r[j], #[trigger] r[i]) implies r[i] < r[j] by {
            if j < k {
                assert(r[i] == sq[i] && r[j] == sq[j]);
            } else if j == k {
                assert(r[i] == sq[i]);
            } else if i == k {
                assert(r[j] == sq[j - 1]);
                assert(!le(sq[j - 1], x));
            } else if i < k {
                assert(r[i] == sq[i] && r[j] == sq[j - 1]);
            } else {
                assert(r[i] == sq[i - 1] && r[j] == sq[j - 1]);
            }
        }
    }
}

} // verus!
