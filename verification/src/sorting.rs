use vstd::prelude::*;
use vstd::multiset::Multiset;

verus! {

broadcast use vstd::seq_lib::group_seq_properties;

/// An order in which a list is sorted: `le(a, b)` says that `a` may stand before `b`.
/// Sorting keeps the order of the items that may stand either way (it is stable).
pub trait SortOrder<T> {
    spec fn le(a: T, b: T) -> bool;

    fn le_exec(a: &T, b: &T) -> (r: bool)
        ensures
            r == Self::le(*a, *b),
    ;
}

/// `x` put into the sorted list `s`: after the last item that may stand before it.
pub open spec fn insert_sorted<T>(s: Seq<T>, x: T, le: spec_fn(T, T) -> bool) -> Seq<T>
    decreases s.len(),
{
    if s.len() == 0 {
        seq![x]
    } else if le(s.last(), x) {
        s.push(x)
    } else {
        insert_sorted(s.drop_last(), x, le).push(s.last())
    }
}

/// The stable sort of `s` by `le`: each item in turn put into the sorted list of those
/// before it.
pub open spec fn sort_spec<T>(s: Seq<T>, le: spec_fn(T, T) -> bool) -> Seq<T>
    decreases s.len(),
{
    if s.len() == 0 {
        s
    } else {
        insert_sorted(sort_spec(s.drop_last(), le), s.last(), le)
    }
}

/// `le` orders any two items one way or the other.
pub open spec fn is_total<T>(le: spec_fn(T, T) -> bool) -> bool {
    forall|a: T, b: T| #[trigger] le(a, b) || le(b, a)
}

/// `le` is transitive.
pub open spec fn is_transitive<T>(le: spec_fn(T, T) -> bool) -> bool {
    forall|a: T, b: T, c: T| #[trigger] le(a, b) && #[trigger] le(b, c) ==> le(a, c)
}

/// Each item of `s` may stand before each item after it.
pub open spec fn is_sorted<T>(s: Seq<T>, le: spec_fn(T, T) -> bool) -> bool {
    forall|i: int, j: int| 0 <= i < j < s.len() ==> le(#[trigger] s[i], #[trigger] s[j])
}

proof fn lemma_insert_shape<T>(s: Seq<T>, x: T, le: spec_fn(T, T) -> bool)
    ensures
        insert_sorted(s, x, le).len() == s.len() + 1,
        insert_sorted(s, x, le).to_multiset() == s.to_multiset().insert(x),
    decreases s.len(),
{
    if s.len() == 0 {
        assert(s.to_multiset() =~= Multiset::empty());
        assert(seq![x] =~= s.push(x));
    } else if le(s.last(), x) {
    } else {
        lemma_insert_shape(s.drop_last(), x, le);
        assert(s =~= s.drop_last().push(s.last()));
        assert(s.to_multiset() =~= s.drop_last().to_multiset().insert(s.last()));
        assert(insert_sorted(s, x, le).to_multiset() =~= s.to_multiset().insert(x));
    }
}

proof fn lemma_insert_keeps_sorted<T>(s: Seq<T>, x: T, le: spec_fn(T, T) -> bool)
    requires
        is_total(le),
        is_transitive(le),
        is_sorted(s, le),
    ensures
        is_sorted(insert_sorted(s, x, le), le),
        forall|i: int|
            0 <= i < insert_sorted(s, x, le).len() ==> (#[trigger] insert_sorted(s, x, le)[i]
                == x || s.contains(insert_sorted(s, x, le)[i])),
    decreases s.len(),
{
    lemma_insert_shape(s, x, le);
    if s.len() == 0 {
    } else if le(s.last(), x) {
        let r = s.push(x);
        assert forall|i: int, j: int| 0 <= i < j < r.len() implies le(#[trigger] r[i], #[trigger] r[j]) by {
            if j == s.len() {
                if i < s.len() - 1 {
                    assert(le(s[i], s[s.len() - 1]));
                }
            }
        }
        assert forall|i: int| 0 <= i < r.len() implies (#[trigger] r[i] == x || s.contains(r[i])) by {
            if i < s.len() {
                assert(s[i] == r[i]);
            }
        }
    } else {
        let p = s.drop_last();
        let y = s.last();
        assert(is_sorted(p, le));
        lemma_insert_keeps_sorted(p, x, le);
        let q = insert_sorted(p, x, le);
        let r = q.push(y);
        assert(le(x, y));
        assert forall|i: int, j: int| 0 <= i < j < r.len() implies le(#[trigger] r[i], #[trigger] r[j]) by {
            if j == q.len() {
                if q[i] == x {
                } else {
                    assert(p.contains(q[i]));
                    let k = choose|k: int| 0 <= k < p.len() && p[k] == q[i];
                    assert(le(s[k], s[s.len() - 1]));
                }
            }
        }
        assert forall|i: int| 0 <= i < r.len() implies (#[trigger] r[i] == x || s.contains(r[i])) by {
            if i < q.len() {
                if q[i] != x {
                    assert(p.contains(q[i]));
                    let k = choose|k: int| 0 <= k < p.len() && p[k] == q[i];
                    assert(s[k] == q[i]);
                }
            } else {
                assert(s[s.len() - 1] == r[i]);
            }
        }
    }
}

/// Sorting gives a list sorted by a total, transitive order.
pub proof fn lemma_sort_sorted<T>(s: Seq<T>, le: spec_fn(T, T) -> bool)
    requires
        is_total(le),
        is_transitive(le),
    ensures
        is_sorted(sort_spec(s, le), le),
    decreases s.len(),
{
    if s.len() > 0 {
        lemma_sort_sorted(s.drop_last(), le);
        lemma_insert_keeps_sorted(sort_spec(s.drop_last(), le), s.last(), le);
    }
}

/// Sorting keeps each item, as often as it occurs.
pub proof fn lemma_sort_permutes<T>(s: Seq<T>, le: spec_fn(T, T) -> bool)
    ensures
        sort_spec(s, le).to_multiset() == s.to_multiset(),
        sort_spec(s, le).len() == s.len(),
    decreases s.len(),
{
    if s.len() == 0 {
    } else {
        lemma_sort_permutes(s.drop_last(), le);
        lemma_insert_shape(sort_spec(s.drop_last(), le), s.last(), le);
        assert(s =~= s.drop_last().push(s.last()));
        assert(s.to_multiset() =~= s.drop_last().to_multiset().insert(s.last()));
    }
}

/// Sorting keeps exactly the items of the list.
pub proof fn lemma_sort_same_items<T>(s: Seq<T>, le: spec_fn(T, T) -> bool, x: T)
    ensures
        sort_spec(s, le).contains(x) <==> s.contains(x),
{
    lemma_sort_permutes(s, le);
    s.to_multiset_ensures();
    sort_spec(s, le).to_multiset_ensures();
    assert(sort_spec(s, le).to_multiset().count(x) == s.to_multiset().count(x));
}

proof fn lemma_insert_map<A, B>(
    s: Seq<A>,
    x: A,
    f: spec_fn(A) -> B,
    le1: spec_fn(A, A) -> bool,
    le2: spec_fn(B, B) -> bool,
)
    requires
        forall|a: A, b: A| #[trigger] le1(a, b) == le2(f(a), f(b)),
    ensures
        insert_sorted(s.map_values(f), f(x), le2) == insert_sorted(s, x, le1).map_values(f),
    decreases s.len(),
{
    if s.len() == 0 {
        assert(insert_sorted(s, x, le1).map_values(f) =~= seq![f(x)]);
    } else {
        assert(s.map_values(f).drop_last() =~= s.drop_last().map_values(f));
        assert(le1(s.last(), x) == le2(f(s.last()), f(x)));
        if le1(s.last(), x) {
            assert(s.push(x).map_values(f) =~= s.map_values(f).push(f(x)));
        } else {
            lemma_insert_map(s.drop_last(), x, f, le1, le2);
            assert(insert_sorted(s.drop_last(), x, le1).push(s.last()).map_values(f)
                =~= insert_sorted(s.drop_last(), x, le1).map_values(f).push(f(s.last())));
        }
    }
}

/// Sorting items and then taking a view of each is taking the views and then sorting them,
/// where the two orders agree through the view.
pub proof fn lemma_sort_map<A, B>(
    s: Seq<A>,
    f: spec_fn(A) -> B,
    le1: spec_fn(A, A) -> bool,
    le2: spec_fn(B, B) -> bool,
)
    requires
        forall|a: A, b: A| #[trigger] le1(a, b) == le2(f(a), f(b)),
    ensures
        sort_spec(s.map_values(f), le2) == sort_spec(s, le1).map_values(f),
    decreases s.len(),
{
    if s.len() == 0 {
        assert(sort_spec(s, le1).map_values(f) =~= s.map_values(f));
    } else {
        lemma_sort_map(s.drop_last(), f, le1, le2);
        assert(s.map_values(f).drop_last() =~= s.drop_last().map_values(f));
        lemma_insert_map(sort_spec(s.drop_last(), le1), s.last(), f, le1, le2);
    }
}

/// Sorting a list with no item twice gives a list with no item twice.
pub proof fn lemma_sort_no_duplicates<T>(s: Seq<T>, le: spec_fn(T, T) -> bool)
    requires
        s.no_duplicates(),
    ensures
        sort_spec(s, le).no_duplicates(),
{
    broadcast use vstd::multiset::group_multiset_axioms;

    lemma_sort_permutes(s, le);
    s.lemma_multiset_has_no_duplicates();
    sort_spec(s, le).lemma_multiset_has_no_duplicates_conv();
}

/// Puts `x` into the sorted list, after the last item that may stand before it.
fn insert_into<T, O: SortOrder<T>>(list: &mut Vec<T>, x: T)
    ensures
        final(list)@ == insert_sorted(old(list)@, x, |a: T, b: T| O::le(a, b)),
{
    let ghost le = |a: T, b: T| O::le(a, b);
    let ghost s = list@;
    let mut j: usize = list.len();
    assert(s.take(j as int) =~= s);
    assert(s.skip(j as int) =~= Seq::<T>::empty());
    while j > 0 && !O::le_exec(&list[j - 1], &x)
        invariant
            le == (|a: T, b: T| O::le(a, b)),
            list@ == s,
            j <= s.len(),
            insert_sorted(s, x, le) == insert_sorted(s.take(j as int), x, le) + s.skip(
                j as int,
            ),
        decreases j,
    {
        let ghost t = s.take(j as int);
        assert(t.drop_last() =~= s.take(j as int - 1));
        assert(t.last() == s[j as int - 1]);
        assert(insert_sorted(t, x, le) == insert_sorted(s.take(j as int - 1), x, le).push(
            s[j as int - 1],
        ));
        assert(insert_sorted(s.take(j as int - 1), x, le).push(s[j as int - 1]) + s.skip(j as int)
            =~= insert_sorted(s.take(j as int - 1), x, le) + s.skip(j as int - 1));
        j = j - 1;
    }
    list.insert(j, x);
    assert(insert_sorted(s.take(j as int), x, le) == s.take(j as int).push(x));
    assert(list@ =~= s.take(j as int).push(x) + s.skip(j as int));
}

/// Sorts a list, stably, in the order `O`.
pub fn sort_by_order<T, O: SortOrder<T>>(v: Vec<T>) -> (r: Vec<T>)
    ensures
        r@ == sort_spec(v@, |a: T, b: T| O::le(a, b)),
{
    let ghost le = |a: T, b: T| O::le(a, b);
    let ghost orig = v@;
    let mut rest = v;
    let mut out: Vec<T> = Vec::new();
    let mut k: usize = 0;
    let n = rest.len();
    assert(orig.take(0) =~= Seq::<T>::empty());
    assert(orig.skip(0) =~= orig);
    while rest.len() > 0
        invariant
            le == (|a: T, b: T| O::le(a, b)),
            n == orig.len(),
            k + rest.len() == orig.len(),
            rest@ == orig.skip(k as int),
            out@ == sort_spec(orig.take(k as int), le),
        decreases rest.len(),
    {
        let x = rest.remove(0);
        assert(orig.take(k as int + 1).drop_last() =~= orig.take(k as int));
        assert(orig.take(k as int + 1).last() == x);
        insert_into::<T, O>(&mut out, x);
        k = k + 1;
        assert(rest@ =~= orig.skip(k as int));
    }
    assert(orig.take(k as int) =~= orig);
    out
}

} // verus!
