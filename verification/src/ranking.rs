//! Strict orders on the views of values, and vectors kept ascending in one.

use vstd::prelude::*;
use crate::text::{
    lemma_text_before_irreflexive, lemma_text_before_total, lemma_text_before_transitive, precedes,
    text_before,
};

verus! {

/// A strict order on the views of `T`, with a comparison that decides it.
pub trait Ranking<T: View> {
    /// `a` comes before `b`.
    spec fn before(a: T::V, b: T::V) -> bool;

    /// Nothing comes before itself.
    proof fn lemma_irreflexive(a: T::V)
        ensures
            !Self::before(a, a),
    ;

    /// What comes before something that comes before `c`, comes before `c`.
    proof fn lemma_transitive(a: T::V, b: T::V, c: T::V)
        requires
            Self::before(a, b),
            Self::before(b, c),
        ensures
            Self::before(a, c),
    ;

    /// Whether `a` comes before `b`.
    fn precedes(a: &T, b: &T) -> (r: bool)
        ensures
            r == Self::before(a@, b@),
    ;
}

/// The views of the items of `s`, in order.
pub open spec fn views<T: View>(s: Seq<T>) -> Seq<T::V> {
    Seq::new(s.len(), |i: int| s[i]@)
}

/// Each item of `s` comes before every later one.
pub open spec fn ascending<T: View, R: Ranking<T>>(s: Seq<T::V>) -> bool {
    forall|i: int, j: int| 0 <= i < j < s.len() ==> R::before(s[i], s[j])
}

/// Neither of `a` and `b` comes before the other.
pub open spec fn tied<T: View, R: Ranking<T>>(a: T::V, b: T::V) -> bool {
    !R::before(a, b) && !R::before(b, a)
}

/// An ascending sequence holds nothing twice.
pub proof fn lemma_ascending_no_duplicates<T: View, R: Ranking<T>>(s: Seq<T::V>)
    requires
        ascending::<T, R>(s),
    ensures
        s.no_duplicates(),
{
    assert forall|i: int, j: int| 0 <= i < s.len() && 0 <= j < s.len() && i != j implies s[i]
        != s[j] by {
        R::lemma_irreflexive(s[i]);
        if i < j {
            assert(R::before(s[i], s[j]));
        } else {
            assert(R::before(s[j], s[i]));
        }
    }
}

/// Two ascending sequences that hold the same items are the same sequence.
pub proof fn lemma_ascending_unique<T: View, R: Ranking<T>>(s: Seq<T::V>, t: Seq<T::V>)
    requires
        ascending::<T, R>(s),
        ascending::<T, R>(t),
        forall|x: T::V| s.contains(x) <==> t.contains(x),
    ensures
        s == t,
    decreases s.len(),
{
    if s.len() == 0 {
        if t.len() > 0 {
            assert(t.contains(t[0]));
        }
        assert(s =~= t);
    } else if t.len() == 0 {
        assert(s.contains(s[0]));
    } else {
        // The two first items are each the least of the common items.
        assert(s.contains(s[0]));
        assert(t.contains(t[0]));
        let i = choose|i: int| 0 <= i < t.len() && t[i] == s[0];
        let j = choose|j: int| 0 <= j < s.len() && s[j] == t[0];
        R::lemma_irreflexive(s[0]);
        if i != 0 && j != 0 {
            assert(R::before(t[0], t[i]));
            assert(R::before(s[0], s[j]));
            R::lemma_transitive(s[0], t[0], s[0]);
        }
        if i != 0 && j == 0 {
            assert(R::before(t[0], t[i]));
        }
        if i == 0 && j != 0 {
            assert(R::before(s[0], s[j]));
        }
        assert(s[0] == t[0]);
        let s1 = s.drop_first();
        let t1 = t.drop_first();
        assert forall|x: T::V| s1.contains(x) <==> t1.contains(x) by {
            if s1.contains(x) {
                let k = choose|k: int| 0 <= k < s1.len() && s1[k] == x;
                assert(s[k + 1] == x);
                assert(R::before(s[0], s[k + 1]));
                assert(s.contains(x));
                let m = choose|m: int| 0 <= m < t.len() && t[m] == x;
                assert(m != 0);
                assert(t1[m - 1] == x);
            }
            if t1.contains(x) {
                let k = choose|k: int| 0 <= k < t1.len() && t1[k] == x;
                assert(t[k + 1] == x);
                assert(R::before(t[0], t[k + 1]));
                assert(t.contains(x));
                let m = choose|m: int| 0 <= m < s.len() && s[m] == x;
                assert(m != 0);
                assert(s1[m - 1] == x);
            }
        }
        assert forall|a: int, b: int| 0 <= a < b < s1.len() implies R::before(s1[a], s1[b]) by {
            assert(R::before(s[a + 1], s[b + 1]));
        }
        assert forall|a: int, b: int| 0 <= a < b < t1.len() implies R::before(t1[a], t1[b]) by {
            assert(R::before(t[a + 1], t[b + 1]));
        }
        lemma_ascending_unique::<T, R>(s1, t1);
        assert(s =~= seq![s[0]] + s1);
        assert(t =~= seq![t[0]] + t1);
    }
}

/// The place at which `x` enters the ascending vector `v`: the number of its
/// items that come before `x`.
pub fn rank_in<T: View, R: Ranking<T>>(v: &Vec<T>, x: &T) -> (k: usize)
    requires
        ascending::<T, R>(views(v@)),
    ensures
        k <= v.len(),
        forall|j: int| 0 <= j < k ==> R::before(#[trigger] v[j]@, x@),
        forall|j: int| k <= j < v.len() ==> !R::before(#[trigger] v[j]@, x@),
{
    let mut lo: usize = 0;
    let mut hi: usize = v.len();
    while lo < hi
        invariant
            lo <= hi <= v.len(),
            ascending::<T, R>(views(v@)),
            forall|j: int| 0 <= j < lo ==> R::before(#[trigger] v[j]@, x@),
            forall|j: int| hi <= j < v.len() ==> !R::before(#[trigger] v[j]@, x@),
        decreases hi - lo,
    {
        let mid = lo + (hi - lo) / 2;
        if R::precedes(&v[mid], x) {
            assert forall|j: int| 0 <= j < mid + 1 implies R::before(#[trigger] v[j]@, x@) by {
                if j < mid {
                    assert(R::before(views(v@)[j], views(v@)[mid as int]));
                    R::lemma_transitive(v[j]@, v[mid as int]@, x@);
                }
            }
            lo = mid + 1;
        } else {
            assert forall|j: int| mid <= j < v.len() implies !R::before(#[trigger] v[j]@, x@) by {
                if mid < j && R::before(v[j]@, x@) {
                    assert(R::before(views(v@)[mid as int], views(v@)[j]));
                    R::lemma_transitive(v[mid as int]@, v[j]@, x@);
                }
            }
            hi = mid;
        }
    }
    lo
}

/// Puts `x` into the ascending vector `v` at its place, unless an item of `v`
/// is tied with it; says where it went.
pub fn insert_ranked<T: View, R: Ranking<T>>(v: &mut Vec<T>, x: T) -> (at: Option<usize>)
    requires
        ascending::<T, R>(views(old(v)@)),
    ensures
        ascending::<T, R>(views(final(v)@)),
        match at {
            Some(k) => {
                &&& k <= old(v).len()
                &&& final(v)@ == old(v)@.insert(k as int, x)
                &&& forall|j: int|
                    0 <= j < old(v).len() ==> !tied::<T, R>(#[trigger] old(v)[j]@, x@)
            },
            None => {
                &&& final(v)@ == old(v)@
                &&& exists|j: int| 0 <= j < old(v).len() && tied::<T, R>(#[trigger] old(v)[j]@, x@)
            },
        },
{
    let k = rank_in::<T, R>(v, &x);
    if k < v.len() && !R::precedes(&x, &v[k]) {
        assert(tied::<T, R>(v[k as int]@, x@));
        return None;
    }
    proof {
        assert forall|j: int| 0 <= j < v.len() implies !tied::<T, R>(#[trigger] v[j]@, x@) by {
            if j > k {
                assert(R::before(views(v@)[k as int], views(v@)[j]));
                R::lemma_transitive(x@, v[k as int]@, v[j]@);
            }
        }
        let after = views(v@.insert(k as int, x));
        assert forall|i: int, j: int| 0 <= i < j < after.len() implies R::before(
            after[i],
            after[j],
        ) by {
            let oi = if i < k { i } else { i - 1 };
            let oj = if j < k { j } else { j - 1 };
            if i != k && j != k {
                assert(R::before(views(v@)[oi], views(v@)[oj]));
            } else if i == k {
                assert(!tied::<T, R>(v[oj]@, x@));
            }
        }
    }
    v.insert(k, x);
    Some(k)
}

/// The views of a sequence with one more item are the views with one more view.
pub proof fn lemma_views_insert<T: View>(s: Seq<T>, k: int, x: T)
    requires
        0 <= k <= s.len(),
    ensures
        views(s.insert(k, x)) == views(s).insert(k, x@),
{
    assert(views(s.insert(k, x)) =~= views(s).insert(k, x@));
}

/// A sequence with one more item holds that item and what it held before.
pub proof fn lemma_insert_contains<A>(s: Seq<A>, k: int, x: A)
    requires
        0 <= k <= s.len(),
    ensures
        forall|y: A| s.insert(k, x).contains(y) <==> (s.contains(y) || y == x),
{
    let t = s.insert(k, x);
    assert forall|y: A| t.contains(y) <==> (s.contains(y) || y == x) by {
        if t.contains(y) {
            let i = choose|i: int| 0 <= i < t.len() && t[i] == y;
            if i < k {
                assert(s[i] == y);
            } else if i > k {
                assert(s[i - 1] == y);
            }
        }
        if s.contains(y) {
            let i = choose|i: int| 0 <= i < s.len() && s[i] == y;
            if i < k {
                assert(t[i] == y);
            } else {
                assert(t[i + 1] == y);
            }
        }
        if y == x {
            assert(t[k] == y);
        }
    }
}

/// The order of texts by code point, first difference first.
pub struct Lexical;

impl Ranking<String> for Lexical {
    open spec fn before(a: Seq<char>, b: Seq<char>) -> bool {
        text_before(a, b)
    }

    proof fn lemma_irreflexive(a: Seq<char>) {
        lemma_text_before_irreflexive(a);
    }

    proof fn lemma_transitive(a: Seq<char>, b: Seq<char>, c: Seq<char>) {
        lemma_text_before_transitive(a, b, c);
    }

    fn precedes(a: &String, b: &String) -> (r: bool) {
        precedes(a.as_str(), b.as_str())
    }
}

/// The texts of `list` in ascending order, each once.
pub fn sorted_distinct(list: &[String]) -> (r: Vec<String>)
    ensures
        ascending::<String, Lexical>(views(r@)),
        forall|s: Seq<char>| views(r@).contains(s) <==> views(list@).contains(s),
{
    let mut out: Vec<String> = Vec::new();
    let ghost all = views(list@);
    let mut i: usize = 0;
    while i < list.len()
        invariant
            i <= list.len(),
            all == views(list@),
            ascending::<String, Lexical>(views(out@)),
            forall|s: Seq<char>| views(out@).contains(s) <==> all.take(i as int).contains(s),
        decreases list.len() - i,
    {
        let ghost before_out = views(out@);
        let ghost old_out = out@;
        let x = list[i].clone();
        let ghost xv = x@;
        proof {
            assert(all[i as int] == xv);
            assert(all.take(i as int).insert(i as int, xv) =~= all.take(i + 1));
            lemma_insert_contains(all.take(i as int), i as int, xv);
        }
        let at = insert_ranked::<String, Lexical>(&mut out, x);
        proof {
            match at {
                Some(k) => {
                    lemma_views_insert(old_out, k as int, x);
                    lemma_insert_contains(before_out, k as int, xv);
                },
                None => {
                    let j = choose|j: int|
                        0 <= j < old_out.len() && tied::<String, Lexical>(
                            #[trigger] old_out[j]@,
                            xv,
                        );
                    lemma_text_before_total(old_out[j]@, xv);
                    assert(before_out[j] == xv);
                    assert(before_out.contains(xv));
                },
            }
            assert forall|s: Seq<char>| views(out@).contains(s) <==> all.take(i + 1).contains(
                s,
            ) by {
                assert(all.take(i as int).insert(i as int, xv).contains(s) <==> (all.take(
                    i as int,
                ).contains(s) || s == xv));
                if at is Some {
                    assert(before_out.insert(at->Some_0 as int, xv).contains(s) <==> (
                    before_out.contains(s) || s == xv));
                }
            }
        }
        i += 1;
    }
    proof {
        assert(all.take(list.len() as int) =~= all);
    }
    out
}

/// An ascending sequence without one of its items is ascending.
pub proof fn lemma_remove_ascending<T: View, R: Ranking<T>>(s: Seq<T::V>, i: int)
    requires
        ascending::<T, R>(s),
        0 <= i < s.len(),
    ensures
        ascending::<T, R>(s.remove(i)),
{
    let t = s.remove(i);
    assert forall|a: int, b: int| 0 <= a < b < t.len() implies R::before(t[a], t[b]) by {
        let oa = if a < i { a } else { a + 1 };
        let ob = if b < i { b } else { b + 1 };
        assert(R::before(s[oa], s[ob]));
    }
}

/// A sequence without the item at place `i` holds what it held at the other
/// places.
pub proof fn lemma_remove_contains<A>(s: Seq<A>, i: int)
    requires
        0 <= i < s.len(),
    ensures
        forall|y: A|
            s.remove(i).contains(y) <==> exists|j: int| 0 <= j < s.len() && j != i && s[j] == y,
{
    let t = s.remove(i);
    assert forall|y: A| t.contains(y) <==> exists|j: int|
        0 <= j < s.len() && j != i && s[j] == y by {
        if t.contains(y) {
            let k = choose|k: int| 0 <= k < t.len() && t[k] == y;
            let j = if k < i { k } else { k + 1 };
            assert(s[j] == y);
        }
        if exists|j: int| 0 <= j < s.len() && j != i && s[j] == y {
            let j = choose|j: int| 0 <= j < s.len() && j != i && s[j] == y;
            let k = if j < i { j } else { j - 1 };
            assert(t[k] == y);
        }
    }
}

/// The views of a sequence without one item are the views without one view.
pub proof fn lemma_views_remove<T: View>(s: Seq<T>, i: int)
    requires
        0 <= i < s.len(),
    ensures
        views(s.remove(i)) == views(s).remove(i),
{
    assert(views(s.remove(i)) =~= views(s).remove(i));
}

/// An ascending sequence without the item at place `i` holds what it held
/// but that item.
pub proof fn lemma_remove_ascending_contains<T: View, R: Ranking<T>>(s: Seq<T::V>, i: int)
    requires
        ascending::<T, R>(s),
        0 <= i < s.len(),
    ensures
        forall|y: T::V| s.remove(i).contains(y) <==> (s.contains(y) && y != s[i]),
{
    lemma_remove_contains(s, i);
    lemma_ascending_no_duplicates::<T, R>(s);
    assert forall|y: T::V| s.remove(i).contains(y) <==> (s.contains(y) && y != s[i]) by {
        if s.contains(y) && y != s[i] {
            let j = choose|j: int| 0 <= j < s.len() && s[j] == y;
            assert(j != i);
        }
    }
}

} // verus!
