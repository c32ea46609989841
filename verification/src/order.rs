//! Stable sorting by a rank: the order that one-by-one insertion gives, its
//! properties, and the sort that computes it.

use vstd::prelude::*;

verus! {

/// Things that are sorted by a rank.
pub trait Ranked: Sized {
    /// What of the value decides where it stands.
    type Rank;

    /// The rank of the value.
    spec fn rank(&self) -> Self::Rank;

    /// `a` has to stand before `b`.
    spec fn precedes(a: Self::Rank, b: Self::Rank) -> bool;

    /// No two ranks have to stand before each other.
    proof fn lemma_one_way(a: Self::Rank, b: Self::Rank)
        ensures
            !(Self::precedes(a, b) && Self::precedes(b, a)),
    ;

    /// Whether `self` has to stand before `other`.
    fn comes_before(&self, other: &Self) -> (r: bool)
        ensures
            r == Self::precedes(self.rank(), other.rank()),
    ;
}

/// The ranks of `s`, in order.
pub open spec fn ranks<T: Ranked>(s: Seq<T>) -> Seq<T::Rank> {
    s.map_values(|x: T| x.rank())
}

/// No element has to stand before its predecessor.
pub open spec fn is_ordered<T: Ranked>(s: Seq<T::Rank>) -> bool {
    forall|i: int, j: int|
        #![trigger s[i], s[j]]
        0 <= i && j == i + 1 && j < s.len() ==> !T::precedes(s[j], s[i])
}

/// Each element has to stand before its successor.
pub open spec fn is_strictly_ordered<T: Ranked>(s: Seq<T::Rank>) -> bool {
    forall|i: int, j: int|
        #![trigger s[i], s[j]]
        0 <= i && j == i + 1 && j < s.len() ==> T::precedes(s[i], s[j])
}

/// `s` with `x` placed behind the last element that `x` need not stand
/// before.
pub open spec fn inserted<T: Ranked>(s: Seq<T::Rank>, x: T::Rank) -> Seq<T::Rank>
    decreases s.len(),
{
    if s.len() == 0 {
        seq![x]
    } else if T::precedes(x, s.last()) {
        inserted::<T>(s.drop_last(), x).push(s.last())
    } else {
        s.push(x)
    }
}

/// The stable sort of `s`: its elements inserted one by one, in the order
/// in which they stand in `s`.
pub open spec fn sorted<T: Ranked>(s: Seq<T::Rank>) -> Seq<T::Rank>
    decreases s.len(),
{
    if s.len() == 0 {
        s
    } else {
        inserted::<T>(sorted::<T>(s.drop_last()), s.last())
    }
}

/// Inserting keeps the elements, adds `x` once, and keeps an ordered
/// sequence ordered.
proof fn lemma_inserted<T: Ranked>(s: Seq<T::Rank>, x: T::Rank)
    ensures
        inserted::<T>(s, x).len() == s.len() + 1,
        inserted::<T>(s, x).to_multiset() == s.to_multiset().insert(x),
        forall|y: T::Rank| #[trigger] inserted::<T>(s, x).contains(y) <==> (s.contains(y) || y == x),
        is_ordered::<T>(s) ==> is_ordered::<T>(inserted::<T>(s, x)),
        s.len() > 0 ==> (inserted::<T>(s, x).last() == s.last() || inserted::<T>(s, x).last()
            == x),
    decreases s.len(),
{
    broadcast use vstd::seq_lib::group_to_multiset_ensures;

    let r = inserted::<T>(s, x);
    if s.len() == 0 {
        assert forall|y: T::Rank| #[trigger] r.contains(y) <==> (s.contains(y) || y == x) by {
            if r.contains(y) {
                let k = choose|k: int| 0 <= k < r.len() && r[k] == y;
                assert(0 <= k < r.len() && r[k] == y);
            }
            if y == x {
                assert(r[0] == y);
            }
        }
    } else if T::precedes(x, s.last()) {
        let t = s.drop_last();
        let u = inserted::<T>(t, x);
        lemma_inserted::<T>(t, x);
        T::lemma_one_way(x, s.last());
        assert(s =~= t.push(s.last()));
        assert forall|y: T::Rank| #[trigger] r.contains(y) <==> (s.contains(y) || y == x) by {
            if r.contains(y) {
                let k = choose|k: int| 0 <= k < r.len() && r[k] == y;
                if k < u.len() {
                    if t.contains(y) {
                        let m = choose|m: int| 0 <= m < t.len() && t[m] == y;
                        assert(0 <= m < t.len() && t[m] == y);
                    }
                }
            }
            if s.contains(y) {
                let m = choose|m: int| 0 <= m < s.len() && s[m] == y;
                if m < t.len() {
                    assert(inserted::<T>(t, x).contains(y));
                    let k = choose|k: int| 0 <= k < u.len() && u[k] == y;
                    assert(r[k] == y);
                } else {
                    assert(r[r.len() - 1] == y);
                }
            }
            if y == x {
                assert(inserted::<T>(t, x).contains(x));
                let k = choose|k: int| 0 <= k < u.len() && u[k] == x;
                assert(r[k] == y);
            }
        }
        if is_ordered::<T>(s) {
            assert(is_ordered::<T>(t)) by {
                assert forall|i: int, j: int|
                    #![trigger t[i], t[j]]
                    0 <= i && j == i + 1 && j < t.len() implies !T::precedes(t[j], t[i]) by {}
            }
            assert(is_ordered::<T>(r)) by {
                assert forall|i: int, j: int|
                    #![trigger r[i], r[j]]
                    0 <= i && j == i + 1 && j < r.len() implies !T::precedes(r[j], r[i]) by {}
            }
        }
    } else {
        assert forall|y: T::Rank| #[trigger] r.contains(y) <==> (s.contains(y) || y == x) by {
            if r.contains(y) {
                let k = choose|k: int| 0 <= k < r.len() && r[k] == y;
                assert(0 <= k < r.len() && r[k] == y);
            }
            if s.contains(y) {
                let m = choose|m: int| 0 <= m < s.len() && s[m] == y;
                assert(r[m] == y);
            }
            if y == x {
                assert(r[r.len() - 1] == y);
            }
        }
        if is_ordered::<T>(s) {
            assert forall|i: int, j: int|
                #![trigger r[i], r[j]]
                0 <= i && j == i + 1 && j < r.len() implies !T::precedes(r[j], r[i]) by {}
        }
    }
}

/// The stable sort keeps the elements and their multiplicities, and its
/// result is ordered.
pub proof fn lemma_sorted<T: Ranked>(s: Seq<T::Rank>)
    ensures
        sorted::<T>(s).len() == s.len(),
        sorted::<T>(s).to_multiset() == s.to_multiset(),
        forall|y: T::Rank| #[trigger] sorted::<T>(s).contains(y) <==> s.contains(y),
        is_ordered::<T>(sorted::<T>(s)),
        s.no_duplicates() ==> sorted::<T>(s).no_duplicates(),
    decreases s.len(),
{
    broadcast use vstd::seq_lib::group_to_multiset_ensures;

    if s.len() > 0 {
        let t = s.drop_last();
        let x = s.last();
        lemma_sorted::<T>(t);
        lemma_inserted::<T>(sorted::<T>(t), x);
        assert(s =~= t.push(x));
        let r = sorted::<T>(s);
        assert forall|y: T::Rank| #[trigger] r.contains(y) <==> s.contains(y) by {
            if r.contains(y) {
                if sorted::<T>(t).contains(y) {
                    let m = choose|m: int| 0 <= m < t.len() && t[m] == y;
                    assert(0 <= m < t.len() && t[m] == y);
                }
            }
            if s.contains(y) {
                let m = choose|m: int| 0 <= m < s.len() && s[m] == y;
                assert(0 <= m < s.len() && s[m] == y);
            }
        }
        if s.no_duplicates() {
            s.lemma_multiset_has_no_duplicates();
            assert(r.to_multiset() =~= s.to_multiset());
            r.lemma_multiset_has_no_duplicates_conv();
        }
    }
}

/// Sorting leaves an ordered sequence as it is.
pub proof fn lemma_ordered_is_fixed<T: Ranked>(s: Seq<T::Rank>)
    requires
        is_ordered::<T>(s),
    ensures
        sorted::<T>(s) == s,
    decreases s.len(),
{
    if s.len() > 0 {
        let t = s.drop_last();
        assert(is_ordered::<T>(t)) by {
            assert forall|i: int, j: int|
                #![trigger t[i], t[j]]
                0 <= i && j == i + 1 && j < t.len() implies !T::precedes(t[j], t[i]) by {}
        }
        lemma_ordered_is_fixed::<T>(t);
    }
}

/// Sorting twice gives what sorting once gives.
pub proof fn lemma_sort_is_idempotent<T: Ranked>(s: Seq<T::Rank>)
    ensures
        sorted::<T>(sorted::<T>(s)) == sorted::<T>(s),
{
    lemma_sorted::<T>(s);
    lemma_ordered_is_fixed::<T>(sorted::<T>(s));
}

/// An ordered sequence in which, of any two different elements, one has to
/// stand before the other is strictly ordered.
pub proof fn lemma_ordered_is_strict<T: Ranked>(s: Seq<T::Rank>)
    requires
        is_ordered::<T>(s),
        s.no_duplicates(),
        forall|a: T::Rank, b: T::Rank|
            s.contains(a) && s.contains(b) && a != b ==> #[trigger] T::precedes(a, b)
                || T::precedes(b, a),
    ensures
        is_strictly_ordered::<T>(s),
{
    assert forall|i: int, j: int|
        #![trigger s[i], s[j]]
        0 <= i && j == i + 1 && j < s.len() implies T::precedes(s[i], s[j]) by {}
}

/// Sorts `items` by rank. Elements of which neither has to stand before the
/// other keep their order.
pub fn sort<T: Ranked>(items: Vec<T>) -> (r: Vec<T>)
    ensures
        ranks(r@) == sorted::<T>(ranks(items@)),
        ranks(r@).to_multiset() == ranks(items@).to_multiset(),
        is_ordered::<T>(ranks(r@)),
{
    let ghost all = ranks(items@);
    let mut rest = items;
    let mut out: Vec<T> = Vec::new();
    let ghost mut done: int = 0;
    proof {
        assert(ranks(rest@) =~= all.skip(0));
    }
    while rest.len() > 0
        invariant
            0 <= done <= all.len(),
            rest@.len() == all.len() - done,
            ranks(rest@) == all.skip(done),
            ranks(out@) == sorted::<T>(all.take(done)),
        decreases rest.len(),
    {
        let ghost before_rest = rest@;
        let x = rest.remove(0);
        let ghost before = ranks(out@);
        proof {
            assert(ranks(before_rest)[0] == x.rank());
            assert(ranks(rest@) =~= all.skip(done + 1)) by {
                assert forall|k: int| 0 <= k < rest@.len() implies ranks(rest@)[k] == all.skip(
                    done + 1,
                )[k] by {
                    assert(ranks(before_rest)[k + 1] == before_rest[k + 1].rank());
                }
            }
        }
        let mut j: usize = out.len();
        proof {
            assert(before.take(j as int) =~= before);
        }
        while j > 0 && x.comes_before(&out[j - 1])
            invariant
                j <= out.len(),
                before == ranks(out@),
                inserted::<T>(before, x.rank()) == inserted::<T>(before.take(j as int), x.rank())
                    + before.skip(j as int),
            decreases j,
        {
            proof {
                let head = before.take(j as int);
                assert(head.drop_last() =~= before.take(j - 1));
            }
            j -= 1;
        }
        proof {
            assert(all.take(done + 1).drop_last() =~= all.take(done));
        }
        out.insert(j, x);
        proof {
            done = done + 1;
        }
    }
    proof {
        lemma_sorted::<T>(all);
    }
    out
}

} // verus!
