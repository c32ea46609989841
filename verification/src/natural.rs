//! Natural ordering of texts, in which runs of digits compare as numbers.

use crate::order::{is_ordered, is_strictly_ordered, sort, sorted, ranks, Ranked};
use vstd::prelude::*;

verus! {

/// Outcome of comparing two texts in natural order.
#[derive(Clone, Copy, Debug, PartialEq, Eq, Structural)]
pub enum NaturalOrder {
    Less,
    Equal,
    Greater,
}

impl NaturalOrder {
    /// The outcome seen from the other side.
    pub open spec fn mirrored(self) -> NaturalOrder {
        match self {
            NaturalOrder::Less => NaturalOrder::Greater,
            NaturalOrder::Equal => NaturalOrder::Equal,
            NaturalOrder::Greater => NaturalOrder::Less,
        }
    }
}

/// What `natord::compare` answers for `left` against `right`.
pub uninterp spec fn natural_order(left: Seq<char>, right: Seq<char>) -> NaturalOrder;

/// Calls `natord::compare`.
///
/// Trusted: the answer depends on the two texts alone, and the routine reads
/// both arguments through the same steps, so that exchanging them mirrors the
/// answer. Nothing else is claimed of the ordering; in particular it skips
/// white space, so `Equal` does not mean that the texts are the same.
#[verifier::external_body]
fn natural_compare(left: &str, right: &str) -> (r: NaturalOrder)
    ensures
        r == natural_order(left@, right@),
        r.mirrored() == natural_order(right@, left@),
{
    match natord::compare(left, right) {
        std::cmp::Ordering::Less => NaturalOrder::Less,
        std::cmp::Ordering::Equal => NaturalOrder::Equal,
        std::cmp::Ordering::Greater => NaturalOrder::Greater,
    }
}

/// `a` sorts before `b`: the comparison puts `a` first and the mirrored
/// comparison does not contradict it. By construction no two texts sort
/// before each other.
pub open spec fn sorts_before(a: Seq<char>, b: Seq<char>) -> bool {
    natural_order(a, b) == NaturalOrder::Less && natural_order(b, a) != NaturalOrder::Less
}

/// Whether `a` sorts before `b` in natural order.
pub fn natural_less(a: &str, b: &str) -> (r: bool)
    ensures
        r == sorts_before(a@, b@),
{
    match natural_compare(a, b) {
        NaturalOrder::Less => true,
        _ => false,
    }
}

impl Ranked for String {
    type Rank = Seq<char>;

    open spec fn rank(&self) -> Seq<char> {
        self@
    }

    open spec fn precedes(a: Seq<char>, b: Seq<char>) -> bool {
        sorts_before(a, b)
    }

    proof fn lemma_one_way(a: Seq<char>, b: Seq<char>) {
    }

    fn comes_before(&self, other: &Self) -> (r: bool) {
        natural_less(self.as_str(), other.as_str())
    }
}

/// No element sorts before its predecessor.
pub open spec fn is_naturally_ordered(s: Seq<Seq<char>>) -> bool {
    is_ordered::<String>(s)
}

/// Each element sorts before its successor.
pub open spec fn is_strictly_increasing(s: Seq<Seq<char>>) -> bool {
    is_strictly_ordered::<String>(s)
}

/// The stable natural sort of `s`.
pub open spec fn natural_sorted(s: Seq<Seq<char>>) -> Seq<Seq<char>> {
    sorted::<String>(s)
}

/// Sorts `items` in natural order. Texts that the natural order does not
/// tell apart keep their order.
pub fn sort_natural(items: &Vec<String>) -> (r: Vec<String>)
    ensures
        r.deep_view() == natural_sorted(items.deep_view()),
        r.deep_view().to_multiset() == items.deep_view().to_multiset(),
        is_naturally_ordered(r.deep_view()),
{
    let mut copy: Vec<String> = Vec::new();
    let mut i: usize = 0;
    while i < items.len()
        invariant
            i <= items.len(),
            copy.deep_view() == items.deep_view().take(i as int),
        decreases items.len() - i,
    {
        let ghost before = copy.deep_view();
        copy.push(items[i].clone());
        proof {
            assert(copy.deep_view() =~= before.push(items[i as int]@));
        }
        i += 1;
    }
    proof {
        assert(items.deep_view().take(i as int) =~= items.deep_view());
        assert(ranks(copy@) =~= copy.deep_view());
    }
    let out = sort(copy);
    out
}

} // verus!
