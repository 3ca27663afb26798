//! The mathematical model of a block: a byte range of one memory object.

use vstd::multiset::*;
use vstd::prelude::*;

use crate::memory::MemoryHandle;

verus! {

/// The bytes `start..end` of the memory object `memory`.
pub ghost struct Extent {
    pub memory: MemoryHandle,
    pub start: int,
    pub end: int,
}

impl Extent {
    /// The range is in order and within what 64 bits can address.
    pub open spec fn wf(self) -> bool {
        0 <= self.start <= self.end <= u64::MAX
    }

    /// The number of bytes in the range.
    pub open spec fn size(self) -> nat {
        if self.start <= self.end {
            (self.end - self.start) as nat
        } else {
            0
        }
    }

    /// Whether `other` lies in the same memory object and inside this range.
    pub open spec fn contains(self, other: Extent) -> bool {
        self.memory == other.memory && self.start <= other.start && other.end <= self.end
    }

    /// Whether the two ranges share no byte.
    pub open spec fn disjoint(self, other: Extent) -> bool {
        self.memory != other.memory || self.end <= other.start || other.end <= self.start
    }
}

/// The size of an extent, as a weight for `total`.
pub open spec fn extent_size() -> spec_fn(Extent) -> nat {
    |e: Extent| e.size()
}

/// No two members of `m` share a byte. A member that occurs twice counts as
/// two members.
pub open spec fn pairwise_disjoint(m: Multiset<Extent>) -> bool {
    forall|a: Extent, b: Extent|
        m.count(a) > 0 && m.count(b) > 0 && (a != b || m.count(a) >= 2) ==> #[trigger] a.disjoint(
            b,
        )
}

/// Removing a member makes a multiset shorter by one.
pub proof fn lemma_remove_len<T>(m: Multiset<T>, x: T)
    requires
        m.count(x) > 0,
    ensures
        m.remove(x).len() == m.len() - 1,
        m.len() > 0,
{
    broadcast use group_multiset_axioms;

    assert(Multiset::singleton(x).subset_of(m)) by {
        assert forall|v: T| Multiset::singleton(x).count(v) <= m.count(v) by {
            if v != x {
                axiom_multiset_singleton_different(x, v);
            }
        }
    }
}

/// The sum of the weights of the members of `m`, each counted as often as it
/// occurs.
pub open spec fn total<T>(m: Multiset<T>, weight: spec_fn(T) -> nat) -> nat
    decreases m.len(),
{
    if m.len() == 0 {
        0
    } else {
        proof {
            axiom_choose_count(m);
            lemma_remove_len(m, m.choose());
        }
        weight(m.choose()) + total(m.remove(m.choose()), weight)
    }
}

/// The total splits off the weight of any member.
pub proof fn lemma_total_remove<T>(m: Multiset<T>, weight: spec_fn(T) -> nat, x: T)
    requires
        m.count(x) > 0,
    ensures
        total(m, weight) == weight(x) + total(m.remove(x), weight),
    decreases m.len(),
{
    broadcast use group_multiset_axioms;

    lemma_remove_len(m, x);
    let z = m.choose();
    axiom_choose_count(m);
    if z != x {
        lemma_remove_len(m, z);
        assert(m.remove(z).count(x) > 0);
        assert(m.remove(x).count(z) > 0);
        lemma_total_remove(m.remove(z), weight, x);
        lemma_total_remove(m.remove(x), weight, z);
        assert(m.remove(z).remove(x) =~= m.remove(x).remove(z));
    }
}

/// A new member adds its weight to the total.
pub proof fn lemma_total_insert<T>(m: Multiset<T>, weight: spec_fn(T) -> nat, x: T)
    ensures
        total(m.insert(x), weight) == total(m, weight) + weight(x),
{
    broadcast use group_multiset_axioms;

    lemma_total_remove(m.insert(x), weight, x);
    assert(m.insert(x).remove(x) =~= m);
}

/// The empty multiset weighs nothing.
pub proof fn lemma_total_empty<T>(weight: spec_fn(T) -> nat)
    ensures
        total(Multiset::<T>::empty(), weight) == 0,
{
    broadcast use group_multiset_axioms;

}

/// Where every member weighs something, only the empty multiset weighs
/// nothing.
pub proof fn lemma_total_zero<T>(m: Multiset<T>, weight: spec_fn(T) -> nat)
    requires
        forall|x: T| m.count(x) > 0 ==> #[trigger] weight(x) > 0,
    ensures
        total(m, weight) == 0 <==> m.len() == 0,
{
    if m.len() != 0 {
        axiom_choose_count(m);
        lemma_total_remove(m, weight, m.choose());
    }
}

/// The total of a sum of multisets is the sum of their totals.
pub proof fn lemma_total_add<T>(a: Multiset<T>, b: Multiset<T>, weight: spec_fn(T) -> nat)
    ensures
        total(a.add(b), weight) == total(a, weight) + total(b, weight),
    decreases b.len(),
{
    broadcast use group_multiset_axioms;

    if b.len() == 0 {
        assert(a.add(b) =~= a);
    } else {
        let x = b.choose();
        axiom_choose_count(b);
        lemma_remove_len(b, x);
        lemma_total_remove(b, weight, x);
        lemma_total_remove(a.add(b), weight, x);
        assert(a.add(b).remove(x) =~= a.add(b.remove(x)));
        lemma_total_add(a, b.remove(x), weight);
    }
}

/// A part of a multiset whose members share no byte has members that share
/// no byte.
pub proof fn lemma_disjoint_part(part: Multiset<Extent>, all: Multiset<Extent>)
    requires
        part.subset_of(all),
        pairwise_disjoint(all),
    ensures
        pairwise_disjoint(part),
{
    assert forall|a: Extent, b: Extent|
        part.count(a) > 0 && part.count(b) > 0 && (a != b || part.count(a)
            >= 2) implies #[trigger] a.disjoint(b) by {
        assert(part.count(a) <= all.count(a));
        assert(part.count(b) <= all.count(b));
    }
}

/// A range in a memory object of its own shares no byte with the others.
pub proof fn lemma_disjoint_insert(all: Multiset<Extent>, new: Extent)
    requires
        pairwise_disjoint(all),
        forall|e: Extent| #[trigger] all.count(e) > 0 ==> e.memory != new.memory,
    ensures
        pairwise_disjoint(all.insert(new)),
{
    broadcast use group_multiset_axioms;

    let next = all.insert(new);
    assert forall|a: Extent, b: Extent|
        next.count(a) > 0 && next.count(b) > 0 && (a != b || next.count(a)
            >= 2) implies #[trigger] a.disjoint(b) by {
        assert(all.count(new) == 0);
        if a != new {
            assert(all.count(a) > 0);
        }
        if b != new {
            assert(all.count(b) > 0);
        }
    }
}

/// Among ranges that share no byte, a range with bytes in it occurs once,
/// and two ranges with a range inside each that has bytes in it are either
/// the same or share no byte.
pub proof fn lemma_disjoint_hosts(all: Multiset<Extent>, first: Extent, second: Extent, a: Extent, b: Extent)
    requires
        pairwise_disjoint(all),
        all.count(first) > 0,
        all.count(second) > 0,
        first.contains(a),
        second.contains(b),
        a.size() > 0,
        b.size() > 0,
    ensures
        all.count(first) == 1,
        first != second ==> a.disjoint(b),
{
    if all.count(first) >= 2 {
        assert(first.disjoint(first));
    }
    if first != second {
        assert(first.disjoint(second));
    }
}

/// A value that stands at two places of a sequence occurs twice in it.
pub proof fn lemma_two_places<T>(s: Seq<T>, first: int, second: int)
    requires
        0 <= first < s.len(),
        0 <= second < s.len(),
        first != second,
        s[first] == s[second],
    ensures
        s.to_multiset().count(s[first]) >= 2,
{
    broadcast use group_multiset_axioms;

    let rest = s.remove(first);
    s.remove_ensures(first);
    vstd::seq_lib::to_multiset_remove(s, first);
    rest.to_multiset_ensures();
    if second < first {
        assert(rest[second] == s[second]);
    } else {
        assert(rest[second - 1] == s[second]);
    }
    assert(rest.contains(s[first]));
    assert(rest.to_multiset().count(s[first]) > 0);
    assert(s.to_multiset().remove(s[first]).count(s[first]) > 0);
}

/// The sizes of the ranges of a sequence, added up.
pub open spec fn sum_of_sizes(ranges: Seq<Extent>) -> nat
    decreases ranges.len(),
{
    if ranges.len() == 0 {
        0
    } else {
        sum_of_sizes(ranges.drop_last()) + ranges.last().size()
    }
}

/// The ranges of a sequence weigh as much as the multiset of them.
pub proof fn lemma_sum_of_sizes(ranges: Seq<Extent>)
    ensures
        total(ranges.to_multiset(), extent_size()) == sum_of_sizes(ranges),
    decreases ranges.len(),
{
    broadcast use group_multiset_axioms;

    if ranges.len() == 0 {
        ranges.to_multiset_ensures();
        assert(ranges.to_multiset().len() == 0);
    } else {
        let init = ranges.drop_last();
        lemma_sum_of_sizes(init);
        assert(ranges =~= init.push(ranges.last()));
        vstd::seq_lib::to_multiset_build(init, ranges.last());
        lemma_total_insert(init.to_multiset(), extent_size(), ranges.last());
    }
}

} // verus!
