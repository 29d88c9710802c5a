//! Graph nodes paired with their distance to the query.

use vstd::prelude::*;

verus! {

/// A distance to the query: the bit pattern of an IEEE 754 single precision
/// number, as `f32::to_bits` gives it.
#[derive(Clone, Copy, Debug, PartialEq, Eq, Structural)]
pub struct Distance {
    pub bits: u32,
}

impl Distance {
    /// The place of this distance among all distances. Two distances that are
    /// numbers compare as their ranks do (both zeros have rank 0); bit patterns
    /// that are not numbers lie beyond the infinity of their sign.
    pub open spec fn rank(self) -> int {
        if self.bits < 0x8000_0000 {
            self.bits as int
        } else {
            0x8000_0000 - self.bits
        }
    }

    /// Whether the bit pattern stands for no number.
    pub open spec fn is_nan(self) -> bool {
        self.rank() > 0x7f80_0000 || self.rank() < -0x7f80_0000
    }

    /// `self > other`, as on floating-point numbers: false where either side is
    /// not a number.
    pub open spec fn exceeds(self, other: Distance) -> bool {
        !self.is_nan() && !other.is_nan() && self.rank() > other.rank()
    }

    /// The rank, as a machine integer.
    pub fn rank_value(self) -> (r: i64)
        ensures
            r == self.rank(),
    {
        if self.bits < 0x8000_0000 {
            self.bits as i64
        } else {
            0x8000_0000i64 - self.bits as i64
        }
    }

    /// Whether `self` is strictly greater than `other`.
    pub fn is_greater(self, other: Distance) -> (r: bool)
        ensures
            r == self.exceeds(other),
    {
        let a: i64 = self.rank_value();
        let b: i64 = other.rank_value();
        -0x7f80_0000 <= a && a <= 0x7f80_0000 && -0x7f80_0000 <= b && b <= 0x7f80_0000 && a > b
    }
}

/// A node of the graph and its distance to the query.
#[derive(Clone, Copy, Debug, PartialEq, Eq, Structural)]
pub struct Neighbor {
    pub id: u32,
    pub distance: Distance,
}

impl Neighbor {
    /// The order in which neighbors are ranked: by distance, then by id.
    pub open spec fn precedes(self, other: Neighbor) -> bool {
        ||| self.distance.rank() < other.distance.rank()
        ||| self.distance.rank() == other.distance.rank() && self.id < other.id
    }

    /// Whether the two neighbors have the same place in the order.
    pub open spec fn ties(self, other: Neighbor) -> bool {
        self.distance.rank() == other.distance.rank() && self.id == other.id
    }

    pub fn new(id: u32, distance: Distance) -> (r: Neighbor)
        ensures
            r == (Neighbor { id, distance }),
    {
        Neighbor { id, distance }
    }

    /// Whether `self` is ranked before `other`.
    pub fn is_before(self, other: Neighbor) -> (r: bool)
        ensures
            r == self.precedes(other),
            r == (self.distance.rank() < other.distance.rank() || (self.distance.rank()
                == other.distance.rank() && self.id < other.id)),
    {
        let a: i64 = self.distance.rank_value();
        let b: i64 = other.distance.rank_value();
        a < b || (a == b && self.id < other.id)
    }
}

/// Whether each neighbor is ranked before all neighbors behind it.
pub open spec fn in_rank_order(s: Seq<Neighbor>) -> bool {
    forall|i: int, j: int| 0 <= i < j < s.len() ==> (#[trigger] s[i]).precedes(#[trigger] s[j])
}

/// The ids of a sequence of neighbors.
pub open spec fn ids_of(s: Seq<Neighbor>) -> Seq<u32> {
    Seq::new(s.len(), |i: int| s[i].id)
}

/// Whether no neighbor is farther from the query than one behind it.
pub open spec fn sorted_by_distance(s: Seq<Neighbor>) -> bool {
    forall|i: int, j: int|
        0 <= i <= j < s.len() ==> (#[trigger] s[i]).distance.rank() <= (#[trigger] s[j]).distance.rank()
}

/// The ids of the neighbors in `list`, in order.
pub fn collect_ids(list: &Vec<Neighbor>) -> (ids: Vec<u32>)
    ensures
        ids@ == ids_of(list@),
{
    let mut ids: Vec<u32> = Vec::with_capacity(list.len());
    for i in 0..list.len()
        invariant
            ids@ == ids_of(list@.take(i as int)),
    {
        ids.push(list[i].id);
        assert(ids@ =~= ids_of(list@.take(i + 1)));
    }
    assert(list@.take(list@.len() as int) == list@);
    ids
}

/// Finds where `item` goes in `sorted`: behind every neighbor that is not farther.
fn insertion_point(sorted: &Vec<Neighbor>, item: Neighbor) -> (at: usize)
    requires
        sorted_by_distance(sorted@),
    ensures
        at <= sorted@.len(),
        forall|i: int|
            0 <= i < at ==> (#[trigger] sorted@[i]).distance.rank() <= item.distance.rank(),
        forall|i: int|
            at <= i < sorted@.len() ==> (#[trigger] sorted@[i]).distance.rank()
                > item.distance.rank(),
{
    let key: i64 = item.distance.rank_value();
    let mut lo: usize = 0;
    let mut hi: usize = sorted.len();
    while lo < hi
        invariant
            lo <= hi <= sorted@.len(),
            key == item.distance.rank(),
            sorted_by_distance(sorted@),
            forall|i: int| 0 <= i < lo ==> (#[trigger] sorted@[i]).distance.rank() <= key,
            forall|i: int| hi <= i < sorted@.len() ==> (#[trigger] sorted@[i]).distance.rank() > key,
        decreases hi - lo,
    {
        let mid: usize = lo + (hi - lo) / 2;
        if sorted[mid].distance.rank_value() <= key {
            lo = mid + 1;
        } else {
            hi = mid;
        }
    }
    lo
}

/// The neighbors of `list`, closest first. Neighbors at the same distance come
/// in either order.
pub fn sort_by_distance(list: &Vec<Neighbor>) -> (sorted: Vec<Neighbor>)
    ensures
        sorted_by_distance(sorted@),
        forall|i: int, j: int|
            0 <= i < j < sorted@.len() ==> (#[trigger] sorted@[i]).distance.rank() <= (
            #[trigger] sorted@[j]).distance.rank(),
        sorted@.to_multiset() == list@.to_multiset(),
{
    let mut sorted: Vec<Neighbor> = Vec::with_capacity(list.len());
    assert(sorted@ =~= list@.take(0));
    for i in 0..list.len()
        invariant
            sorted_by_distance(sorted@),
            sorted@.to_multiset() == list@.take(i as int).to_multiset(),
    {
        let item: Neighbor = list[i];
        let at: usize = insertion_point(&sorted, item);
        let ghost before = sorted@;
        sorted.insert(at, item);
        proof {
            vstd::seq_lib::to_multiset_insert(before, at as int, item);
            vstd::seq_lib::to_multiset_build(list@.take(i as int), item);
            assert(list@.take(i + 1) =~= list@.take(i as int).push(item));
        }
    }
    assert(list@.take(list@.len() as int) == list@);
    sorted
}

/// The neighbors of `list`, in order.
pub fn copy_neighbors(list: &Vec<Neighbor>) -> (r: Vec<Neighbor>)
    ensures
        r@ == list@,
{
    let mut r: Vec<Neighbor> = Vec::with_capacity(list.len());
    for i in 0..list.len()
        invariant
            r@ == list@.take(i as int),
    {
        r.push(list[i]);
        assert(r@ =~= list@.take(i + 1));
    }
    assert(r@ =~= list@);
    r
}

/// What is behind the first of sorted neighbors is sorted.
pub proof fn lemma_sorted_suffix(s: Seq<Neighbor>)
    requires
        s.len() > 0,
        sorted_by_distance(s),
    ensures
        sorted_by_distance(s.drop_first()),
{
    assert forall|i: int, j: int| 0 <= i <= j < s.drop_first().len() implies (
    #[trigger] s.drop_first()[i]).distance.rank() <= (
    #[trigger] s.drop_first()[j]).distance.rank() by {
        assert(s[i + 1].distance.rank() <= s[j + 1].distance.rank());
    }
}

/// Neighbors with distinct ids have distinct ids in any order.
pub proof fn lemma_reordered_ids(a: Seq<Neighbor>, b: Seq<Neighbor>)
    requires
        ids_of(a).no_duplicates(),
        a.to_multiset() == b.to_multiset(),
    ensures
        ids_of(b).no_duplicates(),
        forall|i: int| 0 <= i < b.len() ==> a.contains(#[trigger] b[i]),
{
    broadcast use vstd::multiset::group_multiset_axioms;

    a.to_multiset_ensures();
    b.to_multiset_ensures();
    assert forall|i: int, j: int| 0 <= i < a.len() && 0 <= j < a.len() && i != j implies a[i]
        != a[j] by {
        assert(ids_of(a)[i] != ids_of(a)[j]);
    }
    a.lemma_multiset_has_no_duplicates();
    b.lemma_multiset_has_no_duplicates_conv();
    assert forall|i: int| 0 <= i < b.len() implies a.contains(#[trigger] b[i]) by {
        assert(b.contains(b[i]));
        assert(b.to_multiset().count(b[i]) > 0);
    }
    let ids = ids_of(b);
    assert forall|i: int, j: int| 0 <= i < ids.len() && 0 <= j < ids.len() && i != j implies ids[i]
        != ids[j] by {
        assert(a.contains(b[i]) && a.contains(b[j]));
        let x = a.index_of(b[i]);
        let y = a.index_of(b[j]);
        assert(a[x] == b[i] && a[y] == b[j]);
        assert(b[i] != b[j]);
        assert(ids_of(a)[x] != ids_of(a)[y]);
    }
}

/// Distances compare as signs and magnitudes: the highest bit is the sign, the others
/// are the magnitude, both zeros are equal, and what is beyond infinity is no number,
/// which exceeds nothing and is exceeded by nothing.
pub proof fn law_distance_order(a: Distance, b: Distance)
    ensures
        a.is_nan() <==> a.bits % 0x8000_0000 > 0x7f80_0000,
        a.rank() > b.rank() <==> ({
            let m = a.bits % 0x8000_0000;
            let n = b.bits % 0x8000_0000;
            if a.bits < 0x8000_0000 && b.bits < 0x8000_0000 {
                m > n
            } else if a.bits < 0x8000_0000 {
                m > 0 || n > 0
            } else if b.bits < 0x8000_0000 {
                false
            } else {
                m < n
            }
        }),
        a.exceeds(b) <==> a.rank() > b.rank() && a.bits % 0x8000_0000 <= 0x7f80_0000 && b.bits
            % 0x8000_0000 <= 0x7f80_0000,
{
}

} // verus!
