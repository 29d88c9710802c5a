//! The bitmap cache: bitmaps in one file, so that they need not be computed
//! from the labels on every run.
//!
//! A cache file holds the number of bitmaps, then each bitmap: the number of its
//! bytes, then the bytes. Numbers take eight bytes, lowest first.

use bit_set::BitSet;
use vstd::prelude::*;
use crate::bitmap::{bit_set_members, bit_set_width, bits_of, SerializableBitSet};

verus! {

/// The lowest `width` bytes of `n`, lowest first.
pub open spec fn le_bytes(n: nat, width: nat) -> Seq<u8>
    decreases width,
{
    if width == 0 {
        Seq::empty()
    } else {
        seq![(n % 256) as u8] + le_bytes(n / 256, (width - 1) as nat)
    }
}

/// A list of bytes behind its length.
pub open spec fn frame(bytes: Seq<u8>) -> Seq<u8> {
    le_bytes(bytes.len(), 8) + bytes
}

/// Lists of bytes, each behind its length.
pub open spec fn frames(lists: Seq<Seq<u8>>) -> Seq<u8>
    decreases lists.len(),
{
    if lists.len() == 0 {
        Seq::empty()
    } else {
        frame(lists.first()) + frames(lists.drop_first())
    }
}

/// The contents of a cache file for these bitmaps.
pub open spec fn cache_bytes(lists: Seq<Seq<u8>>) -> Seq<u8> {
    le_bytes(lists.len(), 8) + frames(lists)
}

/// The contents of a list of lists.
pub open spec fn byte_lists(lists: Seq<Vec<u8>>) -> Seq<Seq<u8>> {
    Seq::new(lists.len(), |i: int| lists[i]@)
}

/// `bincode::ErrorKind`: what went wrong in bincode.
#[verifier::external_type_specification]
#[verifier::external_body]
pub struct ExErrorKind(bincode::ErrorKind);

/// `bincode::serialize` of a list of byte lists. Its default configuration
/// writes a length as eight bytes, lowest first, and a byte as itself; it sets no
/// limit, so that such a list is always serialized.
#[verifier::external_body]
pub(crate) fn bincode_serialize(lists: &Vec<Vec<u8>>) -> (r: Result<Vec<u8>, bincode::Error>)
    ensures
        r is Ok,
        r->Ok_0@ == cache_bytes(byte_lists(lists@)),
{
    bincode::serialize(lists)
}

/// `bincode::deserialize` to a list of byte lists. It succeeds where the bytes
/// begin with the serialized form of some such list, and gives that list; bytes
/// behind it are ignored.
#[verifier::external_body]
pub(crate) fn bincode_deserialize(bytes: &Vec<u8>) -> (r: Result<Vec<Vec<u8>>, bincode::Error>)
    ensures
        match r {
            Ok(lists) => cache_bytes(byte_lists(lists@)).is_prefix_of(bytes@),
            Err(_) => forall|lists: Seq<Seq<u8>>|
                !(#[trigger] cache_bytes(lists)).is_prefix_of(bytes@),
        },
{
    bincode::deserialize(bytes)
}

/// Why a bitmap cache could not be read.
#[derive(Clone, Copy, Debug, PartialEq, Eq, Structural)]
pub enum CacheError {
    /// The bytes are not those of a bitmap cache.
    Malformed,
}

/// Whether `bytes` begins with the contents of some cache file.
pub open spec fn is_cache(bytes: Seq<u8>) -> bool {
    exists|lists: Seq<Seq<u8>>| (#[trigger] cache_bytes(lists)).is_prefix_of(bytes)
}

/// Whether `bytes` are the contents of a cache file that holds these bitmaps.
pub open spec fn stores(bytes: Seq<u8>, bitmaps: Seq<BitSet>) -> bool {
    exists|lists: Seq<Seq<u8>>|
        {
            &&& bytes == #[trigger] cache_bytes(lists)
            &&& lists.len() == bitmaps.len()
            &&& forall|i: int|
                0 <= i < lists.len() ==> bits_of(#[trigger] lists[i]) == bit_set_members(
                    bitmaps[i],
                ) && lists[i].len() == (bit_set_width(bitmaps[i]) + 7) / 8
        }
}

/// Whether these are the bitmaps that the cache file at the front of `bytes` holds.
pub open spec fn loads(bytes: Seq<u8>, bitmaps: Seq<BitSet>) -> bool {
    exists|lists: Seq<Seq<u8>>|
        {
            &&& (#[trigger] cache_bytes(lists)).is_prefix_of(bytes)
            &&& lists.len() == bitmaps.len()
            &&& forall|i: int|
                0 <= i < lists.len() ==> bit_set_members(#[trigger] bitmaps[i]) == bits_of(
                    lists[i],
                ) && bit_set_width(bitmaps[i]) == 8 * lists[i].len()
        }
}

/// The contents of a cache file for `bitmaps`.
pub fn encode_bitmaps(bitmaps: &Vec<BitSet>) -> (bytes: Vec<u8>)
    ensures
        stores(bytes@, bitmaps@),
        exists|lists: Seq<Seq<u8>>|
            {
                &&& bytes@ == #[trigger] cache_bytes(lists)
                &&& lists.len() == bitmaps@.len()
                &&& forall|i: int|
                    0 <= i < lists.len() ==> bits_of(#[trigger] lists[i]) == bit_set_members(
                        bitmaps@[i],
                    ) && lists[i].len() == (bit_set_width(bitmaps@[i]) + 7) / 8
            },
{
    let mut lists: Vec<Vec<u8>> = Vec::with_capacity(bitmaps.len());
    for i in 0..bitmaps.len()
        invariant
            lists@.len() == i,
            forall|j: int|
                0 <= j < i ==> bits_of((#[trigger] lists@[j])@) == bit_set_members(bitmaps@[j])
                    && lists@[j]@.len() == (bit_set_width(bitmaps@[j]) + 7) / 8,
    {
        lists.push(SerializableBitSet::from_bit_set(&bitmaps[i]).0);
    }
    let bytes: Vec<u8> = bincode_serialize(&lists).unwrap();
    assert(bytes@ == cache_bytes(byte_lists(lists@)));
    bytes
}

/// Whether the bits of each bitmap in the cache file at the front of `bytes` can be
/// counted in a `usize`.
pub open spec fn all_fit(bytes: Seq<u8>) -> bool {
    forall|lists: Seq<Seq<u8>>, i: int|
        (#[trigger] cache_bytes(lists)).is_prefix_of(bytes) && 0 <= i < lists.len() ==> 8
            * (#[trigger] lists[i]).len() <= usize::MAX
}

/// Whether the bits of each bitmap in a cache file can be counted in a `usize`; if not,
/// the file cannot be loaded on this machine.
pub fn bitmaps_fit(bytes: &Vec<u8>) -> (r: bool)
    ensures
        r == all_fit(bytes@),
{
    if bytes.len() <= usize::MAX / 8 {
        assert forall|lists: Seq<Seq<u8>>, i: int|
            (#[trigger] cache_bytes(lists)).is_prefix_of(bytes@) && 0 <= i
                < lists.len() implies 8 * (#[trigger] lists[i]).len() <= usize::MAX by {
            lemma_frames_len(lists, i);
        }
        return true;
    }
    let lists: Vec<Vec<u8>> = match bincode_deserialize(bytes) {
        Ok(lists) => lists,
        Err(_) => return true,
    };
    let ghost contents = byte_lists(lists@);
    for i in 0..lists.len()
        invariant
            contents == byte_lists(lists@),
            cache_bytes(contents).is_prefix_of(bytes@),
            forall|j: int| 0 <= j < i ==> 8 * (#[trigger] contents[j]).len() <= usize::MAX,
    {
        assert(contents[i as int] == lists@[i as int]@);
        if lists[i].len() > usize::MAX / 8 {
            return false;
        }
    }
    proof {
        assert forall|other: Seq<Seq<u8>>, i: int|
            (#[trigger] cache_bytes(other)).is_prefix_of(bytes@) && 0 <= i
                < other.len() implies 8 * (#[trigger] other[i]).len() <= usize::MAX by {
            law_cache_unambiguous(contents, other, bytes@);
        }
    }
    true
}

/// The bitmaps in a cache file with the contents `bytes`.
pub fn decode_bitmaps(bytes: &Vec<u8>) -> (r: Result<Vec<BitSet>, CacheError>)
    requires
        all_fit(bytes@),
    ensures
        match r {
            Ok(bitmaps) => loads(bytes@, bitmaps@) && exists|lists: Seq<Seq<u8>>|
                {
                    &&& (#[trigger] cache_bytes(lists)).is_prefix_of(bytes@)
                    &&& lists.len() == bitmaps@.len()
                    &&& forall|i: int|
                        0 <= i < lists.len() ==> bit_set_members(#[trigger] bitmaps@[i])
                            == bits_of(lists[i])
                },
            Err(e) => e is Malformed && !is_cache(bytes@),
        },
{
    let lists: Vec<Vec<u8>> = match bincode_deserialize(bytes) {
        Ok(lists) => lists,
        Err(_) => return Err(CacheError::Malformed),
    };
    let ghost contents = byte_lists(lists@);
    let mut bitmaps: Vec<BitSet> = Vec::with_capacity(lists.len());
    for list in it: lists
        invariant
            all_fit(bytes@),
            contents == byte_lists(it.seq()),
            cache_bytes(contents).is_prefix_of(bytes@),
            bitmaps@.len() == it.index(),
            forall|j: int|
                0 <= j < it.index() ==> bit_set_members(#[trigger] bitmaps@[j]) == bits_of(
                    contents[j],
                ) && bit_set_width(bitmaps@[j]) == 8 * contents[j].len(),
    {
        proof {
            assert(contents[it.index()] == list@);
        }
        bitmaps.push(SerializableBitSet(list).into_bit_set());
    }
    Ok(bitmaps)
}

/// No list is longer than all the lists behind their lengths.
proof fn lemma_frames_len(lists: Seq<Seq<u8>>, i: int)
    requires
        0 <= i < lists.len(),
    ensures
        lists[i].len() <= frames(lists).len(),
    decreases lists.len(),
{
    if i > 0 {
        lemma_frames_len(lists.drop_first(), i - 1);
        assert(lists.drop_first()[i - 1] == lists[i]);
    }
}

/// How many numbers fit in `width` bytes.
spec fn range(width: nat) -> nat
    decreases width,
{
    if width == 0 {
        1
    } else {
        256 * range((width - 1) as nat)
    }
}

proof fn lemma_le_bytes_len(n: nat, width: nat)
    ensures
        le_bytes(n, width).len() == width,
    decreases width,
{
    if width > 0 {
        lemma_le_bytes_len(n / 256, (width - 1) as nat);
    }
}

/// A number that fits in `width` bytes is the only one with its bytes.
proof fn lemma_le_bytes_injective(a: nat, b: nat, width: nat)
    requires
        a < range(width),
        b < range(width),
        le_bytes(a, width) == le_bytes(b, width),
    ensures
        a == b,
    decreases width,
{
    if width > 0 {
        let rest = (width - 1) as nat;
        let x = le_bytes(a, width);
        let y = le_bytes(b, width);
        assert(x[0] == (a % 256) as u8);
        assert(y[0] == (b % 256) as u8);
        assert(x.drop_first() =~= le_bytes(a / 256, rest));
        assert(y.drop_first() =~= le_bytes(b / 256, rest));
        assert(a / 256 < range(rest));
        assert(b / 256 < range(rest));
        lemma_le_bytes_injective(a / 256, b / 256, rest);
    }
}

proof fn lemma_range_8()
    ensures
        range(8) == 0x1_0000_0000_0000_0000,
{
    reveal_with_fuel(range, 9);
}

/// Two numbers of eight bytes at the front of the same bytes are the same.
proof fn lemma_same_length(a: nat, b: nat, s: Seq<u8>)
    requires
        a < 0x1_0000_0000_0000_0000,
        b < 0x1_0000_0000_0000_0000,
        le_bytes(a, 8).is_prefix_of(s),
        le_bytes(b, 8).is_prefix_of(s),
    ensures
        a == b,
{
    lemma_le_bytes_len(a, 8);
    lemma_le_bytes_len(b, 8);
    lemma_range_8();
    assert(le_bytes(a, 8) =~= s.take(8));
    assert(le_bytes(b, 8) =~= s.take(8));
    lemma_le_bytes_injective(a, b, 8);
}

/// Lists of the same number whose frames are at the front of the same bytes are
/// the same.
proof fn lemma_frames_unique(a: Seq<Seq<u8>>, b: Seq<Seq<u8>>, s: Seq<u8>)
    requires
        a.len() == b.len(),
        s.len() < 0x1_0000_0000_0000_0000,
        frames(a).is_prefix_of(s),
        frames(b).is_prefix_of(s),
    ensures
        a == b,
    decreases a.len(),
{
    if a.len() > 0 {
        let x = a.first();
        let y = b.first();
        lemma_le_bytes_len(x.len(), 8);
        lemma_le_bytes_len(y.len(), 8);
        lemma_frames_len(a, 0);
        lemma_frames_len(b, 0);
        let fa = frames(a);
        let fb = frames(b);
        assert forall|i: int| 0 <= i < 8 implies le_bytes(x.len(), 8)[i] == s[i] by {
            assert(fa[i] == le_bytes(x.len(), 8)[i]);
        }
        assert forall|i: int| 0 <= i < 8 implies le_bytes(y.len(), 8)[i] == s[i] by {
            assert(fb[i] == le_bytes(y.len(), 8)[i]);
        }
        assert(le_bytes(x.len(), 8).is_prefix_of(s)) by {
            assert(le_bytes(x.len(), 8) =~= s.subrange(0, 8));
        }
        assert(le_bytes(y.len(), 8).is_prefix_of(s)) by {
            assert(le_bytes(y.len(), 8) =~= s.subrange(0, 8));
        }
        lemma_same_length(x.len(), y.len(), s);
        let n = x.len() as int;
        assert(x =~= y) by {
            assert forall|i: int| 0 <= i < n implies x[i] == y[i] by {
                assert(fa[8 + i] == x[i]);
                assert(fb[8 + i] == y[i]);
                assert(fa[8 + i] == s[8 + i]);
                assert(fb[8 + i] == s[8 + i]);
            }
        }
        let rest = s.skip(8 + n);
        let ra = frames(a.drop_first());
        let rb = frames(b.drop_first());
        assert(ra =~= rest.subrange(0, ra.len() as int)) by {
            assert forall|i: int| 0 <= i < ra.len() implies ra[i] == rest[i] by {
                assert(fa[8 + n + i] == ra[i]);
                assert(fa[8 + n + i] == s[8 + n + i]);
            }
        }
        assert(rb =~= rest.subrange(0, rb.len() as int)) by {
            assert forall|i: int| 0 <= i < rb.len() implies rb[i] == rest[i] by {
                assert(fb[8 + n + i] == rb[i]);
                assert(fb[8 + n + i] == s[8 + n + i]);
            }
        }
        lemma_frames_unique(a.drop_first(), b.drop_first(), rest);
        assert(a =~= seq![x] + a.drop_first());
        assert(b =~= seq![y] + b.drop_first());
    } else {
        assert(a =~= b);
    }
}

/// No more lists than bytes.
proof fn lemma_frames_count(lists: Seq<Seq<u8>>)
    ensures
        lists.len() <= frames(lists).len(),
    decreases lists.len(),
{
    if lists.len() > 0 {
        lemma_frames_count(lists.drop_first());
        lemma_le_bytes_len(lists.first().len(), 8);
    }
}

/// Bytes hold at most one cache file: the bitmaps in it are determined.
pub proof fn law_cache_unambiguous(a: Seq<Seq<u8>>, b: Seq<Seq<u8>>, bytes: Seq<u8>)
    requires
        bytes.len() < 0x1_0000_0000_0000_0000,
        cache_bytes(a).is_prefix_of(bytes),
        cache_bytes(b).is_prefix_of(bytes),
    ensures
        a == b,
{
    lemma_le_bytes_len(a.len(), 8);
    lemma_le_bytes_len(b.len(), 8);
    lemma_frames_count(a);
    lemma_frames_count(b);
    let ca = cache_bytes(a);
    let cb = cache_bytes(b);
    assert(le_bytes(a.len(), 8) =~= bytes.subrange(0, 8)) by {
        assert forall|i: int| 0 <= i < 8 implies le_bytes(a.len(), 8)[i] == bytes[i] by {
            assert(ca[i] == le_bytes(a.len(), 8)[i]);
            assert(ca[i] == bytes[i]);
        }
    }
    assert(le_bytes(b.len(), 8) =~= bytes.subrange(0, 8)) by {
        assert forall|i: int| 0 <= i < 8 implies le_bytes(b.len(), 8)[i] == bytes[i] by {
            assert(cb[i] == le_bytes(b.len(), 8)[i]);
            assert(cb[i] == bytes[i]);
        }
    }
    lemma_same_length(a.len(), b.len(), bytes);
    let rest = bytes.skip(8);
    let fa = frames(a);
    let fb = frames(b);
    assert(fa =~= rest.subrange(0, fa.len() as int)) by {
        assert forall|i: int| 0 <= i < fa.len() implies fa[i] == rest[i] by {
            assert(ca[8 + i] == fa[i]);
            assert(ca[8 + i] == bytes[8 + i]);
        }
    }
    assert(fb =~= rest.subrange(0, fb.len() as int)) by {
        assert forall|i: int| 0 <= i < fb.len() implies fb[i] == rest[i] by {
            assert(cb[8 + i] == fb[i]);
            assert(cb[8 + i] == bytes[8 + i]);
        }
    }
    lemma_frames_unique(a, b, rest);
}

/// What is loaded from a cache file is what was stored in it: the file is
/// readable, and each bitmap has the members that it had.
pub proof fn law_cache_round_trip(bytes: Seq<u8>, stored: Seq<BitSet>, loaded: Seq<BitSet>)
    requires
        bytes.len() < 0x1_0000_0000_0000_0000,
        stores(bytes, stored),
    ensures
        is_cache(bytes),
        loads(bytes, loaded) ==> loaded.len() == stored.len() && forall|i: int|
            0 <= i < stored.len() ==> bit_set_members(#[trigger] loaded[i]) == bit_set_members(
                stored[i],
            ),
{
    let a = choose|lists: Seq<Seq<u8>>|
        {
            &&& bytes == #[trigger] cache_bytes(lists)
            &&& lists.len() == stored.len()
            &&& forall|i: int|
                0 <= i < lists.len() ==> bits_of(#[trigger] lists[i]) == bit_set_members(stored[i])
                    && lists[i].len() == (bit_set_width(stored[i]) + 7) / 8
        };
    assert(cache_bytes(a).is_prefix_of(bytes)) by {
        assert(bytes =~= bytes.subrange(0, bytes.len() as int));
    }
    if loads(bytes, loaded) {
        let b = choose|lists: Seq<Seq<u8>>|
            {
                &&& (#[trigger] cache_bytes(lists)).is_prefix_of(bytes)
                &&& lists.len() == loaded.len()
                &&& forall|i: int|
                    0 <= i < lists.len() ==> bit_set_members(#[trigger] loaded[i]) == bits_of(
                        lists[i],
                    ) && bit_set_width(loaded[i]) == 8 * lists[i].len()
            };
        law_cache_unambiguous(a, b, bytes);
        assert forall|i: int| 0 <= i < stored.len() implies bit_set_members(#[trigger] loaded[i])
            == bit_set_members(stored[i]) by {
            assert(bits_of(a[i]) == bit_set_members(stored[i]));
        }
    }
}

} // verus!
