//! Intersections along a ray and the rule that picks the visible one.
//!
//! An intersection is known here by two integers. `t` is a key for the
//! distance along the ray: keys order as the distances do, and a key is
//! negative exactly when the crossing lies behind the ray's origin.
//! `object` is the identity of the shape that was crossed. Comparing keys
//! is exact, so the rule below has no tolerance and no undecided cases.
//!
//! A distance held as an IEEE 754 single-precision number gets its key
//! from its bit pattern, by [`distance_key`].

use vstd::prelude::*;

verus! {

/// One crossing of a ray with a shape.
#[derive(Clone, Copy, Debug, PartialEq, Eq, Structural)]
pub struct Intersection {
    /// Order key of the distance along the ray; negative behind the origin.
    pub t: i64,
    /// Identity of the shape that the ray crosses.
    pub object: isize,
}

/// The bits of `bits` below the sign bit: the pattern of the absolute value.
pub open spec fn magnitude_of(bits: u32) -> int {
    (bits & 0x7fff_ffff) as int
}

/// The key of the single-precision number with the bit pattern `bits`.
/// A number with a clear sign bit has its magnitude as key, so zero has key
/// zero and larger numbers have larger keys up to positive infinity. A
/// number with the sign bit set has the negated magnitude, which puts
/// negative zero at zero as well. A pattern that is not a number has a
/// negative key whatever its sign: it is never in front of the origin.
pub open spec fn key_of_bits(bits: u32) -> int {
    let magnitude = magnitude_of(bits);
    if bits & 0x8000_0000 != 0 || magnitude > 0x7f80_0000 {
        -magnitude
    } else {
        magnitude
    }
}

/// The order key of the distance whose IEEE 754 single-precision bit
/// pattern is `bits`.
pub fn distance_key(bits: u32) -> (t: i64)
    ensures
        t == key_of_bits(bits),
{
    let magnitude_bits: u32 = bits & 0x7fff_ffff;
    assert(magnitude_bits <= 0x7fff_ffff) by (bit_vector)
        requires
            magnitude_bits == bits & 0x7fff_ffff,
    ;
    let magnitude: i64 = magnitude_bits as i64;
    if bits & 0x8000_0000 != 0 || magnitude > 0x7f80_0000 {
        -magnitude
    } else {
        magnitude
    }
}

/// Keys never leave the range of the magnitudes, and a key is negative
/// only for a pattern with the sign bit set or one that is not a number.
pub proof fn lemma_key_range(bits: u32)
    ensures
        -0x7fff_ffff <= key_of_bits(bits) <= 0x7f80_0000,
        key_of_bits(bits) < 0 ==> bits >= 0x8000_0000 || magnitude_of(bits) > 0x7f80_0000,
        bits <= 0x7f80_0000 ==> key_of_bits(bits) == bits,
        0x8000_0000 <= bits <= 0xff80_0000 ==> key_of_bits(bits) == 0x8000_0000 - bits,
{
    assert((bits & 0x7fff_ffff) <= 0x7fff_ffff) by (bit_vector);
    assert(bits & 0x8000_0000 != 0 ==> bits >= 0x8000_0000) by (bit_vector);
    assert(bits <= 0x7f80_0000 ==> (bits & 0x7fff_ffff) == bits && bits & 0x8000_0000 == 0)
        by (bit_vector);
    assert(bits >= 0x8000_0000 ==> (bits & 0x7fff_ffff) + 0x8000_0000 == bits && bits
        & 0x8000_0000 != 0) by (bit_vector);
}

/// Among patterns of numbers, keys order as the numbers do: with the sign
/// bit clear a larger pattern is a larger number and has a larger key;
/// with the sign bit set a larger pattern is a smaller number and has a
/// smaller key; and no number with the sign bit set has a larger key than
/// one with the sign bit clear.
pub proof fn lemma_key_order(a: u32, b: u32)
    ensures
        a <= b <= 0x7f80_0000 ==> 0 <= key_of_bits(a) <= key_of_bits(b),
        0x8000_0000 <= a <= b <= 0xff80_0000 ==> key_of_bits(b) <= key_of_bits(a) <= 0,
        0x8000_0000 <= a <= 0xff80_0000 && b <= 0x7f80_0000 ==> key_of_bits(a) <= key_of_bits(b),
        key_of_bits(a) == key_of_bits(b) && a <= 0x7f80_0000 && b <= 0x7f80_0000 ==> a == b,
{
    lemma_key_range(a);
    lemma_key_range(b);
}

/// No crossing in `xs` lies at or in front of the ray's origin.
pub open spec fn all_behind(xs: Seq<Intersection>) -> bool {
    forall|j: int| 0 <= j < xs.len() ==> (#[trigger] xs[j]).t < 0
}

/// Position `k` holds the hit of `xs`: its crossing is not behind the
/// origin, no crossing in front of the origin is nearer, and among equally
/// near ones it is the earliest in the list.
pub open spec fn is_hit_at(xs: Seq<Intersection>, k: int) -> bool {
    &&& 0 <= k < xs.len()
    &&& xs[k].t >= 0
    &&& forall|j: int| 0 <= j < xs.len() && (#[trigger] xs[j]).t >= 0 ==> xs[k].t <= xs[j].t
    &&& forall|j: int| 0 <= j < k && (#[trigger] xs[j]).t >= 0 ==> xs[k].t < xs[j].t
}

/// A list has at most one hit position, and none if every crossing lies
/// behind the origin.
pub proof fn lemma_hit_unique(xs: Seq<Intersection>, k1: int, k2: int)
    requires
        is_hit_at(xs, k1),
        is_hit_at(xs, k2),
    ensures
        k1 == k2,
        !all_behind(xs),
{
    assert(xs[k1].t >= 0);
    if k1 < k2 {
        assert(xs[k2].t < xs[k1].t);
    } else if k2 < k1 {
        assert(xs[k1].t < xs[k2].t);
    }
}

/// A list in which some crossing lies at or in front of the origin has a
/// hit position.
pub proof fn lemma_hit_exists(xs: Seq<Intersection>)
    requires
        !all_behind(xs),
    ensures
        exists|k: int| is_hit_at(xs, k),
    decreases xs.len(),
{
    let j = choose|j: int| 0 <= j < xs.len() && !((#[trigger] xs[j]).t < 0);
    let head = xs.drop_last();
    let last = xs.last();
    if all_behind(head) {
        assert(j == xs.len() - 1) by {
            if j < xs.len() - 1 {
                assert(head[j] == xs[j]);
            }
        }
        assert forall|i: int| 0 <= i < xs.len() - 1 implies (#[trigger] xs[i]).t < 0 by {
            assert(head[i] == xs[i]);
        }
        assert(is_hit_at(xs, xs.len() - 1));
    } else {
        lemma_hit_exists(head);
        let k = choose|k: int| is_hit_at(head, k);
        assert(head[k] == xs[k]);
        if last.t >= 0 && last.t < head[k].t {
            assert forall|i: int| 0 <= i < xs.len() && (#[trigger] xs[i]).t >= 0 implies last.t
                <= xs[i].t by {
                if i < xs.len() - 1 {
                    assert(head[i] == xs[i]);
                }
            }
            assert forall|i: int| 0 <= i < xs.len() - 1 && (#[trigger] xs[i]).t >= 0 implies last.t
                < xs[i].t by {
                assert(head[i] == xs[i]);
            }
            assert(is_hit_at(xs, xs.len() - 1));
        } else {
            assert forall|i: int| 0 <= i < xs.len() && (#[trigger] xs[i]).t >= 0 implies xs[k].t
                <= xs[i].t by {
                if i < xs.len() - 1 {
                    assert(head[i] == xs[i]);
                }
            }
            assert forall|i: int| 0 <= i < k && (#[trigger] xs[i]).t >= 0 implies xs[k].t
                < xs[i].t by {
                assert(head[i] == xs[i]);
            }
            assert(is_hit_at(xs, k));
        }
    }
}

/// The hit depends only on which keys occur, not on their order: in any
/// two lists that hold the same crossings, the hits have the same key.
pub proof fn lemma_hit_key_of_reordered(
    xs: Seq<Intersection>,
    ys: Seq<Intersection>,
    k: int,
    l: int,
)
    requires
        xs.to_multiset() == ys.to_multiset(),
        is_hit_at(xs, k),
        is_hit_at(ys, l),
    ensures
        xs[k].t == ys[l].t,
{
    broadcast use vstd::seq_lib::group_to_multiset_ensures;

    assert(xs.to_multiset().count(xs[k]) > 0);
    assert(ys.contains(xs[k]));
    let l2 = choose|i: int| 0 <= i < ys.len() && ys[i] == xs[k];
    assert(ys[l2].t >= 0);
    assert(ys.to_multiset().count(ys[l]) > 0);
    assert(xs.contains(ys[l]));
    let k2 = choose|i: int| 0 <= i < xs.len() && xs[i] == ys[l];
    assert(xs[k2].t >= 0);
}

/// The position of the hit among `xs`: the first crossing with the least
/// non-negative key. `None` where the list is empty or every crossing lies
/// behind the origin. The list need not be sorted.
pub fn hit_index(xs: &Vec<Intersection>) -> (r: Option<usize>)
    ensures
        match r {
            Some(k) => is_hit_at(xs@, k as int),
            None => all_behind(xs@),
        },
{
    let mut best: Option<usize> = None;
    let mut i: usize = 0;
    while i < xs.len()
        invariant
            i <= xs.len(),
            match best {
                Some(k) => k < i && is_hit_at(xs@.take(i as int), k as int),
                None => all_behind(xs@.take(i as int)),
            },
        decreases xs.len() - i,
    {
        let ghost before = xs@.take(i as int);
        let ghost after = xs@.take(i + 1);
        assert(forall|j: int| 0 <= j < i ==> after[j] == before[j]);
        let t = xs[i].t;
        match best {
            Some(k) => {
                if t >= 0 && t < xs[k].t {
                    best = Some(i);
                }
            },
            None => {
                if t >= 0 {
                    best = Some(i);
                }
            },
        }
        i += 1;
    }
    assert(xs@.take(i as int) =~= xs@);
    best
}

/// The hit among `xs`: the crossing with the least non-negative key, and
/// of several such the first. `None` where the list is empty or every
/// crossing lies behind the origin.
pub fn hit(intersections: Vec<Intersection>) -> (r: Option<Intersection>)
    ensures
        match r {
            Some(x) => exists|k: int| is_hit_at(intersections@, k) && x == intersections@[k],
            None => all_behind(intersections@),
        },
{
    match hit_index(&intersections) {
        Some(k) => Some(intersections[k]),
        None => None,
    }
}

} // verus!
