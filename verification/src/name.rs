//! Street names: their order and their hash.
//!
//! Names are ordered as in a dictionary, character by character, a character
//! by its code point. A name that is the start of a longer one comes first.

use vstd::prelude::*;
use vstd::std_specs::iter::IteratorSpec;

verus! {

broadcast use vstd::string::group_string_axioms;

/// How one name stands to another in the order of names.
#[derive(Clone, Copy, Debug, PartialEq, Eq, Structural)]
pub enum Rank {
    Before,
    Same,
    After,
}

/// `a` and `b` agree on their first `k` characters and `a` comes first by
/// what follows: either `a` ends there and `b` goes on, or the next
/// character of `a` is the smaller one.
pub open spec fn parts_at(a: Seq<char>, b: Seq<char>, k: int) -> bool {
    &&& 0 <= k <= a.len()
    &&& k < b.len()
    &&& forall|i: int| 0 <= i < k ==> a[i] == b[i]
    &&& (k == a.len() || a[k] < b[k])
}

/// `a` comes strictly before `b` in the order of names.
pub open spec fn name_lt(a: Seq<char>, b: Seq<char>) -> bool {
    exists|k: int| parts_at(a, b, k)
}

/// `a` comes before `b` or is `b`.
pub open spec fn name_le(a: Seq<char>, b: Seq<char>) -> bool {
    a == b || name_lt(a, b)
}

/// No name comes before itself, and of two names at most one comes before
/// the other.
pub proof fn lemma_name_lt_asymmetric(a: Seq<char>, b: Seq<char>)
    requires
        name_lt(a, b),
    ensures
        !name_lt(b, a),
        a != b,
{
}

/// The order of names is transitive.
pub proof fn lemma_name_lt_transitive(a: Seq<char>, b: Seq<char>, c: Seq<char>)
    requires
        name_lt(a, b),
        name_lt(b, c),
    ensures
        name_lt(a, c),
{
    let k = choose|k: int| parts_at(a, b, k);
    let j = choose|j: int| parts_at(b, c, j);
    let m = if k <= j {
        k
    } else {
        j
    };
    assert(parts_at(a, c, m));
}

/// Two names that agree on their first `k` characters are the same name, or
/// one of them comes before the other.
proof fn lemma_order_from(a: Seq<char>, b: Seq<char>, k: int)
    requires
        0 <= k <= a.len(),
        k <= b.len(),
        forall|i: int| 0 <= i < k ==> a[i] == b[i],
    ensures
        a == b || name_lt(a, b) || name_lt(b, a),
    decreases a.len() - k,
{
    if k == a.len() {
        if k < b.len() {
            assert(parts_at(a, b, k));
        }
    } else if k == b.len() {
        assert(parts_at(b, a, k));
    } else if a[k] == b[k] {
        lemma_order_from(a, b, k + 1);
    } else if a[k] < b[k] {
        assert(parts_at(a, b, k));
    } else {
        assert(parts_at(b, a, k));
    }
}

/// The order of names is total: of two different names one comes first.
pub proof fn lemma_name_lt_total(a: Seq<char>, b: Seq<char>)
    ensures
        a == b || name_lt(a, b) || name_lt(b, a),
{
    lemma_order_from(a, b, 0);
}

/// How `a` stands to `b` in the order of names.
pub fn rank(a: &str, b: &str) -> (r: Rank)
    ensures
        (r == Rank::Before) == name_lt(a@, b@),
        (r == Rank::Same) == (a@ == b@),
        (r == Rank::After) == name_lt(b@, a@),
{
    let mut rest_a = a.chars();
    let mut rest_b = b.chars();
    let ghost mut k: int = 0;
    loop
        invariant
            rest_a.remaining() == a@.skip(k),
            rest_b.remaining() == b@.skip(k),
            0 <= k <= a@.len(),
            k <= b@.len(),
            forall|i: int| 0 <= i < k ==> a@[i] == b@[i],
        decreases a@.len() - k,
    {
        let x = rest_a.next();
        let y = rest_b.next();
        match (x, y) {
            (Some(c), Some(d)) => {
                if c < d {
                    proof {
                        assert(parts_at(a@, b@, k));
                    }
                    return Rank::Before;
                }
                if d < c {
                    proof {
                        assert(parts_at(b@, a@, k));
                    }
                    return Rank::After;
                }
            },
            (None, Some(_)) => {
                proof {
                    assert(parts_at(a@, b@, k));
                }
                return Rank::Before;
            },
            (Some(_), None) => {
                proof {
                    assert(parts_at(b@, a@, k));
                }
                return Rank::After;
            },
            (None, None) => {
                proof {
                    assert(a@ =~= b@);
                }
                return Rank::Same;
            },
        }
        proof {
            k = k + 1;
        }
    }
}

/// One step of the hash: `x` is mixed into `h`.
pub open spec fn mixed(h: u64, x: u64) -> u64 {
    (h ^ x).wrapping_mul(0x0000_0100_0000_01b3)
}

/// The hash of a name: its characters mixed, one after the other, into a
/// fixed start value.
pub open spec fn name_hash(s: Seq<char>) -> u64
    decreases s.len(),
{
    if s.len() == 0 {
        0xcbf2_9ce4_8422_2325
    } else {
        mixed(name_hash(s.drop_last()), s.last() as u64)
    }
}

/// Computes `mixed`.
pub fn mix(h: u64, x: u64) -> (r: u64)
    ensures
        r == mixed(h, x),
{
    (h ^ x).wrapping_mul(0x0000_0100_0000_01b3)
}

/// Computes `name_hash`.
pub fn hash_name(s: &str) -> (h: u64)
    ensures
        h == name_hash(s@),
{
    let mut h: u64 = 0xcbf2_9ce4_8422_2325;
    for c in it: s.chars()
        invariant
            it.seq() == s@,
            h == name_hash(it.seq().take(it.index() as int)),
    {
        proof {
            let next = it.seq().take(it.index() + 1);
            assert(next.drop_last() == it.seq().take(it.index() as int));
        }
        h = mix(h, c as u64);
    }
    assert(s@.take(s@.len() as int) == s@);
    h
}

} // verus!
