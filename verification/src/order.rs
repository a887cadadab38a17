use vstd::prelude::*;

verus! {

/// A total order given through a total, transitive relation `leq`.
///
/// `leq` in both directions means the two values carry the same key; such
/// values need not be equal, which lets an element hold a payload beside the
/// key that orders it.  A type whose order is exactly its value (an integer)
/// simply has `leq` both ways imply equality.
pub trait TotalOrder: Sized {
    /// The ordering relation: `self` sorts no later than `other`.
    spec fn leq(self, other: Self) -> bool;

    /// `leq` relates every pair of values in at least one direction.
    proof fn lemma_leq_total(x: Self, y: Self)
        ensures
            x.leq(y) || y.leq(x),
    ;

    /// `leq` is transitive.
    proof fn lemma_leq_transitive(x: Self, y: Self, z: Self)
        requires
            x.leq(y),
            y.leq(z),
        ensures
            x.leq(z),
    ;

    /// Three-way comparison that decides `leq` in both directions.
    fn compare(&self, other: &Self) -> (c: core::cmp::Ordering)
        ensures
            c == core::cmp::Ordering::Less ==> self.leq(*other) && !other.leq(*self),
            c == core::cmp::Ordering::Equal ==> self.leq(*other) && other.leq(*self),
            c == core::cmp::Ordering::Greater ==> other.leq(*self) && !self.leq(*other),
    ;

    /// An exact copy of the value.
    fn dup(&self) -> (r: Self)
        ensures
            r == *self,
    ;
}

/// `x` sorts strictly before `y`.
pub open spec fn below<T: TotalOrder>(x: T, y: T) -> bool {
    x.leq(y) && !y.leq(x)
}

/// `x` and `y` carry the same key: neither sorts strictly before the other.
pub open spec fn same_key<T: TotalOrder>(x: T, y: T) -> bool {
    x.leq(y) && y.leq(x)
}

pub broadcast proof fn lemma_below_transitive<T: TotalOrder>(x: T, y: T, z: T)
    requires
        #[trigger] below(x, y),
        #[trigger] below(y, z),
    ensures
        below(x, z),
{
    T::lemma_leq_transitive(x, y, z);
    if z.leq(x) {
        T::lemma_leq_transitive(y, z, x);
    }
}

pub broadcast proof fn lemma_below_then_same_key<T: TotalOrder>(x: T, y: T, z: T)
    requires
        #[trigger] below(x, y),
        #[trigger] same_key(y, z),
    ensures
        below(x, z),
{
    T::lemma_leq_transitive(x, y, z);
    if z.leq(x) {
        T::lemma_leq_transitive(y, z, x);
    }
}

pub broadcast proof fn lemma_same_key_then_below<T: TotalOrder>(x: T, y: T, z: T)
    requires
        #[trigger] same_key(x, y),
        #[trigger] below(y, z),
    ensures
        below(x, z),
{
    T::lemma_leq_transitive(x, y, z);
    if z.leq(x) {
        T::lemma_leq_transitive(z, x, y);
    }
}

pub broadcast proof fn lemma_same_key_transitive<T: TotalOrder>(x: T, y: T, z: T)
    requires
        #[trigger] same_key(x, y),
        #[trigger] same_key(y, z),
    ensures
        same_key(x, z),
{
    T::lemma_leq_transitive(x, y, z);
    T::lemma_leq_transitive(z, y, x);
}

pub proof fn lemma_same_key_reflexive<T: TotalOrder>(x: T)
    ensures
        same_key(x, x),
{
    T::lemma_leq_total(x, x);
}

pub broadcast group group_total_order {
    lemma_below_transitive,
    lemma_below_then_same_key,
    lemma_same_key_then_below,
    lemma_same_key_transitive,
    lemma_contains_key_push,
    lemma_contains_push,
}

/// Ranks a three-way answer so that monotone probes can be stated by one
/// inequality: `Less` before `Equal` before `Greater`.
pub open spec fn ord_rank(c: core::cmp::Ordering) -> int {
    match c {
        core::cmp::Ordering::Less => 0,
        core::cmp::Ordering::Equal => 1,
        core::cmp::Ordering::Greater => 2,
    }
}

/// The elements of `s` at the positions that `keep` marks, in order.
pub open spec fn keep_mask<T>(s: Seq<T>, keep: Seq<bool>) -> Seq<T>
    recommends
        s.len() == keep.len(),
    decreases s.len(),
{
    if s.len() == 0 {
        Seq::empty()
    } else {
        let rest = keep_mask(s.drop_last(), keep.drop_last());
        if 0 < keep.len() && keep.last() {
            rest.push(s.last())
        } else {
            rest
        }
    }
}

/// A sequence in strictly ascending order: sorted, and no two elements
/// share a key.
pub open spec fn sorted_unique<T: TotalOrder>(s: Seq<T>) -> bool {
    forall|i: int, j: int| 0 <= i < j < s.len() ==> below(s[i], s[j])
}

/// Some element of `s` carries the same key as `x`.
pub open spec fn contains_key<T: TotalOrder>(s: Seq<T>, x: T) -> bool {
    exists|i: int| 0 <= i < s.len() && same_key(s[i], x)
}

pub broadcast proof fn lemma_contains_key_push<T: TotalOrder>(s: Seq<T>, x: T, y: T)
    requires
        contains_key(s, x),
    ensures
        #[trigger] contains_key(s.push(y), x),
{
    let i = choose|i: int| 0 <= i < s.len() && same_key(s[i], x);
    assert(s.push(y)[i] == s[i]);
    assert(0 <= i < s.push(y).len() && same_key(s.push(y)[i], x));
}

pub broadcast proof fn lemma_contains_push<T>(s: Seq<T>, x: T, y: T)
    requires
        s.contains(x),
    ensures
        #[trigger] s.push(y).contains(x),
{
    let i = choose|i: int| 0 <= i < s.len() && s[i] == x;
    assert(s.push(y)[i] == s[i]);
}

pub proof fn lemma_sorted_unique_push<T: TotalOrder>(s: Seq<T>, x: T)
    requires
        sorted_unique(s),
        forall|k: int| 0 <= k < s.len() ==> below(s[k], x),
    ensures
        sorted_unique(s.push(x)),
{
    let t = s.push(x);
    assert forall|i: int, j: int| 0 <= i < j < t.len() implies below(t[i], t[j]) by {
        if j < s.len() {
            assert(t[i] == s[i] && t[j] == s[j]);
        } else {
            assert(t[i] == s[i] && t[j] == x);
        }
    }
}

/// In a strictly sorted sequence, at most one element carries a given key.
pub proof fn lemma_sorted_unique_key_at_most_once<T: TotalOrder>(s: Seq<T>, i: int, j: int)
    requires
        sorted_unique(s),
        0 <= i < s.len(),
        0 <= j < s.len(),
        same_key(s[i], s[j]),
    ensures
        i == j,
{
    if i < j {
        assert(below(s[i], s[j]));
    } else if j < i {
        assert(below(s[j], s[i]));
    }
}

/// Two strictly sorted sequences made of exactly the same elements are equal.
pub proof fn lemma_sorted_unique_same_elements<T: TotalOrder>(s1: Seq<T>, s2: Seq<T>)
    requires
        sorted_unique(s1),
        sorted_unique(s2),
        forall|x: T| s1.contains(x) <==> s2.contains(x),
    ensures
        s1 == s2,
    decreases s1.len(),
{
    if s1.len() == 0 {
        if s2.len() > 0 {
            assert(s2.contains(s2[0]));
        }
        assert(s1 =~= s2);
    } else {
        assert(s1.contains(s1[0]));
        assert(s2.contains(s2[0]));
        let k = choose|k: int| 0 <= k < s2.len() && s2[k] == s1[0];
        let m = choose|m: int| 0 <= m < s1.len() && s1[m] == s2[0];
        if k > 0 {
            assert(below(s2[0], s2[k]));
            if m == 0 {
                assert(below(s1[0], s1[0]));
            } else {
                assert(below(s1[0], s1[m]));
            }
            assert(false);
        }
        assert(s1[0] == s2[0]);
        let t1 = s1.subrange(1, s1.len() as int);
        let t2 = s2.subrange(1, s2.len() as int);
        assert forall|i: int, j: int| 0 <= i < j < t1.len() implies below(t1[i], t1[j]) by {
            assert(t1[i] == s1[i + 1] && t1[j] == s1[j + 1]);
        }
        assert forall|i: int, j: int| 0 <= i < j < t2.len() implies below(t2[i], t2[j]) by {
            assert(t2[i] == s2[i + 1] && t2[j] == s2[j + 1]);
        }
        assert forall|x: T| t1.contains(x) implies t2.contains(x) by {
            let i = choose|i: int| 0 <= i < t1.len() && t1[i] == x;
            assert(s1[i + 1] == x);
            assert(s1.contains(x));
            let k2 = choose|k2: int| 0 <= k2 < s2.len() && s2[k2] == x;
            if k2 == 0 {
                assert(below(s1[0], s1[i + 1]));
                assert(s1[0] == s2[0]);
                assert(below(s1[0], s1[0]));
            }
            assert(t2[k2 - 1] == x);
        }
        assert forall|x: T| t2.contains(x) implies t1.contains(x) by {
            let i = choose|i: int| 0 <= i < t2.len() && t2[i] == x;
            assert(s2[i + 1] == x);
            assert(s2.contains(x));
            let k1 = choose|k1: int| 0 <= k1 < s1.len() && s1[k1] == x;
            if k1 == 0 {
                assert(below(s2[0], s2[i + 1]));
                assert(below(s2[0], s2[0]));
            }
            assert(t1[k1 - 1] == x);
        }
        lemma_sorted_unique_same_elements(t1, t2);
        assert forall|idx: int| 0 <= idx < s1.len() implies s1[idx] == s2[idx] by {
            if idx > 0 {
                assert(s1[idx] == t1[idx - 1]);
                assert(s2[idx] == t2[idx - 1]);
            }
        }
        assert(s1 =~= s2);
    }
}

impl TotalOrder for u64 {
    open spec fn leq(self, other: Self) -> bool {
        self <= other
    }

    proof fn lemma_leq_total(x: Self, y: Self) {
    }

    proof fn lemma_leq_transitive(x: Self, y: Self, z: Self) {
    }

    fn compare(&self, other: &Self) -> (c: core::cmp::Ordering) {
        if *self < *other {
            core::cmp::Ordering::Less
        } else if *self == *other {
            core::cmp::Ordering::Equal
        } else {
            core::cmp::Ordering::Greater
        }
    }

    fn dup(&self) -> (r: Self) {
        *self
    }
}

impl TotalOrder for i64 {
    open spec fn leq(self, other: Self) -> bool {
        self <= other
    }

    proof fn lemma_leq_total(x: Self, y: Self) {
    }

    proof fn lemma_leq_transitive(x: Self, y: Self, z: Self) {
    }

    fn compare(&self, other: &Self) -> (c: core::cmp::Ordering) {
        if *self < *other {
            core::cmp::Ordering::Less
        } else if *self == *other {
            core::cmp::Ordering::Equal
        } else {
            core::cmp::Ordering::Greater
        }
    }

    fn dup(&self) -> (r: Self) {
        *self
    }
}

} // verus!
