use vstd::prelude::*;

pub mod align;
pub mod order;

use crate::order::{
    below, contains_key, lemma_below_transitive, lemma_contains_key_push,
    lemma_same_key_reflexive, lemma_sorted_unique_push, lemma_sorted_unique_same_elements,
    ord_rank, same_key, sorted_unique, TotalOrder,
};

verus! {

/// The recoverable failures: a key handed to `insert` that is already
/// present, and a `push` whose element does not sort strictly after the
/// current maximum.
#[derive(Debug, PartialEq, Eq)]
pub enum SuvError {
    DuplicateKey,
    OrderViolation,
}

/// Selects which of two elements carrying the same key survives a merge.
#[derive(Debug, Clone, Copy, PartialEq, Eq)]
pub enum LeftOrRight {
    Left,
    Right,
}

/// A `Vec` held in strictly ascending order: sorted and free of duplicate
/// keys, both enforced by one invariant on adjacent elements.
#[derive(Debug)]
pub struct SortedUniqueVec<T: TotalOrder> {
    v: Vec<T>,
}

impl<T: TotalOrder> View for SortedUniqueVec<T> {
    type V = Seq<T>;

    closed spec fn view(&self) -> Seq<T> {
        self.v@
    }
}

/// Where `x` is a key that `a` and `b` share, `x` must be the element that
/// the tie-break callback picked from some same-key pair of `a` and `b`.
pub open spec fn tie_ok<T: TotalOrder, F: Fn(&T, &T) -> LeftOrRight>(
    a: Seq<T>,
    b: Seq<T>,
    f: F,
    x: T,
) -> bool {
    (contains_key(a, x) && contains_key(b, x)) ==> exists|i: int, j: int, c: LeftOrRight|
        0 <= i < a.len() && 0 <= j < b.len() && same_key(a[i], x) && same_key(b[j], x)
            && #[trigger] call_ensures(f, (&a[i], &b[j]), c) && x == (if c == LeftOrRight::Left {
            a[i]
        } else {
            b[j]
        })
}

/// Reports whether the slice is in strictly ascending order.
pub fn is_sorted_unique<T: TotalOrder>(slice: &[T]) -> (r: bool)
    ensures
        r <==> sorted_unique(slice@),
{
    let len = slice.len();
    if len < 2 {
        return true;
    }
    let mut i: usize = 1;
    while i < len
        invariant
            1 <= i <= len,
            len == slice@.len(),
            forall|p: int, q: int| 0 <= p < q < i ==> #[trigger] below(slice@[p], slice@[q]),
        decreases len - i,
    {
        match slice[i - 1].compare(&slice[i]) {
            core::cmp::Ordering::Less => {}
            _ => {
                assert(!below(slice@[i as int - 1], slice@[i as int]));
                return false;
            }
        }
        assert forall|p: int, q: int| 0 <= p < q < i + 1 implies #[trigger] below(
            slice@[p],
            slice@[q],
        ) by {
            if q < i {
            } else if p == i - 1 {
            } else {
                assert(below(slice@[p], slice@[i as int - 1]));
                crate::order::lemma_below_transitive(
                    slice@[p],
                    slice@[i as int - 1],
                    slice@[i as int],
                );
            }
        }
        i += 1;
    }
    true
}

impl<T: TotalOrder> SortedUniqueVec<T> {
    /// The sortedness and uniqueness invariant of the container.
    pub open spec fn well_formed(&self) -> bool {
        sorted_unique(self@)
    }

    /// Creates an empty container.
    pub fn new() -> (r: Self)
        ensures
            r@ == Seq::<T>::empty(),
            r.well_formed(),
    {
        SortedUniqueVec { v: Vec::new() }
    }

    /// Creates an empty container with room reserved for `capa` elements.
    pub fn with_capacity(capa: usize) -> (r: Self)
        ensures
            r@ == Seq::<T>::empty(),
            r.well_formed(),
    {
        SortedUniqueVec { v: Vec::with_capacity(capa) }
    }

    /// The number of elements held.
    pub fn len(&self) -> (r: usize)
        ensures
            r == self@.len(),
    {
        self.v.len()
    }

    /// The elements as an ordered read-only slice.
    pub fn as_slice(&self) -> (r: &[T])
        ensures
            r@ == self@,
    {
        self.v.as_slice()
    }

    /// Appends `item`, which must sort strictly after the current maximum;
    /// otherwise reports `OrderViolation` and leaves the container unchanged.
    pub fn push(&mut self, item: T) -> (r: Result<(), SuvError>)
        requires
            old(self).well_formed(),
        ensures
            final(self).well_formed(),
            old(self)@.len() == 0 || below(old(self)@.last(), item) ==> r
                == Ok::<(), SuvError>(()) && final(self)@ == old(self)@.push(item),
            !(old(self)@.len() == 0 || below(old(self)@.last(), item)) ==> r
                == Err::<(), SuvError>(SuvError::OrderViolation) && final(self)@ == old(self)@,
    {
        let ok = match self.v.as_slice().last() {
            None => true,
            Some(l) => match l.compare(&item) {
                core::cmp::Ordering::Less => true,
                _ => false,
            },
        };
        if ok {
            proof {
                assert forall|k: int| 0 <= k < self@.len() implies below(self@[k], item) by {
                    if k < self@.len() - 1 {
                        assert(below(self@[k], self@[self@.len() - 1]));
                        crate::order::lemma_below_transitive(
                            self@[k],
                            self@[self@.len() - 1],
                            item,
                        );
                    }
                }
                lemma_sorted_unique_push(self@, item);
            }
            self.v.push(item);
            Ok(())
        } else {
            Err(SuvError::OrderViolation)
        }
    }

    /// Keeps exactly the elements that `f` approves, in order.  Removal
    /// cannot disturb strict ascending order, so the invariant holds without
    /// further ado.
    #[verifier::loop_isolation(false)]
    pub fn retain<F: Fn(&T) -> bool>(&mut self, f: F)
        requires
            old(self).well_formed(),
            forall|k: int|
                0 <= k < old(self)@.len() ==> #[trigger] call_requires(f, (&old(self)@[k],)),
        ensures
            final(self).well_formed(),
            exists|keep: Seq<bool>|
                keep.len() == old(self)@.len() && (forall|k: int|
                    0 <= k < keep.len() ==> #[trigger] call_ensures(f, (&old(self)@[k],), keep[k]))
                    && final(self)@ == crate::order::keep_mask(old(self)@, keep),
    {
        let ghost s = self@;
        let ghost mut keep: Seq<bool> = Seq::empty();
        let mut out: Vec<T> = Vec::new();
        let mut i: usize = 0;
        while i < self.v.len()
            invariant
                i <= s.len(),
                keep.len() == i,
                forall|k: int| 0 <= k < i ==> #[trigger] call_ensures(f, (&s[k],), keep[k]),
                out@ == crate::order::keep_mask(s.subrange(0, i as int), keep),
                sorted_unique(out@),
                forall|k: int|
                    #![trigger out@[k]]
                    0 <= k < out@.len() ==> exists|m: int| 0 <= m < i && out@[k] == s[m],
            decreases s.len() - i,
        {
            let c = f(&self.v[i]);
            let ghost pre = out@;
            if c {
                proof {
                    assert forall|k: int| 0 <= k < out@.len() implies below(
                        out@[k],
                        s[i as int],
                    ) by {
                        let m = choose|m: int| 0 <= m < i && out@[k] == s[m];
                        assert(below(s[m], s[i as int]));
                    }
                    lemma_sorted_unique_push(out@, s[i as int]);
                }
                let d = self.v[i].dup();
                out.push(d);
            }
            proof {
                let keep_pre = keep;
                keep = keep.push(c);
                let t = s.subrange(0, i + 1);
                assert(t.drop_last() =~= s.subrange(0, i as int));
                assert(keep.drop_last() =~= keep_pre);
                assert(out@ == crate::order::keep_mask(t, keep)) by {
                    assert(t.last() == s[i as int]);
                    assert(keep.last() == c);
                    assert(crate::order::keep_mask(t.drop_last(), keep.drop_last()) == crate::order::keep_mask(s.subrange(0, i as int), keep_pre));
                }
            }
            i += 1;
        }
        proof {
            assert(s.subrange(0, s.len() as int) =~= s);
        }
        self.v = out;
    }

    /// Binary search by the elements' own order: the position of the element
    /// sharing a key with `element`, or the insertion point for it.
    fn locate(&self, element: &T) -> (r: Result<usize, usize>)
        requires
            self.well_formed(),
        ensures
            match r {
                Ok(i) => i < self@.len() && same_key(self@[i as int], *element),
                Err(i) => i <= self@.len() && (forall|k: int|
                    0 <= k < i ==> #[trigger] below(self@[k], *element)) && (forall|k: int|
                    i <= k < self@.len() ==> #[trigger] below(*element, self@[k])),
            },
    {
        let mut lo: usize = 0;
        let mut hi: usize = self.v.len();
        while lo < hi
            invariant
                self.well_formed(),
                lo <= hi <= self@.len(),
                forall|k: int| 0 <= k < lo ==> #[trigger] below(self@[k], *element),
                forall|k: int| hi <= k < self@.len() ==> #[trigger] below(*element, self@[k]),
            decreases hi - lo,
        {
            let mid = lo + (hi - lo) / 2;
            match self.v[mid].compare(element) {
                core::cmp::Ordering::Less => {
                    proof {
                        assert forall|k: int| 0 <= k < mid + 1 implies #[trigger] below(
                            self@[k],
                            *element,
                        ) by {
                            if k < mid {
                                assert(below(self@[k], self@[mid as int]));
                                lemma_below_transitive(self@[k], self@[mid as int], *element);
                            }
                        }
                    }
                    lo = mid + 1;
                }
                core::cmp::Ordering::Equal => {
                    return Ok(mid);
                }
                core::cmp::Ordering::Greater => {
                    proof {
                        assert forall|k: int| mid <= k < self@.len() implies #[trigger] below(
                            *element,
                            self@[k],
                        ) by {
                            if k > mid {
                                assert(below(self@[mid as int], self@[k]));
                                lemma_below_transitive(*element, self@[mid as int], self@[k]);
                            }
                        }
                    }
                    hi = mid;
                }
            }
        }
        Err(lo)
    }

    /// Reports whether some element shares a key with `element`.
    pub fn contains(&self, element: &T) -> (r: bool)
        requires
            self.well_formed(),
        ensures
            r <==> contains_key(self@, *element),
    {
        match self.locate(element) {
            Ok(_) => true,
            Err(i) => {
                proof {
                    if contains_key(self@, *element) {
                        let k = choose|k: int|
                            0 <= k < self@.len() && same_key(self@[k], *element);
                        if k < i {
                            assert(below(self@[k], *element));
                        } else {
                            assert(below(*element, self@[k]));
                        }
                    }
                }
                false
            }
        }
    }

    /// Positional read access.
    pub fn get(&self, idx: usize) -> (r: Option<&T>)
        ensures
            match r {
                Some(x) => idx < self@.len() && *x == self@[idx as int],
                None => idx >= self@.len(),
            },
    {
        if idx < self.v.len() {
            Some(&self.v[idx])
        } else {
            None
        }
    }

    /// Positional write access.  The caller may overwrite the element with
    /// one that breaks the order; every operation that needs the invariant
    /// asks for `well_formed` again, so the caller must restore it first.
    pub fn get_mut(&mut self, idx: usize) -> (r: Option<&mut T>)
        ensures
            idx >= old(self)@.len() ==> r.is_none() && final(self)@ == old(self)@,
            idx < old(self)@.len() ==> r.is_some() && *r.unwrap() == old(self)@[idx as int]
                && final(self)@ == old(self)@.update(idx as int, *final(r.unwrap())),
    {
        if idx < self.v.len() {
            Some(&mut self.v[idx])
        } else {
            None
        }
    }

    /// The whole storage as a mutable slice.  As with `get_mut`, writing
    /// through it can break the order; the invariant is asked for anew by
    /// every operation that relies on it.
    pub fn slice_mut(&mut self) -> (r: &mut [T])
        ensures
            r@ == old(self)@,
            final(self)@ == final(r)@,
    {
        self.v.as_mut_slice()
    }

    /// Binary search with a caller-supplied three-way probe: the position of
    /// an element the probe places `Equal`, if any.  The probe must answer
    /// consistently with the stored order: never `Less` for a later element
    /// once it answered `Equal` or `Greater` for an earlier one, and so on.
    pub fn index_by<F: Fn(&T) -> core::cmp::Ordering>(&self, f: F) -> (r: Option<usize>)
        requires
            self.well_formed(),
            forall|k: int| 0 <= k < self@.len() ==> #[trigger] call_requires(f, (&self@[k],)),
            forall|p: int, q: int, cp: core::cmp::Ordering, cq: core::cmp::Ordering|
                0 <= p <= q < self@.len() && #[trigger] call_ensures(f, (&self@[p],), cp)
                    && #[trigger] call_ensures(f, (&self@[q],), cq) ==> ord_rank(cp) <= ord_rank(
                    cq,
                ),
        ensures
            match r {
                Some(i) => i < self@.len() && call_ensures(
                    f,
                    (&self@[i as int],),
                    core::cmp::Ordering::Equal,
                ),
                None => forall|k: int, c: core::cmp::Ordering|
                    0 <= k < self@.len() && #[trigger] call_ensures(f, (&self@[k],), c) ==> c
                        != core::cmp::Ordering::Equal,
            },
    {
        let mut lo: usize = 0;
        let mut hi: usize = self.v.len();
        while lo < hi
            invariant
                self.well_formed(),
                lo <= hi <= self@.len(),
                forall|k: int| 0 <= k < self@.len() ==> #[trigger] call_requires(f, (&self@[k],)),
                forall|p: int, q: int, cp: core::cmp::Ordering, cq: core::cmp::Ordering|
                    0 <= p <= q < self@.len() && #[trigger] call_ensures(f, (&self@[p],), cp)
                        && #[trigger] call_ensures(f, (&self@[q],), cq) ==> ord_rank(cp)
                        <= ord_rank(cq),
                forall|k: int, c: core::cmp::Ordering|
                    0 <= k < lo && #[trigger] call_ensures(f, (&self@[k],), c) ==> c
                        == core::cmp::Ordering::Less,
                forall|k: int, c: core::cmp::Ordering|
                    hi <= k < self@.len() && #[trigger] call_ensures(f, (&self@[k],), c) ==> c
                        == core::cmp::Ordering::Greater,
            decreases hi - lo,
        {
            let mid = lo + (hi - lo) / 2;
            let cm = f(&self.v[mid]);
            match cm {
                core::cmp::Ordering::Less => {
                    proof {
                        assert forall|k: int, c: core::cmp::Ordering|
                            0 <= k < mid + 1 && #[trigger] call_ensures(f, (&self@[k],), c)
                            implies c == core::cmp::Ordering::Less by {
                            assert(call_ensures(f, (&self@[mid as int],), cm));
                            assert(ord_rank(c) <= ord_rank(cm));
                        }
                    }
                    lo = mid + 1;
                }
                core::cmp::Ordering::Equal => {
                    return Some(mid);
                }
                core::cmp::Ordering::Greater => {
                    proof {
                        assert forall|k: int, c: core::cmp::Ordering|
                            mid <= k < self@.len() && #[trigger] call_ensures(f, (&self@[k],), c)
                            implies c == core::cmp::Ordering::Greater by {
                            assert(call_ensures(f, (&self@[mid as int],), cm));
                            assert(ord_rank(cm) <= ord_rank(c));
                        }
                    }
                    hi = mid;
                }
            }
        }
        None
    }

    /// As `index_by`, but hands back the element itself.
    pub fn find_by<F: Fn(&T) -> core::cmp::Ordering>(&self, f: F) -> (r: Option<&T>)
        requires
            self.well_formed(),
            forall|k: int| 0 <= k < self@.len() ==> #[trigger] call_requires(f, (&self@[k],)),
            forall|p: int, q: int, cp: core::cmp::Ordering, cq: core::cmp::Ordering|
                0 <= p <= q < self@.len() && #[trigger] call_ensures(f, (&self@[p],), cp)
                    && #[trigger] call_ensures(f, (&self@[q],), cq) ==> ord_rank(cp) <= ord_rank(
                    cq,
                ),
        ensures
            match r {
                Some(x) => exists|i: int|
                    0 <= i < self@.len() && *x == self@[i] && #[trigger] call_ensures(
                        f,
                        (&self@[i],),
                        core::cmp::Ordering::Equal,
                    ),
                None => forall|k: int, c: core::cmp::Ordering|
                    0 <= k < self@.len() && #[trigger] call_ensures(f, (&self@[k],), c) ==> c
                        != core::cmp::Ordering::Equal,
            },
    {
        match self.index_by(f) {
            Some(i) => Some(&self.v[i]),
            None => None,
        }
    }

    /// Puts `element` at its sorted position.  If some element already
    /// carries the same key, reports `DuplicateKey` and changes nothing.
    pub fn insert(&mut self, element: T) -> (r: Result<(), SuvError>)
        requires
            old(self).well_formed(),
        ensures
            final(self).well_formed(),
            contains_key(old(self)@, element) ==> r == Err::<(), SuvError>(SuvError::DuplicateKey)
                && final(self)@ == old(self)@,
            !contains_key(old(self)@, element) ==> r == Ok::<(), SuvError>(()) && exists|idx: int|
                0 <= idx <= old(self)@.len() && final(self)@ == old(self)@.insert(idx, element)
                    && (forall|k: int| 0 <= k < idx ==> below(#[trigger] old(self)@[k], element))
                    && (forall|k: int|
                    idx <= k < old(self)@.len() ==> below(element, #[trigger] old(self)@[k])),
    {
        match self.locate(&element) {
            Ok(_) => Err(SuvError::DuplicateKey),
            Err(idx) => {
                proof {
                    if contains_key(self@, element) {
                        let k = choose|k: int| 0 <= k < self@.len() && same_key(self@[k], element);
                        if k < idx {
                            assert(below(self@[k], element));
                        } else {
                            assert(below(element, self@[k]));
                        }
                    }
                    let s = self@;
                    let t = s.insert(idx as int, element);
                    s.insert_ensures(idx as int, element);
                    assert forall|p: int, q: int| 0 <= p < q < t.len() implies #[trigger] below(
                        t[p],
                        t[q],
                    ) by {
                        let i = idx as int;
                        if p < i && q < i {
                            assert(t[p] == s[p] && t[q] == s[q]);
                            assert(below(s[p], s[q]));
                        } else if p < i && q == i {
                            assert(t[p] == s[p] && t[q] == element);
                            assert(below(s[p], element));
                        } else if p < i && q > i {
                            assert(t[p] == s[p] && t[q] == s[q - 1]);
                            assert(below(s[p], s[q - 1]));
                        } else if p == i && q > i {
                            assert(t[p] == element && t[q] == s[q - 1]);
                            assert(below(element, s[q - 1]));
                        } else {
                            assert(t[p] == s[p - 1] && t[q] == s[q - 1]);
                            assert(below(s[p - 1], s[q - 1]));
                        }
                    }
                }
                self.v.insert(idx, element);
                Ok(())
            }
        }
    }

    /// Merges `self` and `other` into a new container.  Every key of either
    /// input appears exactly once in the output; where both inputs carry the
    /// same key, `choose_equal` says which of the two elements survives.
    #[verifier::loop_isolation(false)]
    #[verifier::rlimit(60)]
    pub fn merge<F: Fn(&T, &T) -> LeftOrRight>(&self, other: &Self, choose_equal: F) -> (result:
        Self)
        requires
            self.well_formed(),
            other.well_formed(),
            forall|x: &T, y: &T|
                same_key(*x, *y) ==> #[trigger] call_requires(choose_equal, (x, y)),
        ensures
            result.well_formed(),
            forall|i: int| 0 <= i < self@.len() ==> contains_key(result@, #[trigger] self@[i]),
            forall|j: int| 0 <= j < other@.len() ==> contains_key(result@, #[trigger] other@[j]),
            forall|k: int|
                #![trigger result@[k]]
                0 <= k < result@.len() ==> self@.contains(result@[k]) || other@.contains(
                    result@[k],
                ),
            forall|k: int|
                #![trigger result@[k]]
                0 <= k < result@.len() ==> tie_ok(self@, other@, choose_equal, result@[k]),
            self@ == other@ ==> result@ == self@,
    {
        let ghost sa = self@;
        let ghost sb = other@;
        let mut out: Vec<T> = Vec::new();
        let mut i: usize = 0;
        let mut j: usize = 0;
        while i < self.v.len() || j < other.v.len()
            invariant
                i <= sa.len(),
                j <= sb.len(),
                sorted_unique(out@),
                forall|ii: int|
                    #![trigger sa[ii]]
                    0 <= ii < i && j < sb.len() ==> below(sa[ii], sb[j as int]),
                forall|jj: int|
                    #![trigger sb[jj]]
                    0 <= jj < j && i < sa.len() ==> below(sb[jj], sa[i as int]),
                out@.len() > 0 && i < sa.len() ==> below(out@.last(), sa[i as int]),
                out@.len() > 0 && j < sb.len() ==> below(out@.last(), sb[j as int]),
                forall|k: int|
                    #![trigger out@[k]]
                    0 <= k < out@.len() ==> sa.take(i as int).contains(out@[k]) || sb.take(
                        j as int,
                    ).contains(out@[k]),
                forall|ii: int| 0 <= ii < i ==> contains_key(out@, #[trigger] sa[ii]),
                forall|jj: int| 0 <= jj < j ==> contains_key(out@, #[trigger] sb[jj]),
                forall|k: int|
                    #![trigger out@[k]]
                    0 <= k < out@.len() ==> tie_ok(sa, sb, choose_equal, out@[k]),
            decreases sa.len() - i + sb.len() - j,
        {
            proof {
                broadcast use crate::order::group_total_order;

            }
            let left_only: bool;
            let right_only: bool;
            if i < self.v.len() && j < other.v.len() {
                match self.v[i].compare(&other.v[j]) {
                    core::cmp::Ordering::Less => {
                        left_only = true;
                        right_only = false;
                    }
                    core::cmp::Ordering::Equal => {
                        left_only = false;
                        right_only = false;
                    }
                    core::cmp::Ordering::Greater => {
                        left_only = false;
                        right_only = true;
                    }
                }
            } else if i < self.v.len() {
                left_only = true;
                right_only = false;
            } else {
                left_only = false;
                right_only = true;
            }
            if left_only {
                // the left element's key occurs only on the left
                let v = self.v[i].dup();
                proof {
                    assert forall|jj: int| 0 <= jj < sb.len() implies !same_key(
                        #[trigger] sb[jj],
                        sa[i as int],
                    ) by {
                        if jj < j {
                            assert(below(sb[jj], sa[i as int]));
                        } else {
                            assert(below(sa[i as int], sb[j as int]));
                            if jj > j {
                                assert(below(sb[j as int], sb[jj]));
                                lemma_below_transitive(sa[i as int], sb[j as int], sb[jj]);
                            }
                        }
                    }
                    assert(!contains_key(sb, sa[i as int]));
                    assert forall|k: int| 0 <= k < out@.len() implies below(
                        #[trigger] out@[k],
                        sa[i as int],
                    ) by {
                        if k < out@.len() - 1 {
                            assert(below(out@[k], out@[out@.len() - 1]));
                            lemma_below_transitive(out@[k], out@[out@.len() - 1], sa[i as int]);
                        }
                        assert(below(out@[out@.len() - 1], sa[i as int]));
                    }
                    lemma_sorted_unique_push(out@, sa[i as int]);
                }
                let ghost pre = out@;
                out.push(v);
                proof {
                    assert(out@[out@.len() - 1] == sa[i as int]);
                    lemma_same_key_reflexive(sa[i as int]);
                    assert(same_key(out@[out@.len() - 1], sa[i as int]));
                    assert(contains_key(out@, sa[i as int]));
                    assert(sa.take(i + 1) =~= sa.take(i as int).push(sa[i as int]));
                    assert(sa.take(i + 1)[i as int] == sa[i as int]);
                    assert(sa.take(i + 1).contains(sa[i as int]));
                    assert forall|ii: int| 0 <= ii < i implies contains_key(
                        out@,
                        #[trigger] sa[ii],
                    ) by {
                        lemma_contains_key_push(pre, sa[ii], sa[i as int]);
                    }
                    assert forall|jj: int| 0 <= jj < j implies contains_key(
                        out@,
                        #[trigger] sb[jj],
                    ) by {
                        lemma_contains_key_push(pre, sb[jj], sa[i as int]);
                    }
                    assert forall|k: int|
                        0 <= k < pre.len() && sa.take(i as int).contains(#[trigger] pre[k])
                        implies sa.take(i + 1).contains(pre[k]) by {
                        crate::order::lemma_contains_push(sa.take(i as int), pre[k], sa[i as int]);
                    }
                    assert forall|jj: int|
                        0 <= jj < j && i + 1 < sa.len() implies below(
                        #[trigger] sb[jj],
                        sa[i + 1],
                    ) by {
                        assert(below(sb[jj], sa[i as int]));
                        assert(below(sa[i as int], sa[i + 1]));
                        lemma_below_transitive(sb[jj], sa[i as int], sa[i + 1]);
                    }
                    if i + 1 < sa.len() {
                        assert(below(sa[i as int], sa[i + 1]));
                    }
                }
                i += 1;
            } else if right_only {
                // the right element's key occurs only on the right
                let v = other.v[j].dup();
                proof {
                    assert forall|ii: int| 0 <= ii < sa.len() implies !same_key(
                        #[trigger] sa[ii],
                        sb[j as int],
                    ) by {
                        if ii < i {
                            assert(below(sa[ii], sb[j as int]));
                        } else {
                            assert(below(sb[j as int], sa[i as int]));
                            if ii > i {
                                assert(below(sa[i as int], sa[ii]));
                                lemma_below_transitive(sb[j as int], sa[i as int], sa[ii]);
                            }
                        }
                    }
                    assert(!contains_key(sa, sb[j as int]));
                    assert forall|k: int| 0 <= k < out@.len() implies below(
                        #[trigger] out@[k],
                        sb[j as int],
                    ) by {
                        if k < out@.len() - 1 {
                            assert(below(out@[k], out@[out@.len() - 1]));
                            lemma_below_transitive(out@[k], out@[out@.len() - 1], sb[j as int]);
                        }
                        assert(below(out@[out@.len() - 1], sb[j as int]));
                    }
                    lemma_sorted_unique_push(out@, sb[j as int]);
                }
                let ghost pre = out@;
                out.push(v);
                proof {
                    assert(out@[out@.len() - 1] == sb[j as int]);
                    lemma_same_key_reflexive(sb[j as int]);
                    assert(same_key(out@[out@.len() - 1], sb[j as int]));
                    assert(contains_key(out@, sb[j as int]));
                    assert(sb.take(j + 1) =~= sb.take(j as int).push(sb[j as int]));
                    assert(sb.take(j + 1)[j as int] == sb[j as int]);
                    assert(sb.take(j + 1).contains(sb[j as int]));
                    assert forall|ii: int| 0 <= ii < i implies contains_key(
                        out@,
                        #[trigger] sa[ii],
                    ) by {
                        lemma_contains_key_push(pre, sa[ii], sb[j as int]);
                    }
                    assert forall|jj: int| 0 <= jj < j implies contains_key(
                        out@,
                        #[trigger] sb[jj],
                    ) by {
                        lemma_contains_key_push(pre, sb[jj], sb[j as int]);
                    }
                    assert forall|k: int|
                        0 <= k < pre.len() && sb.take(j as int).contains(#[trigger] pre[k])
                        implies sb.take(j + 1).contains(pre[k]) by {
                        crate::order::lemma_contains_push(sb.take(j as int), pre[k], sb[j as int]);
                    }
                    assert forall|ii: int|
                        0 <= ii < i && j + 1 < sb.len() implies below(
                        #[trigger] sa[ii],
                        sb[j + 1],
                    ) by {
                        assert(below(sa[ii], sb[j as int]));
                        assert(below(sb[j as int], sb[j + 1]));
                        lemma_below_transitive(sa[ii], sb[j as int], sb[j + 1]);
                    }
                    if j + 1 < sb.len() {
                        assert(below(sb[j as int], sb[j + 1]));
                    }
                }
                j += 1;
            } else {
                // both sides carry the key; the callback picks the survivor
                let c = choose_equal(&self.v[i], &other.v[j]);
                let ghost gc = c;
                let v = match c {
                    LeftOrRight::Left => self.v[i].dup(),
                    LeftOrRight::Right => other.v[j].dup(),
                };
                proof {
                    assert(same_key(sa[i as int], sb[j as int]));
                    lemma_same_key_reflexive(sa[i as int]);
                    lemma_same_key_reflexive(sb[j as int]);
                    assert(same_key(v, sa[i as int]));
                    assert(same_key(v, sb[j as int]));
                    assert(same_key(sa[i as int], v));
                    assert forall|k: int| 0 <= k < out@.len() implies below(
                        #[trigger] out@[k],
                        v,
                    ) by {
                        if k < out@.len() - 1 {
                            assert(below(out@[k], out@[out@.len() - 1]));
                            lemma_below_transitive(out@[k], out@[out@.len() - 1], sa[i as int]);
                        }
                        assert(below(out@[out@.len() - 1], sa[i as int]));
                        crate::order::lemma_below_then_same_key(out@[k], sa[i as int], v);
                    }
                    lemma_sorted_unique_push(out@, v);
                }
                let ghost pre = out@;
                out.push(v);
                proof {
                    assert(out@[out@.len() - 1] == v);
                    assert(same_key(out@[out@.len() - 1], sa[i as int]));
                    assert(same_key(out@[out@.len() - 1], sb[j as int]));
                    assert(contains_key(out@, sa[i as int]));
                    assert(contains_key(out@, sb[j as int]));
                    assert(sa.take(i + 1) =~= sa.take(i as int).push(sa[i as int]));
                    assert(sb.take(j + 1) =~= sb.take(j as int).push(sb[j as int]));
                    assert(sa.take(i + 1)[i as int] == sa[i as int]);
                    assert(sb.take(j + 1)[j as int] == sb[j as int]);
                    match gc {
                        LeftOrRight::Left => {
                            assert(sa.take(i + 1).contains(v));
                        }
                        LeftOrRight::Right => {
                            assert(sb.take(j + 1).contains(v));
                        }
                    }
                    assert(call_ensures(choose_equal, (&sa[i as int], &sb[j as int]), gc));
                    assert(tie_ok(sa, sb, choose_equal, v));
                    assert forall|ii: int| 0 <= ii < i implies contains_key(
                        out@,
                        #[trigger] sa[ii],
                    ) by {
                        lemma_contains_key_push(pre, sa[ii], v);
                    }
                    assert forall|jj: int| 0 <= jj < j implies contains_key(
                        out@,
                        #[trigger] sb[jj],
                    ) by {
                        lemma_contains_key_push(pre, sb[jj], v);
                    }
                    assert forall|k: int|
                        0 <= k < pre.len() && sa.take(i as int).contains(#[trigger] pre[k])
                        implies sa.take(i + 1).contains(pre[k]) by {
                        crate::order::lemma_contains_push(sa.take(i as int), pre[k], sa[i as int]);
                    }
                    assert forall|k: int|
                        0 <= k < pre.len() && sb.take(j as int).contains(#[trigger] pre[k])
                        implies sb.take(j + 1).contains(pre[k]) by {
                        crate::order::lemma_contains_push(sb.take(j as int), pre[k], sb[j as int]);
                    }
                    assert forall|ii: int|
                        0 <= ii < i + 1 && j + 1 < sb.len() implies below(
                        #[trigger] sa[ii],
                        sb[j + 1],
                    ) by {
                        assert(below(sb[j as int], sb[j + 1]));
                        if ii < i {
                            assert(below(sa[ii], sb[j as int]));
                            lemma_below_transitive(sa[ii], sb[j as int], sb[j + 1]);
                        } else {
                            assert(same_key(sa[i as int], sb[j as int]));
                            crate::order::lemma_same_key_then_below(sa[ii], sb[j as int], sb[j + 1]);
                        }
                    }
                    assert forall|jj: int|
                        0 <= jj < j + 1 && i + 1 < sa.len() implies below(
                        #[trigger] sb[jj],
                        sa[i + 1],
                    ) by {
                        assert(below(sa[i as int], sa[i + 1]));
                        if jj < j {
                            assert(below(sb[jj], sa[i as int]));
                            lemma_below_transitive(sb[jj], sa[i as int], sa[i + 1]);
                        } else {
                            assert(same_key(sb[j as int], sa[i as int]));
                            crate::order::lemma_same_key_then_below(sb[jj], sa[i as int], sa[i + 1]);
                        }
                    }
                    if i + 1 < sa.len() {
                        assert(below(sa[i as int], sa[i + 1]));
                        crate::order::lemma_same_key_then_below(v, sa[i as int], sa[i + 1]);
                        assert(below(v, sa[i + 1]));
                    }
                    if j + 1 < sb.len() {
                        assert(below(sb[j as int], sb[j + 1]));
                        crate::order::lemma_same_key_then_below(v, sb[j as int], sb[j + 1]);
                        assert(below(v, sb[j + 1]));
                    }
                }
                i += 1;
                j += 1;
            }
        }
        proof {
            assert(sa.take(sa.len() as int) =~= sa);
            assert(sb.take(sb.len() as int) =~= sb);
            if sa == sb {
                assert forall|x: T| out@.contains(x) implies sa.contains(x) by {
                    let k = choose|k: int| 0 <= k < out@.len() && out@[k] == x;
                    assert(sa.take(sa.len() as int).contains(out@[k]) || sb.take(
                        sb.len() as int,
                    ).contains(out@[k]));
                }
                assert forall|x: T| sa.contains(x) implies out@.contains(x) by {
                    let ii = choose|ii: int| 0 <= ii < sa.len() && sa[ii] == x;
                    assert(contains_key(out@, sa[ii]));
                    let k = choose|k: int| 0 <= k < out@.len() && same_key(out@[k], sa[ii]);
                    assert(sa.take(sa.len() as int).contains(out@[k]) || sb.take(
                        sb.len() as int,
                    ).contains(out@[k]));
                    assert(sa.contains(out@[k]));
                    let m = choose|m: int| 0 <= m < sa.len() && sa[m] == out@[k];
                    crate::order::lemma_sorted_unique_key_at_most_once(sa, m, ii);
                    assert(out@[k] == x);
                }
                lemma_sorted_unique_same_elements(out@, sa);
            }
        }
        SortedUniqueVec { v: out }
    }
}

} // verus!
