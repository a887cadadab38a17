use vstd::prelude::*;

use crate::order::{
    below, contains_key, lemma_below_then_same_key, lemma_below_transitive,
    lemma_contains_key_push, lemma_same_key_reflexive, lemma_same_key_then_below,
    lemma_same_key_transitive, lemma_sorted_unique_push, same_key, sorted_unique, TotalOrder,
};
use crate::SortedUniqueVec;

verus! {

/// How one element met during a lock-step scan of two ordered sequences
/// relates to the other sequence.
#[derive(Debug)]
pub enum Alignment<T> {
    /// The key occurs in both sequences; the pair holds the left and the
    /// right element.
    Match(T, T),
    /// A left-only key met before the right side yielded anything.
    ExcessLeftHead(T),
    /// A right-only key met before the left side yielded anything.
    ExcessRightHead(T),
    /// A left-only key past the end of the right side.
    ExcessLeftTail(T),
    /// A right-only key past the end of the left side.
    ExcessRightTail(T),
    /// A left-only key between consumed and pending right elements.
    DisjointLeft(T),
    /// A right-only key between consumed and pending left elements.
    DisjointRight(T),
}

/// The element that an alignment case presents to the classifier; for a
/// match that is the left element.
pub open spec fn alignment_value<T>(al: Alignment<T>) -> T {
    match al {
        Alignment::Match(l, _) => l,
        Alignment::ExcessLeftHead(v) => v,
        Alignment::ExcessRightHead(v) => v,
        Alignment::ExcessLeftTail(v) => v,
        Alignment::ExcessRightTail(v) => v,
        Alignment::DisjointLeft(v) => v,
        Alignment::DisjointRight(v) => v,
    }
}

/// The alignment cases that a lock-step scan of `a` and `b` can actually
/// hand to the classifier, stated without reference to the scan itself.
pub open spec fn is_valid_alignment<T: TotalOrder>(a: Seq<T>, b: Seq<T>, al: Alignment<T>) -> bool {
    match al {
        Alignment::Match(l, r) => a.contains(l) && b.contains(r) && same_key(l, r),
        Alignment::ExcessLeftHead(v) => a.contains(v) && b.len() > 0 && (forall|j: int|
            0 <= j < b.len() ==> below(v, #[trigger] b[j])),
        Alignment::ExcessRightHead(v) => b.contains(v) && a.len() > 0 && (forall|i: int|
            0 <= i < a.len() ==> below(v, #[trigger] a[i])),
        Alignment::ExcessLeftTail(v) => a.contains(v) && (forall|j: int|
            0 <= j < b.len() ==> below(#[trigger] b[j], v)),
        Alignment::ExcessRightTail(v) => b.contains(v) && (forall|i: int|
            0 <= i < a.len() ==> below(#[trigger] a[i], v)),
        Alignment::DisjointLeft(v) => a.contains(v) && !contains_key(b, v) && (exists|j: int|
            0 <= j < b.len() && below(#[trigger] b[j], v)) && (exists|j: int|
            0 <= j < b.len() && below(v, #[trigger] b[j])),
        Alignment::DisjointRight(v) => b.contains(v) && !contains_key(a, v) && (exists|i: int|
            0 <= i < a.len() && below(#[trigger] a[i], v)) && (exists|i: int|
            0 <= i < a.len() && below(v, #[trigger] a[i])),
    }
}

/// `al` is the case that consumes `x` from the left sequence.
pub open spec fn consumes_left<T>(al: Alignment<T>, x: T) -> bool {
    match al {
        Alignment::Match(l, _) => l == x,
        Alignment::ExcessLeftHead(v) => v == x,
        Alignment::ExcessLeftTail(v) => v == x,
        Alignment::DisjointLeft(v) => v == x,
        _ => false,
    }
}

/// `al` is the case that consumes `x` from the right sequence.
pub open spec fn consumes_right<T>(al: Alignment<T>, x: T) -> bool {
    match al {
        Alignment::Match(_, r) => r == x,
        Alignment::ExcessRightHead(v) => v == x,
        Alignment::ExcessRightTail(v) => v == x,
        Alignment::DisjointRight(v) => v == x,
        _ => false,
    }
}

/// Some classifier answer for a true alignment case of `a` and `b` put
/// `x` into the output.
pub open spec fn emitted<T: TotalOrder, F: Fn(Alignment<T>) -> Option<T>>(
    a: Seq<T>,
    b: Seq<T>,
    f: F,
    x: T,
) -> bool {
    exists|al: Alignment<T>|
        is_valid_alignment(a, b, al) && #[trigger] call_ensures(f, (al,), Some(x))
}

/// The classifier could answer `None` for the case consuming `x` from `a`.
pub open spec fn vetoed_left<T: TotalOrder, F: Fn(Alignment<T>) -> Option<T>>(
    a: Seq<T>,
    b: Seq<T>,
    f: F,
    x: T,
) -> bool {
    exists|al: Alignment<T>|
        is_valid_alignment(a, b, al) && consumes_left(al, x) && #[trigger] call_ensures(
            f,
            (al,),
            None::<T>,
        )
}

/// The classifier could answer `None` for the case consuming `x` from `b`.
pub open spec fn vetoed_right<T: TotalOrder, F: Fn(Alignment<T>) -> Option<T>>(
    a: Seq<T>,
    b: Seq<T>,
    f: F,
    x: T,
) -> bool {
    exists|al: Alignment<T>|
        is_valid_alignment(a, b, al) && consumes_right(al, x) && #[trigger] call_ensures(
            f,
            (al,),
            None::<T>,
        )
}

/// The state of the lock-step scan after the first `i` elements of `a` and
/// `j` elements of `b` have been classified and `out` collected.
pub open spec fn scan_inv<T: TotalOrder, F: Fn(Alignment<T>) -> Option<T>>(
    a: Seq<T>,
    b: Seq<T>,
    f: F,
    out: Seq<T>,
    i: int,
    j: int,
) -> bool {
    &&& 0 <= i <= a.len()
    &&& 0 <= j <= b.len()
    &&& sorted_unique(out)
    &&& (forall|ii: int| #![trigger a[ii]] 0 <= ii < i && j < b.len() ==> below(a[ii], b[j]))
    &&& (forall|jj: int| #![trigger b[jj]] 0 <= jj < j && i < a.len() ==> below(b[jj], a[i]))
    &&& (out.len() > 0 && i < a.len() ==> below(out.last(), a[i]))
    &&& (out.len() > 0 && j < b.len() ==> below(out.last(), b[j]))
    &&& (forall|k: int| #![trigger out[k]] 0 <= k < out.len() ==> emitted(a, b, f, out[k]))
    &&& (forall|ii: int|
        0 <= ii < i ==> contains_key(out, #[trigger] a[ii]) || vetoed_left(a, b, f, a[ii]))
    &&& (forall|jj: int|
        0 <= jj < j ==> contains_key(out, #[trigger] b[jj]) || vetoed_right(a, b, f, b[jj]))
}

/// The alignment case that the scan positioned at `i` in `a` and `j` in
/// `b` emits next, with a flag per side saying whether its cursor moves.
fn next_alignment<T: TotalOrder>(
    a: &SortedUniqueVec<T>,
    b: &SortedUniqueVec<T>,
    i: usize,
    j: usize,
) -> (r: (Alignment<T>, bool, bool))
    requires
        a.well_formed(),
        b.well_formed(),
        i <= a@.len(),
        j <= b@.len(),
        i < a@.len() || j < b@.len(),
        forall|ii: int|
            #![trigger a@[ii]]
            0 <= ii < i && j < b@.len() ==> below(a@[ii], b@[j as int]),
        forall|jj: int|
            #![trigger b@[jj]]
            0 <= jj < j && i < a@.len() ==> below(b@[jj], a@[i as int]),
    ensures
        is_valid_alignment(a@, b@, r.0),
        r.1 || r.2,
        r.1 ==> i < a@.len() && consumes_left(r.0, a@[i as int]) && alignment_value(r.0)
            == a@[i as int],
        r.2 ==> j < b@.len() && consumes_right(r.0, b@[j as int]),
        r.1 && r.2 ==> same_key(a@[i as int], b@[j as int]),
        r.2 && !r.1 ==> alignment_value(r.0) == b@[j as int],
        r.1 && !r.2 && j < b@.len() ==> below(a@[i as int], b@[j as int]),
        r.2 && !r.1 && i < a@.len() ==> below(b@[j as int], a@[i as int]),
{
    let ghost sa = a@;
    let ghost sb = b@;
    if i < a.v.len() && j < b.v.len() {
        match a.v[i].compare(&b.v[j]) {
            core::cmp::Ordering::Less => {
                proof {
                    assert(below(sa[i as int], sb[j as int]));
                    assert(sa.contains(sa[i as int]));
                    assert forall|jj: int| 0 <= jj < sb.len() implies !same_key(
                        #[trigger] sb[jj],
                        sa[i as int],
                    ) by {
                        if jj < j {
                            assert(below(sb[jj], sa[i as int]));
                        } else if jj > j {
                            assert(below(sb[j as int], sb[jj]));
                            lemma_below_transitive(sa[i as int], sb[j as int], sb[jj]);
                        }
                    }
                }
                if j == 0 {
                    let al = Alignment::ExcessLeftHead(a.v[i].dup());
                    proof {
                        assert forall|jj: int| 0 <= jj < sb.len() implies below(
                            sa[i as int],
                            #[trigger] sb[jj],
                        ) by {
                            if jj > 0 {
                                assert(below(sb[0], sb[jj]));
                                lemma_below_transitive(sa[i as int], sb[0], sb[jj]);
                            }
                        }
                        assert(is_valid_alignment(sa, sb, al));
                    }
                    (al, true, false)
                } else {
                    let al = Alignment::DisjointLeft(a.v[i].dup());
                    proof {
                        assert(below(sb[j - 1], sa[i as int]));
                        assert(is_valid_alignment(sa, sb, al));
                    }
                    (al, true, false)
                }
            }
            core::cmp::Ordering::Equal => {
                let al = Alignment::Match(a.v[i].dup(), b.v[j].dup());
                proof {
                    assert(same_key(sa[i as int], sb[j as int]));
                    assert(sa.contains(sa[i as int]));
                    assert(sb.contains(sb[j as int]));
                    assert(is_valid_alignment(sa, sb, al));
                }
                (al, true, true)
            }
            core::cmp::Ordering::Greater => {
                proof {
                    assert(below(sb[j as int], sa[i as int]));
                    assert(sb.contains(sb[j as int]));
                    assert forall|ii: int| 0 <= ii < sa.len() implies !same_key(
                        #[trigger] sa[ii],
                        sb[j as int],
                    ) by {
                        if ii < i {
                            assert(below(sa[ii], sb[j as int]));
                        } else if ii > i {
                            assert(below(sa[i as int], sa[ii]));
                            lemma_below_transitive(sb[j as int], sa[i as int], sa[ii]);
                        }
                    }
                }
                if i == 0 {
                    let al = Alignment::ExcessRightHead(b.v[j].dup());
                    proof {
                        assert forall|ii: int| 0 <= ii < sa.len() implies below(
                            sb[j as int],
                            #[trigger] sa[ii],
                        ) by {
                            if ii > 0 {
                                assert(below(sa[0], sa[ii]));
                                lemma_below_transitive(sb[j as int], sa[0], sa[ii]);
                            }
                        }
                        assert(is_valid_alignment(sa, sb, al));
                    }
                    (al, false, true)
                } else {
                    let al = Alignment::DisjointRight(b.v[j].dup());
                    proof {
                        assert(below(sa[i - 1], sb[j as int]));
                        assert(is_valid_alignment(sa, sb, al));
                    }
                    (al, false, true)
                }
            }
        }
    } else if i < a.v.len() {
        let al = Alignment::ExcessLeftTail(a.v[i].dup());
        proof {
            assert(sa.contains(sa[i as int]));
            assert forall|jj: int| 0 <= jj < sb.len() implies below(
                #[trigger] sb[jj],
                sa[i as int],
            ) by {}
            assert(is_valid_alignment(sa, sb, al));
        }
        (al, true, false)
    } else {
        let al = Alignment::ExcessRightTail(b.v[j].dup());
        proof {
            assert(sb.contains(sb[j as int]));
            assert forall|ii: int| 0 <= ii < sa.len() implies below(
                #[trigger] sa[ii],
                sb[j as int],
            ) by {}
            assert(is_valid_alignment(sa, sb, al));
        }
        (al, false, true)
    }
}

/// Classifies the next element, consults `f` once, and extends the output
/// with what `f` answered, handing the scan state back.
#[verifier::rlimit(100)]
fn align_step<T, F>(
    a: &SortedUniqueVec<T>,
    b: &SortedUniqueVec<T>,
    f: F,
    out: Vec<T>,
    i: usize,
    j: usize,
) -> (r: (F, Vec<T>, usize, usize)) where
    T: TotalOrder,
    F: Fn(Alignment<T>) -> Option<T>,

    requires
        a.well_formed(),
        b.well_formed(),
        i < a@.len() || j < b@.len(),
        forall|al: Alignment<T>|
            is_valid_alignment(a@, b@, al) ==> #[trigger] call_requires(f, (al,)),
        forall|al: Alignment<T>, ret: Option<T>|
            #[trigger] call_ensures(f, (al,), ret) && is_valid_alignment(a@, b@, al)
                && ret.is_some() ==> same_key(ret.unwrap(), alignment_value(al)),
        scan_inv(a@, b@, f, out@, i as int, j as int),
    ensures
        r.0 == f,
        i <= r.2 <= a@.len(),
        j <= r.3 <= b@.len(),
        r.2 + r.3 > i + j,
        scan_inv(a@, b@, f, r.1@, r.2 as int, r.3 as int),
{
    let ghost sa = a@;
    let ghost sb = b@;
    let mut out = out;
    let stepped = next_alignment(a, b, i, j);
    let al = stepped.0;
    let advance_left = stepped.1;
    let advance_right = stepped.2;
    let ghost gal = al;
    proof {
        if advance_left {
            lemma_same_key_reflexive(sa[i as int]);
            assert(same_key(alignment_value(gal), sa[i as int]));
        }
        if advance_right {
            lemma_same_key_reflexive(sb[j as int]);
            if advance_left {
                assert(same_key(sa[i as int], sb[j as int]));
            }
            assert(same_key(alignment_value(gal), sb[j as int]));
        }
    }
    let r = f(al);
    let ghost pre = out@;
    match r {
        Some(new) => {
            proof {
                assert(call_ensures(f, (gal,), r));
                assert(same_key(new, alignment_value(gal)));
                if advance_left {
                    lemma_same_key_transitive(new, alignment_value(gal), sa[i as int]);
                    assert(same_key(new, sa[i as int]));
                    assert(same_key(sa[i as int], new));
                }
                if advance_right {
                    lemma_same_key_transitive(new, alignment_value(gal), sb[j as int]);
                    assert(same_key(new, sb[j as int]));
                    assert(same_key(sb[j as int], new));
                }
                assert forall|k: int| 0 <= k < out@.len() implies below(
                    #[trigger] out@[k],
                    new,
                ) by {
                    let last = out@.len() - 1;
                    if advance_left {
                        assert(below(out@[last], sa[i as int]));
                        if k < last {
                            assert(below(out@[k], out@[last]));
                            lemma_below_transitive(out@[k], out@[last], sa[i as int]);
                        }
                        lemma_below_then_same_key(out@[k], sa[i as int], new);
                    } else {
                        assert(below(out@[last], sb[j as int]));
                        if k < last {
                            assert(below(out@[k], out@[last]));
                            lemma_below_transitive(out@[k], out@[last], sb[j as int]);
                        }
                        lemma_below_then_same_key(out@[k], sb[j as int], new);
                    }
                }
                lemma_sorted_unique_push(out@, new);
            }
            out.push(new);
            proof {
                assert(out@[out@.len() - 1] == new);
                assert(call_ensures(f, (gal,), Some(new)));
                assert(emitted(sa, sb, f, new));
                if advance_left {
                    assert(same_key(out@[out@.len() - 1], sa[i as int]));
                    assert(contains_key(out@, sa[i as int]));
                }
                if advance_right {
                    assert(same_key(out@[out@.len() - 1], sb[j as int]));
                    assert(contains_key(out@, sb[j as int]));
                }
                if advance_left && i + 1 < sa.len() {
                    assert(below(sa[i as int], sa[i + 1]));
                    lemma_same_key_then_below(new, sa[i as int], sa[i + 1]);
                    assert(below(new, sa[i + 1]));
                }
                if !advance_left && i < sa.len() {
                    assert(below(sb[j as int], sa[i as int]));
                    lemma_same_key_then_below(new, sb[j as int], sa[i as int]);
                    assert(below(new, sa[i as int]));
                }
                if advance_right && j + 1 < sb.len() {
                    assert(below(sb[j as int], sb[j + 1]));
                    lemma_same_key_then_below(new, sb[j as int], sb[j + 1]);
                    assert(below(new, sb[j + 1]));
                }
                if !advance_right && j < sb.len() {
                    assert(below(sa[i as int], sb[j as int]));
                    lemma_same_key_then_below(new, sa[i as int], sb[j as int]);
                    assert(below(new, sb[j as int]));
                }
                assert forall|ii: int|
                    0 <= ii < i && contains_key(pre, #[trigger] sa[ii]) implies contains_key(
                    out@,
                    sa[ii],
                ) by {
                    lemma_contains_key_push(pre, sa[ii], new);
                }
                assert forall|jj: int|
                    0 <= jj < j && contains_key(pre, #[trigger] sb[jj]) implies contains_key(
                    out@,
                    sb[jj],
                ) by {
                    lemma_contains_key_push(pre, sb[jj], new);
                }
                assert forall|k: int| #![trigger out@[k]] 0 <= k < out@.len() implies emitted(
                    sa,
                    sb,
                    f,
                    out@[k],
                ) by {
                    if k < out@.len() - 1 {
                        assert(out@[k] == pre[k]);
                        assert(emitted(sa, sb, f, pre[k]));
                    }
                }
            }
        }
        None => {
            proof {
                assert(call_ensures(f, (gal,), None::<T>));
                if advance_left {
                    assert(consumes_left(gal, sa[i as int]));
                    assert(vetoed_left(sa, sb, f, sa[i as int]));
                }
                if advance_right {
                    assert(consumes_right(gal, sb[j as int]));
                    assert(vetoed_right(sa, sb, f, sb[j as int]));
                }
                if out@.len() > 0 {
                    if advance_left && i + 1 < sa.len() {
                        assert(below(out@.last(), sa[i as int]));
                        assert(below(sa[i as int], sa[i + 1]));
                        lemma_below_transitive(out@.last(), sa[i as int], sa[i + 1]);
                    }
                    if advance_right && j + 1 < sb.len() {
                        assert(below(out@.last(), sb[j as int]));
                        assert(below(sb[j as int], sb[j + 1]));
                        lemma_below_transitive(out@.last(), sb[j as int], sb[j + 1]);
                    }
                }
            }
        }
    }
    proof {
        if advance_left && advance_right {
            assert forall|ii: int|
                0 <= ii < i + 1 && j + 1 < sb.len() implies below(
                #[trigger] sa[ii],
                sb[j + 1],
            ) by {
                assert(below(sb[j as int], sb[j + 1]));
                if ii < i {
                    assert(below(sa[ii], sb[j as int]));
                    lemma_below_transitive(sa[ii], sb[j as int], sb[j + 1]);
                } else {
                    assert(same_key(sa[i as int], sb[j as int]));
                    lemma_same_key_then_below(sa[ii], sb[j as int], sb[j + 1]);
                }
            }
            assert forall|jj: int|
                0 <= jj < j + 1 && i + 1 < sa.len() implies below(
                #[trigger] sb[jj],
                sa[i + 1],
            ) by {
                assert(below(sa[i as int], sa[i + 1]));
                if jj < j {
                    assert(below(sb[jj], sa[i as int]));
                    lemma_below_transitive(sb[jj], sa[i as int], sa[i + 1]);
                } else {
                    assert(same_key(sb[j as int], sa[i as int]));
                    lemma_same_key_then_below(sb[jj], sa[i as int], sa[i + 1]);
                }
            }
        } else if advance_left {
            assert forall|jj: int|
                0 <= jj < j && i + 1 < sa.len() implies below(
                #[trigger] sb[jj],
                sa[i + 1],
            ) by {
                assert(below(sb[jj], sa[i as int]));
                assert(below(sa[i as int], sa[i + 1]));
                lemma_below_transitive(sb[jj], sa[i as int], sa[i + 1]);
            }
        } else {
            assert forall|ii: int|
                0 <= ii < i && j + 1 < sb.len() implies below(
                #[trigger] sa[ii],
                sb[j + 1],
            ) by {
                assert(below(sa[ii], sb[j as int]));
                assert(below(sb[j as int], sb[j + 1]));
                lemma_below_transitive(sa[ii], sb[j as int], sb[j + 1]);
            }
        }
    }
    let la = a.len();
    let lb = b.len();
    let ni = if advance_left && i < la {
        i + 1
    } else {
        i
    };
    let nj = if advance_right && j < lb {
        j + 1
    } else {
        j
    };
    (f, out, ni, nj)
}

/// Walks `a` and `b` in lock step, classifies every element of either side
/// into its `Alignment` case, and hands each case to `f` exactly once, in
/// ascending key order.  `f` may veto the element (`None`) or put a value
/// carrying the same key into the output.
///
/// With a classifier that always answers `Some` of the presented element,
/// the output holds every key of either input, as `merge` would; with one
/// that always answers `None`, the output is empty.
#[verifier::loop_isolation(false)]
#[verifier::rlimit(60)]
pub fn align<T, F>(a: &SortedUniqueVec<T>, b: &SortedUniqueVec<T>, f: F) -> (result:
    SortedUniqueVec<T>) where
    T: TotalOrder,
    F: Fn(Alignment<T>) -> Option<T>,

    requires
        a.well_formed(),
        b.well_formed(),
        forall|al: Alignment<T>|
            is_valid_alignment(a@, b@, al) ==> #[trigger] call_requires(f, (al,)),
        forall|al: Alignment<T>, ret: Option<T>|
            #[trigger] call_ensures(f, (al,), ret) && is_valid_alignment(a@, b@, al)
                && ret.is_some() ==> same_key(ret.unwrap(), alignment_value(al)),
    ensures
        result.well_formed(),
        forall|k: int|
            #![trigger result@[k]]
            0 <= k < result@.len() ==> emitted(a@, b@, f, result@[k]),
        forall|k: int|
            #![trigger result@[k]]
            0 <= k < result@.len() ==> contains_key(a@, result@[k]) || contains_key(
                b@,
                result@[k],
            ),
        forall|i: int|
            0 <= i < a@.len() ==> contains_key(result@, #[trigger] a@[i]) || vetoed_left(
                a@,
                b@,
                f,
                a@[i],
            ),
        forall|j: int|
            0 <= j < b@.len() ==> contains_key(result@, #[trigger] b@[j]) || vetoed_right(
                a@,
                b@,
                f,
                b@[j],
            ),
        (forall|al: Alignment<T>, ret: Option<T>|
            #[trigger] call_ensures(f, (al,), ret) ==> ret == Some(alignment_value(al))) ==> ((
        forall|i: int| 0 <= i < a@.len() ==> contains_key(result@, #[trigger] a@[i])) && (forall|
            j: int,
        | 0 <= j < b@.len() ==> contains_key(result@, #[trigger] b@[j]))),
        (forall|al: Alignment<T>, ret: Option<T>|
            #[trigger] call_ensures(f, (al,), ret) ==> ret == None::<T>) ==> result@.len() == 0,
{
    let ghost sa = a@;
    let ghost sb = b@;
    let mut fc = f;
    let mut out: Vec<T> = Vec::new();
    let mut i: usize = 0;
    let mut j: usize = 0;
    while i < a.v.len() || j < b.v.len()
        invariant
            fc == f,
            i <= sa.len(),
            j <= sb.len(),
            scan_inv(sa, sb, f, out@, i as int, j as int),
        decreases sa.len() - i + sb.len() - j,
    {
        let stepped = align_step(a, b, fc, out, i, j);
        fc = stepped.0;
        out = stepped.1;
        i = stepped.2;
        j = stepped.3;
    }
    proof {
        assert forall|k: int|
            0 <= k < out@.len() implies contains_key(sa, #[trigger] out@[k]) || contains_key(
            sb,
            out@[k],
        ) by {
            assert(emitted(sa, sb, f, out@[k]));
            let alk = choose|al: Alignment<T>|
                is_valid_alignment(sa, sb, al) && #[trigger] call_ensures(
                    f,
                    (al,),
                    Some(out@[k]),
                );
            assert(call_ensures(f, (alk,), Some(out@[k])));
            let v = alignment_value(alk);
            assert(same_key(out@[k], v));
            assert(sa.contains(v) || sb.contains(v));
            if sa.contains(v) {
                let m = choose|m: int| 0 <= m < sa.len() && sa[m] == v;
                assert(same_key(sa[m], out@[k]));
            } else {
                let m = choose|m: int| 0 <= m < sb.len() && sb[m] == v;
                assert(same_key(sb[m], out@[k]));
            }
        }
        if (forall|al: Alignment<T>, ret: Option<T>|
            #[trigger] call_ensures(f, (al,), ret) ==> ret == Some(alignment_value(al))) {
            assert forall|ii: int| 0 <= ii < sa.len() implies contains_key(
                out@,
                #[trigger] sa[ii],
            ) by {
                if !contains_key(out@, sa[ii]) {
                    assert(vetoed_left(sa, sb, f, sa[ii]));
                    let alx = choose|al: Alignment<T>|
                        is_valid_alignment(sa, sb, al) && consumes_left(al, sa[ii])
                            && #[trigger] call_ensures(f, (al,), None::<T>);
                    assert(call_ensures(f, (alx,), None::<T>));
                    assert(false);
                }
            }
            assert forall|jj: int| 0 <= jj < sb.len() implies contains_key(
                out@,
                #[trigger] sb[jj],
            ) by {
                if !contains_key(out@, sb[jj]) {
                    assert(vetoed_right(sa, sb, f, sb[jj]));
                    let alx = choose|al: Alignment<T>|
                        is_valid_alignment(sa, sb, al) && consumes_right(al, sb[jj])
                            && #[trigger] call_ensures(f, (al,), None::<T>);
                    assert(call_ensures(f, (alx,), None::<T>));
                    assert(false);
                }
            }
        }
        if (forall|al: Alignment<T>, ret: Option<T>|
            #[trigger] call_ensures(f, (al,), ret) ==> ret == None::<T>) {
            if out@.len() > 0 {
                assert(out@[0] == out@[0]);
                assert(emitted(sa, sb, f, out@[0]));
                let alx = choose|al: Alignment<T>|
                    is_valid_alignment(sa, sb, al) && #[trigger] call_ensures(
                        f,
                        (al,),
                        Some(out@[0]),
                    );
                assert(call_ensures(f, (alx,), Some(out@[0])));
                assert(false);
            }
        }
    }
    SortedUniqueVec { v: out }
}

} // verus!
