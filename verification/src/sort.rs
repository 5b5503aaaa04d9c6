//! An unstable quicksort for anything that is an [`ArrayAccess`].
//!
//! The pivot of each step is drawn from a generator that is seeded with a fixed
//! number, so that one input is always sorted the same way. Elements that equal
//! the pivot are gathered at both ends of the range while it is scanned and
//! moved to the middle afterwards: they take no part in the steps that follow.

use crate::array::{exchanged, is_array, lemma_is_array_len, ArrayAccess};
use crate::order::{
    all_follow, all_precede, at, comparable, may_answer, may_ask, orders, pos, precedes, reversed,
    sorted_between, sorted_for_between, total_preorder,
};
use crate::rearrange::{
    lemma_rearranged_draws, lemma_rearranged_exchange, lemma_rearranged_keeps,
    lemma_rearranged_same, lemma_rearranged_twice, lemma_rearranged_wider,
    lemma_rearranged_within, occurs, rearranged, within,
};
use rand_core::{RngCore, SeedableRng};
use rand_xoshiro::Xoshiro256Plus;
use std::cmp::Ordering;
use vstd::prelude::*;

verus! {

/// `array` is what `is_array` asks of an array.
pub open spec fn valid<Arr>(array: &Arr) -> bool
    where Arr: ArrayAccess + ?Sized, Arr::Output: Sized
{
    is_array(array, array.elements(), array.spec_len())
}

/// A valid array has as many elements as its length says, a number that fits a
/// `usize`.
pub proof fn lemma_len<Arr>(array: &Arr)
    where Arr: ArrayAccess + ?Sized, Arr::Output: Sized
    requires
        valid(array),
    ensures
        array.elements().len() == array.spec_len(),
        array.spec_len() <= usize::MAX,
{
    lemma_is_array_len(array, array.elements(), array.spec_len());
}

/// The generator of `rand_xoshiro` that pivots are drawn from.
#[verifier::external_type_specification]
#[verifier::external_body]
pub struct ExXoshiro256Plus(Xoshiro256Plus);

/// The seed of the generator that every sort starts with.
pub const PIVOT_SEED: u64 = 0;

/// `Xoshiro256Plus::seed_from_u64`: a generator in the state that `seed` gives.
/// Nothing is claimed of it.
#[verifier::external_body]
fn seeded_generator(seed: u64) -> Xoshiro256Plus {
    Xoshiro256Plus::seed_from_u64(seed)
}

/// `Xoshiro256Plus::next_u64`: the next number of the generator, which moves on.
/// Nothing is claimed of the number.
#[verifier::external_body]
fn next_number(rng: &mut Xoshiro256Plus) -> u64 {
    rng.next_u64()
}

/// The index from `min` up to but not including `max` that the number `drawn`
/// stands for.
pub fn index_in_range(drawn: u64, min: usize, max: usize) -> (index: usize)
    requires
        min < max,
    ensures
        index == min + (drawn as usize) % ((max - min) as usize),
        min <= index < max,
{
    let range = max - min;
    let offset = #[verifier::truncate] (drawn as usize);
    min + offset % range
}

/// Draws an index from `min` up to but not including `max`.
fn gen_range(rng: &mut Xoshiro256Plus, min: usize, max: usize) -> (index: usize)
    requires
        min < max,
    ensures
        min <= index < max,
{
    index_in_range(next_number(rng), min, max)
}

/// Asks `compare` about the elements at `index1` and `index2`, which it reads
/// through `map_pair` and leaves as they are.
fn compare_at<Arr, F>(
    array: &mut Arr,
    index1: usize,
    index2: usize,
    compare: &F,
    Ghost(domain): Ghost<Set<Arr::Output>>,
) -> (o: Ordering)
    where Arr: ArrayAccess + ?Sized, Arr::Output: Sized, F: Fn(&Arr::Output, &Arr::Output) -> Ordering
    requires
        valid(old(array)),
        index1 != index2,
        index1 < old(array).spec_len(),
        index2 < old(array).spec_len(),
        within(old(array).elements(), domain),
        comparable(*compare, domain),
    ensures
        valid(final(array)),
        final(array).elements() == old(array).elements(),
        call_ensures(
            *compare,
            (&at(old(array).elements(), index1), &at(old(array).elements(), index2)),
            o,
        ),
{
    proof {
        lemma_len(array);
    }
    let probe = |a: &mut Arr::Output, b: &mut Arr::Output| -> (o: Ordering)
        requires
            may_ask(compare, &*a, &*b),
        ensures
            *final(a) == *old(a),
            *final(b) == *old(b),
            may_answer(compare, &*old(a), &*old(b), o),
        {
            compare(&*a, &*b)
        };
    let o = array.map_pair(index1, index2, probe);
    proof {
        assert(array.elements() =~= old(array).elements());
    }
    o
}

/// Moves up from `from`, past the elements that are less than the pivot, which
/// stands at `right`, and no further than `stop`.
fn scan_up<Arr, F>(
    array: &mut Arr,
    from: usize,
    stop: usize,
    right: usize,
    compare: &F,
    Ghost(domain): Ghost<Set<Arr::Output>>,
) -> (to: usize)
    where Arr: ArrayAccess + ?Sized, Arr::Output: Sized, F: Fn(&Arr::Output, &Arr::Output) -> Ordering
    requires
        valid(old(array)),
        from <= stop <= right < old(array).spec_len(),
        within(old(array).elements(), domain),
        comparable(*compare, domain),
    ensures
        valid(final(array)),
        final(array).elements() == old(array).elements(),
        from <= to <= stop,
        forall|rel: spec_fn(Arr::Output, Arr::Output) -> Ordering| #[trigger]
            orders(*compare, rel, domain) ==> {
                let s = old(array).elements();
                &&& all_precede(s, rel, pos(from), pos(to), at(s, right))
                &&& to < stop ==> precedes(rel, at(s, right), at(s, to))
            },
{
    let ghost s = array.elements();
    let mut to = from;
    proof {
        lemma_len(array);
    }
    while to < stop
        invariant
            valid(array),
            from <= to <= stop <= right < s.len(),
            array.elements() == s,
            s == old(array).elements(),
            within(s, domain),
            comparable(*compare, domain),
            forall|rel: spec_fn(Arr::Output, Arr::Output) -> Ordering| #[trigger]
                orders(*compare, rel, domain) ==> all_precede(
                    s,
                    rel,
                    pos(from),
                    pos(to),
                    at(s, right),
                ),
        decreases stop - to,
    {
        proof {
            lemma_len(array);
        }
        match compare_at(array, to, right, compare, Ghost(domain)) {
            Ordering::Less => {
                to += 1;
            },
            _ => {
                return to;
            },
        }
    }
    to
}

/// Moves down from `from`, past the elements that the pivot, which stands at
/// `right`, is less than, and no further than `left`.
fn scan_down<Arr, F>(
    array: &mut Arr,
    from: usize,
    left: usize,
    right: usize,
    compare: &F,
    Ghost(domain): Ghost<Set<Arr::Output>>,
) -> (to: usize)
    where Arr: ArrayAccess + ?Sized, Arr::Output: Sized, F: Fn(&Arr::Output, &Arr::Output) -> Ordering
    requires
        valid(old(array)),
        left <= from < right < old(array).spec_len(),
        within(old(array).elements(), domain),
        comparable(*compare, domain),
    ensures
        valid(final(array)),
        final(array).elements() == old(array).elements(),
        left <= to <= from,
        forall|rel: spec_fn(Arr::Output, Arr::Output) -> Ordering| #[trigger]
            orders(*compare, rel, domain) ==> {
                let s = old(array).elements();
                &&& all_follow(s, rel, pos(to) + 1, pos(from) + 1, at(s, right))
                &&& to > left ==> precedes(rel, at(s, to), at(s, right))
            },
{
    let ghost s = array.elements();
    let mut to = from;
    proof {
        lemma_len(array);
    }
    loop
        invariant
            valid(array),
            left <= to <= from < right < s.len(),
            array.elements() == s,
            s == old(array).elements(),
            within(s, domain),
            comparable(*compare, domain),
            forall|rel: spec_fn(Arr::Output, Arr::Output) -> Ordering| #[trigger]
                orders(*compare, rel, domain) ==> all_follow(
                    s,
                    rel,
                    pos(to) + 1,
                    pos(from) + 1,
                    at(s, right),
                ),
        decreases to,
    {
        proof {
            lemma_len(array);
        }
        match compare_at(array, right, to, compare, Ghost(domain)) {
            Ordering::Less => {
                if to == left {
                    return to;
                }
                to -= 1;
            },
            _ => {
                return to;
            },
        }
    }
}

/// What holds of the range from `left` to `right` while it is scanned, for a
/// relation `rel` and the pivot `v`: up to `i` nothing comes after the pivot and
/// from `j` on nothing comes before it, and the elements up to `p` and from `q`
/// on do neither.
pub open spec fn scanned<T>(
    s: Seq<T>,
    rel: spec_fn(T, T) -> Ordering,
    v: T,
    left: int,
    right: int,
    i: int,
    j: int,
    p: int,
    q: int,
) -> bool {
    &&& all_precede(s, rel, left, i, v)
    &&& all_follow(s, rel, left, p, v)
    &&& all_follow(s, rel, j, right, v)
    &&& all_follow(s, rel, q, right, v)
    &&& all_precede(s, rel, q, right, v)
}

/// The scans have gone from `i` up to `up` and from `j` down to `down` and
/// stopped at two elements that stand on the wrong sides: once these are
/// exchanged, the range is scanned up to `up` and down to `down`.
proof fn lemma_exchange_scanned<T>(
    s: Seq<T>,
    rel: spec_fn(T, T) -> Ordering,
    v: T,
    left: int,
    right: int,
    i: int,
    j: int,
    p: int,
    q: int,
    up: int,
    down: int,
)
    requires
        0 <= left <= p <= i <= up < down < j <= q <= right < s.len(),
        scanned(s, rel, v, left, right, i, j, p, q),
        all_precede(s, rel, i, up, v),
        precedes(rel, v, s[up]),
        all_follow(s, rel, down + 1, j, v),
        precedes(rel, s[down], v),
    ensures
        scanned(exchanged(s, up, down), rel, v, left, right, up + 1, down, p, q),
{
    let t = exchanged(s, up, down);
    assert forall|k: int| 0 <= k < t.len() && left <= k < up + 1 implies precedes(
        rel,
        #[trigger] t[k],
        v,
    ) by {
        if k < up {
            assert(t[k] == s[k]);
        }
    }
    assert forall|k: int| 0 <= k < t.len() && left <= k < p implies precedes(
        rel,
        v,
        #[trigger] t[k],
    ) by {
        assert(t[k] == s[k]);
    }
    assert forall|k: int| 0 <= k < t.len() && down <= k < right implies precedes(
        rel,
        v,
        #[trigger] t[k],
    ) by {
        if k > down {
            assert(t[k] == s[k]);
        }
    }
    assert forall|k: int| 0 <= k < t.len() && q <= k < right implies precedes(
        rel,
        #[trigger] t[k],
        v,
    ) && precedes(rel, v, t[k]) by {
        assert(t[k] == s[k]);
    }
}

/// The element at `up`, the last that the scan from below has passed, equals
/// the pivot: once it is exchanged with the one at `p`, the equal elements at
/// the low end reach up to `p`.
proof fn lemma_low_equal_scanned<T>(
    s: Seq<T>,
    rel: spec_fn(T, T) -> Ordering,
    v: T,
    left: int,
    right: int,
    j: int,
    p: int,
    q: int,
    up: int,
)
    requires
        0 <= left <= p <= up < j <= q <= right < s.len(),
        scanned(s, rel, v, left, right, up + 1, j, p, q),
        precedes(rel, v, s[up]),
    ensures
        scanned(exchanged(s, p, up), rel, v, left, right, up + 1, j, p + 1, q),
{
    let t = exchanged(s, p, up);
    assert forall|k: int| 0 <= k < t.len() && left <= k < up + 1 implies precedes(
        rel,
        #[trigger] t[k],
        v,
    ) by {
        if k == p {
            assert(t[k] == s[up]);
        } else if k == up {
            assert(t[k] == s[p]);
        } else {
            assert(t[k] == s[k]);
        }
    }
    assert forall|k: int| 0 <= k < t.len() && left <= k < p + 1 implies precedes(
        rel,
        v,
        #[trigger] t[k],
    ) by {
        if k < p {
            assert(t[k] == s[k]);
        }
    }
    assert forall|k: int| 0 <= k < t.len() && j <= k < right implies precedes(
        rel,
        v,
        #[trigger] t[k],
    ) by {
        assert(t[k] == s[k]);
    }
    assert forall|k: int| 0 <= k < t.len() && q <= k < right implies precedes(
        rel,
        #[trigger] t[k],
        v,
    ) && precedes(rel, v, t[k]) by {
        assert(t[k] == s[k]);
    }
}

/// The element at `down`, the last that the scan from above has passed, equals
/// the pivot: once it is exchanged with the one below `q`, the equal elements
/// at the high end reach down to there.
proof fn lemma_high_equal_scanned<T>(
    s: Seq<T>,
    rel: spec_fn(T, T) -> Ordering,
    v: T,
    left: int,
    right: int,
    i: int,
    p: int,
    q: int,
    down: int,
)
    requires
        0 <= left <= p <= i <= down < q <= right < s.len(),
        scanned(s, rel, v, left, right, i, down, p, q),
        precedes(rel, s[down], v),
    ensures
        scanned(exchanged(s, down, q - 1), rel, v, left, right, i, down, p, q - 1),
{
    let t = exchanged(s, down, q - 1);
    assert forall|k: int| 0 <= k < t.len() && left <= k < i implies precedes(
        rel,
        #[trigger] t[k],
        v,
    ) by {
        assert(t[k] == s[k]);
    }
    assert forall|k: int| 0 <= k < t.len() && left <= k < p implies precedes(
        rel,
        v,
        #[trigger] t[k],
    ) by {
        assert(t[k] == s[k]);
    }
    assert forall|k: int| 0 <= k < t.len() && down <= k < right implies precedes(
        rel,
        v,
        #[trigger] t[k],
    ) by {
        if k == down {
            assert(t[k] == s[q - 1]);
        } else if k == q - 1 {
            assert(t[k] == s[down]);
        } else {
            assert(t[k] == s[k]);
        }
    }
    assert forall|k: int| 0 <= k < t.len() && q - 1 <= k < right implies precedes(
        rel,
        #[trigger] t[k],
        v,
    ) by {
        if k == q - 1 {
            assert(t[k] == s[down]);
        } else {
            assert(t[k] == s[k]);
        }
    }
}

/// The scans have met at `up`: once the pivot is exchanged with the element
/// there, nothing up to it comes after the pivot and nothing from it on comes
/// before.
proof fn lemma_pivot_placed<T>(
    s: Seq<T>,
    rel: spec_fn(T, T) -> Ordering,
    v: T,
    left: int,
    right: int,
    i: int,
    j: int,
    p: int,
    q: int,
    up: int,
    down: int,
)
    requires
        0 <= left <= p <= i <= up <= q <= right < s.len(),
        left <= down < j,
        down <= up,
        s[right] == v,
        precedes(rel, v, v),
        scanned(s, rel, v, left, right, i, j, p, q),
        all_precede(s, rel, i, up, v),
        up < q ==> precedes(rel, v, s[up]),
        all_follow(s, rel, down + 1, j, v),
    ensures
        all_precede(exchanged(s, up, right), rel, left, up + 1, v),
        all_follow(exchanged(s, up, right), rel, up, right + 1, v),
        all_follow(exchanged(s, up, right), rel, left, p, v),
        all_precede(exchanged(s, up, right), rel, q, right, v),
        up == q ==> precedes(rel, exchanged(s, up, right)[right], v),
{
    let t = exchanged(s, up, right);
    if up == q {
        assert(t[right] == s[up]);
    }
    assert forall|k: int| 0 <= k < t.len() && left <= k < up + 1 implies precedes(
        rel,
        #[trigger] t[k],
        v,
    ) by {
        if k < up {
            assert(t[k] == s[k]);
        }
    }
    assert forall|k: int| 0 <= k < t.len() && up <= k < right + 1 implies precedes(
        rel,
        v,
        #[trigger] t[k],
    ) by {
        if k == up {
        } else if k == right {
            assert(t[k] == s[up]);
        } else {
            assert(t[k] == s[k]);
        }
    }
    assert forall|k: int| 0 <= k < t.len() && left <= k < p implies precedes(
        rel,
        v,
        #[trigger] t[k],
    ) by {
        assert(t[k] == s[k]);
    }
    assert forall|k: int| 0 <= k < t.len() && q <= k < right implies precedes(
        rel,
        #[trigger] t[k],
        v,
    ) by {
        if k == up {
        } else {
            assert(t[k] == s[k]);
        }
    }
}

/// Exchanges the elements at `up` and `down`, where the two scans have stopped,
/// and moves each of the two that equals the pivot to the equal elements at its
/// end of the range. Returns the new end of those at the low end and the new
/// start of those at the high end.
fn settle<Arr, F>(
    array: &mut Arr,
    left: usize,
    right: usize,
    up: usize,
    down: usize,
    p: usize,
    q: usize,
    compare: &F,
    Ghost(domain): Ghost<Set<Arr::Output>>,
    Ghost(i): Ghost<usize>,
    Ghost(j): Ghost<usize>,
) -> (ends: (usize, usize))
    where Arr: ArrayAccess + ?Sized, Arr::Output: Sized, F: Fn(&Arr::Output, &Arr::Output) -> Ordering
    requires
        valid(old(array)),
        left <= p <= i <= up < down < j <= q <= right < old(array).spec_len(),
        within(old(array).elements(), domain),
        comparable(*compare, domain),
        forall|rel: spec_fn(Arr::Output, Arr::Output) -> Ordering| #[trigger]
            orders(*compare, rel, domain) ==> {
                let s = old(array).elements();
                let v = at(s, right);
                &&& scanned(s, rel, v, pos(left), pos(right), pos(i), pos(j), pos(p), pos(q))
                &&& all_precede(s, rel, pos(i), pos(up), v)
                &&& precedes(rel, v, at(s, up))
                &&& all_follow(s, rel, pos(down) + 1, pos(j), v)
                &&& precedes(rel, at(s, down), v)
            },
    ensures
        valid(final(array)),
        rearranged(old(array).elements(), final(array).elements(), pos(left), pos(right) + 1),
        within(final(array).elements(), domain),
        at(final(array).elements(), right) == at(old(array).elements(), right),
        p <= ends.0 <= up + 1,
        down <= ends.1 <= q,
        forall|rel: spec_fn(Arr::Output, Arr::Output) -> Ordering| #[trigger]
            orders(*compare, rel, domain) ==> scanned(
                final(array).elements(),
                rel,
                at(old(array).elements(), right),
                pos(left),
                pos(right),
                pos(up) + 1,
                pos(down),
                pos(ends.0),
                pos(ends.1),
            ),
{
    let ghost s1 = array.elements();
    let ghost v = at(s1, right);
    let ghost stretch = pos(right) + 1;
    proof {
        lemma_len(array);
    }
    array.swap(up, down);
    let ghost s2 = array.elements();
    proof {
        lemma_len(array);
        lemma_rearranged_exchange(s1, pos(up), pos(down), pos(left), stretch);
        lemma_rearranged_within(s1, s2, pos(left), stretch, domain);
        assert forall|rel: spec_fn(Arr::Output, Arr::Output) -> Ordering| #[trigger]
            orders(*compare, rel, domain) implies scanned(
            s2,
            rel,
            v,
            pos(left),
            pos(right),
            pos(up) + 1,
            pos(down),
            pos(p),
            pos(q),
        ) by {
            lemma_exchange_scanned(
                s1,
                rel,
                v,
                pos(left),
                pos(right),
                pos(i),
                pos(j),
                pos(p),
                pos(q),
                pos(up),
                pos(down),
            );
        }
    }
    let mut low = p;
    let mut high = q;
    let low_equal = match compare_at(array, up, right, compare, Ghost(domain)) {
        Ordering::Equal => true,
        _ => false,
    };
    if low_equal {
        proof {
            lemma_len(array);
        }
        array.swap(p, up);
        low = p + 1;
    }
    let ghost s3 = array.elements();
    proof {
        lemma_len(array);
        if low_equal {
            lemma_rearranged_exchange(s2, pos(p), pos(up), pos(left), stretch);
        } else {
            lemma_rearranged_same(s2, pos(left), stretch);
        }
        lemma_rearranged_within(s2, s3, pos(left), stretch, domain);
        lemma_rearranged_twice(s1, s2, s3, pos(left), stretch);
        assert forall|rel: spec_fn(Arr::Output, Arr::Output) -> Ordering| #[trigger]
            orders(*compare, rel, domain) implies scanned(
            s3,
            rel,
            v,
            pos(left),
            pos(right),
            pos(up) + 1,
            pos(down),
            pos(low),
            pos(q),
        ) by {
            if low_equal {
                assert(domain.contains(s2[pos(up)]) && domain.contains(s2[pos(right)]));
                assert(rel(s2[pos(up)], v) == Ordering::Equal);
                assert(rel(v, s2[pos(up)]) == reversed(rel(s2[pos(up)], v)));
                lemma_low_equal_scanned(
                    s2,
                    rel,
                    v,
                    pos(left),
                    pos(right),
                    pos(down),
                    pos(p),
                    pos(q),
                    pos(up),
                );
            }
        }
    }
    let high_equal = match compare_at(array, right, down, compare, Ghost(domain)) {
        Ordering::Equal => true,
        _ => false,
    };
    if high_equal {
        proof {
            lemma_len(array);
        }
        high = q - 1;
        array.swap(down, high);
    }
    proof {
        lemma_len(array);
        let s4 = array.elements();
        if high_equal {
            lemma_rearranged_exchange(s3, pos(down), pos(high), pos(left), stretch);
        } else {
            lemma_rearranged_same(s3, pos(left), stretch);
        }
        lemma_rearranged_within(s3, s4, pos(left), stretch, domain);
        lemma_rearranged_twice(s1, s3, s4, pos(left), stretch);
        assert forall|rel: spec_fn(Arr::Output, Arr::Output) -> Ordering| #[trigger]
            orders(*compare, rel, domain) implies scanned(
            s4,
            rel,
            v,
            pos(left),
            pos(right),
            pos(up) + 1,
            pos(down),
            pos(low),
            pos(high),
        ) by {
            if high_equal {
                assert(domain.contains(s3[pos(down)]) && domain.contains(s3[pos(right)]));
                assert(rel(v, s3[pos(down)]) == Ordering::Equal);
                assert(rel(s3[pos(down)], v) == reversed(rel(v, s3[pos(down)])));
                lemma_high_equal_scanned(
                    s3,
                    rel,
                    v,
                    pos(left),
                    pos(right),
                    pos(up) + 1,
                    pos(low),
                    pos(q),
                    pos(down),
                );
            }
        }
    }
    (low, high)
}

/// Scans the range from `left` to `right`, whose pivot stands at `right`, from
/// both ends, exchanges what stands on the wrong side, gathers the elements
/// that equal the pivot at the two ends, and at last puts the pivot where the
/// scans met. Returns that place, the end of the equal elements at the low end
/// and the start of those at the high end.
fn gather<Arr, F>(
    array: &mut Arr,
    left: usize,
    right: usize,
    compare: &F,
    Ghost(domain): Ghost<Set<Arr::Output>>,
) -> (cursors: (usize, usize, usize))
    where Arr: ArrayAccess + ?Sized, Arr::Output: Sized, F: Fn(&Arr::Output, &Arr::Output) -> Ordering
    requires
        valid(old(array)),
        left < right < old(array).spec_len(),
        within(old(array).elements(), domain),
        comparable(*compare, domain),
    ensures
        valid(final(array)),
        rearranged(old(array).elements(), final(array).elements(), pos(left), pos(right) + 1),
        within(final(array).elements(), domain),
        left <= cursors.1 <= cursors.0 <= cursors.2 <= right,
        forall|rel: spec_fn(Arr::Output, Arr::Output) -> Ordering| #[trigger]
            orders(*compare, rel, domain) ==> {
                let t = final(array).elements();
                let v = at(old(array).elements(), right);
                &&& all_precede(t, rel, pos(left), pos(cursors.0) + 1, v)
                &&& all_follow(t, rel, pos(cursors.0), pos(right) + 1, v)
                &&& all_follow(t, rel, pos(left), pos(cursors.1), v)
                &&& all_precede(t, rel, pos(cursors.2), pos(right), v)
                &&& cursors.0 == cursors.2 ==> precedes(rel, at(t, right), v)
            },
{
    let ghost s0 = array.elements();
    let ghost v = at(s0, right);
    let ghost stretch = pos(right) + 1;
    let mut i = left;
    let mut j = right;
    let mut p = left;
    let mut q = right;
    proof {
        lemma_len(array);
        lemma_rearranged_same(s0, pos(left), stretch);
    }
    loop
        invariant
            valid(array),
            left <= p <= i <= j <= q <= right < s0.len(),
            left < j,
            stretch == pos(right) + 1,
            array.elements().len() == s0.len(),
            s0 == old(array).elements(),
            v == at(s0, right),
            at(array.elements(), right) == v,
            rearranged(s0, array.elements(), pos(left), stretch),
            within(array.elements(), domain),
            comparable(*compare, domain),
            forall|rel: spec_fn(Arr::Output, Arr::Output) -> Ordering| #[trigger]
                orders(*compare, rel, domain) ==> scanned(
                    array.elements(),
                    rel,
                    v,
                    pos(left),
                    pos(right),
                    pos(i),
                    pos(j),
                    pos(p),
                    pos(q),
                ),
        decreases j,
    {
        proof {
            lemma_len(array);
        }
        let ghost s1 = array.elements();
        let up = scan_up(array, i, q, right, compare, Ghost(domain));
        proof {
            lemma_len(array);
        }
        let down = scan_down(array, j - 1, left, right, compare, Ghost(domain));
        if up >= down {
            proof {
                lemma_len(array);
            }
            array.swap(up, right);
            proof {
                let t = array.elements();
                lemma_rearranged_exchange(s1, pos(up), pos(right), pos(left), stretch);
                lemma_rearranged_twice(s0, s1, t, pos(left), stretch);
                lemma_rearranged_within(s1, t, pos(left), stretch, domain);
                assert forall|rel: spec_fn(Arr::Output, Arr::Output) -> Ordering| #[trigger]
                    orders(*compare, rel, domain) implies {
                    &&& all_precede(t, rel, pos(left), pos(up) + 1, v)
                    &&& all_follow(t, rel, pos(up), pos(right) + 1, v)
                    &&& all_follow(t, rel, pos(left), pos(p), v)
                    &&& all_precede(t, rel, pos(q), pos(right), v)
                    &&& up == q ==> precedes(rel, at(t, right), v)
                } by {
                    assert(domain.contains(s1[pos(right)]));
                    assert(rel(v, v) == reversed(rel(v, v)));
                    lemma_pivot_placed(
                        s1,
                        rel,
                        v,
                        pos(left),
                        pos(right),
                        pos(i),
                        pos(j),
                        pos(p),
                        pos(q),
                        pos(up),
                        pos(down),
                    );
                }
            }
            return (up, p, q);
        }
        proof {
            lemma_len(array);
        }
        let ends = settle(
            array,
            left,
            right,
            up,
            down,
            p,
            q,
            compare,
            Ghost(domain),
            Ghost(i),
            Ghost(j),
        );
        proof {
            lemma_rearranged_keeps(s1, array.elements(), pos(left), stretch);
            lemma_rearranged_twice(s0, s1, array.elements(), pos(left), stretch);
        }
        p = ends.0;
        q = ends.1;
        i = up + 1;
        j = down;
    }
}

/// Moves the elements from `left` up to but not including `p` to the top of the
/// stretch that ends below `i`, by exchanges that work inward. Returns where
/// they start afterwards.
fn collapse_low<Arr>(array: &mut Arr, left: usize, i: usize, p: usize) -> (e: usize)
    where Arr: ArrayAccess + ?Sized, Arr::Output: Sized
    requires
        valid(old(array)),
        left <= p <= i <= old(array).spec_len(),
    ensures
        valid(final(array)),
        rearranged(old(array).elements(), final(array).elements(), pos(left), pos(i)),
        e == i - (p - left),
        forall|t: int|
            e <= t < i ==> occurs(
                old(array).elements(),
                pos(left),
                pos(p),
                #[trigger] final(array).elements()[t],
            ),
{
    let ghost s0 = array.elements();
    let ghost meet = left + (i - p);
    let mut e = i;
    let mut k = left;
    proof {
        lemma_len(array);
        lemma_rearranged_same(s0, pos(left), pos(i));
    }
    while k < p
        invariant
            valid(array),
            left <= k <= p <= i <= s0.len(),
            e == i - (k - left),
            meet == left + (i - p),
            array.elements().len() == s0.len(),
            rearranged(s0, array.elements(), pos(left), pos(i)),
            forall|t: int| k <= t < p ==> occurs(s0, pos(left), pos(p), #[trigger] array.elements()[t]),
            forall|t: int|
                meet <= t < p ==> occurs(s0, pos(left), pos(p), #[trigger] array.elements()[t]),
            forall|t: int| e <= t < i ==> occurs(s0, pos(left), pos(p), #[trigger] array.elements()[t]),
        decreases p - k,
    {
        let ghost before = array.elements();
        e -= 1;
        proof {
            lemma_len(array);
        }
        array.swap(k, e);
        proof {
            let after = array.elements();
            lemma_rearranged_exchange(before, pos(k), pos(e), pos(left), pos(i));
            lemma_rearranged_twice(s0, before, after, pos(left), pos(i));
            assert(after[pos(e)] == before[pos(k)]);
            assert(after[pos(k)] == before[pos(e)]);
            assert forall|t: int| k + 1 <= t < p implies occurs(
                s0,
                pos(left),
                pos(p),
                #[trigger] after[t],
            ) by {
                if t != e {
                    assert(after[t] == before[t]);
                }
            }
            assert forall|t: int| meet <= t < p implies occurs(
                s0,
                pos(left),
                pos(p),
                #[trigger] after[t],
            ) by {
                if t != e && t != k {
                    assert(after[t] == before[t]);
                }
            }
            assert forall|t: int| e <= t < i implies occurs(
                s0,
                pos(left),
                pos(p),
                #[trigger] after[t],
            ) by {
                if t != e && t != k {
                    assert(after[t] == before[t]);
                }
            }
        }
        k += 1;
    }
    e
}

/// Moves the elements from `q` up to but not including `right` to the bottom of
/// the stretch that starts above `i`, by exchanges that work inward. Returns
/// where they end afterwards. Where `q` is `i`, the element at `i` is one of
/// those that move, and its place is taken by another of the stretch.
fn collapse_high<Arr>(array: &mut Arr, i: usize, q: usize, right: usize) -> (g: usize)
    where Arr: ArrayAccess + ?Sized, Arr::Output: Sized
    requires
        valid(old(array)),
        i <= q <= right < old(array).spec_len(),
    ensures
        valid(final(array)),
        g == i + 1 + (right - q),
        q > i ==> rearranged(
            old(array).elements(),
            final(array).elements(),
            pos(i) + 1,
            pos(right) + 1,
        ),
        q > i ==> forall|t: int|
            i < t < g ==> occurs(
                old(array).elements(),
                pos(q),
                pos(right),
                #[trigger] final(array).elements()[t],
            ),
        q == i ==> rearranged(
            old(array).elements(),
            final(array).elements(),
            pos(i),
            pos(right) + 1,
        ),
{
    let ghost s0 = array.elements();
    let ghost meet = i + 1 + (right - q);
    let ghost low = if q > i {
        pos(i) + 1
    } else {
        pos(i)
    };
    proof {
        lemma_len(array);
        lemma_rearranged_same(s0, low, pos(right) + 1);
    }
    let mut g = i + 1;
    let mut k = right;
    while k > q
        invariant
            valid(array),
            i <= q <= k <= right < s0.len() <= usize::MAX,
            g == i + 1 + (right - k),
            meet == i + 1 + (right - q),
            low == if q > i {
                pos(i) + 1
            } else {
                pos(i)
            },
            array.elements().len() == s0.len(),
            rearranged(s0, array.elements(), low, pos(right) + 1),
            q > i ==> forall|t: int|
                q <= t < k ==> occurs(s0, pos(q), pos(right), #[trigger] array.elements()[t]),
            q > i ==> forall|t: int|
                q <= t < meet ==> occurs(s0, pos(q), pos(right), #[trigger] array.elements()[t]),
            q > i ==> forall|t: int|
                i < t < g ==> occurs(s0, pos(q), pos(right), #[trigger] array.elements()[t]),
        decreases k - q,
    {
        let ghost before = array.elements();
        k -= 1;
        proof {
            lemma_len(array);
        }
        array.swap(g, k);
        proof {
            let after = array.elements();
            lemma_rearranged_exchange(before, pos(g), pos(k), low, pos(right) + 1);
            lemma_rearranged_twice(s0, before, after, low, pos(right) + 1);
            assert(after[pos(g)] == before[pos(k)]);
            assert(after[pos(k)] == before[pos(g)]);
            if q > i {
                assert forall|t: int| q <= t < k implies occurs(
                    s0,
                    pos(q),
                    pos(right),
                    #[trigger] after[t],
                ) by {
                    if t != g {
                        assert(after[t] == before[t]);
                    }
                }
                assert forall|t: int| q <= t < meet implies occurs(
                    s0,
                    pos(q),
                    pos(right),
                    #[trigger] after[t],
                ) by {
                    if t != g && t != k {
                        assert(after[t] == before[t]);
                    }
                }
                assert forall|t: int| i < t < g + 1 implies occurs(
                    s0,
                    pos(q),
                    pos(right),
                    #[trigger] after[t],
                ) by {
                    if t != g && t != k {
                        assert(after[t] == before[t]);
                    }
                }
            }
        }
        g += 1;
    }
    g
}

/// What holds of a stretch with respect to `v` still holds once a part of the
/// stretch, or a part of what lies outside it, has been rearranged.
proof fn lemma_zones_kept<T>(
    s: Seq<T>,
    t: Seq<T>,
    rel: spec_fn(T, T) -> Ordering,
    v: T,
    lo: int,
    hi: int,
    a: int,
    b: int,
)
    requires
        rearranged(s, t, a, b),
        (lo <= a && b <= hi) || b <= lo || hi <= a,
    ensures
        all_precede(s, rel, lo, hi, v) ==> all_precede(t, rel, lo, hi, v),
        all_follow(s, rel, lo, hi, v) ==> all_follow(t, rel, lo, hi, v),
{
    lemma_rearranged_keeps(s, t, a, b);
    lemma_rearranged_draws(s, t, a, b);
    if all_precede(s, rel, lo, hi, v) {
        assert forall|k: int| 0 <= k < t.len() && lo <= k < hi implies precedes(
            rel,
            #[trigger] t[k],
            v,
        ) by {
            if a <= k < b {
                assert(occurs(s, a, b, t[k]));
            } else {
                assert(t[k] == s[k]);
            }
        }
    }
    if all_follow(s, rel, lo, hi, v) {
        assert forall|k: int| 0 <= k < t.len() && lo <= k < hi implies precedes(
            rel,
            v,
            #[trigger] t[k],
        ) by {
            if a <= k < b {
                assert(occurs(s, a, b, t[k]));
            } else {
                assert(t[k] == s[k]);
            }
        }
    }
}

/// A stretch stays in order while what lies outside it is rearranged.
proof fn lemma_sorted_kept<T>(
    s: Seq<T>,
    t: Seq<T>,
    rel: spec_fn(T, T) -> Ordering,
    lo: int,
    hi: int,
    a: int,
    b: int,
)
    requires
        rearranged(s, t, a, b),
        0 <= lo,
        hi <= s.len(),
        b <= lo || hi <= a,
        sorted_between(s, rel, lo, hi),
    ensures
        sorted_between(t, rel, lo, hi),
{
    lemma_rearranged_keeps(s, t, a, b);
    assert forall|i: int, j: int| lo <= i < j < hi implies precedes(
        rel,
        #[trigger] t[i],
        #[trigger] t[j],
    ) by {
        assert(t[i] == s[i]);
        assert(t[j] == s[j]);
    }
}

/// Once the elements that equal the pivot `v` have been moved from the two ends
/// to the middle, nothing below `g` comes after the pivot and nothing from `e`
/// on comes before it.
proof fn lemma_collapsed<T>(
    t0: Seq<T>,
    t1: Seq<T>,
    t2: Seq<T>,
    rel: spec_fn(T, T) -> Ordering,
    v: T,
    left: int,
    right: int,
    i: int,
    p: int,
    q: int,
    e: int,
    g: int,
)
    requires
        0 <= left <= p <= i <= q <= right < t0.len(),
        e == i - (p - left),
        g == i + 1 + (right - q),
        all_precede(t0, rel, left, i + 1, v),
        all_follow(t0, rel, i, right + 1, v),
        all_follow(t0, rel, left, p, v),
        all_precede(t0, rel, q, right, v),
        i == q ==> precedes(rel, t0[right], v),
        rearranged(t0, t1, left, i),
        forall|t: int| e <= t < i ==> occurs(t0, left, p, #[trigger] t1[t]),
        q > i ==> rearranged(t1, t2, i + 1, right + 1),
        q > i ==> forall|t: int| i < t < g ==> occurs(t1, q, right, #[trigger] t2[t]),
        q == i ==> rearranged(t1, t2, i, right + 1),
    ensures
        all_precede(t2, rel, left, g, v),
        all_follow(t2, rel, e, right + 1, v),
{
    lemma_rearranged_keeps(t0, t1, left, i);
    lemma_zones_kept(t0, t1, rel, v, left, i, left, i);
    lemma_zones_kept(t0, t1, rel, v, i, right + 1, left, i);
    assert(all_precede(t1, rel, left, i, v));
    assert(all_follow(t1, rel, i, right + 1, v));
    assert forall|k: int| 0 <= k < t1.len() && e <= k < right + 1 implies precedes(
        rel,
        v,
        #[trigger] t1[k],
    ) by {
        if k < i {
            assert(occurs(t0, left, p, t1[k]));
        }
    }
    assert forall|k: int| 0 <= k < t1.len() && i <= k < right + 1 implies t1[k] == t0[k] by {}
    if q > i {
        lemma_rearranged_keeps(t1, t2, i + 1, right + 1);
        lemma_zones_kept(t1, t2, rel, v, e, right + 1, i + 1, right + 1);
        assert forall|k: int| 0 <= k < t2.len() && left <= k < g implies precedes(
            rel,
            #[trigger] t2[k],
            v,
        ) by {
            if k <= i {
                assert(t2[k] == t1[k]);
                if k == i {
                    assert(t1[k] == t0[k]);
                }
            } else {
                assert(occurs(t1, q, right, t2[k]));
                let m = choose|m: int| 0 <= m < t1.len() && q <= m < right && t1[m] == t2[k];
                assert(t1[m] == t0[m]);
            }
        }
    } else {
        lemma_rearranged_keeps(t1, t2, i, right + 1);
        lemma_rearranged_draws(t1, t2, i, right + 1);
        lemma_zones_kept(t1, t2, rel, v, e, right + 1, i, right + 1);
        assert forall|k: int| 0 <= k < t2.len() && left <= k < g implies precedes(
            rel,
            #[trigger] t2[k],
            v,
        ) by {
            if k < i {
                assert(t2[k] == t1[k]);
            } else {
                assert(occurs(t1, i, right + 1, t2[k]));
                let m = choose|m: int| 0 <= m < t1.len() && i <= m < right + 1 && t1[m] == t2[k];
                assert(t1[m] == t0[m]);
            }
        }
    }
}

/// A range is in order once nothing below `g` comes after `v`, nothing from `e`
/// on comes before `v`, and the stretches below `e` and from `g` on are in order.
proof fn lemma_sorted_around<T>(
    t: Seq<T>,
    rel: spec_fn(T, T) -> Ordering,
    domain: Set<T>,
    v: T,
    left: int,
    right: int,
    e: int,
    g: int,
)
    requires
        0 <= left <= e <= g <= right + 1 <= t.len(),
        total_preorder(rel, domain),
        within(t, domain),
        domain.contains(v),
        all_precede(t, rel, left, g, v),
        all_follow(t, rel, e, right + 1, v),
        sorted_between(t, rel, left, e),
        sorted_between(t, rel, g, right + 1),
    ensures
        sorted_between(t, rel, left, right + 1),
{
    assert forall|i: int, j: int| left <= i < j < right + 1 implies precedes(
        rel,
        #[trigger] t[i],
        #[trigger] t[j],
    ) by {
        if j < e {
        } else if i >= g {
        } else {
            assert(domain.contains(t[i]) && domain.contains(t[j]));
            assert(precedes(rel, t[i], v));
            assert(precedes(rel, v, t[j]));
        }
    }
}

/// Divides the range from `left` to `right`, whose pivot stands at `right`, in
/// three: elements that are less than the pivot, elements that equal it, and
/// elements that are not less. Returns where the second and the third part
/// start.
fn partition<Arr, F>(
    array: &mut Arr,
    left: usize,
    right: usize,
    compare: &F,
    Ghost(domain): Ghost<Set<Arr::Output>>,
) -> (parts: (usize, usize))
    where Arr: ArrayAccess + ?Sized, Arr::Output: Sized, F: Fn(&Arr::Output, &Arr::Output) -> Ordering
    requires
        valid(old(array)),
        left < right < old(array).spec_len(),
        within(old(array).elements(), domain),
        comparable(*compare, domain),
    ensures
        valid(final(array)),
        rearranged(old(array).elements(), final(array).elements(), pos(left), pos(right) + 1),
        within(final(array).elements(), domain),
        left <= parts.0 <= right,
        parts.0 < parts.1 <= right + 1,
        forall|rel: spec_fn(Arr::Output, Arr::Output) -> Ordering| #[trigger]
            orders(*compare, rel, domain) ==> {
                let t = final(array).elements();
                let v = at(old(array).elements(), right);
                &&& all_precede(t, rel, pos(left), pos(parts.1), v)
                &&& all_follow(t, rel, pos(parts.0), pos(right) + 1, v)
            },
{
    let ghost s0 = array.elements();
    let ghost v = at(s0, right);
    let ghost stretch = pos(right) + 1;
    proof {
        lemma_len(array);
    }
    let (i, p, q) = gather(array, left, right, compare, Ghost(domain));
    let ghost t0 = array.elements();
    proof {
        lemma_len(array);
        lemma_rearranged_keeps(s0, t0, pos(left), stretch);
    }
    let e = collapse_low(array, left, i, p);
    let ghost t1 = array.elements();
    proof {
        lemma_len(array);
        lemma_rearranged_keeps(t0, t1, pos(left), pos(i));
    }
    let g = collapse_high(array, i, q, right);
    proof {
        let t2 = array.elements();
        lemma_rearranged_wider(t0, t1, pos(left), pos(i), pos(left), stretch);
        if q > i {
            lemma_rearranged_wider(t1, t2, pos(i) + 1, stretch, pos(left), stretch);
        } else {
            lemma_rearranged_wider(t1, t2, pos(i), stretch, pos(left), stretch);
        }
        lemma_rearranged_twice(s0, t0, t1, pos(left), stretch);
        lemma_rearranged_twice(s0, t1, t2, pos(left), stretch);
        lemma_rearranged_within(s0, t2, pos(left), stretch, domain);
        assert forall|rel: spec_fn(Arr::Output, Arr::Output) -> Ordering| #[trigger]
            orders(*compare, rel, domain) implies all_precede(t2, rel, pos(left), pos(g), v)
            && all_follow(t2, rel, pos(e), stretch, v) by {
            lemma_collapsed(
                t0,
                t1,
                t2,
                rel,
                v,
                pos(left),
                pos(right),
                pos(i),
                pos(p),
                pos(q),
                pos(e),
                pos(g),
            );
        }
    }
    (e, g)
}

/// Sorts the range from `left` to `right`: draws a pivot, divides the range by
/// it and sorts what is less than the pivot and what is not.
fn do_quicksort<Arr, F>(
    array: &mut Arr,
    left: usize,
    right: usize,
    compare: &F,
    rng: &mut Xoshiro256Plus,
    Ghost(domain): Ghost<Set<Arr::Output>>,
)
    where Arr: ArrayAccess + ?Sized, Arr::Output: Sized, F: Fn(&Arr::Output, &Arr::Output) -> Ordering
    requires
        valid(old(array)),
        left < right ==> right < old(array).spec_len(),
        within(old(array).elements(), domain),
        comparable(*compare, domain),
    ensures
        valid(final(array)),
        rearranged(old(array).elements(), final(array).elements(), pos(left), pos(right) + 1),
        within(final(array).elements(), domain),
        forall|rel: spec_fn(Arr::Output, Arr::Output) -> Ordering| #[trigger]
            orders(*compare, rel, domain) ==> sorted_between(
                final(array).elements(),
                rel,
                pos(left),
                pos(right) + 1,
            ),
    decreases
            (if right > left {
                right - left
            } else {
                0
            }),
{
    let ghost s0 = array.elements();
    let ghost stretch = pos(right) + 1;
    proof {
        lemma_len(array);
        lemma_rearranged_same(s0, pos(left), stretch);
    }
    if right <= left {
        return ;
    }
    let pivot = gen_range(rng, left, right + 1);
    array.swap(right, pivot);
    let ghost s1 = array.elements();
    let ghost v = at(s1, right);
    proof {
        lemma_len(array);
        lemma_rearranged_exchange(s0, pos(right), pos(pivot), pos(left), stretch);
        lemma_rearranged_within(s0, s1, pos(left), stretch, domain);
    }
    let (e, g) = partition(array, left, right, compare, Ghost(domain));
    let ghost s2 = array.elements();
    proof {
        lemma_len(array);
        lemma_rearranged_keeps(s1, s2, pos(left), stretch);
        lemma_rearranged_twice(s0, s1, s2, pos(left), stretch);
    }
    if e > left {
        do_quicksort(array, left, e - 1, compare, rng, Ghost(domain));
    }
    let ghost s3 = array.elements();
    proof {
        lemma_len(array);
        if e > left {
        } else {
            lemma_rearranged_same(s2, pos(left), pos(e));
        }
        lemma_rearranged_keeps(s2, s3, pos(left), pos(e));
    }
    do_quicksort(array, g, right, compare, rng, Ghost(domain));
    proof {
        let s4 = array.elements();
        lemma_rearranged_keeps(s3, s4, pos(g), stretch);
        lemma_rearranged_wider(s2, s3, pos(left), pos(e), pos(left), stretch);
        lemma_rearranged_wider(s3, s4, pos(g), stretch, pos(left), stretch);
        lemma_rearranged_twice(s0, s2, s3, pos(left), stretch);
        lemma_rearranged_twice(s0, s3, s4, pos(left), stretch);
        assert forall|rel: spec_fn(Arr::Output, Arr::Output) -> Ordering| #[trigger]
            orders(*compare, rel, domain) implies sorted_between(s4, rel, pos(left), stretch) by {
            assert(domain.contains(s1[pos(right)]));
            lemma_zones_kept(s2, s3, rel, v, pos(left), pos(g), pos(left), pos(e));
            lemma_zones_kept(s2, s3, rel, v, pos(e), stretch, pos(left), pos(e));
            lemma_zones_kept(s3, s4, rel, v, pos(left), pos(g), pos(g), stretch);
            lemma_zones_kept(s3, s4, rel, v, pos(e), stretch, pos(g), stretch);
            lemma_sorted_kept(s3, s4, rel, pos(left), pos(e), pos(g), stretch);
            lemma_sorted_around(s4, rel, domain, v, pos(left), pos(right), pos(e), pos(g));
        }
    }
}

/// Sorts the elements of `array` from `left` to `right`, both included, by
/// `compare`. Elements that `compare` calls equal may change their order.
///
/// The range keeps its elements and the rest of the array stays as it is. Where
/// `compare` computes a total preorder on the elements of the array, the range
/// is in that order afterwards.
pub fn quicksort<Arr, F>(array: &mut Arr, left: usize, right: usize, compare: F)
    where Arr: ArrayAccess + ?Sized, Arr::Output: Sized, F: Fn(&Arr::Output, &Arr::Output) -> Ordering
    requires
        valid(old(array)),
        left < right ==> right < old(array).spec_len(),
        comparable(compare, old(array).elements().to_set()),
    ensures
        valid(final(array)),
        final(array).elements().len() == old(array).elements().len(),
        final(array).elements().to_multiset() == old(array).elements().to_multiset(),
        forall|k: int|
            0 <= k < old(array).elements().len() && !(left <= k <= right)
                ==> #[trigger] final(array).elements()[k] == old(array).elements()[k],
        sorted_for_between(
            compare,
            old(array).elements(),
            final(array).elements(),
            pos(left),
            pos(right) + 1,
        ),
{
    let ghost s0 = array.elements();
    let ghost domain = s0.to_set();
    proof {
        assert forall|k: int| 0 <= k < s0.len() implies domain.contains(#[trigger] s0[k]) by {
            assert(s0.contains(s0[k]));
        }
    }
    let mut rng = seeded_generator(PIVOT_SEED);
    do_quicksort(array, left, right, &compare, &mut rng, Ghost(domain));
    proof {
        lemma_rearranged_keeps(s0, array.elements(), pos(left), pos(right) + 1);
    }
}

} // verus!
