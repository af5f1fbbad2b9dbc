//! Searching and partitioning sorted slices.
use core::cmp::Ordering;
use vstd::prelude::*;

verus! {

/// Less, Equal and Greater as -1, 0 and 1.
pub open spec fn ord_rank(o: Ordering) -> int {
    match o {
        Ordering::Less => -1,
        Ordering::Equal => 0,
        Ordering::Greater => 1,
    }
}

/// `f` may be called on every element of `s` and answers each value the same way every time.
pub open spec fn is_comparator<T, F: Fn(&T) -> Ordering>(s: Seq<T>, f: F) -> bool {
    &&& forall|i: int| 0 <= i < s.len() ==> #[trigger] f.requires((&s[i],))
    &&& forall|x: &T, a: Ordering, b: Ordering|
        #[trigger] f.ensures((x,), a) && #[trigger] f.ensures((x,), b) ==> a == b
}

/// The answers of `f` never go down along `s`: first the Less, then the Equal, then the Greater ones.
pub open spec fn sorted_by_cmp<T, F: Fn(&T) -> Ordering>(s: Seq<T>, f: F) -> bool {
    forall|i: int, j: int, a: Ordering, b: Ordering|
        0 <= i <= j < s.len() && #[trigger] f.ensures((&s[i],), a) && #[trigger] f.ensures(
            (&s[j],),
            b,
        ) ==> ord_rank(a) <= ord_rank(b)
}

/// Exactly the positions `lo..hi` of `s` are those on which `f` answers Equal.
pub open spec fn is_equal_range<T, F: Fn(&T) -> Ordering>(s: Seq<T>, f: F, lo: int, hi: int) -> bool {
    &&& 0 <= lo <= hi <= s.len()
    &&& forall|i: int, o: Ordering|
        0 <= i < s.len() && #[trigger] f.ensures((&s[i],), o) ==> (o == Ordering::Equal <==> lo
            <= i < hi)
}




/// `f` may be called on every element of `s` and answers there as `key` says.
pub open spec fn agrees<T, F: Fn(&T) -> Ordering>(s: Seq<T>, f: F, key: spec_fn(T) -> Ordering) -> bool {
    &&& forall|i: int| 0 <= i < s.len() ==> #[trigger] f.requires((&s[i],))
    &&& forall|i: int, o: Ordering| 0 <= i < s.len() && #[trigger] f.ensures((&s[i],), o) ==> o == key(s[i])
}

/// The answers of `key` never go down along `s`.
pub open spec fn sorted_by_key<T>(s: Seq<T>, key: spec_fn(T) -> Ordering) -> bool {
    forall|i: int, j: int|
        0 <= i <= j < s.len() ==> ord_rank(#[trigger] key(s[i])) <= ord_rank(#[trigger] key(s[j]))
}

/// Exactly the positions `lo..hi` of `s` are those on which `key` answers Equal.
pub open spec fn is_key_range<T>(s: Seq<T>, key: spec_fn(T) -> Ordering, lo: int, hi: int) -> bool {
    &&& 0 <= lo <= hi <= s.len()
    &&& forall|i: int| 0 <= i < s.len() ==> (#[trigger] key(s[i]) == Ordering::Equal <==> lo <= i < hi)
}

/// `f` holds, or does not, of each value the same way every time, and may be called on anything.
pub open spec fn is_predicate<T, F: Fn(&T) -> bool>(f: F) -> bool {
    &&& forall|x: &T| #[trigger] f.requires((x,))
    &&& forall|x: &T, a: bool, b: bool| #[trigger] f.ensures((x,), a) && #[trigger] f.ensures((x,), b) ==> a == b
}

/// Calls `f` on element `i` of `slice`.
fn call_cmp<T, F: Fn(&T) -> Ordering>(f: &F, slice: &[T], i: usize, Ghost(key): Ghost<spec_fn(T) -> Ordering>) -> (o: Ordering)
    requires
        agrees(slice@, *f, key),
        i < slice@.len(),
    ensures
        o == key(slice@[i as int]),
{
    f(&slice[i])
}

/// The first position in `lo..hi` at which `key` does not answer Less, or `hi` if there is none.
fn first_not_less<T, F: Fn(&T) -> Ordering>(
    slice: &[T],
    f: &F,
    lo: usize,
    hi: usize,
    Ghost(key): Ghost<spec_fn(T) -> Ordering>,
) -> (r: usize)
    requires
        agrees(slice@, *f, key),
        sorted_by_key(slice@, key),
        lo <= hi <= slice@.len(),
    ensures
        lo <= r <= hi,
        forall|i: int| lo <= i < r ==> #[trigger] key(slice@[i]) == Ordering::Less,
        forall|i: int| r <= i < hi ==> #[trigger] key(slice@[i]) != Ordering::Less,
{
    let mut a = lo;
    let mut b = hi;
    while a < b
        invariant
            agrees(slice@, *f, key),
            sorted_by_key(slice@, key),
            lo <= a <= b <= hi <= slice@.len(),
            forall|i: int| lo <= i < a ==> #[trigger] key(slice@[i]) == Ordering::Less,
            forall|i: int| b <= i < hi ==> #[trigger] key(slice@[i]) != Ordering::Less,
        decreases b - a,
    {
        let m = a + (b - a) / 2;
        let o = call_cmp(f, slice, m, Ghost(key));
        if matches!(o, Ordering::Less) {
            proof {
                assert forall|i: int| lo <= i < m + 1 implies #[trigger] key(slice@[i])
                    == Ordering::Less by {
                    if i > a {
                        assert(ord_rank(key(slice@[i])) <= ord_rank(key(slice@[m as int])));
                    }
                }
            }
            a = m + 1;
        } else {
            proof {
                assert forall|i: int| m <= i < hi implies #[trigger] key(slice@[i])
                    != Ordering::Less by {
                    assert(ord_rank(key(slice@[m as int])) <= ord_rank(key(slice@[i])));
                }
            }
            b = m;
        }
    }
    a
}

/// The first position in `lo..hi` at which `key` answers Greater, or `hi` if there is none.
fn first_greater<T, F: Fn(&T) -> Ordering>(
    slice: &[T],
    f: &F,
    lo: usize,
    hi: usize,
    Ghost(key): Ghost<spec_fn(T) -> Ordering>,
) -> (r: usize)
    requires
        agrees(slice@, *f, key),
        sorted_by_key(slice@, key),
        lo <= hi <= slice@.len(),
    ensures
        lo <= r <= hi,
        forall|i: int| lo <= i < r ==> #[trigger] key(slice@[i]) != Ordering::Greater,
        forall|i: int| r <= i < hi ==> #[trigger] key(slice@[i]) == Ordering::Greater,
{
    let mut a = lo;
    let mut b = hi;
    while a < b
        invariant
            agrees(slice@, *f, key),
            sorted_by_key(slice@, key),
            lo <= a <= b <= hi <= slice@.len(),
            forall|i: int| lo <= i < a ==> #[trigger] key(slice@[i]) != Ordering::Greater,
            forall|i: int| b <= i < hi ==> #[trigger] key(slice@[i]) == Ordering::Greater,
        decreases b - a,
    {
        let m = a + (b - a) / 2;
        let o = call_cmp(f, slice, m, Ghost(key));
        if !matches!(o, Ordering::Greater) {
            proof {
                assert forall|i: int| lo <= i < m + 1 implies #[trigger] key(slice@[i])
                    != Ordering::Greater by {
                    if i > a {
                        assert(ord_rank(key(slice@[i])) <= ord_rank(key(slice@[m as int])));
                    }
                }
            }
            a = m + 1;
        } else {
            proof {
                assert forall|i: int| m <= i < hi implies #[trigger] key(slice@[i])
                    == Ordering::Greater by {
                    assert(ord_rank(key(slice@[m as int])) <= ord_rank(key(slice@[i])));
                }
            }
            b = m;
        }
    }
    a
}

/// The bounds `(lo, hi)` of the run of elements on which `f` answers Equal, `key` telling what
/// `f` answers; an empty range when there is none.
///
/// Two guard comparisons, against the middle and the ends, turn away complete misses and halve
/// the range of the left-end search. The left end is found by a binary search in which Equal
/// counts as Greater; the right end by an exponential search from there in which Equal counts
/// as Less.
pub fn equal_range_by<T, F: Fn(&T) -> Ordering>(
    slice: &[T],
    f: &F,
    Ghost(key): Ghost<spec_fn(T) -> Ordering>,
) -> (r: (usize, usize))
    requires
        agrees(slice@, *f, key),
        sorted_by_key(slice@, key),
        slice@.len() < usize::MAX / 2,
    ensures
        is_key_range(slice@, key, r.0 as int, r.1 as int),
        r.0 == r.1 ==> r.0 == 0,
{
    let len = slice.len();
    if len == 0 {
        return (0, 0);
    }
    let first = call_cmp(f, slice, 0, Ghost(key));
    let last = call_cmp(f, slice, len - 1, Ghost(key));
    if matches!(first, Ordering::Greater) || matches!(last, Ordering::Less) {
        proof {
            assert forall|i: int| 0 <= i < slice@.len() implies (#[trigger] key(slice@[i])
                == Ordering::Equal <==> 0 <= i < 0) by {
                assert(ord_rank(key(slice@[0])) <= ord_rank(key(slice@[i])));
                assert(ord_rank(key(slice@[i])) <= ord_rank(key(slice@[len - 1])));
            }
        }
        return (0, 0);
    }
    let mid = len / 2;
    let at_mid = call_cmp(f, slice, mid, Ghost(key));
    let (lo, hi) = if matches!(at_mid, Ordering::Less) {
        (mid + 1, len)
    } else {
        (0, mid + 1)
    };
    let pos = first_not_less(slice, f, lo, hi, Ghost(key));
    proof {
        assert forall|i: int| 0 <= i < pos implies #[trigger] key(slice@[i]) == Ordering::Less by {
            if i < lo {
                assert(ord_rank(key(slice@[i])) <= ord_rank(key(slice@[mid as int])));
            }
        }
        assert forall|i: int| pos <= i < len implies #[trigger] key(slice@[i]) != Ordering::Less by {
            if i >= hi {
                assert(ord_rank(key(slice@[mid as int])) <= ord_rank(key(slice@[i])));
            }
        }
    }
    if pos == len {
        return (0, 0);
    }
    let at_pos = call_cmp(f, slice, pos, Ghost(key));
    if !matches!(at_pos, Ordering::Equal) {
        proof {
            assert forall|i: int| 0 <= i < slice@.len() implies (#[trigger] key(slice@[i])
                == Ordering::Equal <==> 0 <= i < 0) by {
                if i > pos {
                    assert(ord_rank(key(slice@[pos as int])) <= ord_rank(key(slice@[i])));
                }
            }
        }
        return (0, 0);
    }
    let end = exponential_end_by(slice, f, pos, Ghost(key));
    (pos, end)
}

/// The end of the run of Equal answers that starts at `start`: the first position from there at
/// which `key` answers Greater, found by doubling a bound and then searching below it.
fn exponential_end_by<T, F: Fn(&T) -> Ordering>(
    slice: &[T],
    f: &F,
    start: usize,
    Ghost(key): Ghost<spec_fn(T) -> Ordering>,
) -> (r: usize)
    requires
        agrees(slice@, *f, key),
        sorted_by_key(slice@, key),
        slice@.len() < usize::MAX / 2,
        start < slice@.len(),
        key(slice@[start as int]) == Ordering::Equal,
        forall|i: int| 0 <= i < start ==> #[trigger] key(slice@[i]) == Ordering::Less,
    ensures
        start < r <= slice@.len(),
        is_key_range(slice@, key, start as int, r as int),
{
    let len = slice.len();
    let n = len - start;
    let mut bound: usize = 1;
    let mut going = true;
    while going && bound < n
        invariant
            agrees(slice@, *f, key),
            sorted_by_key(slice@, key),
            len == slice@.len(),
            len < usize::MAX / 2,
            start < len,
            n == len - start,
            1 <= bound <= 2 * n + 2,
            bound / 2 < n,
            !going ==> bound < n && key(slice@[start + bound]) == Ordering::Greater,
            forall|i: int| start <= i <= start + bound / 2 ==> #[trigger] key(slice@[i]) != Ordering::Greater,
        decreases 2 * n + 2 - bound + if going { 1int } else { 0int },
    {
        let o = call_cmp(f, slice, start + bound, Ghost(key));
        if matches!(o, Ordering::Greater) {
            going = false;
        } else {
            bound = bound * 2;
        }
    }
    let lo = start + bound / 2;
    let hi = if bound + 1 < n {
        start + bound + 1
    } else {
        len
    };
    let r = first_greater(slice, f, lo, hi, Ghost(key));
    proof {
        assert forall|i: int| r <= i < len implies #[trigger] key(slice@[i]) == Ordering::Greater by {
            if i >= hi {
                assert(bound < n);
                assert(key(slice@[start + bound]) == Ordering::Greater);
                assert(ord_rank(key(slice@[start + bound])) <= ord_rank(key(slice@[i])));
            }
        }
        assert forall|i: int| start <= i < r implies #[trigger] key(slice@[i]) == Ordering::Equal by {
            assert(ord_rank(key(slice@[start as int])) <= ord_rank(key(slice@[i])));
        }
        assert forall|i: int| 0 <= i < len implies (#[trigger] key(slice@[i]) == Ordering::Equal
            <==> start <= i < r) by {
        }
        assert(r > start) by {
            if r == lo && lo == start {
                assert(key(slice@[start as int]) != Ordering::Greater);
            }
        }
    }
    r
}

/// Calls `f` on element `i` of `slice`.
fn call_on<T, F: Fn(&T) -> Ordering>(f: &F, slice: &[T], i: usize) -> (o: Ordering)
    requires
        is_comparator(slice@, *f),
        i < slice@.len(),
    ensures
        f.ensures((&slice@[i as int],), o),
{
    f(&slice[i])
}

/// `f` answers Less on every element of `lo..hi` on which it answers at all.
pub open spec fn all_less<T, F: Fn(&T) -> Ordering>(s: Seq<T>, f: F, lo: int, hi: int) -> bool {
    forall|i: int, o: Ordering| lo <= i < hi && #[trigger] f.ensures((&s[i],), o) ==> o == Ordering::Less
}

/// `f` answers Greater on every element of `lo..hi` on which it answers at all.
pub open spec fn all_greater<T, F: Fn(&T) -> Ordering>(s: Seq<T>, f: F, lo: int, hi: int) -> bool {
    forall|i: int, o: Ordering| lo <= i < hi && #[trigger] f.ensures((&s[i],), o) ==> o == Ordering::Greater
}

/// `f` answers other than Less on every element of `lo..hi` on which it answers at all.
pub open spec fn none_less<T, F: Fn(&T) -> Ordering>(s: Seq<T>, f: F, lo: int, hi: int) -> bool {
    forall|i: int, o: Ordering| lo <= i < hi && #[trigger] f.ensures((&s[i],), o) ==> o != Ordering::Less
}

/// `f` answers other than Greater on every element of `lo..hi` on which it answers at all.
pub open spec fn none_greater<T, F: Fn(&T) -> Ordering>(s: Seq<T>, f: F, lo: int, hi: int) -> bool {
    forall|i: int, o: Ordering|
        lo <= i < hi && #[trigger] f.ensures((&s[i],), o) ==> o != Ordering::Greater
}

/// The first position in `lo..hi` from which `f` does not answer Less.
fn answers_first_not_less<T, F: Fn(&T) -> Ordering>(slice: &[T], f: &F, lo: usize, hi: usize) -> (r: usize)
    requires
        is_comparator(slice@, *f),
        sorted_by_cmp(slice@, *f),
        lo <= hi <= slice@.len(),
    ensures
        lo <= r <= hi,
        all_less(slice@, *f, lo as int, r as int),
        none_less(slice@, *f, r as int, hi as int),
{
    let mut a = lo;
    let mut b = hi;
    while a < b
        invariant
            is_comparator(slice@, *f),
            sorted_by_cmp(slice@, *f),
            lo <= a <= b <= hi <= slice@.len(),
            all_less(slice@, *f, lo as int, a as int),
            none_less(slice@, *f, b as int, hi as int),
        decreases b - a,
    {
        let m = a + (b - a) / 2;
        let o = call_on(f, slice, m);
        if matches!(o, Ordering::Less) {
            proof {
                assert forall|i: int, p: Ordering|
                    lo <= i < m + 1 && #[trigger] f.ensures((&slice@[i],), p) implies p
                    == Ordering::Less by {
                    if i >= a {
                        assert(f.ensures((&slice@[m as int],), o));
                    }
                }
            }
            a = m + 1;
        } else {
            proof {
                assert forall|i: int, p: Ordering|
                    m <= i < hi && #[trigger] f.ensures((&slice@[i],), p) implies p
                    != Ordering::Less by {
                    assert(f.ensures((&slice@[m as int],), o));
                }
            }
            b = m;
        }
    }
    a
}

/// The first position in `lo..hi` from which `f` answers Greater.
fn answers_first_greater<T, F: Fn(&T) -> Ordering>(slice: &[T], f: &F, lo: usize, hi: usize) -> (r: usize)
    requires
        is_comparator(slice@, *f),
        sorted_by_cmp(slice@, *f),
        lo <= hi <= slice@.len(),
    ensures
        lo <= r <= hi,
        none_greater(slice@, *f, lo as int, r as int),
        all_greater(slice@, *f, r as int, hi as int),
{
    let mut a = lo;
    let mut b = hi;
    while a < b
        invariant
            is_comparator(slice@, *f),
            sorted_by_cmp(slice@, *f),
            lo <= a <= b <= hi <= slice@.len(),
            none_greater(slice@, *f, lo as int, a as int),
            all_greater(slice@, *f, b as int, hi as int),
        decreases b - a,
    {
        let m = a + (b - a) / 2;
        let o = call_on(f, slice, m);
        if !matches!(o, Ordering::Greater) {
            proof {
                assert forall|i: int, p: Ordering|
                    lo <= i < m + 1 && #[trigger] f.ensures((&slice@[i],), p) implies p
                    != Ordering::Greater by {
                    if i >= a {
                        assert(f.ensures((&slice@[m as int],), o));
                    }
                }
            }
            a = m + 1;
        } else {
            proof {
                assert forall|i: int, p: Ordering|
                    m <= i < hi && #[trigger] f.ensures((&slice@[i],), p) implies p
                    == Ordering::Greater by {
                    assert(f.ensures((&slice@[m as int],), o));
                }
            }
            b = m;
        }
    }
    a
}

/// Perform an exponential binary search over the slice: `Ok` with a position at which `f`
/// answers Equal, or `Err` with the position before which `f` answers Less and from which it
/// answers Greater.
pub fn exponential_search_by<T, F: Fn(&T) -> Ordering>(slice: &[T], f: F) -> (r: Result<
    usize,
    usize,
>)
    requires
        is_comparator(slice@, f),
        sorted_by_cmp(slice@, f),
        slice@.len() < usize::MAX / 2,
    ensures
        match r {
            Ok(i) => i < slice@.len() && f.ensures((&slice@[i as int],), Ordering::Equal),
            Err(i) => i <= slice@.len() && all_less(slice@, f, 0, i as int) && all_greater(
                slice@,
                f,
                i as int,
                slice@.len() as int,
            ),
        },
{
    let len = slice.len();
    let (start, stop) = doubling_bound(slice, &f, 0, true);
    if start >= stop {
        return Err(len);
    }
    let pos = answers_first_not_less(slice, &f, start, stop);
    if pos < len {
        let o = call_on(&f, slice, pos);
        if matches!(o, Ordering::Equal) {
            return Ok(pos);
        }
        proof {
            assert forall|i: int, p: Ordering|
                pos <= i < slice@.len() && #[trigger] f.ensures((&slice@[i],), p) implies p
                == Ordering::Greater by {
                assert(f.ensures((&slice@[pos as int],), o));
            }
        }
    }
    Err(pos)
}

/// From `from`, doubles a bound while `f` answers Less (when `less` is set) or other than
/// Greater (when it is not), and returns the range `(start, stop)` left to search: before
/// `start` the sought change has not happened, from `stop` on it has.
fn doubling_bound<T, F: Fn(&T) -> Ordering>(slice: &[T], f: &F, from: usize, less: bool) -> (r: (
    usize,
    usize,
))
    requires
        is_comparator(slice@, *f),
        sorted_by_cmp(slice@, *f),
        slice@.len() < usize::MAX / 2,
        from <= slice@.len(),
        less ==> from == 0,
        !less ==> from < slice@.len() && none_greater(slice@, *f, from as int, from + 1),
    ensures
        from <= r.0 <= slice@.len(),
        r.0 <= r.1 <= slice@.len() || r.0 >= r.1,
        r.1 <= slice@.len(),
        less ==> all_less(slice@, *f, 0, r.0 as int) && (r.1 < slice@.len() ==> none_less(
            slice@,
            *f,
            r.1 as int,
            slice@.len() as int,
        )),
        less && r.0 >= r.1 ==> all_less(slice@, *f, 0, slice@.len() as int),
        !less ==> none_greater(slice@, *f, from as int, r.0 as int + 1) && r.0 < slice@.len()
            && r.0 < r.1 && (r.1 < slice@.len() ==> all_greater(
            slice@,
            *f,
            r.1 as int,
            slice@.len() as int,
        )),
{
    let len = slice.len();
    let n = len - from;
    let mut bound: usize = 1;
    let mut going = true;
    while going && bound < n
        invariant
            is_comparator(slice@, *f),
            sorted_by_cmp(slice@, *f),
            len == slice@.len(),
            len < usize::MAX / 2,
            from <= len,
            n == len - from,
            less ==> from == 0,
            !less ==> from < len && none_greater(slice@, *f, from as int, from + 1),
            1 <= bound <= 2 * n + 2,
            bound > 1 ==> bound / 2 < n,
            !going ==> bound < n,
            !going && less ==> none_less(slice@, *f, (from + bound) as int, len as int),
            !going && !less ==> all_greater(slice@, *f, (from + bound) as int, len as int),
            less && bound > 1 ==> all_less(slice@, *f, 0, (from + bound / 2 + 1) as int),
            !less ==> none_greater(slice@, *f, from as int, (from + bound / 2 + 1) as int),
        decreases 2 * n + 2 - bound + if going { 1int } else { 0int },
    {
        let o = call_on(f, slice, from + bound);
        let cont = if less {
            matches!(o, Ordering::Less)
        } else {
            !matches!(o, Ordering::Greater)
        };
        proof {
            let at = (from + bound) as int;
            assert(f.ensures((&slice@[at],), o));
            if cont {
                if less {
                    assert forall|i: int, p: Ordering|
                        0 <= i < at + 1 && #[trigger] f.ensures((&slice@[i],), p) implies p
                        == Ordering::Less by {
                    }
                } else {
                    assert forall|i: int, p: Ordering|
                        from <= i < at + 1 && #[trigger] f.ensures((&slice@[i],), p) implies p
                        != Ordering::Greater by {
                    }
                }
            } else {
                if less {
                    assert forall|i: int, p: Ordering|
                        at <= i < len && #[trigger] f.ensures((&slice@[i],), p) implies p
                        != Ordering::Less by {
                    }
                } else {
                    assert forall|i: int, p: Ordering|
                        at <= i < len && #[trigger] f.ensures((&slice@[i],), p) implies p
                        == Ordering::Greater by {
                    }
                }
            }
        }
        if cont {
            proof {
                assert((from + (bound * 2) / 2 + 1) as int == from + bound + 1);
            }
            bound = bound * 2;
        } else {
            going = false;
        }
    }
    let start = from + bound / 2;
    let stop = if bound + 1 < n {
        from + bound + 1
    } else {
        len
    };
    proof {
        if less && start >= stop {
            assert(bound > 1 || n <= 1);
        }
    }
    (start, stop)
}

/// Search the slice using binary search with the given comparator. Return a slice starting at the first index for
/// which the comparator returns `Ordering::Equal`, and ending at the last such index (inclusive). If the comparator
/// never returns `Ordering::Equal`, return an empty slice.
pub fn extended_binary_search_by<T, F: Fn(&T) -> Ordering>(slice: &[T], f: F) -> (r: &[T])
    requires
        is_comparator(slice@, f),
        sorted_by_cmp(slice@, f),
        slice@.len() < usize::MAX / 2,
    ensures
        exists|lo: int, hi: int|
            is_equal_range(slice@, f, lo, hi) && r@ == slice@.subrange(lo, hi),
{
    let len = slice.len();
    if len == 0 {
        return &slice[0..0];
    }
    let first = call_on(&f, slice, 0);
    let last = call_on(&f, slice, len - 1);
    if matches!(first, Ordering::Greater) || matches!(last, Ordering::Less) {
        proof {
            assert(is_equal_range(slice@, f, 0, 0)) by {
                assert forall|i: int, o: Ordering|
                    0 <= i < slice@.len() && #[trigger] f.ensures((&slice@[i],), o) implies (o
                    == Ordering::Equal <==> 0 <= i < 0) by {
                    assert(f.ensures((&slice@[0],), first));
                    assert(f.ensures((&slice@[len - 1],), last));
                }
            }
        }
        return &slice[0..0];
    }
    let mid = len / 2;
    let at_mid = call_on(&f, slice, mid);
    let (lo, hi) = if matches!(at_mid, Ordering::Less) {
        (mid + 1, len)
    } else {
        (0, mid + 1)
    };
    let pos = answers_first_not_less(slice, &f, lo, hi);
    proof {
        assert(all_less(slice@, f, 0, pos as int)) by {
            assert forall|i: int, o: Ordering|
                0 <= i < pos && #[trigger] f.ensures((&slice@[i],), o) implies o == Ordering::Less by {
                assert(f.ensures((&slice@[mid as int],), at_mid));
            }
        }
        assert(none_less(slice@, f, pos as int, len as int)) by {
            assert forall|i: int, o: Ordering|
                pos <= i < len && #[trigger] f.ensures((&slice@[i],), o) implies o
                != Ordering::Less by {
                assert(f.ensures((&slice@[mid as int],), at_mid));
            }
        }
    }
    if pos == len {
        proof {
            assert(is_equal_range(slice@, f, 0, 0));
        }
        return &slice[0..0];
    }
    let at_pos = call_on(&f, slice, pos);
    if !matches!(at_pos, Ordering::Equal) {
        proof {
            assert(is_equal_range(slice@, f, 0, 0)) by {
                assert forall|i: int, o: Ordering|
                    0 <= i < slice@.len() && #[trigger] f.ensures((&slice@[i],), o) implies (o
                    == Ordering::Equal <==> 0 <= i < 0) by {
                    assert(f.ensures((&slice@[pos as int],), at_pos));
                }
            }
        }
        return &slice[0..0];
    }
    let (start, stop) = doubling_bound(slice, &f, pos, false);
    let end = answers_first_greater(slice, &f, start, stop);
    proof {
        assert(is_equal_range(slice@, f, pos as int, end as int)) by {
            assert forall|i: int, o: Ordering|
                0 <= i < slice@.len() && #[trigger] f.ensures((&slice@[i],), o) implies (o
                == Ordering::Equal <==> pos <= i < end) by {
                assert(f.ensures((&slice@[pos as int],), at_pos));
            }
        }
    }
    &slice[pos..end]
}

/// Partition the slice according to the given predicate.
///
/// Elements for which the predicate returns `true` are placed at the start of the slice, each
/// side keeping its order.
pub fn partition<T: Copy, F: Fn(&T) -> bool>(data: &mut [T], predicate: F) -> (split: usize)
    requires
        is_predicate(predicate),
    ensures
        final(data)@ == old(data)@.filter(|x: T| predicate.ensures((&x,), true)) + old(
            data,
        )@.filter(|x: T| predicate.ensures((&x,), false)),
        split == old(data)@.filter(|x: T| predicate.ensures((&x,), true)).len(),
{
    let ghost orig = data@;
    let ghost keep = |x: T| predicate.ensures((&x,), true);
    let ghost drop = |x: T| predicate.ensures((&x,), false);
    let mut kept: Vec<T> = Vec::new();
    let mut dropped: Vec<T> = Vec::new();
    let mut i: usize = 0;
    while i < data.len()
        invariant
            is_predicate(predicate),
            data@ == orig,
            0 <= i <= orig.len(),
            keep == (|x: T| predicate.ensures((&x,), true)),
            drop == (|x: T| predicate.ensures((&x,), false)),
            kept@ == orig.take(i as int).filter(keep),
            dropped@ == orig.take(i as int).filter(drop),
            kept@.len() + dropped@.len() == i,
        decreases orig.len() - i,
    {
        let x = data[i];
        let b = predicate(&x);
        proof {
            assert(orig.take(i + 1) =~= orig.take(i as int).push(x));
            lemma_filter_push(orig.take(i as int), x, keep);
            lemma_filter_push(orig.take(i as int), x, drop);
            assert(predicate.ensures((&x,), b));
        }
        if b {
            kept.push(x);
        } else {
            dropped.push(x);
        }
        i = i + 1;
    }
    proof {
        assert(orig.take(orig.len() as int) =~= orig);
    }
    let split = kept.len();
    let mut j: usize = 0;
    while j < data.len()
        invariant
            kept@ == orig.filter(keep),
            dropped@ == orig.filter(drop),
            kept@.len() + dropped@.len() == orig.len(),
            data@.len() == orig.len(),
            0 <= j <= orig.len(),
            split == kept@.len(),
            forall|k: int| 0 <= k < j ==> data@[k] == #[trigger] (kept@ + dropped@)[k],
        decreases orig.len() - j,
    {
        if j < split {
            data[j] = kept[j];
        } else {
            data[j] = dropped[j - split];
        }
        j = j + 1;
    }
    proof {
        assert(data@ =~= kept@ + dropped@);
    }
    split
}

/// Filtering a sequence with one more element at its end.
pub proof fn lemma_filter_push<A>(s: Seq<A>, x: A, p: spec_fn(A) -> bool)
    ensures
        s.push(x).filter(p) == (if p(x) {
            s.filter(p).push(x)
        } else {
            s.filter(p)
        }),
{
    reveal_with_fuel(Seq::filter, 1);
    assert(s.push(x).drop_last() =~= s);
}

} // verus!
