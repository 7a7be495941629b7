use core::cmp::Ordering;
use vstd::prelude::*;
use vstd::std_specs::cmp::OrdSpec;

use crate::pow2::{bit_floor, is_pow2, next_power_of_two};

verus! {

/// Position of a verdict in the order Less < Equal < Greater.
pub open spec fn rank(o: Ordering) -> int {
    match o {
        Ordering::Less => 0,
        Ordering::Equal => 1,
        Ordering::Greater => 2,
    }
}

/// Along indices `0..n`, the verdicts that `v` admits never go down: every
/// Less comes before every Equal, which comes before every Greater. A relation
/// with this property also admits at most one verdict per index.
pub open spec fn monotone(n: int, v: spec_fn(int, Ordering) -> bool) -> bool {
    forall|i: int, j: int, oi: Ordering, oj: Ordering|
        0 <= i <= j < n && #[trigger] v(i, oi) && #[trigger] v(j, oj) ==> rank(oi) <= rank(oj)
}

/// Every verdict that `v` admits at an index in `lo..hi` is `o`.
pub open spec fn only_verdict(
    v: spec_fn(int, Ordering) -> bool,
    lo: int,
    hi: int,
    o: Ordering,
) -> bool {
    forall|k: int, ok: Ordering| lo <= k < hi && #[trigger] v(k, ok) ==> ok == o
}

/// What a search over indices `0..n` with verdicts `v` returns.
///
/// `Ok(i)` names an index where Equal was reported; `Err(i)` is an insertion
/// point in `0..=n`. When the verdicts are monotone, the result is exact:
/// everything before `i` is Less, `Ok(i)` is the leftmost Equal, and after an
/// `Err(i)` everything from `i` on is Greater.
pub open spec fn is_search_result(
    n: int,
    v: spec_fn(int, Ordering) -> bool,
    r: Result<usize, usize>,
) -> bool {
    match r {
        Ok(i) => {
            &&& 0 <= i < n
            &&& v(i as int, Ordering::Equal)
            &&& monotone(n, v) ==> {
                &&& i > 0 ==> v(i - 1, Ordering::Less)
                &&& only_verdict(v, 0, i as int, Ordering::Less)
            }
        },
        Err(i) => {
            &&& 0 <= i <= n
            &&& monotone(n, v) ==> {
                &&& i > 0 ==> v(i - 1, Ordering::Less)
                &&& i < n ==> v(i as int, Ordering::Greater)
                &&& only_verdict(v, 0, i as int, Ordering::Less)
                &&& only_verdict(v, i as int, n, Ordering::Greater)
            }
        },
    }
}

/// The verdicts that the comparator `f` may give on the elements of `s`.
pub open spec fn verdicts<'a, T: 'a, F: FnMut(&'a T) -> Ordering>(s: Seq<T>, f: F) -> spec_fn(
    int,
    Ordering,
) -> bool {
    |i: int, o: Ordering| call_ensures(f, (&s[i],), o)
}

/// Once the boundary facts hold, the universal ones follow from monotonicity.
proof fn lemma_boundary_spreads(n: int, v: spec_fn(int, Ordering) -> bool, i: int)
    requires
        0 <= i <= n,
        monotone(n, v),
        i > 0 ==> v(i - 1, Ordering::Less),
    ensures
        only_verdict(v, 0, i, Ordering::Less),
        i < n && (v(i, Ordering::Greater)) ==> only_verdict(v, i, n, Ordering::Greater),
{
    assert forall|k: int, ok: Ordering| 0 <= k < i && #[trigger] v(k, ok) implies ok
        == Ordering::Less by {
        assert(rank(ok) <= rank(Ordering::Less));
    }
    if i < n && v(i, Ordering::Greater) {
        assert forall|k: int, ok: Ordering| i <= k < n && #[trigger] v(k, ok) implies ok
            == Ordering::Greater by {
            assert(rank(Ordering::Greater) <= rank(ok));
        }
    }
}

/// The verdicts of comparing each element of `s` with `x` by `Ord`.
pub open spec fn cmp_verdicts<T: Ord>(s: Seq<T>, x: T) -> spec_fn(int, Ordering) -> bool {
    |i: int, o: Ordering| o == s[i].cmp_spec(&x)
}

/// The verdicts of comparing, by `Ord`, a key that `f` may extract from each
/// element of `s` with the key `b`.
pub open spec fn key_verdicts<'a, T: 'a, B: Ord, F: Fn(&'a T) -> B>(
    s: Seq<T>,
    f: F,
    b: B,
) -> spec_fn(int, Ordering) -> bool {
    |i: int, o: Ordering|
        exists|kb: B| #[trigger] call_ensures(f, (&s[i],), kb) && o == kb.cmp_spec(&b)
}

/// A search result stays one when the verdicts it was made from are only
/// some of those of another relation.
proof fn lemma_search_result_widens(
    n: int,
    v1: spec_fn(int, Ordering) -> bool,
    v2: spec_fn(int, Ordering) -> bool,
    r: Result<usize, usize>,
)
    requires
        forall|i: int, o: Ordering| 0 <= i < n && #[trigger] v1(i, o) ==> v2(i, o),
        is_search_result(n, v1, r),
    ensures
        is_search_result(n, v2, r),
{
    if monotone(n, v2) {
        assert forall|i: int, j: int, oi: Ordering, oj: Ordering|
            0 <= i <= j < n && #[trigger] v1(i, oi) && #[trigger] v1(j, oj) implies rank(oi)
            <= rank(oj) by {
            assert(v2(i, oi) && v2(j, oj));
        }
        match r {
            Ok(i) => lemma_boundary_spreads(n, v2, i as int),
            Err(i) => lemma_boundary_spreads(n, v2, i as int),
        }
    }
}

/// Binary search over a sorted sequence that reports the leftmost match.
pub trait SharBinarySearch<T>: View<V = Seq<T>> {
    /// Searches with a comparator that says how each element stands to the
    /// sought one. The sequence is assumed sorted for it: where the verdicts
    /// are not monotone, the result is still in range but otherwise unspecified.
    ///
    /// Among several matches the first one is returned.
    fn bl_binary_search_by<'a, F>(&'a self, f: F) -> (r: Result<usize, usize>) where
        T: 'a,
        F: FnMut(&'a T) -> Ordering,

        requires
            forall|i: int| 0 <= i < self@.len() ==> call_requires(f, (&self@[i],)),
        ensures
            is_search_result(self@.len() as int, verdicts(self@, f), r),
    ;

    /// Searches for `x` by `Ord`, the sequence being assumed sorted.
    ///
    /// Among several matches the first one is returned.
    fn bl_binary_search(&self, x: &T) -> (r: Result<usize, usize>) where
        T: Ord,

        ensures
            self@.len() == 0 ==> r == Err::<usize, usize>(0),
            T::obeys_cmp_spec() ==> is_search_result(
                self@.len() as int,
                cmp_verdicts(self@, *x),
                r,
            ),
            T::obeys_cmp_spec() && (forall|k: int|
                0 <= k < self@.len() ==> #[trigger] self@[k].cmp_spec(x) == Ordering::Greater)
                ==> r == Err::<usize, usize>(0),
            T::obeys_cmp_spec() && (forall|k: int|
                0 <= k < self@.len() ==> #[trigger] self@[k].cmp_spec(x) == Ordering::Less)
                ==> r == Err::<usize, usize>(self@.len() as usize),
    {
        let by_ord = |p: &T| -> (o: Ordering)
            ensures
                T::obeys_cmp_spec() ==> o == p.cmp_spec(x),
        {
            p.cmp(x)
        };
        let r = self.bl_binary_search_by(by_ord);
        proof {
            let n = self@.len() as int;
            if T::obeys_cmp_spec() {
                lemma_search_result_widens(
                    n,
                    verdicts(self@, by_ord),
                    cmp_verdicts(self@, *x),
                    r,
                );
            }
        }
        r
    }

    /// Searches for the key `b` among the keys that `f` extracts, by `Ord`,
    /// the sequence being assumed sorted by that key.
    ///
    /// Among several matches the first one is returned.
    fn bl_binary_search_by_key<'a, B, F>(&'a self, b: &B, f: F) -> (r: Result<usize, usize>) where
        T: 'a,
        F: Fn(&'a T) -> B,
        B: Ord,

        requires
            forall|i: int| 0 <= i < self@.len() ==> call_requires(f, (&self@[i],)),
        ensures
            B::obeys_cmp_spec() ==> is_search_result(
                self@.len() as int,
                key_verdicts(self@, f, *b),
                r,
            ),
    {
        let key_of = &f;
        let by_key = |k: &'a T| -> (o: Ordering)
            requires
                call_requires(key_of, (k,)),
            ensures
                B::obeys_cmp_spec() ==> exists|kb: B|
                    #[trigger] call_ensures(key_of, (k,), kb) && o == kb.cmp_spec(b),
        {
            key_of(k).cmp(b)
        };
        let r = self.bl_binary_search_by(by_key);
        proof {
            if B::obeys_cmp_spec() {
                lemma_search_result_widens(
                    self@.len() as int,
                    verdicts(self@, by_key),
                    key_verdicts(self@, f, *b),
                    r,
                );
            }
        }
        r
    }
}

impl<T> SharBinarySearch<T> for [T] {
    fn bl_binary_search_by<'a, F>(&'a self, mut f: F) -> (r: Result<usize, usize>) where
        F: FnMut(&'a T) -> Ordering,
    {
        if self.len() == 0 {
            return Err(0);
        }
        let ghost v = verdicts(self@, f);
        let mut length = self.len();

        let mut left: usize = 0;
        let right = length;

        let mut step = bit_floor(length);
        // `lw`: an index at or after `left - 1` where Less was reported.
        // `hw`, `ho`: an index at or before `left + step` and the verdict other
        // than Less that was reported there.
        let ghost mut lw: int = 0;
        let ghost mut hw: int = 0;
        let ghost mut ho: Ordering = Ordering::Equal;

        if step != length {
            let o = f(&self[step]);
            if let Ordering::Less = o {
                proof {
                    lw = step as int;
                }
                length -= step + 1;

                if length == 0 {
                    proof {
                        if monotone(right as int, v) {
                            lemma_boundary_spreads(right as int, v, right as int);
                        }
                    }
                    return Err(right);
                }

                step = next_power_of_two(length);
                left = right - step;
            } else {
                proof {
                    hw = step as int;
                    ho = o;
                }
            }
        }

        while step > 1
            invariant
                0 < right == self@.len(),
                v == verdicts(self@, f),
                forall|i: int| 0 <= i < self@.len() ==> call_requires(f, (&self@[i],)),
                is_pow2(step as nat),
                1 <= step,
                left + step <= right,
                left > 0 ==> left - 1 <= lw < right && v(lw, Ordering::Less),
                left + step < right ==> 0 <= hw <= left + step && v(hw, ho) && ho
                    != Ordering::Less,
            decreases step,
        {
            step /= 2;
            // In bounds: `left + step < left + 2 * step <= right`.
            let o = f(&self[left + step]);
            if let Ordering::Less = o {
                left += step;
                proof {
                    lw = left as int;
                }
            } else {
                proof {
                    hw = left + step;
                    ho = o;
                }
            }
        }

        // In bounds: the loop left `step == 1` and `left + step <= right`.
        let o = f(&self[left]);
        match o {
            Ordering::Less => {
                if left + 1 >= self.len() {
                    proof {
                        if monotone(right as int, v) {
                            lemma_boundary_spreads(right as int, v, right as int);
                        }
                    }
                    Err(left + 1)
                } else {
                    let o1 = f(&self[left + 1]);
                    proof {
                        if monotone(right as int, v) {
                            assert(v(left + 1, o1));
                            assert(rank(ho) <= rank(o1));
                            lemma_boundary_spreads(right as int, v, left + 1);
                        }
                    }
                    match o1 {
                        Ordering::Less => Err(left + 1),
                        Ordering::Equal => Ok(left + 1),
                        Ordering::Greater => Err(left + 1),
                    }
                }
            },
            Ordering::Equal => {
                proof {
                    if monotone(right as int, v) && left > 0 {
                        assert(v(left as int, o));
                        assert(rank(o) <= rank(Ordering::Less) || lw < left);
                        lemma_boundary_spreads(right as int, v, left as int);
                    }
                }
                Ok(left)
            },
            Ordering::Greater => {
                proof {
                    if monotone(right as int, v) {
                        if left > 0 {
                            assert(v(left as int, o));
                            assert(rank(o) <= rank(Ordering::Less) || lw < left);
                        }
                        lemma_boundary_spreads(right as int, v, left as int);
                    }
                }
                Err(left)
            },
        }
    }
}

} // verus!
