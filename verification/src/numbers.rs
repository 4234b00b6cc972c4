//! Small computations over a vector of `i32`: maximum, sums, membership, doubling and
//! filtering. Sums use `i32` arithmetic as the iterator adapters do, so their contracts ask
//! that no partial sum overflow.
use vstd::prelude::*;

verus! {

/// The sum of `s`, computed without bounds.
pub open spec fn sum_of(s: Seq<i32>) -> int
    decreases s.len(),
{
    if s.len() == 0 {
        0
    } else {
        sum_of(s.drop_last()) + s.last()
    }
}

/// Whether every partial sum of `s`, from the left, fits in an `i32`: what an `i32`
/// accumulator needs to add `s` up without overflowing.
pub open spec fn partial_sums_fit(s: Seq<i32>) -> bool {
    forall|k: int| 0 <= k <= s.len() ==> i32::MIN <= #[trigger] sum_of(s.take(k)) <= i32::MAX
}

/// Whether `x` is odd (`x % 2 != 0` in Rust, for negative `x` too).
pub open spec fn is_odd(x: i32) -> bool {
    x % 2 != 0
}

/// The test for odd numbers, as a predicate.
pub open spec fn odd_test() -> spec_fn(i32) -> bool {
    |x: i32| is_odd(x)
}

/// The test for even numbers, as a predicate.
pub open spec fn even_test() -> spec_fn(i32) -> bool {
    |x: i32| !is_odd(x)
}

/// The test for numbers above `threshold`, as a predicate.
pub open spec fn above_test(threshold: i32) -> spec_fn(i32) -> bool {
    |x: i32| x > threshold
}

/// The odd elements of `s`, in order.
pub open spec fn odd_elements(s: Seq<i32>) -> Seq<i32> {
    s.filter(odd_test())
}

/// The even elements of `s`, in order.
pub open spec fn even_elements(s: Seq<i32>) -> Seq<i32> {
    s.filter(even_test())
}

/// The elements of `s` greater than `threshold`, in order.
pub open spec fn elements_above(s: Seq<i32>, threshold: i32) -> Seq<i32> {
    s.filter(above_test(threshold))
}

/// Every element of `s` doubled.
pub open spec fn doubled(s: Seq<i32>) -> Seq<int> {
    s.map_values(|x: i32| 2 * x)
}

proof fn lemma_sum_take_step(s: Seq<i32>, k: int)
    requires
        0 <= k < s.len(),
    ensures
        sum_of(s.take(k + 1)) == sum_of(s.take(k)) + s[k],
{
    assert(s.take(k + 1).drop_last() =~= s.take(k));
}

/// The largest element, as `numbers.iter().max().unwrap()` gives it (the vector must not be
/// empty, or that `unwrap` panics).
pub fn max_number(numbers: &Vec<i32>) -> (m: i32)
    requires
        numbers@.len() > 0,
    ensures
        numbers@.contains(m),
        forall|i: int| 0 <= i < numbers@.len() ==> numbers@[i] <= m,
{
    let mut m = numbers[0];
    let mut i: usize = 1;
    let ghost mut at: int = 0;
    while i < numbers.len()
        invariant
            1 <= i <= numbers@.len(),
            0 <= at < numbers@.len(),
            numbers@[at] == m,
            forall|j: int| 0 <= j < i ==> numbers@[j] <= m,
        decreases numbers@.len() - i,
    {
        if numbers[i] > m {
            m = numbers[i];
            proof {
                at = i as int;
            }
        }
        i += 1;
    }
    m
}

/// Adds up all elements, as `numbers.iter().sum::<i32>()` does.
pub fn sum_numbers(numbers: &Vec<i32>) -> (total: i32)
    requires
        partial_sums_fit(numbers@),
    ensures
        total == sum_of(numbers@),
{
    let mut total: i32 = 0;
    let mut i: usize = 0;
    assert(numbers@.take(0) =~= Seq::<i32>::empty());
    while i < numbers.len()
        invariant
            i <= numbers@.len(),
            partial_sums_fit(numbers@),
            total == sum_of(numbers@.take(i as int)),
        decreases numbers@.len() - i,
    {
        proof {
            lemma_sum_take_step(numbers@, i as int);
            assert(i32::MIN <= sum_of(numbers@.take(i + 1)) <= i32::MAX);
        }
        total = total + numbers[i];
        i += 1;
    }
    assert(numbers@.take(numbers@.len() as int) =~= numbers@);
    total
}

/// The running totals that adding the elements up one by one passes through: entry `i` is
/// the sum of the first `i + 1` elements.
pub fn running_sums(numbers: &Vec<i32>) -> (sums: Vec<i32>)
    requires
        partial_sums_fit(numbers@),
    ensures
        sums@.len() == numbers@.len(),
        forall|i: int| 0 <= i < sums@.len() ==> sums@[i] == sum_of(numbers@.take(i + 1)),
{
    let mut sums: Vec<i32> = Vec::new();
    let mut total: i32 = 0;
    let mut i: usize = 0;
    assert(numbers@.take(0) =~= Seq::<i32>::empty());
    while i < numbers.len()
        invariant
            i <= numbers@.len(),
            partial_sums_fit(numbers@),
            total == sum_of(numbers@.take(i as int)),
            sums@.len() == i,
            forall|j: int| 0 <= j < i ==> sums@[j] == sum_of(numbers@.take(j + 1)),
        decreases numbers@.len() - i,
    {
        proof {
            lemma_sum_take_step(numbers@, i as int);
            assert(i32::MIN <= sum_of(numbers@.take(i + 1)) <= i32::MAX);
        }
        total = total + numbers[i];
        sums.push(total);
        i += 1;
    }
    sums
}

/// Adds up the odd elements, as `numbers.iter().filter(|n| *n % 2 != 0).sum::<i32>()` does.
pub fn sum_odd_numbers(numbers: &Vec<i32>) -> (total: i32)
    requires
        partial_sums_fit(odd_elements(numbers@)),
    ensures
        total == sum_of(odd_elements(numbers@)),
{
    let ghost odd = odd_test();
    let mut total: i32 = 0;
    let mut i: usize = 0;
    assert(numbers@.take(0) =~= Seq::<i32>::empty());
    assert(odd_elements(Seq::<i32>::empty()) =~= Seq::<i32>::empty());
    while i < numbers.len()
        invariant
            i <= numbers@.len(),
            partial_sums_fit(odd_elements(numbers@)),
            total == sum_of(odd_elements(numbers@.take(i as int))),
            odd == odd_test(),
            odd_elements(numbers@.take(i as int)).len() <= odd_elements(numbers@).len(),
            odd_elements(numbers@.take(i as int)) == odd_elements(numbers@).take(
                odd_elements(numbers@.take(i as int)).len() as int,
            ),
        decreases numbers@.len() - i,
    {
        let x = numbers[i];
        let ghost before = odd_elements(numbers@.take(i as int));
        proof {
            assert(numbers@.take(i + 1) =~= numbers@.take(i as int).push(x));
            numbers@.take(i as int).lemma_filter_push(x, odd);
            lemma_filter_prefix(numbers@, odd_test(), i + 1);
        }
        if x % 2 != 0 {
            proof {
                let after = odd_elements(numbers@.take(i + 1));
                assert(after == before.push(x));
                lemma_sum_take_step(odd_elements(numbers@), before.len() as int);
                assert(odd_elements(numbers@).take(before.len() + 1int) =~= after);
                assert(odd_elements(numbers@).take(before.len() as int) =~= before);
                assert(i32::MIN <= sum_of(odd_elements(numbers@).take(before.len() + 1int))
                    <= i32::MAX);
            }
            total = total + x;
        }
        i += 1;
    }
    assert(numbers@.take(numbers@.len() as int) =~= numbers@);
    total
}

proof fn lemma_filter_prefix(s: Seq<i32>, pred: spec_fn(i32) -> bool, k: int)
    requires
        0 <= k <= s.len(),
    ensures
        s.take(k).filter(pred).len() <= s.filter(pred).len(),
        s.take(k).filter(pred) == s.filter(pred).take(s.take(k).filter(pred).len() as int),
    decreases s.len() - k,
{
    if k == s.len() {
        assert(s.take(k) =~= s);
        assert(s.filter(pred).take(s.filter(pred).len() as int) =~= s.filter(pred));
    } else {
        lemma_filter_prefix(s, pred, k + 1);
        let a = s.take(k).filter(pred);
        let b = s.take(k + 1).filter(pred);
        assert(s.take(k + 1) =~= s.take(k).push(s[k]));
        s.take(k).lemma_filter_push(s[k], pred);
        if pred(s[k]) {
            assert(b == a.push(s[k]));
            assert(a =~= b.take(a.len() as int));
            assert(s.filter(pred).take(b.len() as int).take(a.len() as int) =~= s.filter(
                pred,
            ).take(a.len() as int));
        } else {
            assert(b == a);
        }
    }
}

proof fn lemma_filter_counts(s: Seq<i32>, pred: spec_fn(i32) -> bool)
    ensures
        forall|i: int| 0 <= i < s.filter(pred).len() ==> pred(#[trigger] s.filter(pred)[i]),
        forall|x: i32| #[trigger]
            s.filter(pred).to_multiset().count(x) == if pred(x) {
                s.to_multiset().count(x)
            } else {
                0
            },
    decreases s.len(),
{
    broadcast use vstd::multiset::group_multiset_axioms;

    if s.len() == 0 {
        assert(s.filter(pred) =~= s);
        s.to_multiset_ensures();
        vstd::multiset::lemma_multiset_empty_len(s.to_multiset());
    } else {
        let p = s.drop_last();
        let y = s.last();
        lemma_filter_counts(p, pred);
        assert(s =~= p.push(y));
        p.lemma_filter_push(y, pred);
        p.to_multiset_ensures();
        p.filter(pred).to_multiset_ensures();
        assert forall|i: int| 0 <= i < s.filter(pred).len() implies pred(
            #[trigger] s.filter(pred)[i],
        ) by {
            if i < p.filter(pred).len() {
                assert(s.filter(pred)[i] == p.filter(pred)[i]);
            }
        }
    }
}

/// A filter keeps exactly the elements that pass its test: every kept element passes, each
/// passing value is kept as often as it occurs and no other value is kept, and the kept
/// elements stay in input order (filtering a prefix gives a prefix of the result).
proof fn lemma_filter_selects(s: Seq<i32>, pred: spec_fn(i32) -> bool)
    ensures
        forall|i: int| 0 <= i < s.filter(pred).len() ==> pred(#[trigger] s.filter(pred)[i]),
        forall|x: i32| #[trigger]
            s.filter(pred).to_multiset().count(x) == if pred(x) {
                s.to_multiset().count(x)
            } else {
                0
            },
        forall|k: int|
            0 <= k <= s.len() ==> #[trigger] s.take(k).filter(pred) == s.filter(pred).take(
                s.take(k).filter(pred).len() as int,
            ),
{
    lemma_filter_counts(s, pred);
    assert forall|k: int| 0 <= k <= s.len() implies #[trigger] s.take(k).filter(pred)
        == s.filter(pred).take(s.take(k).filter(pred).len() as int) by {
        lemma_filter_prefix(s, pred, k);
    }
}

/// Whether every partial sum of the vector, from the left, fits in an `i32`: whether adding
/// it up with `i32` arithmetic stays clear of overflow.
pub fn sums_fit(numbers: &Vec<i32>) -> (b: bool)
    ensures
        b == partial_sums_fit(numbers@),
{
    let mut total: i64 = 0;
    let mut i: usize = 0;
    assert(numbers@.take(0) =~= Seq::<i32>::empty());
    while i < numbers.len()
        invariant
            i <= numbers@.len(),
            total == sum_of(numbers@.take(i as int)),
            forall|k: int| 0 <= k <= i ==> i32::MIN <= #[trigger] sum_of(numbers@.take(k))
                <= i32::MAX,
        decreases numbers@.len() - i,
    {
        proof {
            lemma_sum_take_step(numbers@, i as int);
        }
        total = total + numbers[i] as i64;
        if total < i32::MIN as i64 || total > i32::MAX as i64 {
            return false;
        }
        i += 1;
        assert forall|k: int| 0 <= k <= i implies i32::MIN <= #[trigger] sum_of(
            numbers@.take(k),
        ) <= i32::MAX by {
            if k == i {
            }
        }
    }
    assert(numbers@.take(numbers@.len() as int) =~= numbers@);
    true
}

/// Whether doubling every element stays within `i32`.
pub fn doubling_fits(numbers: &Vec<i32>) -> (b: bool)
    ensures
        b == (forall|i: int| 0 <= i < numbers@.len() ==> i32::MIN <= 2 * #[trigger] numbers@[i]
            <= i32::MAX),
{
    let mut i: usize = 0;
    while i < numbers.len()
        invariant
            i <= numbers@.len(),
            forall|j: int| 0 <= j < i ==> i32::MIN <= 2 * #[trigger] numbers@[j] <= i32::MAX,
        decreases numbers@.len() - i,
    {
        let x = numbers[i];
        if x < -1073741824 || x > 1073741823 {
            return false;
        }
        i += 1;
    }
    true
}

/// The odd elements, in order.
pub fn odd_numbers(numbers: &Vec<i32>) -> (odds: Vec<i32>)
    ensures
        odds@ == odd_elements(numbers@),
{
    let ghost odd = odd_test();
    let mut odds: Vec<i32> = Vec::new();
    let mut i: usize = 0;
    assert(numbers@.take(0) =~= Seq::<i32>::empty());
    assert(odd_elements(Seq::<i32>::empty()) =~= Seq::<i32>::empty());
    while i < numbers.len()
        invariant
            i <= numbers@.len(),
            odds@ == odd_elements(numbers@.take(i as int)),
            odd == odd_test(),
        decreases numbers@.len() - i,
    {
        let x = numbers[i];
        proof {
            assert(numbers@.take(i + 1) =~= numbers@.take(i as int).push(x));
            numbers@.take(i as int).lemma_filter_push(x, odd);
        }
        if x % 2 != 0 {
            odds.push(x);
        }
        i += 1;
    }
    assert(numbers@.take(numbers@.len() as int) =~= numbers@);
    odds
}

/// Whether `value` occurs in the vector, as `numbers.contains(&value)` tells.
pub fn contains_number(numbers: &Vec<i32>, value: i32) -> (found: bool)
    ensures
        found == numbers@.contains(value),
{
    let mut i: usize = 0;
    while i < numbers.len()
        invariant
            i <= numbers@.len(),
            forall|j: int| 0 <= j < i ==> numbers@[j] != value,
        decreases numbers@.len() - i,
    {
        if numbers[i] == value {
            assert(numbers@[i as int] == value);
            return true;
        }
        i += 1;
    }
    false
}

/// Every element doubled, as `numbers.iter().map(|n| n * 2).collect()` gives it (each
/// product must fit in an `i32`, or the multiplication overflows).
pub fn multiply_by_two(numbers: &Vec<i32>) -> (out: Vec<i32>)
    requires
        forall|i: int| 0 <= i < numbers@.len() ==> i32::MIN <= 2 * #[trigger] numbers@[i] <= i32::MAX,
    ensures
        out@.len() == numbers@.len(),
        forall|i: int| 0 <= i < out@.len() ==> out@[i] == doubled(numbers@)[i],
{
    let mut out: Vec<i32> = Vec::new();
    let mut i: usize = 0;
    while i < numbers.len()
        invariant
            i <= numbers@.len(),
            forall|i: int| 0 <= i < numbers@.len() ==> i32::MIN <= 2 * #[trigger] numbers@[i] <= i32::MAX,
            out@.len() == i,
            forall|j: int| 0 <= j < i ==> out@[j] == 2 * numbers@[j],
        decreases numbers@.len() - i,
    {
        out.push(numbers[i] * 2);
        i += 1;
    }
    out
}

/// The even elements, in order: the numbers that listing the even numbers prints.
pub fn even_numbers(numbers: &Vec<i32>) -> (evens: Vec<i32>)
    ensures
        evens@ == even_elements(numbers@),
{
    let ghost even = even_test();
    let mut evens: Vec<i32> = Vec::new();
    let mut i: usize = 0;
    assert(numbers@.take(0) =~= Seq::<i32>::empty());
    assert(even_elements(Seq::<i32>::empty()) =~= Seq::<i32>::empty());
    while i < numbers.len()
        invariant
            i <= numbers@.len(),
            evens@ == even_elements(numbers@.take(i as int)),
            even == even_test(),
        decreases numbers@.len() - i,
    {
        let x = numbers[i];
        proof {
            assert(numbers@.take(i + 1) =~= numbers@.take(i as int).push(x));
            numbers@.take(i as int).lemma_filter_push(x, even);
        }
        if x % 2 == 0 {
            evens.push(x);
        }
        i += 1;
    }
    assert(numbers@.take(numbers@.len() as int) =~= numbers@);
    evens
}

/// The elements greater than `threshold`, in order: the numbers that listing the numbers
/// above a threshold prints.
pub fn numbers_greater_than(numbers: &Vec<i32>, threshold: i32) -> (above: Vec<i32>)
    ensures
        above@ == elements_above(numbers@, threshold),
{
    let ghost pred = above_test(threshold);
    let mut above: Vec<i32> = Vec::new();
    let mut i: usize = 0;
    assert(numbers@.take(0) =~= Seq::<i32>::empty());
    assert(elements_above(Seq::<i32>::empty(), threshold) =~= Seq::<i32>::empty());
    while i < numbers.len()
        invariant
            i <= numbers@.len(),
            above@ == elements_above(numbers@.take(i as int), threshold),
            pred == above_test(threshold),
        decreases numbers@.len() - i,
    {
        let x = numbers[i];
        proof {
            assert(numbers@.take(i + 1) =~= numbers@.take(i as int).push(x));
            numbers@.take(i as int).lemma_filter_push(x, pred);
        }
        if x > threshold {
            above.push(x);
        }
        i += 1;
    }
    assert(numbers@.take(numbers@.len() as int) =~= numbers@);
    above
}

/// The sum of all elements is the sum of the odd ones plus the sum of the even ones.
pub proof fn law_sum_splits_odd_even(s: Seq<i32>)
    ensures
        sum_of(s) == sum_of(odd_elements(s)) + sum_of(even_elements(s)),
    decreases s.len(),
{
    if s.len() > 0 {
        let p = s.drop_last();
        let x = s.last();
        law_sum_splits_odd_even(p);
        assert(s =~= p.push(x));
        p.lemma_filter_push(x, odd_test());
        p.lemma_filter_push(x, even_test());
        if is_odd(x) {
            assert(odd_elements(s).drop_last() =~= odd_elements(p));
        } else {
            assert(even_elements(s).drop_last() =~= even_elements(p));
        }
    } else {
        assert(odd_elements(s) =~= Seq::<i32>::empty());
        assert(even_elements(s) =~= Seq::<i32>::empty());
    }
}

/// Doubling leaves no odd number: the odd elements of a doubled vector are none (so their
/// sum is 0) and its even elements are all of it.
pub proof fn law_doubled_is_even(s: Seq<i32>, t: Seq<i32>)
    requires
        t.len() == s.len(),
        forall|i: int| 0 <= i < t.len() ==> t[i] == doubled(s)[i],
    ensures
        odd_elements(t) == Seq::<i32>::empty(),
        even_elements(t) == t,
        sum_of(odd_elements(t)) == 0,
    decreases t.len(),
{
    if t.len() > 0 {
        let tp = t.drop_last();
        let sp = s.drop_last();
        assert forall|i: int| 0 <= i < tp.len() implies tp[i] == doubled(sp)[i] by {
            assert(tp[i] == t[i]);
            assert(doubled(sp)[i] == doubled(s)[i]);
        }
        law_doubled_is_even(sp, tp);
        assert(t =~= tp.push(t.last()));
        let x = t.last();
        assert(x == 2 * s[s.len() - 1]);
        assert(x % 2 == 0);
        tp.lemma_filter_push(x, odd_test());
        tp.lemma_filter_push(x, even_test());
    } else {
        assert(odd_elements(t) =~= Seq::<i32>::empty());
        assert(even_elements(t) =~= t);
    }
}

/// The last running total is the sum of the whole vector.
pub proof fn law_last_running_sum_is_total(s: Seq<i32>, sums: Seq<i32>)
    requires
        s.len() > 0,
        sums.len() == s.len(),
        forall|i: int| 0 <= i < sums.len() ==> sums[i] == sum_of(s.take(i + 1)),
    ensures
        sums.last() == sum_of(s),
{
    assert(s.take(s.len() as int) =~= s);
}

/// The numbers above a threshold are exactly the elements greater than it (as signed
/// integers), each as often as it occurs, in input order: every listed number exceeds the
/// threshold, every value above it is listed as often as the input holds it and no other
/// value is listed, and listing a prefix of the input gives a prefix of the list.
pub proof fn law_greater_than_selects_exactly(s: Seq<i32>, threshold: i32)
    ensures
        forall|i: int|
            0 <= i < elements_above(s, threshold).len() ==> #[trigger] elements_above(
                s,
                threshold,
            )[i] > threshold,
        forall|x: i32| #[trigger]
            elements_above(s, threshold).to_multiset().count(x) == if x > threshold {
                s.to_multiset().count(x)
            } else {
                0
            },
        forall|k: int|
            0 <= k <= s.len() ==> #[trigger] elements_above(s.take(k), threshold) == elements_above(
                s,
                threshold,
            ).take(elements_above(s.take(k), threshold).len() as int),
{
    let pred = above_test(threshold);
    lemma_filter_selects(s, pred);
    assert forall|i: int| 0 <= i < elements_above(s, threshold).len() implies #[trigger] elements_above(
        s,
        threshold,
    )[i] > threshold by {
        assert(pred(s.filter(pred)[i]));
    }
    assert forall|x: i32| #[trigger]
        elements_above(s, threshold).to_multiset().count(x) == if x > threshold {
            s.to_multiset().count(x)
        } else {
            0
        } by {
        assert(s.filter(pred).to_multiset().count(x) == if pred(x) {
            s.to_multiset().count(x)
        } else {
            0
        });
    }
    assert forall|k: int| 0 <= k <= s.len() implies #[trigger] elements_above(s.take(k), threshold)
        == elements_above(s, threshold).take(elements_above(s.take(k), threshold).len() as int) by {
        assert(s.take(k).filter(pred) == s.filter(pred).take(s.take(k).filter(pred).len() as int));
    }
}

/// The even and the odd numbers are exactly the elements with `x % 2 == 0`, resp. `!= 0`
/// (for negative numbers too), each as often as it occurs, in input order.
pub proof fn law_parity_filters_select_exactly(s: Seq<i32>)
    ensures
        forall|i: int|
            0 <= i < even_elements(s).len() ==> #[trigger] even_elements(s)[i] % 2 == 0,
        forall|i: int| 0 <= i < odd_elements(s).len() ==> #[trigger] odd_elements(s)[i] % 2 != 0,
        forall|x: i32| #[trigger]
            even_elements(s).to_multiset().count(x) == if x % 2 == 0 {
                s.to_multiset().count(x)
            } else {
                0
            },
        forall|x: i32| #[trigger]
            odd_elements(s).to_multiset().count(x) == if x % 2 != 0 {
                s.to_multiset().count(x)
            } else {
                0
            },
        forall|k: int|
            0 <= k <= s.len() ==> #[trigger] even_elements(s.take(k)) == even_elements(s).take(
                even_elements(s.take(k)).len() as int,
            ),
        forall|k: int|
            0 <= k <= s.len() ==> #[trigger] odd_elements(s.take(k)) == odd_elements(s).take(
                odd_elements(s.take(k)).len() as int,
            ),
{
    let ev = even_test();
    let od = odd_test();
    lemma_filter_selects(s, ev);
    lemma_filter_selects(s, od);
    assert forall|i: int| 0 <= i < even_elements(s).len() implies #[trigger] even_elements(s)[i] % 2
        == 0 by {
        assert(ev(s.filter(ev)[i]));
    }
    assert forall|i: int| 0 <= i < odd_elements(s).len() implies #[trigger] odd_elements(s)[i] % 2
        != 0 by {
        assert(od(s.filter(od)[i]));
    }
    assert forall|x: i32| #[trigger]
        even_elements(s).to_multiset().count(x) == if x % 2 == 0 {
            s.to_multiset().count(x)
        } else {
            0
        } by {
        assert(s.filter(ev).to_multiset().count(x) == if ev(x) {
            s.to_multiset().count(x)
        } else {
            0
        });
    }
    assert forall|x: i32| #[trigger]
        odd_elements(s).to_multiset().count(x) == if x % 2 != 0 {
            s.to_multiset().count(x)
        } else {
            0
        } by {
        assert(s.filter(od).to_multiset().count(x) == if od(x) {
            s.to_multiset().count(x)
        } else {
            0
        });
    }
    assert forall|k: int| 0 <= k <= s.len() implies #[trigger] even_elements(s.take(k))
        == even_elements(s).take(even_elements(s.take(k)).len() as int) by {
        assert(s.take(k).filter(ev) == s.filter(ev).take(s.take(k).filter(ev).len() as int));
    }
    assert forall|k: int| 0 <= k <= s.len() implies #[trigger] odd_elements(s.take(k))
        == odd_elements(s).take(odd_elements(s.take(k)).len() as int) by {
        assert(s.take(k).filter(od) == s.filter(od).take(s.take(k).filter(od).len() as int));
    }
}

} // verus!
