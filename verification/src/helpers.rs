use vstd::prelude::*;

verus! {

// ---------------------------------------------------------------------------
// Spec-level models of the small list utilities.
// ---------------------------------------------------------------------------

/// The digits `1..=d` that `taken` does not contain, in increasing order.
pub open spec fn digits_missing_upto(taken: Seq<usize>, d: int) -> Seq<usize>
    decreases d,
{
    if d <= 0 {
        Seq::empty()
    } else {
        let prev = digits_missing_upto(taken, d - 1);
        if taken.contains(d as usize) {
            prev
        } else {
            prev.push(d as usize)
        }
    }
}

/// The digits `1..=9` that `taken` does not contain, in increasing order:
/// a group's `remaining` set, or an axis potential set, as a sequence.
pub open spec fn missing_digits(taken: Seq<usize>) -> Seq<usize> {
    digits_missing_upto(taken, 9)
}

/// Every element is a digit `1..=9`.
pub open spec fn digit_seq(s: Seq<usize>) -> bool {
    forall|t: int| 0 <= t < s.len() ==> 1 <= #[trigger] s[t] <= 9
}

/// Whether every set after the first contains `x`.
pub open spec fn kept_in_all(sets: Seq<Seq<usize>>, x: usize) -> bool {
    forall|j: int| 1 <= j < sets.len() ==> sets[j].contains(x)
}

/// The first `k` elements of the first set, restricted to those that every
/// other set also contains, in their original order.
pub open spec fn common_prefix(sets: Seq<Seq<usize>>, k: int) -> Seq<usize>
    decreases k,
{
    if k <= 0 || sets.len() == 0 {
        Seq::empty()
    } else {
        let prev = common_prefix(sets, k - 1);
        let x = sets[0][k - 1];
        if kept_in_all(sets, x) {
            prev.push(x)
        } else {
            prev
        }
    }
}

/// The ordered intersection of a family of sets: the elements of the first
/// set that all the others keep.
pub open spec fn common_of(sets: Seq<Seq<usize>>) -> Seq<usize> {
    if sets.len() == 0 {
        Seq::empty()
    } else {
        common_prefix(sets, sets[0].len() as int)
    }
}

/// The distinct elements among the first `k` of `a` that `b` and `c` both
/// contain, in order of first occurrence in `a`: a duplicate-free three-way
/// intersection.
pub open spec fn common_distinct_prefix(a: Seq<usize>, b: Seq<usize>, c: Seq<usize>, k: int) -> Seq<
    usize,
>
    decreases k,
{
    if k <= 0 {
        Seq::empty()
    } else {
        let prev = common_distinct_prefix(a, b, c, k - 1);
        let x = a[k - 1];
        if b.contains(x) && c.contains(x) && !prev.contains(x) {
            prev.push(x)
        } else {
            prev
        }
    }
}

/// The duplicate-free ordered intersection of three sets.
pub open spec fn common_distinct(a: Seq<usize>, b: Seq<usize>, c: Seq<usize>) -> Seq<usize> {
    common_distinct_prefix(a, b, c, a.len() as int)
}

/// What the duplicate-free intersection contains: exactly the values that
/// all three sets hold.
pub proof fn lemma_common_distinct_contains(a: Seq<usize>, b: Seq<usize>, c: Seq<usize>, k: int, x: usize)
    requires
        k <= a.len(),
    ensures
        common_distinct_prefix(a, b, c, k).contains(x) <==> ((exists|i: int|
            0 <= i < k && a[i] == x) && b.contains(x) && c.contains(x)),
    decreases k,
{
    if k <= 0 {
    } else {
        lemma_common_distinct_contains(a, b, c, k - 1, x);
        let prev = common_distinct_prefix(a, b, c, k - 1);
        let y = a[k - 1];
        if b.contains(y) && c.contains(y) && !prev.contains(y) {
            lemma_push_contains(prev, y, x);
        }
        if (exists|i: int| 0 <= i < k && a[i] == x) && b.contains(x) && c.contains(x) {
            let i = choose|i: int| 0 <= i < k && a[i] == x;
            if i < k - 1 {
                assert(prev.contains(x));
            }
        }
    }
}

/// The duplicate-free intersection never repeats an element.
pub proof fn lemma_common_distinct_distinct(a: Seq<usize>, b: Seq<usize>, c: Seq<usize>, k: int)
    ensures
        distinct_seq(common_distinct_prefix(a, b, c, k)),
    decreases k,
{
    if k <= 0 {
    } else {
        lemma_common_distinct_distinct(a, b, c, k - 1);
        let prev = common_distinct_prefix(a, b, c, k - 1);
        let y = a[k - 1];
        if b.contains(y) && c.contains(y) && !prev.contains(y) {
            let r = prev.push(y);
            assert forall|k1: int, k2: int| 0 <= k1 < k2 < r.len() implies #[trigger] r[k1]
                != #[trigger] r[k2] by {
                if k2 < prev.len() {
                    assert(r[k1] == prev[k1] && r[k2] == prev[k2]);
                } else {
                    assert(r[k1] == prev[k1] && r[k2] == y);
                    assert(prev.contains(prev[k1])) by {
                        assert(prev[k1] == prev[k1]);
                    }
                }
            }
        }
    }
}

/// The duplicate-free intersection of digit lists holds digits only.
pub proof fn lemma_common_distinct_digit_seq(a: Seq<usize>, b: Seq<usize>, c: Seq<usize>, k: int)
    requires
        digit_seq(a),
        k <= a.len(),
    ensures
        digit_seq(common_distinct_prefix(a, b, c, k)),
    decreases k,
{
    if k <= 0 {
    } else {
        lemma_common_distinct_digit_seq(a, b, c, k - 1);
        let prev = common_distinct_prefix(a, b, c, k - 1);
        let y = a[k - 1];
        if b.contains(y) && c.contains(y) && !prev.contains(y) {
            assert forall|t: int| 0 <= t < prev.push(y).len() implies 1 <= #[trigger] prev.push(
                y,
            )[t] <= 9 by {
                if t < prev.len() {
                    assert(prev.push(y)[t] == prev[t]);
                }
            }
        }
    }
}

/// `s` with its first occurrence of `x` (if any) removed.
pub open spec fn remove_first(s: Seq<usize>, x: usize) -> Seq<usize>
    decreases s.len(),
{
    if s.len() == 0 {
        s
    } else if s[0] == x {
        s.drop_first()
    } else {
        seq![s[0]].add(remove_first(s.drop_first(), x))
    }
}

/// The `Ordering` that ranks longer second components first.
pub open spec fn compare_spec(a: (usize, Seq<usize>), b: (usize, Seq<usize>)) -> core::cmp::Ordering {
    if a.1.len() < b.1.len() {
        core::cmp::Ordering::Greater
    } else if a.1.len() == b.1.len() {
        core::cmp::Ordering::Equal
    } else {
        core::cmp::Ordering::Less
    }
}

// ---------------------------------------------------------------------------
// Lemmas about the models.
// ---------------------------------------------------------------------------

/// Membership in a pushed sequence is membership in the original or equality
/// with the new element.
pub proof fn lemma_push_contains<A>(s: Seq<A>, v: A, x: A)
    ensures
        s.push(v).contains(x) <==> (s.contains(x) || x == v),
{
    if s.contains(x) {
        let i = choose|i: int| 0 <= i < s.len() && s[i] == x;
        assert(s.push(v)[i] == x);
    }
    assert(s.push(v)[s.len() as int] == v);
    if s.push(v).contains(x) && x != v {
        let i = choose|i: int| 0 <= i < s.push(v).len() && s.push(v)[i] == x;
        assert(s[i] == x);
    }
}

/// What `digits_missing_upto` contains: exactly the digits `1..=d` absent
/// from `taken`.
pub proof fn lemma_digits_missing_upto_contains(taken: Seq<usize>, d: int, x: usize)
    requires
        d <= 9,
    ensures
        digits_missing_upto(taken, d).contains(x) <==> (1 <= x <= d && !taken.contains(x)),
    decreases d,
{
    if d <= 0 {
    } else {
        lemma_digits_missing_upto_contains(taken, d - 1, x);
        if !taken.contains(d as usize) {
            lemma_push_contains(digits_missing_upto(taken, d - 1), d as usize, x);
        }
    }
}

/// The missing-digit list holds digits only.
pub proof fn lemma_digits_missing_digit_seq(taken: Seq<usize>, d: int)
    requires
        d <= 9,
    ensures
        digit_seq(digits_missing_upto(taken, d)),
    decreases d,
{
    if d <= 0 {
    } else {
        lemma_digits_missing_digit_seq(taken, d - 1);
        let prev = digits_missing_upto(taken, d - 1);
        if !taken.contains(d as usize) {
            assert forall|t: int| 0 <= t < prev.push(d as usize).len() implies 1 <= #[trigger] prev.push(
                d as usize,
            )[t] <= 9 by {
                if t < prev.len() {
                    assert(prev.push(d as usize)[t] == prev[t]);
                }
            }
        }
    }
}

/// No element occurs twice.
pub open spec fn distinct_seq(s: Seq<usize>) -> bool {
    forall|k1: int, k2: int| 0 <= k1 < k2 < s.len() ==> #[trigger] s[k1] != #[trigger] s[k2]
}

/// The missing-digit list is strictly increasing, so it never repeats.
pub proof fn lemma_digits_missing_distinct(taken: Seq<usize>, d: int)
    requires
        d <= 9,
    ensures
        distinct_seq(digits_missing_upto(taken, d)),
        forall|t: int|
            0 <= t < digits_missing_upto(taken, d).len() ==> #[trigger] digits_missing_upto(
                taken,
                d,
            )[t] <= d,
    decreases d,
{
    if d <= 0 {
    } else {
        lemma_digits_missing_distinct(taken, d - 1);
        let prev = digits_missing_upto(taken, d - 1);
        if !taken.contains(d as usize) {
            let r = prev.push(d as usize);
            assert forall|t: int| 0 <= t < r.len() implies #[trigger] r[t] <= d by {
                if t < prev.len() {
                    assert(r[t] == prev[t]);
                }
            }
            assert forall|k1: int, k2: int| 0 <= k1 < k2 < r.len() implies #[trigger] r[k1]
                != #[trigger] r[k2] by {
                if k2 < prev.len() {
                    assert(r[k1] == prev[k1] && r[k2] == prev[k2]);
                } else {
                    assert(r[k1] == prev[k1] && r[k2] == d as usize);
                    assert(prev[k1] <= d - 1);
                }
            }
        }
    }
}

/// Removing one element from a duplicate-free sequence: the element is gone,
/// everything else stays, and the sequence stays duplicate-free.
pub proof fn lemma_remove_first_props(s: Seq<usize>, x: usize)
    requires
        distinct_seq(s),
    ensures
        distinct_seq(remove_first(s, x)),
        forall|d: usize|
            #![trigger remove_first(s, x).contains(d)]
            #![trigger s.contains(d)]
            remove_first(s, x).contains(d) <==> (s.contains(d) && d != x),
    decreases s.len(),
{
    if s.len() == 0 {
        assert forall|d: usize| remove_first(s, x).contains(d) <==> (s.contains(d) && d != x) by {}
    } else if s[0] == x {
        let r = s.drop_first();
        assert forall|k1: int, k2: int| 0 <= k1 < k2 < r.len() implies #[trigger] r[k1]
            != #[trigger] r[k2] by {
            assert(r[k1] == s[k1 + 1] && r[k2] == s[k2 + 1]);
        }
        assert forall|d: usize| r.contains(d) <==> (s.contains(d) && d != x) by {
            if r.contains(d) {
                let t = choose|t: int| 0 <= t < r.len() && r[t] == d;
                assert(s[t + 1] == d);
                assert(s.contains(d));
                assert(d != x);
            }
            if s.contains(d) && d != x {
                let t = choose|t: int| 0 <= t < s.len() && s[t] == d;
                assert(t != 0);
                assert(r[t - 1] == d);
                assert(r.contains(d));
            }
        }
    } else {
        let tail = s.drop_first();
        assert forall|k1: int, k2: int| 0 <= k1 < k2 < tail.len() implies #[trigger] tail[k1]
            != #[trigger] tail[k2] by {
            assert(tail[k1] == s[k1 + 1] && tail[k2] == s[k2 + 1]);
        }
        lemma_remove_first_props(tail, x);
        let rt = remove_first(tail, x);
        let r = seq![s[0]].add(rt);
        assert(remove_first(s, x) == r);
        assert forall|d: usize| r.contains(d) <==> ((s.contains(d) && d != x)) by {
            if r.contains(d) {
                let t = choose|t: int| 0 <= t < r.len() && r[t] == d;
                if t == 0 {
                    assert(d == s[0]);
                    assert(s.contains(d)) by {
                        assert(s[0] == d);
                    }
                } else {
                    assert(rt[t - 1] == d);
                    assert(rt.contains(d));
                    assert(tail.contains(d) && d != x);
                    let u = choose|u: int| 0 <= u < tail.len() && tail[u] == d;
                    assert(s[u + 1] == d);
                    assert(s.contains(d));
                }
            }
            if s.contains(d) && d != x {
                let t = choose|t: int| 0 <= t < s.len() && s[t] == d;
                if t == 0 {
                    assert(r[0] == d);
                    assert(r.contains(d));
                } else {
                    assert(tail[t - 1] == d);
                    assert(tail.contains(d));
                    assert(rt.contains(d));
                    let u = choose|u: int| 0 <= u < rt.len() && rt[u] == d;
                    assert(r[u + 1] == d);
                    assert(r.contains(d));
                }
            }
        }
        assert forall|k1: int, k2: int| 0 <= k1 < k2 < r.len() implies #[trigger] r[k1]
            != #[trigger] r[k2] by {
            if k1 == 0 {
                assert(r[k2] == rt[k2 - 1]);
                assert(rt.contains(rt[k2 - 1])) by {
                    assert(rt[k2 - 1] == rt[k2 - 1]);
                }
                assert(tail.contains(rt[k2 - 1]));
                if s[0] == rt[k2 - 1] {
                    let u = choose|u: int| 0 <= u < tail.len() && tail[u] == s[0];
                    assert(s[u + 1] == s[0]);
                    assert(false);
                }
            } else {
                assert(r[k1] == rt[k1 - 1] && r[k2] == rt[k2 - 1]);
            }
        }
    }
}

/// Removing an absent element leaves the sequence unchanged.
pub proof fn lemma_remove_first_absent(s: Seq<usize>, x: usize)
    requires
        !s.contains(x),
    ensures
        remove_first(s, x) == s,
    decreases s.len(),
{
    if s.len() == 0 {
    } else {
        assert(s[0] != x);
        assert forall|j: int| 0 <= j < s.drop_first().len() implies s.drop_first()[j] != x by {
            assert(s.drop_first()[j] == s[j + 1]);
        }
        lemma_remove_first_absent(s.drop_first(), x);
        assert(seq![s[0]].add(s.drop_first()) =~= s);
    }
}

/// Removing the first occurrence is removal at its index.
pub proof fn lemma_remove_first_at(s: Seq<usize>, x: usize, i: int)
    requires
        0 <= i < s.len(),
        s[i] == x,
        forall|j: int| 0 <= j < i ==> s[j] != x,
    ensures
        remove_first(s, x) == s.remove(i),
    decreases i,
{
    if i == 0 {
        assert(s.remove(0) =~= s.drop_first());
    } else {
        assert(s.drop_first()[i - 1] == s[i]);
        assert forall|j: int| 0 <= j < i - 1 implies s.drop_first()[j] != x by {
            assert(s.drop_first()[j] == s[j + 1]);
        }
        lemma_remove_first_at(s.drop_first(), x, i - 1);
        assert(s.remove(i) =~= seq![s[0]].add(s.drop_first().remove(i - 1)));
    }
}

// ---------------------------------------------------------------------------
// Executable utilities.
// ---------------------------------------------------------------------------

/// Whether `v` holds `x`.
pub fn contains_value(v: &Vec<usize>, x: usize) -> (b: bool)
    ensures
        b == v@.contains(x),
{
    let mut k: usize = 0;
    while k < v.len()
        invariant
            0 <= k <= v@.len(),
            forall|j: int| 0 <= j < k ==> v@[j] != x,
        decreases v@.len() - k,
    {
        if v[k] == x {
            assert(v@.contains(x)) by {
                assert(v@[k as int] == x);
            }
            return true;
        }
        k += 1;
    }
    false
}

/// The digits `1..=9` that `input` does not contain, in increasing order.
pub fn inverse_vec(input: &Vec<usize>) -> (r: Vec<usize>)
    ensures
        r@ == missing_digits(input@),
{
    let mut r: Vec<usize> = Vec::new();
    let mut d: usize = 1;
    while d <= 9
        invariant
            1 <= d <= 10,
            r@ == digits_missing_upto(input@, d - 1),
        decreases 10 - d,
    {
        if !contains_value(input, d) {
            r.push(d);
        }
        d += 1;
    }
    r
}

/// Whether every set after the first contains `x`.
fn in_all_rest(sets: &Vec<Vec<usize>>, x: usize) -> (b: bool)
    ensures
        b == kept_in_all(sets@.map_values(|v: Vec<usize>| v@), x),
{
    let ghost views = sets@.map_values(|v: Vec<usize>| v@);
    let mut j: usize = 1;
    while j < sets.len()
        invariant
            1 <= j,
            j <= sets@.len() || j == 1,
            views == sets@.map_values(|v: Vec<usize>| v@),
            forall|m: int| 1 <= m < j ==> views[m].contains(x),
        decreases sets@.len() - j,
    {
        if !contains_value(&sets[j], x) {
            assert(!views[j as int].contains(x));
            return false;
        }
        j += 1;
    }
    true
}

/// The ordered intersection of a family of candidate lists: the elements of
/// the first list that every other list also holds.
pub fn intersections(sets: &Vec<Vec<usize>>) -> (r: Vec<usize>)
    ensures
        r@ == common_of(sets@.map_values(|v: Vec<usize>| v@)),
{
    let ghost views = sets@.map_values(|v: Vec<usize>| v@);
    let mut r: Vec<usize> = Vec::new();
    if sets.len() == 0 {
        return r;
    }
    let first: &Vec<usize> = &sets[0];
    let mut i: usize = 0;
    while i < first.len()
        invariant
            0 <= i <= first@.len(),
            sets@.len() > 0,
            views == sets@.map_values(|v: Vec<usize>| v@),
            first@ == views[0],
            r@ == common_prefix(views, i as int),
        decreases first@.len() - i,
    {
        let x = first[i];
        if in_all_rest(sets, x) {
            r.push(x);
        }
        i += 1;
    }
    r
}

/// The duplicate-free ordered intersection of the first three candidate
/// lists; any further lists are ignored.
pub fn multi_intersections(lists: Vec<Vec<usize>>) -> (r: Vec<usize>)
    requires
        lists@.len() >= 3,
    ensures
        r@ == common_distinct(lists@[0]@, lists@[1]@, lists@[2]@),
        distinct_seq(r@),
{
    proof {
        lemma_common_distinct_distinct(lists@[0]@, lists@[1]@, lists@[2]@, lists@[0]@.len() as int);
    }
    let mut r: Vec<usize> = Vec::new();
    let mut i: usize = 0;
    let len0 = lists[0].len();
    while i < len0
        invariant
            0 <= i <= len0,
            lists@.len() >= 3,
            len0 == lists@[0]@.len(),
            r@ == common_distinct_prefix(lists@[0]@, lists@[1]@, lists@[2]@, i as int),
        decreases len0 - i,
    {
        let x = lists[0][i];
        if contains_value(&lists[1], x) && contains_value(&lists[2], x) && !contains_value(&r, x) {
            r.push(x);
        }
        i += 1;
    }
    r
}

/// Remove the first occurrence of `element` from `vector`; report whether
/// anything was removed.
pub fn remove_element(element: usize, vector: &mut Vec<usize>) -> (removed: bool)
    ensures
        removed == old(vector)@.contains(element),
        final(vector)@ == remove_first(old(vector)@, element),
{
    let mut k: usize = 0;
    while k < vector.len()
        invariant
            0 <= k <= vector@.len(),
            vector@ == old(vector)@,
            forall|j: int| 0 <= j < k ==> vector@[j] != element,
        decreases vector@.len() - k,
    {
        if vector[k] == element {
            assert(vector@.contains(element)) by {
                assert(vector@[k as int] == element);
            }
            proof {
                lemma_remove_first_at(vector@, element, k as int);
            }
            vector.remove(k);
            return true;
        }
        k += 1;
    }
    proof {
        lemma_remove_first_absent(vector@, element);
    }
    false
}

/// Rank two keyed candidate lists so that longer lists sort first.
pub fn compare(a: &(usize, Vec<usize>), b: &(usize, Vec<usize>)) -> (r: core::cmp::Ordering)
    ensures
        r == compare_spec((a.0, a.1@), (b.0, b.1@)),
{
    if a.1.len() < b.1.len() {
        core::cmp::Ordering::Greater
    } else if a.1.len() == b.1.len() {
        core::cmp::Ordering::Equal
    } else {
        core::cmp::Ordering::Less
    }
}

} // verus!
