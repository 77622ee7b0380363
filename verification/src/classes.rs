//! Class weights of one cell and band, for categorical rasters.
//!
//! A weight is a whole number of units: one unit is a pixel under forward
//! sampling, and one sub-point of a pixel under overlay sampling.

use vstd::prelude::*;

use crate::error::{invalid, is_invalid, A5CogError};

verus! {

/// Class codes with their weights: a plain list, since a categorical raster
/// puts a handful of classes into each cell.
pub type ClassWeights = Vec<(i32, u64)>;

/// More classes than this in one cell means that the raster is not
/// categorical.
pub const MAX_CLASSES_PER_CELL: usize = 4096;

/// The text of the error for too many classes.
pub open spec fn too_many_classes() -> Seq<char> {
    "more than 4096 distinct classes in a single cell; majority/fractions require a categorical raster"@
}

/// The list has an entry for `class` at position `i`.
pub open spec fn class_at(m: Seq<(i32, u64)>, class: i32, i: int) -> bool {
    0 <= i < m.len() && m[i].0 == class
}

/// The list has an entry for `class`.
pub open spec fn has_class(m: Seq<(i32, u64)>, class: i32) -> bool {
    exists|i: int| class_at(m, class, i)
}

/// No class has two entries.
pub open spec fn distinct_classes(m: Seq<(i32, u64)>) -> bool {
    forall|i: int, j: int| 0 <= i < j < m.len() ==> (#[trigger] m[i]).0 != (#[trigger] m[j]).0
}

/// Every class of the list has weight.
pub open spec fn positive_weights(m: Seq<(i32, u64)>) -> bool {
    forall|i: int| 0 <= i < m.len() ==> (#[trigger] m[i]).1 > 0
}

/// What every class list of the library satisfies: no class twice, none without
/// weight, not too many.
pub open spec fn classes_wf(m: Seq<(i32, u64)>) -> bool {
    distinct_classes(m) && positive_weights(m) && m.len() <= MAX_CLASSES_PER_CELL
}

/// The weight of a class, zero where the list has no entry for it.
pub open spec fn class_weight(m: Seq<(i32, u64)>, class: i32) -> nat
    decreases m.len(),
{
    if m.len() == 0 {
        0
    } else if m.last().0 == class {
        m.last().1 as nat
    } else {
        class_weight(m.drop_last(), class)
    }
}

/// The weight of all classes together.
pub open spec fn total_weight(m: Seq<(i32, u64)>) -> nat
    decreases m.len(),
{
    if m.len() == 0 {
        0
    } else {
        total_weight(m.drop_last()) + m.last().1 as nat
    }
}

/// A sum of weights, held at the largest representable weight.
pub open spec fn capped_sum(a: u64, b: u64) -> u64 {
    if a + b <= u64::MAX {
        (a + b) as u64
    } else {
        u64::MAX
    }
}

/// The list after `w` units of `class` were added; `None` where that needs
/// one entry too many.
pub open spec fn class_added(m: Seq<(i32, u64)>, class: i32, w: u64) -> Option<Seq<(i32, u64)>> {
    if w == 0 {
        Some(m)
    } else if has_class(m, class) {
        let i = choose|i: int| class_at(m, class, i);
        Some(m.update(i, (class, capped_sum(m[i].1, w))))
    } else if m.len() >= MAX_CLASSES_PER_CELL {
        None
    } else {
        Some(m.push((class, w)))
    }
}

/// The list after every entry of `other` was added in order.
pub open spec fn classes_merged(m: Seq<(i32, u64)>, other: Seq<(i32, u64)>) -> Option<
    Seq<(i32, u64)>,
>
    decreases other.len(),
{
    if other.len() == 0 {
        Some(m)
    } else {
        match classes_merged(m, other.drop_last()) {
            None => None,
            Some(t) => class_added(t, other.last().0, other.last().1),
        }
    }
}

/// `c` is the class of greatest weight, the smallest code among equals.
pub open spec fn is_majority(m: Seq<(i32, u64)>, c: i32) -> bool {
    exists|i: int|
        #![trigger m[i]]
        0 <= i < m.len() && m[i].0 == c && forall|j: int|
            0 <= j < m.len() ==> (#[trigger] m[j]).1 < m[i].1 || (m[j].1 == m[i].1 && c <= m[j].0)
}

// ---------------------------------------------------------------------------
// adding and merging

/// Adding keeps the list well formed.
pub(crate) proof fn lemma_class_added_wf(m: Seq<(i32, u64)>, class: i32, w: u64)
    requires
        classes_wf(m),
    ensures
        class_added(m, class, w) matches Some(t) ==> classes_wf(t),
{
    if w != 0 && !has_class(m, class) && m.len() < MAX_CLASSES_PER_CELL {
        let t = m.push((class, w));
        assert forall|i: int, j: int| 0 <= i < j < t.len() implies (#[trigger] t[i]).0
            != (#[trigger] t[j]).0 by {
            if j == m.len() {
                assert(!class_at(m, class, i));
            }
        }
    }
}

/// Merging keeps the list well formed.
pub(crate) proof fn lemma_classes_merged_wf(m: Seq<(i32, u64)>, other: Seq<(i32, u64)>)
    requires
        classes_wf(m),
    ensures
        classes_merged(m, other) matches Some(t) ==> classes_wf(t),
    decreases other.len(),
{
    if other.len() > 0 {
        lemma_classes_merged_wf(m, other.drop_last());
        if let Some(t) = classes_merged(m, other.drop_last()) {
            lemma_class_added_wf(t, other.last().0, other.last().1);
        }
    }
}

/// Merging a list into an empty one gives that list.
pub(crate) proof fn lemma_merge_into_none(m: Seq<(i32, u64)>)
    requires
        classes_wf(m),
    ensures
        classes_merged(Seq::empty(), m) == Some(m),
    decreases m.len(),
{
    if m.len() > 0 {
        let front = m.drop_last();
        assert(classes_wf(front)) by {
            assert(forall|i: int| 0 <= i < front.len() ==> front[i] == m[i]);
        }
        lemma_merge_into_none(front);
        let n = m.len() - 1;
        assert(m[n].1 > 0);
        assert forall|i: int| !class_at(front, m[n].0, i) by {
            if 0 <= i < front.len() {
                assert(m[i].0 != m[n].0);
            }
        }
        assert(front.push(m.last()) == m);
    }
}

/// A merge that fails early stays failed.
pub(crate) proof fn lemma_merge_fails(m: Seq<(i32, u64)>, other: Seq<(i32, u64)>, n: int)
    requires
        0 <= n <= other.len(),
        classes_merged(m, other.take(n)) is None,
    ensures
        classes_merged(m, other) is None,
    decreases other.len() - n,
{
    if n == other.len() {
        assert(other.take(n) == other);
    } else {
        assert(other.take(n + 1).drop_last() == other.take(n));
        lemma_merge_fails(m, other, n + 1);
    }
}

/// Adds `w` units of `class`.
///
/// The error comes exactly where a class without an entry would need one more
/// than [`MAX_CLASSES_PER_CELL`] of them; the list is then left as it was.
pub fn cat_push(m: &mut ClassWeights, class: i32, w: u64) -> (r: Result<(), A5CogError>)
    requires
        classes_wf(old(m)@),
    ensures
        classes_wf(final(m)@),
        match class_added(old(m)@, class, w) {
            Some(t) => r is Ok && final(m)@ == t,
            None => (r matches Err(e) && is_invalid(e, too_many_classes())) && final(m)@ == old(
                m,
            )@,
        },
{
    proof {
        lemma_class_added_wf(m@, class, w);
    }
    if w == 0 {
        return Ok(());
    }
    let mut i: usize = 0;
    while i < m.len()
        invariant
            i <= m.len(),
            m@ == old(m)@,
            w != 0,
            classes_wf(m@),
            classes_wf(old(m)@),
            forall|j: int| 0 <= j < i ==> (#[trigger] m@[j]).0 != class,
            class_added(old(m)@, class, w) matches Some(t) ==> classes_wf(t),
        decreases m.len() - i,
    {
        let (c, wt) = m[i];
        if c == class {
            assert(class_at(m@, class, i as int));
            let ghost k = choose|k: int| class_at(m@, class, k);
            assert(k == i);
            m.set(i, (c, wt.saturating_add(w)));
            return Ok(());
        }
        i = i + 1;
    }
    if m.len() >= MAX_CLASSES_PER_CELL {
        return Err(
            invalid(
                "more than 4096 distinct classes in a single cell; majority/fractions require a categorical raster",
            ),
        );
    }
    m.push((class, w));
    Ok(())
}

/// Adds every entry of `other`.
pub fn cat_merge(m: &mut ClassWeights, other: &ClassWeights) -> (r: Result<(), A5CogError>)
    requires
        classes_wf(old(m)@),
    ensures
        classes_wf(final(m)@),
        match classes_merged(old(m)@, other@) {
            Some(t) => r is Ok && final(m)@ == t,
            None => r matches Err(e) && is_invalid(e, too_many_classes()),
        },
{
    assert(other@.take(0).len() == 0);
    for i in 0..other.len()
        invariant
            classes_wf(m@),
            classes_merged(old(m)@, other@.take(i as int)) == Some(m@),
    {
        let (c, w) = other[i];
        assert(other@.take(i + 1).drop_last() == other@.take(i as int));
        match cat_push(m, c, w) {
            Ok(_) => {},
            Err(e) => {
                proof {
                    lemma_merge_fails(old(m)@, other@, i + 1);
                }
                return Err(e);
            },
        }
    }
    assert(other@.take(other@.len() as int) == other@);
    Ok(())
}

/// The class of greatest weight, ties going to the smallest code; none where
/// no valid pixel was seen.
pub fn finalise_majority(m: &ClassWeights) -> (r: Option<i32>)
    ensures
        match r {
            None => m@.len() == 0,
            Some(c) => is_majority(m@, c),
        },
{
    if m.len() == 0 {
        return None;
    }
    let mut best: usize = 0;
    let mut i: usize = 1;
    while i < m.len()
        invariant
            best < i <= m.len(),
            forall|j: int|
                0 <= j < i ==> (#[trigger] m@[j]).1 < m@[best as int].1 || (m@[j].1
                    == m@[best as int].1 && m@[best as int].0 <= m@[j].0),
        decreases m.len() - i,
    {
        let (c, w) = m[i];
        let (bc, bw) = m[best];
        if w > bw || (w == bw && c < bc) {
            best = i;
        }
        i = i + 1;
    }
    Some(m[best].0)
}

/// A list of classes with weight has weight, unless it is empty.
pub(crate) proof fn lemma_positive_total(m: Seq<(i32, u64)>)
    requires
        positive_weights(m),
    ensures
        total_weight(m) == 0 <==> m.len() == 0,
{
    if m.len() > 0 {
        assert(m[m.len() - 1].1 > 0);
    }
}

// ---------------------------------------------------------------------------
// laws

pub(crate) proof fn lemma_weight_at(m: Seq<(i32, u64)>, i: int)
    requires
        distinct_classes(m),
        0 <= i < m.len(),
    ensures
        class_weight(m, m[i].0) == m[i].1,
    decreases m.len(),
{
    if i < m.len() - 1 {
        assert(m.last().0 != m[i].0);
        assert(m.drop_last()[i] == m[i]);
        lemma_weight_at(m.drop_last(), i);
    }
}

proof fn lemma_weight_absent(m: Seq<(i32, u64)>, class: i32)
    requires
        !has_class(m, class),
    ensures
        class_weight(m, class) == 0,
    decreases m.len(),
{
    if m.len() > 0 {
        assert(!class_at(m, class, m.len() - 1));
        assert forall|i: int| !class_at(m.drop_last(), class, i) by {
            assert(!class_at(m, class, i));
        }
        lemma_weight_absent(m.drop_last(), class);
    }
}

proof fn lemma_weight_update(m: Seq<(i32, u64)>, i: int, w: u64, c: i32)
    requires
        distinct_classes(m),
        0 <= i < m.len(),
    ensures
        class_weight(m.update(i, (m[i].0, w)), c) == (if c == m[i].0 {
            w as nat
        } else {
            class_weight(m, c)
        }),
        total_weight(m.update(i, (m[i].0, w))) + m[i].1 == total_weight(m) + w,
    decreases m.len(),
{
    let t = m.update(i, (m[i].0, w));
    if i == m.len() - 1 {
        assert(t.drop_last() == m.drop_last());
    } else {
        assert(t.drop_last() == m.drop_last().update(i, (m[i].0, w)));
        assert(m.drop_last()[i] == m[i]);
        lemma_weight_update(m.drop_last(), i, w, c);
        assert(m.last().0 != m[i].0);
    }
}

/// Adding to a class changes its weight by what was added and no other
/// class's weight, and the total by the same amount, as long as the total
/// can be represented.
pub proof fn adding_conserves_weight(m: Seq<(i32, u64)>, class: i32, w: u64, c: i32)
    requires
        classes_wf(m),
        class_added(m, class, w) is Some,
        total_weight(m) + w <= u64::MAX,
    ensures
        ({
            let t = class_added(m, class, w)->Some_0;
            &&& total_weight(t) == total_weight(m) + w
            &&& class_weight(t, c) == class_weight(m, c) + (if c == class {
                w as nat
            } else {
                0nat
            })
        }),
{
    if w == 0 {
    } else if has_class(m, class) {
        let i = choose|i: int| class_at(m, class, i);
        assert(class_at(m, class, i));
        lemma_weight_at(m, i);
        lemma_weight_le_total(m, i);
        lemma_weight_update(m, i, capped_sum(m[i].1, w), c);
    } else {
        let t = m.push((class, w));
        assert(t.drop_last() == m);
        lemma_weight_absent(m, class);
    }
}

proof fn lemma_weight_le_total(m: Seq<(i32, u64)>, i: int)
    requires
        0 <= i < m.len(),
    ensures
        m[i].1 <= total_weight(m),
    decreases m.len(),
{
    if i < m.len() - 1 {
        lemma_weight_le_total(m.drop_last(), i);
        assert(m.drop_last()[i] == m[i]);
    }
}

/// Merging adds the weights class by class and in total, as long as the total
/// can be represented.
pub proof fn merging_conserves_weight(m: Seq<(i32, u64)>, other: Seq<(i32, u64)>, c: i32)
    requires
        classes_wf(m),
        classes_wf(other),
        classes_merged(m, other) is Some,
        total_weight(m) + total_weight(other) <= u64::MAX,
    ensures
        ({
            let t = classes_merged(m, other)->Some_0;
            &&& total_weight(t) == total_weight(m) + total_weight(other)
            &&& class_weight(t, c) == class_weight(m, c) + class_weight(other, c)
        }),
    decreases other.len(),
{
    if other.len() > 0 {
        let front = other.drop_last();
        assert(classes_merged(m, front) is Some);
        assert(classes_wf(front)) by {
            assert(forall|i: int| 0 <= i < front.len() ==> front[i] == other[i]);
        }
        merging_conserves_weight(m, front, c);
        lemma_classes_merged_wf(m, front);
        let t = classes_merged(m, front)->Some_0;
        adding_conserves_weight(t, other.last().0, other.last().1, c);
        if other.last().0 == c {
            assert forall|i: int| !class_at(front, c, i) by {
                if 0 <= i < front.len() {
                    assert(other[i].0 != other[other.len() - 1].0);
                }
            }
            lemma_weight_absent(front, c);
        }
    }
}

proof fn lemma_positive_has(m: Seq<(i32, u64)>, c: i32)
    requires
        class_weight(m, c) > 0,
    ensures
        has_class(m, c),
    decreases m.len(),
{
    if m.last().0 == c {
        assert(class_at(m, c, m.len() - 1));
    } else {
        lemma_positive_has(m.drop_last(), c);
        let i = choose|i: int| class_at(m.drop_last(), c, i);
        assert(class_at(m, c, i));
    }
}

/// A weight held at the largest representable one.
pub open spec fn capped(n: nat) -> nat {
    if n <= u64::MAX {
        n
    } else {
        u64::MAX as nat
    }
}

/// The weight that a list of codes gives to a class, entries of one class added
/// up.
pub open spec fn code_weight(codes: Seq<(i32, u64)>, class: i32) -> nat
    decreases codes.len(),
{
    if codes.len() == 0 {
        0
    } else {
        code_weight(codes.drop_last(), class) + if codes.last().0 == class {
            codes.last().1 as nat
        } else {
            0
        }
    }
}

/// Codes one after the other give what each of the two lists gives.
pub(crate) proof fn lemma_code_weight_join(a: Seq<(i32, u64)>, b: Seq<(i32, u64)>, class: i32)
    ensures
        code_weight(a + b, class) == code_weight(a, class) + code_weight(b, class),
    decreases b.len(),
{
    if b.len() == 0 {
        assert(a + b == a);
    } else {
        assert((a + b).drop_last() == a + b.drop_last());
        lemma_code_weight_join(a, b.drop_last(), class);
    }
}

/// In a list without a class twice, the weight of a class is that of its entry.
pub(crate) proof fn lemma_code_weight_distinct(m: Seq<(i32, u64)>, class: i32)
    requires
        distinct_classes(m),
    ensures
        code_weight(m, class) == class_weight(m, class),
    decreases m.len(),
{
    if m.len() > 0 {
        lemma_code_weight_distinct(m.drop_last(), class);
        if m.last().0 == class {
            assert forall|i: int| !class_at(m.drop_last(), class, i) by {
                if 0 <= i < m.len() - 1 {
                    assert(m[i].0 != m[m.len() - 1].0);
                }
            }
            lemma_weight_absent(m.drop_last(), class);
        }
    }
}

proof fn lemma_weight_bound(m: Seq<(i32, u64)>, class: i32)
    ensures
        class_weight(m, class) <= u64::MAX,
    decreases m.len(),
{
    if m.len() > 0 {
        lemma_weight_bound(m.drop_last(), class);
    }
}

/// Merging codes adds to each class what they give it, held at the largest
/// representable weight.
pub proof fn merging_adds_class_by_class(m: Seq<(i32, u64)>, codes: Seq<(i32, u64)>, class: i32)
    requires
        classes_wf(m),
        classes_merged(m, codes) is Some,
    ensures
        class_weight(classes_merged(m, codes)->Some_0, class) == capped(
            class_weight(m, class) + code_weight(codes, class),
        ),
    decreases codes.len(),
{
    if codes.len() == 0 {
        lemma_weight_bound(m, class);
    } else {
        let front = codes.drop_last();
        assert(classes_merged(m, front) is Some);
        merging_adds_class_by_class(m, front, class);
        lemma_classes_merged_wf(m, front);
        let t = classes_merged(m, front)->Some_0;
        let (c, w) = codes.last();
        lemma_weight_bound(t, class);
        if w != 0 {
            if has_class(t, c) {
                let i = choose|i: int| class_at(t, c, i);
                assert(class_at(t, c, i));
                lemma_weight_at(t, i);
                lemma_weight_update(t, i, capped_sum(t[i].1, w), class);
            } else {
                assert(t.push((c, w)).drop_last() == t);
                lemma_weight_absent(t, c);
            }
        }
    }
}

/// The majority class depends on the weights alone: two lists that give every
/// class the same positive weight have the same majority, whatever order their
/// entries came in.
pub proof fn majority_is_order_free(a: Seq<(i32, u64)>, b: Seq<(i32, u64)>, c: i32)
    requires
        distinct_classes(a),
        distinct_classes(b),
        positive_weights(a),
        positive_weights(b),
        forall|k: i32| class_weight(a, k) == class_weight(b, k),
    ensures
        is_majority(a, c) == is_majority(b, c),
{
    lemma_majority_carries_over(a, b, c);
    lemma_majority_carries_over(b, a, c);
}

proof fn lemma_majority_carries_over(a: Seq<(i32, u64)>, b: Seq<(i32, u64)>, c: i32)
    requires
        distinct_classes(a),
        distinct_classes(b),
        positive_weights(a),
        positive_weights(b),
        forall|k: i32| class_weight(a, k) == class_weight(b, k),
    ensures
        is_majority(a, c) ==> is_majority(b, c),
{
    if is_majority(a, c) {
        let i = choose|i: int|
            #![trigger a[i]]
            0 <= i < a.len() && a[i].0 == c && forall|j: int|
                0 <= j < a.len() ==> (#[trigger] a[j]).1 < a[i].1 || (a[j].1 == a[i].1 && c
                    <= a[j].0);
        lemma_weight_at(a, i);
        lemma_positive_has(b, c);
        let k = choose|k: int| class_at(b, c, k);
        lemma_weight_at(b, k);
        assert forall|j: int| 0 <= j < b.len() implies (#[trigger] b[j]).1 < b[k].1 || (b[j].1
            == b[k].1 && c <= b[j].0) by {
            lemma_weight_at(b, j);
            lemma_positive_has(a, b[j].0);
            let l = choose|l: int| class_at(a, b[j].0, l);
            lemma_weight_at(a, l);
            assert(a[l].1 == b[j].1);
        }
        assert(b[k].0 == c);
    }
}

/// A list has at most one majority class.
pub proof fn majority_is_unique(m: Seq<(i32, u64)>, c: i32, d: i32)
    requires
        is_majority(m, c),
        is_majority(m, d),
    ensures
        c == d,
{
    let i = choose|i: int|
        #![trigger m[i]]
        0 <= i < m.len() && m[i].0 == c && forall|j: int|
            0 <= j < m.len() ==> (#[trigger] m[j]).1 < m[i].1 || (m[j].1 == m[i].1 && c <= m[j].0);
    let k = choose|k: int|
        #![trigger m[k]]
        0 <= k < m.len() && m[k].0 == d && forall|j: int|
            0 <= j < m.len() ==> (#[trigger] m[j]).1 < m[k].1 || (m[j].1 == m[k].1 && d <= m[j].0);
    assert(m[i].0 == c && m[k].0 == d);
}

/// The majority has at least the weight of every class, and the smallest code among
/// those of the same weight.
pub proof fn majority_is_the_heaviest(m: Seq<(i32, u64)>, c: i32, k: i32)
    requires
        distinct_classes(m),
        is_majority(m, c),
        has_class(m, k),
    ensures
        has_class(m, c),
        class_weight(m, k) <= class_weight(m, c),
        class_weight(m, k) == class_weight(m, c) ==> c <= k,
{
    let i = choose|i: int|
        #![trigger m[i]]
        0 <= i < m.len() && m[i].0 == c && forall|j: int|
            0 <= j < m.len() ==> (#[trigger] m[j]).1 < m[i].1 || (m[j].1 == m[i].1 && c <= m[j].0);
    let j = choose|j: int| class_at(m, k, j);
    assert(class_at(m, c, i));
    lemma_weight_at(m, i);
    lemma_weight_at(m, j);
}

/// The weight of a class is that of its entry, and the total that of all entries.
pub proof fn weights_are_those_of_the_entries(m: Seq<(i32, u64)>, x: (i32, u64), class: i32)
    ensures
        class_weight(m.push(x), x.0) == x.1,
        class != x.0 ==> class_weight(m.push(x), class) == class_weight(m, class),
        class_weight(Seq::<(i32, u64)>::empty(), class) == 0,
        total_weight(m.push(x)) == total_weight(m) + x.1,
        total_weight(Seq::<(i32, u64)>::empty()) == 0,
        code_weight(m.push(x), x.0) == code_weight(m, x.0) + x.1,
        class != x.0 ==> code_weight(m.push(x), class) == code_weight(m, class),
        has_class(m, class) <==> exists|i: int| 0 <= i < m.len() && (#[trigger] m[i]).0 == class,
{
    assert(m.push(x).drop_last() =~= m);
    if has_class(m, class) {
        let i = choose|i: int| class_at(m, class, i);
        assert(m[i].0 == class);
    }
    if exists|i: int| 0 <= i < m.len() && (#[trigger] m[i]).0 == class {
        let i = choose|i: int| 0 <= i < m.len() && (#[trigger] m[i]).0 == class;
        assert(class_at(m, class, i));
    }
}

/// A class list takes a new class exactly while it has fewer than 4096; adding to a
/// class that it has, or adding nothing, is never refused.
pub proof fn lists_hold_4096_classes(m: Seq<(i32, u64)>, class: i32, w: u64)
    ensures
        class_added(m, class, w) is None <==> w > 0 && m.len() >= 4096 && forall|i: int|
            0 <= i < m.len() ==> (#[trigger] m[i]).0 != class,
        w > 0 && m.len() < 4096 && (forall|i: int|
            0 <= i < m.len() ==> (#[trigger] m[i]).0 != class) ==> class_added(m, class, w) == Some(
            m.push((class, w)),
        ),
        w == 0 ==> class_added(m, class, w) == Some(m),
{
    if has_class(m, class) {
        let i = choose|i: int| class_at(m, class, i);
        assert(m[i].0 == class);
    } else {
        assert forall|i: int| 0 <= i < m.len() implies (#[trigger] m[i]).0 != class by {
            assert(!class_at(m, class, i));
        }
    }
}

/// Weights add up until they reach the largest that can be held.
pub proof fn weights_add_up(a: u64, b: u64)
    ensures
        a + b <= 0xFFFF_FFFF_FFFF_FFFF ==> capped_sum(a, b) == a + b,
        a + b > 0xFFFF_FFFF_FFFF_FFFF ==> capped_sum(a, b) == 0xFFFF_FFFF_FFFF_FFFF,
        capped((a + b) as nat) == capped_sum(a, b),
{
}

/// Some entry gives weight to the class.
pub open spec fn weighs(codes: Seq<(i32, u64)>, class: i32) -> bool {
    exists|i: int| 0 <= i < codes.len() && (#[trigger] codes[i]).0 == class && codes[i].1 > 0
}

/// The number of different classes that get weight.
pub open spec fn weighed_classes(codes: Seq<(i32, u64)>) -> nat
    decreases codes.len(),
{
    if codes.len() == 0 {
        0
    } else {
        weighed_classes(codes.drop_last()) + if codes.last().1 > 0 && !weighs(
            codes.drop_last(),
            codes.last().0,
        ) {
            1nat
        } else {
            0
        }
    }
}

proof fn lemma_weighs_step(codes: Seq<(i32, u64)>, class: i32)
    requires
        codes.len() > 0,
    ensures
        weighs(codes, class) <==> weighs(codes.drop_last(), class) || (codes.last().0 == class
            && codes.last().1 > 0),
{
    let front = codes.drop_last();
    if weighs(codes, class) {
        let i = choose|i: int|
            0 <= i < codes.len() && (#[trigger] codes[i]).0 == class && codes[i].1 > 0;
        if i < front.len() {
            assert(front[i] == codes[i]);
        }
    }
    if weighs(front, class) {
        let i = choose|i: int|
            0 <= i < front.len() && (#[trigger] front[i]).0 == class && front[i].1 > 0;
        assert(codes[i] == front[i]);
    }
    if codes.last().0 == class && codes.last().1 > 0 {
        assert(codes[codes.len() - 1] == codes.last());
    }
}

proof fn lemma_classes_after_adding(m: Seq<(i32, u64)>, class: i32, w: u64, k: i32)
    requires
        w > 0,
    ensures
        class_added(m, class, w) matches Some(t) ==> {
            &&& has_class(t, k) <==> has_class(m, k) || k == class
            &&& t.len() == m.len() + (if has_class(m, class) {
                0int
            } else {
                1
            })
        },
{
    if let Some(t) = class_added(m, class, w) {
        if has_class(m, class) {
            let i = choose|i: int| class_at(m, class, i);
            assert(t =~= m.update(i, (class, capped_sum(m[i].1, w))));
            assert forall|j: int| class_at(m, k, j) == class_at(t, k, j) by {
                if 0 <= j < m.len() && j != i {
                    assert(t[j] == m[j]);
                }
            }
            if has_class(m, k) {
                let j = choose|j: int| class_at(m, k, j);
                assert(class_at(t, k, j));
            }
            if has_class(t, k) {
                let j = choose|j: int| class_at(t, k, j);
                assert(class_at(m, k, j));
            }
        } else {
            assert(t =~= m.push((class, w)));
            if has_class(m, k) {
                let j = choose|j: int| class_at(m, k, j);
                assert(class_at(t, k, j));
            }
            if k == class {
                assert(class_at(t, k, m.len() as int));
            }
            if has_class(t, k) {
                let j = choose|j: int| class_at(t, k, j);
                if j < m.len() {
                    assert(class_at(m, k, j));
                }
            }
        }
    }
}

proof fn lemma_gathered_classes(codes: Seq<(i32, u64)>)
    ensures
        match classes_merged(Seq::empty(), codes) {
            Some(t) => t.len() == weighed_classes(codes) && t.len() <= 4096 && forall|k: i32|
                #[trigger] has_class(t, k) <==> weighs(codes, k),
            None => weighed_classes(codes) > 4096,
        },
    decreases codes.len(),
{
    let none = Seq::<(i32, u64)>::empty();
    if codes.len() == 0 {
        assert forall|k: i32| #[trigger] has_class(none, k) <==> weighs(codes, k) by {
            if has_class(none, k) {
                let i = choose|i: int| class_at(none, k, i);
                assert(false);
            }
        }
    } else {
        let front = codes.drop_last();
        let (c, w) = codes.last();
        lemma_gathered_classes(front);
        if let Some(m) = classes_merged(none, front) {
            assert(has_class(m, c) <==> weighs(front, c));
            if let Some(t) = classes_merged(none, codes) {
                if w > 0 {
                    lemma_classes_after_adding(m, c, w, c);
                    lists_hold_4096_classes(m, c, w);
                }
                assert forall|k: i32| #[trigger] has_class(t, k) <==> weighs(codes, k) by {
                    lemma_weighs_step(codes, k);
                    assert(has_class(m, k) <==> weighs(front, k));
                    if w > 0 {
                        lemma_classes_after_adding(m, c, w, k);
                    }
                }
            }
        }
    }
}

/// Codes are gathered exactly where no more than 4096 different classes get weight; the
/// list then holds those classes and no others.
pub proof fn codes_are_gathered_up_to_4096_classes(codes: Seq<(i32, u64)>, k: i32)
    ensures
        classes_merged(Seq::empty(), codes) is Some <==> weighed_classes(codes) <= 4096,
        classes_merged(Seq::empty(), codes) matches Some(t) ==> t.len() == weighed_classes(codes)
            && (has_class(t, k) <==> weighs(codes, k)),
{
    lemma_gathered_classes(codes);
}

} // verus!
