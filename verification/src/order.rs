//! Stable sorting and adjacent deduplication by an order on views.
use vstd::prelude::*;

verus! {

/// A strict order in which a report lists items.
pub trait Ordered: DeepView + Sized {
    /// `a` is listed before `b`.
    spec fn precedes(a: Self::V, b: Self::V) -> bool;

    fn comes_before(&self, other: &Self) -> (r: bool)
        ensures
            r == Self::precedes(self.deep_view(), other.deep_view()),
    ;
}

/// `x` placed after every item of `sorted` that it does not precede.
pub open spec fn insert_in_order<T: Ordered>(sorted: Seq<T::V>, x: T::V) -> Seq<T::V>
    decreases sorted.len(),
{
    if sorted.len() == 0 {
        seq![x]
    } else if !T::precedes(x, sorted.last()) {
        sorted.push(x)
    } else {
        insert_in_order::<T>(sorted.drop_last(), x).push(sorted.last())
    }
}

/// The stable sort of `items`: items that neither precedes keep their relative order.
pub open spec fn sort_in_order<T: Ordered>(items: Seq<T::V>) -> Seq<T::V>
    decreases items.len(),
{
    if items.len() == 0 {
        items
    } else {
        insert_in_order::<T>(sort_in_order::<T>(items.drop_last()), items.last())
    }
}

proof fn lemma_insert_position<T: Ordered>(sorted: Seq<T::V>, x: T::V, position: int)
    requires
        0 <= position <= sorted.len(),
        forall|j: int| position <= j < sorted.len() ==> T::precedes(x, #[trigger] sorted[j]),
        position > 0 ==> !T::precedes(x, sorted[position - 1]),
    ensures
        insert_in_order::<T>(sorted, x) == sorted.insert(position, x),
    decreases sorted.len(),
{
    if sorted.len() == 0 {
        assert(sorted.insert(position, x) =~= seq![x]);
    } else if position == sorted.len() {
        assert(sorted.insert(position, x) =~= sorted.push(x));
    } else {
        assert(T::precedes(x, sorted[sorted.len() - 1]));
        let shorter = sorted.drop_last();
        assert forall|j: int| position <= j < shorter.len() implies T::precedes(
            x,
            #[trigger] shorter[j],
        ) by {
            assert(shorter[j] == sorted[j]);
        }
        lemma_insert_position::<T>(shorter, x, position);
        assert(shorter.insert(position, x).push(sorted.last()) =~= sorted.insert(position, x));
    }
}

fn insert_sorted<T: Ordered>(sorted: &mut Vec<T>, x: T)
    ensures
        final(sorted).deep_view() == insert_in_order::<T>(old(sorted).deep_view(), x.deep_view()),
{
    let ghost view = sorted.deep_view();
    let mut position = sorted.len();
    while position > 0 && x.comes_before(&sorted[position - 1])
        invariant
            position <= sorted@.len(),
            view == sorted.deep_view(),
            forall|j: int|
                position <= j < sorted@.len() ==> T::precedes(
                    x.deep_view(),
                    #[trigger] view[j],
                ),
        decreases position,
    {
        position = position - 1;
    }
    proof {
        lemma_insert_position::<T>(view, x.deep_view(), position as int);
    }
    let ghost xv = x.deep_view();
    sorted.insert(position, x);
    assert(sorted.deep_view() =~= view.insert(position as int, xv));
}

/// Sorts `items` stably by `Ordered::precedes`.
pub fn sort_stable<T: Ordered>(items: Vec<T>) -> (r: Vec<T>)
    ensures
        r.deep_view() == sort_in_order::<T>(items.deep_view()),
{
    let ghost input = items.deep_view();
    let n = items.len();
    let mut items = items;
    let mut pending: Vec<T> = Vec::new();
    while items.len() > 0
        invariant
            items@.len() + pending@.len() == n,
            n == input.len(),
            forall|j: int| 0 <= j < items@.len() ==> #[trigger] items.deep_view()[j] == input[j],
            forall|j: int|
                0 <= j < pending@.len() ==> #[trigger] pending.deep_view()[j] == input[n - 1 - j],
        decreases items@.len(),
    {
        let ghost before = items.deep_view();
        let x = items.pop().unwrap();
        assert(x.deep_view() == before[before.len() - 1]);
        assert forall|j: int| 0 <= j < items@.len() implies #[trigger] items.deep_view()[j]
            == input[j] by {
            assert(items.deep_view()[j] == before[j]);
        }
        let ghost waiting = pending.deep_view();
        let ghost xv = x.deep_view();
        pending.push(x);
        assert(pending.deep_view() =~= waiting.push(xv));
    }
    let mut result: Vec<T> = Vec::new();
    let mut done: usize = 0;
    while pending.len() > 0
        invariant
            done + pending@.len() == n,
            n == input.len(),
            forall|j: int|
                0 <= j < pending@.len() ==> #[trigger] pending.deep_view()[j] == input[n - 1 - j],
            result.deep_view() == sort_in_order::<T>(input.take(done as int)),
        decreases pending@.len(),
    {
        let ghost before = pending.deep_view();
        let x = pending.pop().unwrap();
        assert(x.deep_view() == before[before.len() - 1]);
        assert(x.deep_view() == input[done as int]);
        assert forall|j: int| 0 <= j < pending@.len() implies #[trigger] pending.deep_view()[j]
            == input[n - 1 - j] by {
            assert(pending.deep_view()[j] == before[j]);
        }
        insert_sorted(&mut result, x);
        assert(input.take(done + 1).drop_last() =~= input.take(done as int));
        done = done + 1;
    }
    assert(input.take(n as int) =~= input);
    result
}

/// Two views that an order does not tell apart are the same item.
pub trait Distinguished: Ordered {
    fn same_as(&self, other: &Self) -> (r: bool)
        ensures
            r == (self.deep_view() == other.deep_view()),
    ;
}

/// Consecutive equal items kept once, as `Vec::dedup` does.
pub open spec fn dedup_adjacent<V>(items: Seq<V>) -> Seq<V>
    decreases items.len(),
{
    if items.len() <= 1 {
        items
    } else if items[items.len() - 1] == items[items.len() - 2] {
        dedup_adjacent(items.drop_last())
    } else {
        dedup_adjacent(items.drop_last()).push(items.last())
    }
}

pub proof fn lemma_dedup_last<V>(items: Seq<V>)
    requires
        items.len() > 0,
    ensures
        dedup_adjacent(items).len() > 0,
        dedup_adjacent(items).last() == items.last(),
    decreases items.len(),
{
    if items.len() > 1 && items[items.len() - 1] == items[items.len() - 2] {
        lemma_dedup_last(items.drop_last());
    }
}

pub fn dedup_items<T: Distinguished>(items: Vec<T>) -> (r: Vec<T>)
    ensures
        r.deep_view() == dedup_adjacent(items.deep_view()),
{
    let ghost input = items.deep_view();
    let n = items.len();
    let mut items = items;
    let mut pending: Vec<T> = Vec::new();
    while items.len() > 0
        invariant
            items@.len() + pending@.len() == n,
            n == input.len(),
            forall|j: int| 0 <= j < items@.len() ==> #[trigger] items.deep_view()[j] == input[j],
            forall|j: int|
                0 <= j < pending@.len() ==> #[trigger] pending.deep_view()[j] == input[n - 1 - j],
        decreases items@.len(),
    {
        let ghost before = items.deep_view();
        let x = items.pop().unwrap();
        assert(x.deep_view() == before[before.len() - 1]);
        assert forall|j: int| 0 <= j < items@.len() implies #[trigger] items.deep_view()[j]
            == input[j] by {
            assert(items.deep_view()[j] == before[j]);
        }
        let ghost waiting = pending.deep_view();
        let ghost xv = x.deep_view();
        pending.push(x);
        assert(pending.deep_view() =~= waiting.push(xv));
    }
    let mut result: Vec<T> = Vec::new();
    let mut done: usize = 0;
    while pending.len() > 0
        invariant
            done + pending@.len() == n,
            n == input.len(),
            forall|j: int|
                0 <= j < pending@.len() ==> #[trigger] pending.deep_view()[j] == input[n - 1 - j],
            result.deep_view() == dedup_adjacent(input.take(done as int)),
        decreases pending@.len(),
    {
        let ghost before = pending.deep_view();
        let ghost kept = result.deep_view();
        let x = pending.pop().unwrap();
        assert(x.deep_view() == before[before.len() - 1]);
        assert(x.deep_view() == input[done as int]);
        assert forall|j: int| 0 <= j < pending@.len() implies #[trigger] pending.deep_view()[j]
            == input[n - 1 - j] by {
            assert(pending.deep_view()[j] == before[j]);
        }
        let ghost prefix = input.take(done + 1);
        assert(prefix.drop_last() =~= input.take(done as int));
        if done > 0 {
            proof {
                lemma_dedup_last(input.take(done as int));
            }
            assert(prefix[prefix.len() - 2] == input[done - 1]);
        }
        let duplicate = result.len() > 0 && x.same_as(&result[result.len() - 1]);
        if !duplicate {
            result.push(x);
            assert(result.deep_view() =~= kept.push(input[done as int]));
        }
        done = done + 1;
    }
    assert(input.take(n as int) =~= input);
    result
}

// ---------------------------------------------------------------- sorted results are canonical

/// `precedes` is a strict total order: irreflexive, transitive, and any two different views
/// are ordered one way or the other.
pub open spec fn is_strict_total_order<T: Ordered>() -> bool {
    &&& forall|a: T::V| #![trigger T::precedes(a, a)] !T::precedes(a, a)
    &&& forall|a: T::V, b: T::V, c: T::V|
        #![trigger T::precedes(a, b), T::precedes(b, c)]
        T::precedes(a, b) && T::precedes(b, c) ==> T::precedes(a, c)
    &&& forall|a: T::V, b: T::V|
        #![trigger T::precedes(a, b)]
        a != b ==> T::precedes(a, b) || T::precedes(b, a)
}

/// No item precedes an earlier one.
pub open spec fn sorted_by<T: Ordered>(items: Seq<T::V>) -> bool {
    forall|i: int, j: int|
        0 <= i < j < items.len() ==> !T::precedes(#[trigger] items[j], #[trigger] items[i])
}

/// Every item precedes every later one.
pub open spec fn strictly_sorted_by<T: Ordered>(items: Seq<T::V>) -> bool {
    forall|i: int, j: int|
        0 <= i < j < items.len() ==> T::precedes(#[trigger] items[i], #[trigger] items[j])
}

proof fn lemma_insert_sorted<T: Ordered>(sorted: Seq<T::V>, x: T::V)
    requires
        is_strict_total_order::<T>(),
        sorted_by::<T>(sorted),
    ensures
        sorted_by::<T>(insert_in_order::<T>(sorted, x)),
        insert_in_order::<T>(sorted, x).len() == sorted.len() + 1,
        forall|k: int|
            0 <= k < insert_in_order::<T>(sorted, x).len() ==> (#[trigger] insert_in_order::<T>(
                sorted,
                x,
            )[k] == x || sorted.contains(insert_in_order::<T>(sorted, x)[k])),
        insert_in_order::<T>(sorted, x).contains(x),
        forall|k: int|
            0 <= k < sorted.len() ==> insert_in_order::<T>(sorted, x).contains(#[trigger] sorted[k]),
    decreases sorted.len(),
{
    let r = insert_in_order::<T>(sorted, x);
    if sorted.len() == 0 {
        assert(r[0] == x);
    } else if !T::precedes(x, sorted.last()) {
        let last = sorted.last();
        assert forall|i: int, j: int| 0 <= i < j < r.len() implies !T::precedes(
            #[trigger] r[j],
            #[trigger] r[i],
        ) by {
            if j == r.len() - 1 {
                assert(r[j] == x && r[i] == sorted[i]);
                if i < sorted.len() - 1 && T::precedes(x, sorted[i]) {
                    assert(!T::precedes(sorted[sorted.len() - 1], sorted[i]));
                    if last != sorted[i] {
                        assert(T::precedes(sorted[i], last));
                        assert(T::precedes(x, last));
                    }
                }
            } else {
                assert(r[i] == sorted[i] && r[j] == sorted[j]);
            }
        }
        assert forall|k: int| 0 <= k < r.len() implies (#[trigger] r[k] == x || sorted.contains(
            r[k],
        )) by {
            if k < sorted.len() {
                assert(r[k] == sorted[k]);
            }
        }
        assert(r[sorted.len() as int] == x);
        assert forall|k: int| 0 <= k < sorted.len() implies r.contains(#[trigger] sorted[k]) by {
            assert(r[k] == sorted[k]);
        }
    } else {
        let last = sorted.last();
        let shorter = sorted.drop_last();
        assert forall|i: int, j: int| 0 <= i < j < shorter.len() implies !T::precedes(
            #[trigger] shorter[j],
            #[trigger] shorter[i],
        ) by {
            assert(shorter[i] == sorted[i] && shorter[j] == sorted[j]);
        }
        lemma_insert_sorted::<T>(shorter, x);
        let inner = insert_in_order::<T>(shorter, x);
        assert(r == inner.push(last));
        assert forall|i: int, j: int| 0 <= i < j < r.len() implies !T::precedes(
            #[trigger] r[j],
            #[trigger] r[i],
        ) by {
            if j == r.len() - 1 {
                assert(r[j] == last && r[i] == inner[i]);
                if inner[i] == x {
                    if T::precedes(last, x) {
                        assert(T::precedes(last, last));
                    }
                } else {
                    let m = choose|m: int| 0 <= m < shorter.len() && shorter[m] == inner[i];
                    assert(sorted[m] == inner[i]);
                    assert(!T::precedes(sorted[sorted.len() - 1], sorted[m]));
                }
            } else {
                assert(r[i] == inner[i] && r[j] == inner[j]);
            }
        }
        assert forall|k: int| 0 <= k < r.len() implies (#[trigger] r[k] == x || sorted.contains(
            r[k],
        )) by {
            if k < inner.len() {
                assert(r[k] == inner[k]);
                if inner[k] != x {
                    let m = choose|m: int| 0 <= m < shorter.len() && shorter[m] == inner[k];
                    assert(sorted[m] == inner[k]);
                }
            } else {
                assert(r[k] == sorted[sorted.len() - 1]);
            }
        }
        let at = choose|m: int| 0 <= m < inner.len() && inner[m] == x;
        assert(r[at] == x);
        assert forall|k: int| 0 <= k < sorted.len() implies r.contains(#[trigger] sorted[k]) by {
            if k == sorted.len() - 1 {
                assert(r[r.len() - 1] == sorted[k]);
            } else {
                assert(shorter[k] == sorted[k]);
                let m = choose|m: int| 0 <= m < inner.len() && inner[m] == shorter[k];
                assert(r[m] == sorted[k]);
            }
        }
    }
}

/// A sort is sorted and holds exactly the items it was given.
pub proof fn lemma_sort_sorted<T: Ordered>(items: Seq<T::V>)
    requires
        is_strict_total_order::<T>(),
    ensures
        sorted_by::<T>(sort_in_order::<T>(items)),
        sort_in_order::<T>(items).len() == items.len(),
        forall|v: T::V| sort_in_order::<T>(items).contains(v) <==> items.contains(v),
    decreases items.len(),
{
    if items.len() > 0 {
        let shorter = items.drop_last();
        lemma_sort_sorted::<T>(shorter);
        let sorted = sort_in_order::<T>(shorter);
        lemma_insert_sorted::<T>(sorted, items.last());
        let r = sort_in_order::<T>(items);
        assert(r == insert_in_order::<T>(sorted, items.last()));
        assert forall|v: T::V| r.contains(v) <==> items.contains(v) by {
            if r.contains(v) {
                let k = choose|k: int| 0 <= k < r.len() && r[k] == v;
                assert(r[k] == items.last() || sorted.contains(r[k]));
                if v == items.last() {
                    assert(items[items.len() - 1] == v);
                } else {
                    assert(sorted.contains(v));
                    assert(shorter.contains(v));
                    let m = choose|m: int| 0 <= m < shorter.len() && shorter[m] == v;
                    assert(items[m] == v);
                }
            }
            if items.contains(v) {
                let k = choose|k: int| 0 <= k < items.len() && items[k] == v;
                if k < items.len() - 1 {
                    assert(shorter[k] == v);
                    assert(shorter.contains(v));
                    assert(sorted.contains(v));
                    let m = choose|m: int| 0 <= m < sorted.len() && sorted[m] == v;
                    assert(r.contains(sorted[m]));
                } else {
                    assert(r.contains(items.last()));
                }
            }
        }
    }
}

/// Deduplicating a sorted sequence leaves it strictly sorted, with the same items.
pub proof fn lemma_dedup_strict<T: Ordered>(items: Seq<T::V>)
    requires
        is_strict_total_order::<T>(),
        sorted_by::<T>(items),
    ensures
        strictly_sorted_by::<T>(dedup_adjacent(items)),
        forall|v: T::V| dedup_adjacent(items).contains(v) <==> items.contains(v),
    decreases items.len(),
{
    if items.len() <= 1 {
    } else {
        let shorter = items.drop_last();
        let n = items.len();
        assert forall|i: int, j: int| 0 <= i < j < shorter.len() implies !T::precedes(
            #[trigger] shorter[j],
            #[trigger] shorter[i],
        ) by {
            assert(shorter[i] == items[i] && shorter[j] == items[j]);
        }
        lemma_dedup_strict::<T>(shorter);
        let kept = dedup_adjacent(shorter);
        lemma_dedup_last(shorter);
        assert(kept.last() == items[n - 2]);
        let r = dedup_adjacent(items);
        if items[n - 1] == items[n - 2] {
            assert(r == kept);
            assert forall|v: T::V| r.contains(v) <==> items.contains(v) by {
                if items.contains(v) {
                    let k = choose|k: int| 0 <= k < n && items[k] == v;
                    if k == n - 1 {
                        assert(shorter[n - 2] == v);
                    } else {
                        assert(shorter[k] == v);
                    }
                    assert(shorter.contains(v));
                    assert(kept.contains(v));
                }
                if r.contains(v) {
                    assert(kept.contains(v));
                    assert(shorter.contains(v));
                    let m = choose|m: int| 0 <= m < shorter.len() && shorter[m] == v;
                    assert(items[m] == v);
                }
            }
        } else {
            assert(r == kept.push(items.last()));
            assert forall|i: int, j: int| 0 <= i < j < r.len() implies T::precedes(
                #[trigger] r[i],
                #[trigger] r[j],
            ) by {
                if j == r.len() - 1 {
                    assert(r[j] == items[n - 1]);
                    assert(!T::precedes(items[n - 1], items[n - 2]));
                    assert(T::precedes(items[n - 2], items[n - 1]));
                    if i < kept.len() - 1 {
                        assert(r[i] == kept[i]);
                        assert(T::precedes(kept[i], kept[kept.len() - 1]));
                    } else {
                        assert(r[i] == kept[kept.len() - 1]);
                    }
                } else {
                    assert(r[i] == kept[i] && r[j] == kept[j]);
                }
            }
            assert forall|v: T::V| r.contains(v) <==> items.contains(v) by {
                if items.contains(v) {
                    let k = choose|k: int| 0 <= k < n && items[k] == v;
                    if k == n - 1 {
                        assert(r[r.len() - 1] == v);
                    } else {
                        assert(shorter[k] == v);
                        assert(shorter.contains(v));
                        assert(kept.contains(v));
                        let m = choose|m: int| 0 <= m < kept.len() && kept[m] == v;
                        assert(r[m] == v);
                    }
                }
                if r.contains(v) {
                    let k = choose|k: int| 0 <= k < r.len() && r[k] == v;
                    if k == r.len() - 1 {
                        assert(items[n - 1] == v);
                    } else {
                        assert(kept[k] == v);
                        assert(kept.contains(v));
                        assert(shorter.contains(v));
                        let m = choose|m: int| 0 <= m < shorter.len() && shorter[m] == v;
                        assert(items[m] == v);
                    }
                }
            }
        }
    }
}

/// Two strictly sorted sequences with the same items are the same sequence.
pub proof fn lemma_strictly_sorted_unique<T: Ordered>(a: Seq<T::V>, b: Seq<T::V>)
    requires
        is_strict_total_order::<T>(),
        strictly_sorted_by::<T>(a),
        strictly_sorted_by::<T>(b),
        forall|v: T::V| a.contains(v) <==> b.contains(v),
    ensures
        a == b,
    decreases a.len(),
{
    if a.len() == 0 {
        if b.len() > 0 {
            assert(b.contains(b[0]));
        }
        assert(a =~= b);
    } else if b.len() == 0 {
        assert(a.contains(a[0]));
    } else {
        let la = a.last();
        let lb = b.last();
        assert(a.contains(la));
        assert(b.contains(lb));
        let k = choose|k: int| 0 <= k < b.len() && b[k] == la;
        let m = choose|m: int| 0 <= m < a.len() && a[m] == lb;
        if la != lb {
            assert(k < b.len() - 1);
            assert(m < a.len() - 1);
            assert(T::precedes(b[k], b[b.len() - 1]));
            assert(T::precedes(a[m], a[a.len() - 1]));
            assert(T::precedes(la, la));
        }
        let sa = a.drop_last();
        let sb = b.drop_last();
        assert forall|i: int, j: int| 0 <= i < j < sa.len() implies T::precedes(
            #[trigger] sa[i],
            #[trigger] sa[j],
        ) by {
            assert(sa[i] == a[i] && sa[j] == a[j]);
        }
        assert forall|i: int, j: int| 0 <= i < j < sb.len() implies T::precedes(
            #[trigger] sb[i],
            #[trigger] sb[j],
        ) by {
            assert(sb[i] == b[i] && sb[j] == b[j]);
        }
        assert forall|v: T::V| sa.contains(v) <==> sb.contains(v) by {
            if sa.contains(v) {
                let i = choose|i: int| 0 <= i < sa.len() && sa[i] == v;
                assert(a[i] == v);
                assert(T::precedes(a[i], a[a.len() - 1]));
                assert(b.contains(v));
                let j = choose|j: int| 0 <= j < b.len() && b[j] == v;
                if j == b.len() - 1 {
                    assert(T::precedes(v, v));
                }
                assert(sb[j] == v);
            }
            if sb.contains(v) {
                let i = choose|i: int| 0 <= i < sb.len() && sb[i] == v;
                assert(b[i] == v);
                assert(T::precedes(b[i], b[b.len() - 1]));
                assert(a.contains(v));
                let j = choose|j: int| 0 <= j < a.len() && a[j] == v;
                if j == a.len() - 1 {
                    assert(T::precedes(v, v));
                }
                assert(sa[j] == v);
            }
        }
        lemma_strictly_sorted_unique::<T>(sa, sb);
        assert(a =~= sa.push(la));
        assert(b =~= sb.push(lb));
    }
}

} // verus!
