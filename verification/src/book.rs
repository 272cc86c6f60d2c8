//! Aggregated views of an order book: levels of one price each, and the changes
//! that lead from one view to the next.
use itertools::Itertools;

use vstd::prelude::*;

verus! {

/// The levels of a book whose resting orders are the given (price, quantity) pairs:
/// neighbouring orders at one price make one level, whose size is the sum of their
/// quantities.
pub open spec fn levels(orders: Seq<(i64, i64)>) -> Seq<(i64, int)>
    decreases orders.len(),
{
    if orders.len() == 0 {
        Seq::empty()
    } else {
        let before = levels(orders.drop_last());
        let (price, quantity) = orders.last();
        if before.len() > 0 && before.last().0 == price {
            before.drop_last().push((price, before.last().1 + quantity))
        } else {
            before.push((price, quantity as int))
        }
    }
}

/// Every size that comes up while the levels are summed fits in an `i64`.
pub open spec fn sizes_fit(orders: Seq<(i64, i64)>) -> bool {
    forall|n: int|
        0 < n <= orders.len() ==> i64::MIN <= (#[trigger] levels(orders.take(n))).last().1 <= i64::MAX
}

/// The levels with their sizes as unbounded integers.
pub open spec fn as_levels(orders: Seq<(i64, i64)>) -> Seq<(i64, int)> {
    orders.map_values(|order: (i64, i64)| (order.0, order.1 as int))
}

/// The levels of a book, for sizes that fit in an `i64`.
pub open spec fn book_levels(orders: Seq<(i64, i64)>) -> Seq<(i64, i64)> {
    levels(orders).map_values(|level: (i64, int)| (level.0, level.1 as i64))
}

/// The orders of all groups, one group after the other.
pub open spec fn joined(groups: Seq<(i64, Vec<(i64, i64)>)>) -> Seq<(i64, i64)>
    decreases groups.len(),
{
    if groups.len() == 0 {
        Seq::empty()
    } else {
        joined(groups.drop_last()) + groups.last().1@
    }
}

/// `groups` cuts `orders` into its longest stretches of one price each.
pub open spec fn are_price_runs(
    orders: Seq<(i64, i64)>,
    groups: Seq<(i64, Vec<(i64, i64)>)>,
) -> bool {
    &&& joined(groups) == orders
    &&& forall|g: int| 0 <= g < groups.len() ==> (#[trigger] groups[g]).1@.len() > 0
    &&& forall|g: int, i: int|
        0 <= g < groups.len() && 0 <= i < groups[g].1@.len() ==> (#[trigger] groups[g].1@[i]).0
            == groups[g].0
    &&& forall|g: int, h: int|
        0 <= g && h == g + 1 && h < groups.len() ==> (#[trigger] groups[g]).0 != (
        #[trigger] groups[h]).0
}

/// Calls `itertools::Itertools::group_by` with the price as the key, and collects
/// what it yields. It is trusted to cut the orders into consecutive groups, a new
/// one wherever the price changes, and to keep every order in its place.
#[verifier::external_body]
fn group_by_price(orders: &Vec<(i64, i64)>) -> (groups: Vec<(i64, Vec<(i64, i64)>)>)
    ensures
        are_price_runs(orders@, groups@),
{
    let groups = orders.iter().copied().group_by(|order| order.0);
    groups.into_iter().map(|(price, group)| (price, group.collect())).collect()
}

proof fn lemma_joined_prefix(groups: Seq<(i64, Vec<(i64, i64)>)>, k: int)
    requires
        0 <= k <= groups.len(),
    ensures
        joined(groups.take(k)).len() <= joined(groups).len(),
        joined(groups).take(joined(groups.take(k)).len() as int) == joined(groups.take(k)),
    decreases groups.len() - k,
{
    if k == groups.len() {
        assert(groups.take(k) =~= groups);
        assert(joined(groups).take(joined(groups).len() as int) =~= joined(groups));
    } else {
        lemma_joined_prefix(groups, k + 1);
        assert(groups.take(k + 1).drop_last() =~= groups.take(k));
        let long = joined(groups.take(k + 1));
        let short = joined(groups.take(k));
        assert(long.take(short.len() as int) =~= short);
        assert(joined(groups).take(short.len() as int) =~= joined(groups).take(
            long.len() as int,
        ).take(short.len() as int));
    }
}

/// Appending one more order at the price of the last level, or at another.
proof fn lemma_levels_push(orders: Seq<(i64, i64)>, order: (i64, i64))
    ensures
        levels(orders.push(order)) == ({
            let before = levels(orders);
            if before.len() > 0 && before.last().0 == order.0 {
                before.drop_last().push((order.0, before.last().1 + order.1))
            } else {
                before.push((order.0, order.1 as int))
            }
        }),
{
    assert(orders.push(order).drop_last() =~= orders);
}

/// The levels of the current book: (price, size) in the order of the book.
pub fn l2_snapshot(orders: &Vec<(i64, i64)>) -> (r: Vec<(i64, i64)>)
    requires
        sizes_fit(orders@),
    ensures
        as_levels(r@) == levels(orders@),
        r@ == book_levels(orders@),
        r@.len() == levels(orders@).len(),
        forall|i: int|
            0 <= i < r@.len() ==> (#[trigger] r@[i]).0 == levels(orders@)[i].0 && r@[i].1 as int
                == levels(orders@)[i].1,
{
    let groups = group_by_price(orders);
    let mut out: Vec<(i64, i64)> = Vec::new();
    let mut g: usize = 0;
    while g < groups.len()
        invariant
            g <= groups.len(),
            sizes_fit(orders@),
            are_price_runs(orders@, groups@),
            as_levels(out@) == levels(joined(groups@.take(g as int))),
            g == 0 ==> out.len() == 0,
            g > 0 ==> out.len() > 0 && out@.last().0 == groups@[g - 1].0,
        decreases groups.len() - g,
    {
        let price = groups[g].0;
        let group = &groups[g].1;
        let ghost base = joined(groups@.take(g as int));
        let ghost base_levels = levels(base);
        proof {
            assert(groups@[g as int].1@.len() > 0);
            lemma_joined_prefix(groups@, g as int + 1);
            assert(groups@.take(g as int + 1).drop_last() =~= groups@.take(g as int));
            assert(base + group@.take(0) =~= base);
        }
        let mut size: i64 = 0;
        let mut i: usize = 0;
        while i < group.len()
            invariant
                g < groups.len(),
                i <= group.len(),
                *group == groups@[g as int].1,
                price == groups@[g as int].0,
                sizes_fit(orders@),
                are_price_runs(orders@, groups@),
                base_levels == levels(base),
                base_levels.len() > 0 ==> base_levels.last().0 != price,
                joined(groups@.take(g as int + 1)) == base + group@,
                joined(groups@.take(g as int + 1)).len() <= orders@.len(),
                orders@.take((base + group@).len() as int) == base + group@,
                i == 0 ==> size == 0,
                levels(base + group@.take(i as int)) == (if i == 0 {
                    base_levels
                } else {
                    base_levels.push((price, size as int))
                }),
            decreases group.len() - i,
        {
            proof {
                let n = base.len() + i + 1;
                assert(group@[i as int].0 == groups@[g as int].0);
                assert(base + group@.take(i as int + 1) =~= (base + group@.take(i as int)).push(
                    group@[i as int],
                ));
                lemma_levels_push(base + group@.take(i as int), group@[i as int]);
                assert(orders@.take(n) =~= (base + group@).take(n));
                assert((base + group@).take(n) =~= base + group@.take(i as int + 1));
                if i > 0 {
                    assert(base_levels.push((price, size as int)).drop_last() =~= base_levels);
                }
            }
            size = size + group[i].1;
            i += 1;
        }
        proof {
            assert(group@.take(group@.len() as int) =~= group@);
            assert(as_levels(out@.push((price, size))) =~= as_levels(out@).push(
                (price, size as int),
            ));
        }
        out.push((price, size));
        g += 1;
    }
    proof {
        assert(groups@.take(groups@.len() as int) =~= groups@);
        assert forall|i: int| 0 <= i < out@.len() implies out@[i] == book_levels(orders@)[i] by {
            assert(as_levels(out@)[i] == levels(orders@)[i]);
        }
        assert(out@ =~= book_levels(orders@));
        assert forall|i: int| 0 <= i < out@.len() implies (#[trigger] out@[i]).0 == levels(
            orders@,
        )[i].0 && out@[i].1 as int == levels(orders@)[i].1 by {
            assert(as_levels(out@)[i] == levels(orders@)[i]);
        }
    }
    out
}

/// Whether every size of the book's levels can be summed without overflow.
pub fn quantities_fit(orders: &Vec<(i64, i64)>) -> (r: bool)
    ensures
        r == sizes_fit(orders@),
{
    let mut price: i64 = 0;
    let mut size: i64 = 0;
    let mut i: usize = 0;
    while i < orders.len()
        invariant
            i <= orders.len(),
            forall|n: int|
                0 < n <= i ==> i64::MIN <= (#[trigger] levels(orders@.take(n))).last().1
                    <= i64::MAX,
            i == 0 ==> levels(orders@.take(i as int)).len() == 0,
            i > 0 ==> levels(orders@.take(i as int)).len() > 0 && levels(
                orders@.take(i as int),
            ).last() == (price, size as int),
        decreases orders.len() - i,
    {
        let order = orders[i];
        proof {
            assert(orders@.take(i as int + 1) =~= orders@.take(i as int).push(order));
            lemma_levels_push(orders@.take(i as int), order);
        }
        if i > 0 && order.0 == price {
            match size.checked_add(order.1) {
                Some(sum) => {
                    size = sum;
                },
                None => {
                    assert(!(i64::MIN <= levels(orders@.take(i as int + 1)).last().1 <= i64::MAX));
                    return false;
                },
            }
        } else {
            price = order.0;
            size = order.1;
        }
        i += 1;
    }
    true
}

/// The size of the first level at `price`, if there is one.
pub open spec fn first_size(levels: Seq<(i64, i64)>, price: i64) -> Option<i64>
    decreases levels.len(),
{
    if levels.len() == 0 {
        None
    } else if levels.first().0 == price {
        Some(levels.first().1)
    } else {
        first_size(levels.drop_first(), price)
    }
}

/// For every previous level whose price is gone: its price with size zero.
pub open spec fn removals(previous: Seq<(i64, i64)>, current: Seq<(i64, i64)>) -> Seq<(i64, i64)> {
    previous.filter(|level: (i64, i64)| first_size(current, level.0) is None).map_values(
        |level: (i64, i64)| (level.0, 0i64),
    )
}

/// The current levels that are new, or whose size is another than before.
pub open spec fn changes(previous: Seq<(i64, i64)>, current: Seq<(i64, i64)>) -> Seq<(i64, i64)> {
    current.filter(|level: (i64, i64)| first_size(previous, level.0) != Some(level.1))
}

/// What leads from the previous levels to the current ones: first the prices that
/// are gone, in the previous order, then the new and changed levels, in the current
/// order.
pub open spec fn l2_delta(previous: Seq<(i64, i64)>, current: Seq<(i64, i64)>) -> Seq<(i64, i64)> {
    removals(previous, current) + changes(previous, current)
}

/// The size of the first level at `price`, if there is one.
pub fn size_at(levels: &Vec<(i64, i64)>, price: i64) -> (r: Option<i64>)
    ensures
        r == first_size(levels@, price),
        match r {
            Some(size) => exists|i: int|
                0 <= i < levels@.len() && (#[trigger] levels@[i]) == (price, size) && (forall|j: int|
                    0 <= j < i ==> (#[trigger] levels@[j]).0 != price),
            None => forall|i: int| 0 <= i < levels@.len() ==> (#[trigger] levels@[i]).0 != price,
        },
{
    let mut i: usize = 0;
    proof {
        assert(levels@.skip(0) =~= levels@);
    }
    while i < levels.len()
        invariant
            i <= levels.len(),
            first_size(levels@, price) == first_size(levels@.skip(i as int), price),
            forall|j: int| 0 <= j < i ==> (#[trigger] levels@[j]).0 != price,
        decreases levels.len() - i,
    {
        if levels[i].0 == price {
            assert(levels@[i as int] == (price, levels@[i as int].1));
            return Some(levels[i].1);
        }
        proof {
            assert(levels@.skip(i as int).drop_first() =~= levels@.skip(i as int + 1));
        }
        i += 1;
    }
    None
}

proof fn lemma_removals_push(
    previous: Seq<(i64, i64)>,
    level: (i64, i64),
    current: Seq<(i64, i64)>,
)
    ensures
        removals(previous.push(level), current) == (if first_size(current, level.0) is None {
            removals(previous, current).push((level.0, 0i64))
        } else {
            removals(previous, current)
        }),
{
    reveal(Seq::filter);
    let keep = |level: (i64, i64)| first_size(current, level.0) is None;
    assert(previous.push(level).drop_last() =~= previous);
    let zero = |level: (i64, i64)| (level.0, 0i64);
    assert(previous.filter(keep).push(level).map_values(zero) =~= previous.filter(keep).map_values(
        zero,
    ).push((level.0, 0i64)));
}

proof fn lemma_changes_push(
    previous: Seq<(i64, i64)>,
    current: Seq<(i64, i64)>,
    level: (i64, i64),
)
    ensures
        changes(previous, current.push(level)) == (if first_size(previous, level.0) != Some(
            level.1,
        ) {
            changes(previous, current).push(level)
        } else {
            changes(previous, current)
        }),
{
    reveal(Seq::filter);
    assert(current.push(level).drop_last() =~= current);
}

/// The changes that lead from the previous levels to the current ones.
pub fn l2_diff(previous: &Vec<(i64, i64)>, current: &Vec<(i64, i64)>) -> (diff: Vec<(i64, i64)>)
    ensures
        diff@ == l2_delta(previous@, current@),
{
    let mut diff: Vec<(i64, i64)> = Vec::new();
    let mut i: usize = 0;
    proof {
        reveal(Seq::filter);
        assert(removals(previous@.take(0), current@) =~= diff@);
    }
    while i < previous.len()
        invariant
            i <= previous.len(),
            diff@ == removals(previous@.take(i as int), current@),
        decreases previous.len() - i,
    {
        let level = previous[i];
        proof {
            assert(previous@.take(i as int + 1) =~= previous@.take(i as int).push(level));
            lemma_removals_push(previous@.take(i as int), level, current@);
        }
        if size_at(current, level.0).is_none() {
            diff.push((level.0, 0));
        }
        i += 1;
    }
    let ghost gone = diff@;
    let mut j: usize = 0;
    proof {
        assert(previous@.take(previous@.len() as int) =~= previous@);
        reveal(Seq::filter);
        assert(gone + changes(previous@, current@.take(0)) =~= diff@);
    }
    while j < current.len()
        invariant
            j <= current.len(),
            diff@ == gone + changes(previous@, current@.take(j as int)),
        decreases current.len() - j,
    {
        let level = current[j];
        proof {
            assert(current@.take(j as int + 1) =~= current@.take(j as int).push(level));
            lemma_changes_push(previous@, current@.take(j as int), level);
            let kept = changes(previous@, current@.take(j as int));
            assert(gone + kept.push(level) =~= (gone + kept).push(level));
        }
        match size_at(previous, level.0) {
            Some(size) => {
                if size != level.1 {
                    diff.push(level);
                }
            },
            None => {
                diff.push(level);
            },
        }
        j += 1;
    }
    proof {
        assert(current@.take(current@.len() as int) =~= current@);
    }
    diff
}

} // verus!
