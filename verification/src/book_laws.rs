//! What holds of every book: levels keep the quantities of the orders, and a client
//! that applies the deltas to its first snapshot holds the current book.
use vstd::prelude::*;

use crate::book::{
    as_levels, book_levels, changes, first_size, l2_delta, levels, removals, sizes_fit,
};

verus! {

/// The sum of the quantities of the given orders.
pub open spec fn total_quantity(orders: Seq<(i64, i64)>) -> int
    decreases orders.len(),
{
    if orders.len() == 0 {
        0
    } else {
        total_quantity(orders.drop_last()) + orders.last().1
    }
}

/// The sum of the sizes of the given levels.
pub open spec fn total_size(levels: Seq<(i64, int)>) -> int
    decreases levels.len(),
{
    if levels.len() == 0 {
        0
    } else {
        total_size(levels.drop_last()) + levels.last().1
    }
}

/// No price occurs on two levels.
pub open spec fn distinct_prices<S>(levels: Seq<(i64, S)>) -> bool {
    forall|i: int, j: int|
        0 <= i < j < levels.len() ==> (#[trigger] levels[i]).0 != (#[trigger] levels[j]).0
}

/// Orders at one price stand together.
pub open spec fn prices_together(orders: Seq<(i64, i64)>) -> bool {
    forall|i: int, k: int, j: int|
        #![trigger orders[i], orders[k], orders[j]]
        0 <= i < k < j < orders.len() && orders[i].0 == orders[j].0 ==> orders[k].0 == orders[i].0
}

/// The prices never fall from one order to a later one.
pub open spec fn prices_ascend(orders: Seq<(i64, i64)>) -> bool {
    forall|i: int, j: int|
        0 <= i < j < orders.len() ==> (#[trigger] orders[i]).0 <= (#[trigger] orders[j]).0
}

/// The prices never rise from one order to a later one.
pub open spec fn prices_descend(orders: Seq<(i64, i64)>) -> bool {
    forall|i: int, j: int|
        0 <= i < j < orders.len() ==> (#[trigger] orders[i]).0 >= (#[trigger] orders[j]).0
}

/// The last level stands at the price of the last order, and every level at the
/// price of some order.
proof fn lemma_level_prices(orders: Seq<(i64, i64)>)
    ensures
        orders.len() > 0 <==> levels(orders).len() > 0,
        orders.len() > 0 ==> levels(orders).last().0 == orders.last().0,
        forall|l: int|
            0 <= l < levels(orders).len() ==> exists|i: int|
                0 <= i < orders.len() && (#[trigger] orders[i]).0 == (#[trigger] levels(
                    orders,
                )[l]).0,
    decreases orders.len(),
{
    if orders.len() > 0 {
        let rest = orders.drop_last();
        lemma_level_prices(rest);
        assert forall|l: int| 0 <= l < levels(orders).len() implies exists|i: int|
            0 <= i < orders.len() && (#[trigger] orders[i]).0 == (#[trigger] levels(
                orders,
            )[l]).0 by {
            if l == levels(orders).len() - 1 {
                assert(orders[orders.len() - 1].0 == levels(orders)[l].0);
            } else {
                assert(levels(orders)[l] == levels(rest)[l]);
                let i = choose|i: int|
                    0 <= i < rest.len() && (#[trigger] rest[i]).0 == levels(rest)[l].0;
                assert(orders[i].0 == levels(orders)[l].0);
            }
        }
    }
}

/// Aggregation loses no quantity: the sizes of the levels sum up to the quantities
/// of the orders.
pub proof fn law_levels_keep_quantity(orders: Seq<(i64, i64)>)
    ensures
        total_size(levels(orders)) == total_quantity(orders),
    decreases orders.len(),
{
    if orders.len() > 0 {
        let rest = orders.drop_last();
        law_levels_keep_quantity(rest);
        let before = levels(rest);
        let (price, quantity) = orders.last();
        if before.len() > 0 && before.last().0 == price {
            let after = before.drop_last().push((price, before.last().1 + quantity));
            assert(after.drop_last() =~= before.drop_last());
        } else {
            assert(before.push((price, quantity as int)).drop_last() =~= before);
        }
    }
}

/// The quantities of two lists of orders add up, and one order has its own.
pub proof fn law_quantities_add_up(a: Seq<(i64, i64)>, b: Seq<(i64, i64)>, order: (i64, i64))
    ensures
        total_quantity(Seq::empty()) == 0,
        total_quantity(seq![order]) == order.1,
        total_quantity(a + b) == total_quantity(a) + total_quantity(b),
    decreases b.len(),
{
    assert(seq![order].drop_last() =~= Seq::<(i64, i64)>::empty());
    assert(total_quantity(seq![order].drop_last()) == 0);
    if b.len() == 0 {
        assert(a + b =~= a);
    } else {
        law_quantities_add_up(a, b.drop_last(), order);
        assert((a + b).drop_last() =~= a + b.drop_last());
    }
}

/// Orders that all stand at one price make one level, which has all their quantities.
pub proof fn law_one_price_is_one_level(orders: Seq<(i64, i64)>, price: i64)
    requires
        orders.len() > 0,
        forall|i: int| 0 <= i < orders.len() ==> (#[trigger] orders[i]).0 == price,
    ensures
        levels(orders).len() == 1,
        levels(orders)[0] == (price, total_quantity(orders)),
    decreases orders.len(),
{
    let rest = orders.drop_last();
    assert(orders.last() == orders[orders.len() - 1]);
    if rest.len() > 0 {
        assert forall|i: int| 0 <= i < rest.len() implies (#[trigger] rest[i]).0 == price by {
            assert(rest[i] == orders[i]);
        }
        law_one_price_is_one_level(rest, price);
    } else {
        assert(total_quantity(rest) == 0);
    }
}

/// Where the price changes, the levels behind the change follow the levels before it,
/// and neither side depends on the other. No orders make no levels.
pub proof fn law_levels_end_where_the_price_changes(a: Seq<(i64, i64)>, b: Seq<(i64, i64)>)
    requires
        a.len() > 0 && b.len() > 0 ==> a.last().0 != b.first().0,
    ensures
        levels(Seq::<(i64, i64)>::empty()).len() == 0,
        levels(a + b) == levels(a) + levels(b),
    decreases b.len(),
{
    if b.len() == 0 {
        assert(a + b =~= a);
        assert(levels(a) + levels(b) =~= levels(a));
    } else {
        let rest = b.drop_last();
        lemma_level_prices(a);
        lemma_level_prices(rest);
        assert((a + b).drop_last() =~= a + rest);
        assert((a + b).last() == b.last());
        if rest.len() > 0 {
            assert(rest.first() == b.first());
        } else {
            assert(b.first() == b.last());
        }
        law_levels_end_where_the_price_changes(a, rest);
        let before = levels(a) + levels(rest);
        if rest.len() > 0 {
            assert(before.last() == levels(rest).last());
            assert(before.drop_last() =~= levels(a) + levels(rest).drop_last());
        } else {
            assert(before =~= levels(a));
        }
        assert(levels(a + b) =~= levels(a) + levels(b));
    }
}

/// Every order has a level at its price.
pub proof fn law_every_order_has_a_level(orders: Seq<(i64, i64)>, i: int) -> (l: int)
    requires
        0 <= i < orders.len(),
    ensures
        0 <= l < levels(orders).len(),
        levels(orders)[l].0 == orders[i].0,
    decreases orders.len(),
{
    lemma_level_prices(orders);
    if i < orders.len() - 1 {
        law_every_order_has_a_level(orders.drop_last(), i)
    } else {
        levels(orders).len() - 1
    }
}

/// Every level has an order at its price.
pub proof fn law_every_level_has_an_order(orders: Seq<(i64, i64)>, l: int) -> (i: int)
    requires
        0 <= l < levels(orders).len(),
    ensures
        0 <= i < orders.len(),
        orders[i].0 == levels(orders)[l].0,
{
    lemma_level_prices(orders);
    choose|i: int| 0 <= i < orders.len() && (#[trigger] orders[i]).0 == levels(orders)[l].0
}

/// Neighbouring levels differ in price.
pub proof fn law_neighbouring_levels_differ(orders: Seq<(i64, i64)>, l: int)
    requires
        0 <= l < levels(orders).len() - 1,
    ensures
        levels(orders)[l].0 != levels(orders)[l + 1].0,
    decreases orders.len(),
{
    let before = levels(orders.drop_last());
    if l + 1 < before.len() {
        law_neighbouring_levels_differ(orders.drop_last(), l);
    }
}

/// Where a stretch of orders at one price begins.
proof fn lemma_stretch(orders: Seq<(i64, i64)>, n: int) -> (start: int)
    requires
        0 < n <= orders.len(),
    ensures
        0 <= start < n,
        forall|i: int| start <= i < n ==> (#[trigger] orders[i]).0 == orders[n - 1].0,
        start == 0 || orders[start - 1].0 != orders[start].0,
    decreases n,
{
    if n > 1 && orders[n - 2].0 == orders[n - 1].0 {
        lemma_stretch(orders, n - 1)
    } else {
        n - 1
    }
}

/// The last level holds the quantities of the last stretch of orders at one price.
proof fn lemma_last_stretch(orders: Seq<(i64, i64)>, a: int, b: int)
    requires
        0 <= a < b <= orders.len(),
        forall|i: int| a <= i < b ==> (#[trigger] orders[i]).0 == orders[a].0,
        a == 0 || orders[a - 1].0 != orders[a].0,
    ensures
        levels(orders.take(b)).last().1 == total_quantity(orders.subrange(a, b)),
{
    let stretch = orders.subrange(a, b);
    assert forall|i: int| 0 <= i < stretch.len() implies (#[trigger] stretch[i]).0
        == orders[a].0 by {
        assert(stretch[i] == orders[a + i]);
    }
    law_one_price_is_one_level(stretch, orders[a].0);
    assert(orders.take(a) + stretch =~= orders.take(b));
    law_levels_end_where_the_price_changes(orders.take(a), stretch);
}

/// The sizes of a book can be summed exactly where, from each change of the price on,
/// the quantities at that price fit in an `i64` up to every order.
pub proof fn law_sizes_fit_stretch_by_stretch(orders: Seq<(i64, i64)>)
    ensures
        sizes_fit(orders) <==> forall|a: int, b: int|
            0 <= a < b <= orders.len() && (forall|i: int|
                a <= i < b ==> (#[trigger] orders[i]).0 == orders[a].0) && (a == 0 || orders[a
                - 1].0 != orders[a].0) ==> i64::MIN <= total_quantity(
                #[trigger] orders.subrange(a, b),
            ) <= i64::MAX,
{
    if sizes_fit(orders) {
        assert forall|a: int, b: int|
            0 <= a < b <= orders.len() && (forall|i: int|
                a <= i < b ==> (#[trigger] orders[i]).0 == orders[a].0) && (a == 0 || orders[a
                - 1].0 != orders[a].0) implies i64::MIN <= total_quantity(
            #[trigger] orders.subrange(a, b),
        ) <= i64::MAX by {
            lemma_last_stretch(orders, a, b);
            assert(i64::MIN <= levels(orders.take(b)).last().1 <= i64::MAX);
        }
    }
    if forall|a: int, b: int|
        0 <= a < b <= orders.len() && (forall|i: int|
            a <= i < b ==> (#[trigger] orders[i]).0 == orders[a].0) && (a == 0 || orders[a - 1].0
            != orders[a].0) ==> i64::MIN <= total_quantity(#[trigger] orders.subrange(a, b))
            <= i64::MAX {
        assert forall|n: int| 0 < n <= orders.len() implies i64::MIN <= (#[trigger] levels(
            orders.take(n),
        )).last().1 <= i64::MAX by {
            let a = lemma_stretch(orders, n);
            assert(orders[a].0 == orders[n - 1].0);
            lemma_last_stretch(orders, a, n);
            assert(i64::MIN <= total_quantity(orders.subrange(a, n)) <= i64::MAX);
        }
    }
}

/// Where the sizes can be summed, each level's size fits in an `i64`, and the levels
/// with bounded sizes are the levels.
pub proof fn law_book_levels_are_the_levels(orders: Seq<(i64, i64)>)
    requires
        sizes_fit(orders),
    ensures
        book_levels(orders).len() == levels(orders).len(),
        forall|l: int|
            0 <= l < levels(orders).len() ==> (#[trigger] book_levels(orders)[l]).0 == levels(
                orders,
            )[l].0 && book_levels(orders)[l].1 as int == levels(orders)[l].1,
    decreases orders.len(),
{
    if orders.len() > 0 {
        let rest = orders.drop_last();
        assert forall|n: int| 0 < n <= rest.len() implies i64::MIN <= (#[trigger] levels(
            rest.take(n),
        )).last().1 <= i64::MAX by {
            assert(rest.take(n) =~= orders.take(n));
        }
        law_book_levels_are_the_levels(rest);
        assert(orders.take(orders.len() as int) =~= orders);
        assert(i64::MIN <= levels(orders.take(orders.len() as int)).last().1 <= i64::MAX);
        assert forall|l: int| 0 <= l < levels(orders).len() implies (#[trigger] book_levels(
            orders,
        )[l]).0 == levels(orders)[l].0 && book_levels(orders)[l].1 as int == levels(
            orders,
        )[l].1 by {
            if l < levels(orders).len() - 1 {
                assert(levels(orders)[l] == levels(rest)[l]);
                assert(book_levels(rest)[l].1 as int == levels(rest)[l].1);
            }
        }
    }
}

/// Where orders at one price stand together, no price occurs on two levels.
pub proof fn law_levels_have_distinct_prices(orders: Seq<(i64, i64)>)
    requires
        prices_together(orders),
    ensures
        distinct_prices(levels(orders)),
    decreases orders.len(),
{
    if orders.len() > 0 {
        let rest = orders.drop_last();
        assert(prices_together(rest)) by {
            assert forall|i: int, k: int, j: int|
                #![trigger rest[i], rest[k], rest[j]]
                0 <= i < k < j < rest.len() && rest[i].0 == rest[j].0 implies rest[k].0
                == rest[i].0 by {
                assert(rest[i] == orders[i] && rest[k] == orders[k] && rest[j] == orders[j]);
            }
        }
        law_levels_have_distinct_prices(rest);
        lemma_level_prices(rest);
        let before = levels(rest);
        let after = levels(orders);
        let last = after.len() - 1;
        assert forall|a: int, b: int| 0 <= a < b < after.len() implies (#[trigger] after[a]).0 != (
        #[trigger] after[b]).0 by {
            assert(before[a].0 == after[a].0);
            if b < last || before.len() == after.len() {
                assert(before[b].0 == after[b].0);
            } else {
                let i = choose|i: int| 0 <= i < rest.len() && (#[trigger] rest[i]).0 == before[a].0;
                if orders[i].0 == orders.last().0 {
                    let m = rest.len() - 1;
                    assert(orders[m].0 == rest[m].0);
                    assert(orders[orders.len() - 1].0 == orders.last().0);
                    assert(i != m);
                    assert(orders[i].0 == rest[i].0);
                    assert(orders[m].0 == orders[i].0);
                }
            }
        }
    }
}

/// Levels at the same prices as levels with distinct prices have distinct prices too.
pub proof fn lemma_same_prices<S, T>(levels: Seq<(i64, S)>, others: Seq<(i64, T)>)
    requires
        levels.len() == others.len(),
        forall|i: int| 0 <= i < levels.len() ==> (#[trigger] levels[i]).0 == others[i].0,
        distinct_prices(levels),
    ensures
        distinct_prices(others),
{
    assert forall|i: int, j: int| 0 <= i < j < others.len() implies (#[trigger] others[i]).0 != (
    #[trigger] others[j]).0 by {
        assert(levels[i].0 != levels[j].0);
    }
}

/// Orders by ascending price, as asks are kept, stand together at each price.
pub proof fn law_ascending_prices_stand_together(orders: Seq<(i64, i64)>)
    requires
        prices_ascend(orders),
    ensures
        prices_together(orders),
{
}

/// Orders by descending price, as bids are kept, stand together at each price.
pub proof fn law_descending_prices_stand_together(orders: Seq<(i64, i64)>)
    requires
        prices_descend(orders),
    ensures
        prices_together(orders),
{
}

/// What a client holds after one more (price, size) entry: size zero takes the price
/// out of its book, any other size is the price's new size.
pub open spec fn apply_entry(book: Map<i64, i64>, entry: (i64, i64)) -> Map<i64, i64> {
    if entry.1 == 0 {
        book.remove(entry.0)
    } else {
        book.insert(entry.0, entry.1)
    }
}

/// What a client holds after the given entries, one after the other.
pub open spec fn replay(book: Map<i64, i64>, entries: Seq<(i64, i64)>) -> Map<i64, i64>
    decreases entries.len(),
{
    if entries.len() == 0 {
        book
    } else {
        apply_entry(replay(book, entries.drop_last()), entries.last())
    }
}

/// The book that a client takes from the levels of a snapshot.
pub open spec fn depth(levels: Seq<(i64, i64)>) -> Map<i64, i64> {
    replay(Map::empty(), levels)
}

/// The size of the last level at `price`, if there is one.
pub open spec fn last_size(levels: Seq<(i64, i64)>, price: i64) -> Option<i64>
    decreases levels.len(),
{
    if levels.len() == 0 {
        None
    } else if levels.last().0 == price {
        Some(levels.last().1)
    } else {
        last_size(levels.drop_last(), price)
    }
}

/// All levels at `price` have the given size.
pub open spec fn only_size(levels: Seq<(i64, i64)>, price: i64, size: i64) -> bool {
    forall|i: int|
        0 <= i < levels.len() && (#[trigger] levels[i]).0 == price ==> levels[i].1 == size
}

/// Wherever a price is on both sides and ends up at the size that its first previous
/// level had, it has no other size on the way, and its last previous level had that
/// size too.
pub open spec fn unambiguous(previous: Seq<(i64, i64)>, current: Seq<(i64, i64)>) -> bool {
    forall|price: i64|
        #![trigger first_size(previous, price)]
        #![trigger last_size(current, price)]
        first_size(previous, price) is Some && last_size(current, price) == first_size(
            previous,
            price,
        ) ==> {
            let size = first_size(previous, price)->0;
            only_size(current, price, size) && last_size(previous, price) == Some(size)
        }
}

/// The size that a client has for `price`, if any.
pub open spec fn held(book: Map<i64, i64>, price: i64) -> Option<i64> {
    if book.dom().contains(price) {
        Some(book[price])
    } else {
        None
    }
}

/// Two books that hold the same at every price are the same.
pub proof fn lemma_same_book(a: Map<i64, i64>, b: Map<i64, i64>)
    requires
        forall|price: i64| held(a, price) == #[trigger] held(b, price),
    ensures
        a == b,
{
    assert forall|price: i64| a.dom().contains(price) == b.dom().contains(price) by {
        assert(held(a, price) == held(b, price));
    }
    assert forall|price: i64| a.dom().contains(price) implies a[price] == b[price] by {
        assert(held(a, price) == held(b, price));
    }
    assert(a =~= b);
}

/// What a client holds at a price after entries of which the last at that price is `last`.
pub open spec fn settled(last: Option<i64>, before: Option<i64>) -> Option<i64> {
    match last {
        None => before,
        Some(size) => if size == 0 {
            None
        } else {
            Some(size)
        },
    }
}

/// After some entries, a client holds at a price what the last entry there says, or what
/// it held before.
pub proof fn lemma_replay_held(book: Map<i64, i64>, entries: Seq<(i64, i64)>, price: i64)
    ensures
        held(replay(book, entries), price) == settled(last_size(entries, price), held(book, price)),
    decreases entries.len(),
{
    if entries.len() > 0 {
        lemma_replay_held(book, entries.drop_last(), price);
    }
}

/// The last level of two lists is the last of the second, where that has one.
pub proof fn lemma_last_size_add(a: Seq<(i64, i64)>, b: Seq<(i64, i64)>, price: i64)
    ensures
        last_size(a + b, price) == (if last_size(b, price) is Some {
            last_size(b, price)
        } else {
            last_size(a, price)
        }),
    decreases b.len(),
{
    if b.len() == 0 {
        assert(a + b =~= a);
    } else {
        lemma_last_size_add(a, b.drop_last(), price);
        assert((a + b).drop_last() =~= a + b.drop_last());
    }
}

proof fn lemma_first_size_push(levels: Seq<(i64, i64)>, level: (i64, i64), price: i64)
    ensures
        first_size(levels.push(level), price) == (if first_size(levels, price) is Some {
            first_size(levels, price)
        } else if level.0 == price {
            Some(level.1)
        } else {
            None
        }),
    decreases levels.len(),
{
    if levels.len() == 0 {
        assert(levels.push(level).drop_first() =~= levels);
        assert(levels.push(level).first() == level);
    } else {
        lemma_first_size_push(levels.drop_first(), level, price);
        assert(levels.push(level).drop_first() =~= levels.drop_first().push(level));
    }
}

/// A price has a first level exactly where it has a last one.
proof fn lemma_first_and_last(levels: Seq<(i64, i64)>, price: i64)
    ensures
        first_size(levels, price) is Some <==> last_size(levels, price) is Some,
    decreases levels.len(),
{
    if levels.len() > 0 {
        let rest = levels.drop_last();
        lemma_first_and_last(rest, price);
        lemma_first_size_push(rest, levels.last(), price);
        assert(rest.push(levels.last()) =~= levels);
    }
}

proof fn lemma_last_removal(previous: Seq<(i64, i64)>, current: Seq<(i64, i64)>, price: i64)
    ensures
        last_size(removals(previous, current), price) == (if first_size(current, price) is None
            && last_size(previous, price) is Some {
            Some(0i64)
        } else {
            None
        }),
    decreases previous.len(),
{
    reveal(Seq::filter);
    if previous.len() == 0 {
        assert(removals(previous, current).len() == 0);
    } else {
        let rest = previous.drop_last();
        lemma_last_removal(rest, current, price);
        let level = previous.last();
        let gone = removals(rest, current);
        let keep = |level: (i64, i64)| first_size(current, level.0) is None;
        let zero = |level: (i64, i64)| (level.0, 0i64);
        assert(rest.filter(keep).push(level).map_values(zero) =~= gone.push((level.0, 0i64)));
        assert(gone.push((level.0, 0i64)).drop_last() =~= gone);
    }
}

/// The last of the current levels at `price` whose size is not `size`.
spec fn last_other(current: Seq<(i64, i64)>, price: i64, size: Option<i64>) -> Option<i64>
    decreases current.len(),
{
    if current.len() == 0 {
        None
    } else if current.last().0 == price && Some(current.last().1) != size {
        Some(current.last().1)
    } else {
        last_other(current.drop_last(), price, size)
    }
}

proof fn lemma_last_change(previous: Seq<(i64, i64)>, current: Seq<(i64, i64)>, price: i64)
    ensures
        last_size(changes(previous, current), price) == last_other(
            current,
            price,
            first_size(previous, price),
        ),
    decreases current.len(),
{
    reveal(Seq::filter);
    if current.len() == 0 {
        assert(changes(previous, current).len() == 0);
    } else {
        let rest = current.drop_last();
        lemma_last_change(previous, rest, price);
        let kept = changes(previous, rest);
        assert(kept.push(current.last()).drop_last() =~= kept);
    }
}

proof fn lemma_last_other(current: Seq<(i64, i64)>, price: i64, size: Option<i64>)
    ensures
        last_size(current, price) != size ==> last_other(current, price, size) == last_size(
            current,
            price,
        ),
        last_other(current, price, size) != size || size is None,
        size matches Some(s) ==> (last_other(current, price, size) is None <==> only_size(
            current,
            price,
            s,
        )),
        size is None ==> last_other(current, price, size) == last_size(current, price),
    decreases current.len(),
{
    if current.len() > 0 {
        let rest = current.drop_last();
        lemma_last_other(rest, price, size);
        if let Some(s) = size {
            assert(current[current.len() - 1] == current.last());
            assert(forall|i: int| 0 <= i < rest.len() ==> rest[i] == #[trigger] current[i]);
            if only_size(rest, price, s) && !(current.last().0 == price && current.last().1 != s) {
                assert(only_size(current, price, s));
            }
            if only_size(current, price, s) {
                assert forall|i: int| 0 <= i < rest.len() && (#[trigger] rest[i]).0
                    == price implies rest[i].1 == s by {
                    assert(current[i] == rest[i]);
                }
            }
        }
    }
}

proof fn lemma_held_after_delta(
    previous: Seq<(i64, i64)>,
    current: Seq<(i64, i64)>,
    price: i64,
)
    ensures
        held(replay(depth(previous), l2_delta(previous, current)), price) == ({
            let other = last_other(current, price, first_size(previous, price));
            let gone = first_size(current, price) is None && last_size(previous, price) is Some;
            settled(
                if other is Some {
                    other
                } else if gone {
                    Some(0i64)
                } else {
                    None
                },
                settled(last_size(previous, price), None),
            )
        }),
        held(depth(current), price) == settled(last_size(current, price), None),
{
    lemma_replay_held(Map::empty(), previous, price);
    lemma_replay_held(Map::empty(), current, price);
    lemma_replay_held(depth(previous), l2_delta(previous, current), price);
    lemma_last_size_add(removals(previous, current), changes(previous, current), price);
    lemma_last_removal(previous, current, price);
    lemma_last_change(previous, current, price);
}

/// A client whose book is that of the previous levels, and which applies the delta,
/// holds the book of the current levels, exactly where the levels are unambiguous.
pub proof fn law_delta_replays(previous: Seq<(i64, i64)>, current: Seq<(i64, i64)>)
    ensures
        replay(depth(previous), l2_delta(previous, current)) == depth(current) <==> unambiguous(
            previous,
            current,
        ),
{
    let client = replay(depth(previous), l2_delta(previous, current));
    let wanted = depth(current);
    if unambiguous(previous, current) {
        assert forall|price: i64| held(client, price) == #[trigger] held(wanted, price) by {
            let size = first_size(previous, price);
            lemma_held_after_delta(previous, current, price);
            lemma_last_other(current, price, size);
            lemma_first_and_last(current, price);
            lemma_first_and_last(previous, price);
        }
        lemma_same_book(client, wanted);
    }
    if client == wanted {
        assert forall|price: i64|
            #![trigger first_size(previous, price)]
            #![trigger last_size(current, price)]
            first_size(previous, price) is Some && last_size(current, price) == first_size(
                previous,
                price,
            ) implies {
            let size = first_size(previous, price)->0;
            only_size(current, price, size) && last_size(previous, price) == Some(size)
        } by {
            let size = first_size(previous, price);
            lemma_held_after_delta(previous, current, price);
            lemma_last_other(current, price, size);
            lemma_first_and_last(current, price);
            lemma_first_and_last(previous, price);
        }
    }
}

proof fn lemma_distinct_sizes(levels: Seq<(i64, i64)>, price: i64)
    requires
        distinct_prices(levels),
    ensures
        first_size(levels, price) == last_size(levels, price),
        last_size(levels, price) matches Some(size) ==> only_size(levels, price, size),
    decreases levels.len(),
{
    if levels.len() > 0 {
        let rest = levels.drop_last();
        let level = levels.last();
        assert(distinct_prices(rest)) by {
            assert forall|i: int, j: int| 0 <= i < j < rest.len() implies (#[trigger] rest[i]).0
                != (#[trigger] rest[j]).0 by {
                assert(rest[i] == levels[i] && rest[j] == levels[j]);
            }
        }
        lemma_distinct_sizes(rest, price);
        lemma_first_size_push(rest, level, price);
        assert(rest.push(level) =~= levels);
        assert forall|i: int| 0 <= i < rest.len() implies (#[trigger] levels[i]).0 != level.0 by {
            assert(levels[i].0 != levels[levels.len() - 1].0);
        }
        if level.0 == price {
            lemma_absent_price(rest, price);
        } else if let Some(size) = last_size(rest, price) {
            assert forall|i: int| 0 <= i < levels.len() && (#[trigger] levels[i]).0
                == price implies levels[i].1 == size by {
                assert(rest[i] == levels[i]);
            }
        }
    }
}

proof fn lemma_absent_price(levels: Seq<(i64, i64)>, price: i64)
    requires
        forall|i: int| 0 <= i < levels.len() ==> (#[trigger] levels[i]).0 != price,
    ensures
        first_size(levels, price) is None,
    decreases levels.len(),
{
    if levels.len() > 0 {
        let rest = levels.drop_first();
        assert forall|i: int| 0 <= i < rest.len() implies (#[trigger] rest[i]).0 != price by {
            assert(rest[i] == levels[i + 1]);
        }
        lemma_absent_price(rest, price);
    }
}

/// Between two books without a price on two levels, the delta always brings a client
/// from the one to the other.
pub proof fn law_delta_replays_distinct(previous: Seq<(i64, i64)>, current: Seq<(i64, i64)>)
    requires
        distinct_prices(previous),
        distinct_prices(current),
    ensures
        replay(depth(previous), l2_delta(previous, current)) == depth(current),
{
    assert forall|price: i64|
        #![trigger first_size(previous, price)]
        #![trigger last_size(current, price)]
        first_size(previous, price) is Some && last_size(current, price) == first_size(
            previous,
            price,
        ) implies {
        let size = first_size(previous, price)->0;
        only_size(current, price, size) && last_size(previous, price) == Some(size)
    } by {
        lemma_distinct_sizes(previous, price);
        lemma_distinct_sizes(current, price);
    }
    law_delta_replays(previous, current);
}

/// A book that did not change has no delta, exactly where all its levels at one price
/// have one size.
pub proof fn law_unchanged_book_has_no_delta(levels: Seq<(i64, i64)>)
    ensures
        l2_delta(levels, levels).len() == 0 <==> forall|price: i64|
            #![trigger first_size(levels, price)]
            first_size(levels, price) matches Some(size) ==> only_size(levels, price, size),
{
    let delta = l2_delta(levels, levels);
    assert forall|price: i64|
        #![trigger first_size(levels, price)]
        last_size(delta, price) is None <==> (first_size(levels, price) matches Some(size)
            ==> only_size(levels, price, size)) by {
        lemma_last_size_add(removals(levels, levels), changes(levels, levels), price);
        lemma_last_removal(levels, levels, price);
        lemma_last_change(levels, levels, price);
        lemma_last_other(levels, price, first_size(levels, price));
        lemma_first_and_last(levels, price);
    }
    if delta.len() > 0 {
        let price = delta.last().0;
        assert(last_size(delta, price) is Some);
        assert(!(first_size(levels, price) matches Some(size) ==> only_size(levels, price, size)));
    } else {
        assert forall|price: i64| #![trigger first_size(levels, price)]
            first_size(levels, price) is Some implies only_size(
            levels,
            price,
            first_size(levels, price)->0,
        ) by {
            assert(last_size(delta, price) is None);
        }
    }
}

/// The first size at a price is that of a level there with none before it, and there is
/// none exactly where no level stands at the price.
pub proof fn law_first_size_is_first(levels: Seq<(i64, i64)>, price: i64)
    ensures
        match first_size(levels, price) {
            Some(size) => exists|i: int|
                0 <= i < levels.len() && (#[trigger] levels[i]) == (price, size) && (forall|j: int|
                    0 <= j < i ==> (#[trigger] levels[j]).0 != price),
            None => forall|i: int| 0 <= i < levels.len() ==> (#[trigger] levels[i]).0 != price,
        },
    decreases levels.len(),
{
    if levels.len() > 0 {
        let rest = levels.drop_first();
        law_first_size_is_first(rest, price);
        if levels.first().0 == price {
            assert(levels[0] == (price, levels[0].1));
        } else {
            match first_size(rest, price) {
                Some(size) => {
                    let i = choose|i: int|
                        0 <= i < rest.len() && (#[trigger] rest[i]) == (price, size) && (forall|
                            j: int,
                        |
                            0 <= j < i ==> (#[trigger] rest[j]).0 != price);
                    assert(levels[i + 1] == (price, size));
                    assert forall|j: int| 0 <= j < i + 1 implies (#[trigger] levels[j]).0
                        != price by {
                        if j > 0 {
                            assert(rest[j - 1] == levels[j]);
                        }
                    }
                },
                None => {
                    assert forall|i: int| 0 <= i < levels.len() implies (#[trigger] levels[i]).0
                        != price by {
                        if i > 0 {
                            assert(rest[i - 1] == levels[i]);
                        }
                    }
                },
            }
        }
    }
}

/// The places of what a filter keeps.
proof fn lemma_filter_places<A>(s: Seq<A>, keep: spec_fn(A) -> bool) -> (places: Seq<int>)
    ensures
        places.len() == s.filter(keep).len(),
        forall|k: int|
            0 <= k < places.len() ==> 0 <= (#[trigger] places[k]) < s.len() && s.filter(keep)[k]
                == s[places[k]],
        forall|k: int, m: int|
            0 <= k < m < places.len() ==> (#[trigger] places[k]) < (#[trigger] places[m]),
        forall|i: int| places.contains(i) <==> 0 <= i < s.len() && keep(s[i]),
    decreases s.len(),
{
    reveal(Seq::filter);
    if s.len() == 0 {
        Seq::empty()
    } else {
        let rest = s.drop_last();
        let before = lemma_filter_places(rest, keep);
        let last = s.len() - 1;
        assert(s.last() == s[last]);
        assert forall|k: int| 0 <= k < before.len() implies s.filter(keep)[k]
            == s[#[trigger] before[k]] by {
            assert(rest[before[k]] == s[before[k]]);
        }
        if keep(s.last()) {
            let places = before.push(last);
            assert forall|i: int| places.contains(i) <==> 0 <= i < s.len() && keep(s[i]) by {
                assert(before.contains(i) <==> 0 <= i < rest.len() && keep(rest[i]));
                if 0 <= i < rest.len() {
                    assert(rest[i] == s[i]);
                }
                if before.contains(i) {
                    let k = choose|k: int| 0 <= k < before.len() && before[k] == i;
                    assert(places[k] == i);
                }
                if places.contains(i) {
                    let k = choose|k: int| 0 <= k < places.len() && places[k] == i;
                    if k < before.len() {
                        assert(before[k] == i);
                    }
                }
                assert(places[before.len() as int] == last);
            }
            places
        } else {
            assert forall|i: int| before.contains(i) <==> 0 <= i < s.len() && keep(s[i]) by {
                assert(before.contains(i) <==> 0 <= i < rest.len() && keep(rest[i]));
                if 0 <= i < rest.len() {
                    assert(rest[i] == s[i]);
                }
            }
            before
        }
    }
}

/// The delta lists every change once, and nothing else: first, with size zero, exactly
/// the previous levels at whose price no current level stands, in their order; then
/// exactly the current levels whose size the first previous level at their price does
/// not have, in their order. Gives the places of both.
pub proof fn law_delta_lists_every_change(
    previous: Seq<(i64, i64)>,
    current: Seq<(i64, i64)>,
) -> (r: (Seq<int>, Seq<int>))
    ensures
        l2_delta(previous, current).len() == r.0.len() + r.1.len(),
        forall|k: int, m: int| 0 <= k < m < r.0.len() ==> (#[trigger] r.0[k]) < (#[trigger] r.0[m]),
        forall|k: int, m: int| 0 <= k < m < r.1.len() ==> (#[trigger] r.1[k]) < (#[trigger] r.1[m]),
        forall|i: int|
            r.0.contains(i) <==> 0 <= i < previous.len() && (forall|j: int|
                0 <= j < current.len() ==> (#[trigger] current[j]).0 != previous[i].0),
        forall|j: int|
            r.1.contains(j) <==> 0 <= j < current.len() && !(exists|i: int|
                0 <= i < previous.len() && (#[trigger] previous[i]) == current[j] && (forall|h: int|
                    0 <= h < i ==> (#[trigger] previous[h]).0 != current[j].0)),
        forall|k: int|
            0 <= k < r.0.len() ==> #[trigger] l2_delta(previous, current)[k] == (
                previous[r.0[k]].0,
                0i64,
            ),
        forall|k: int|
            0 <= k < r.1.len() ==> l2_delta(previous, current)[r.0.len() + k] == current[
            #[trigger] r.1[k]],
{
    let is_gone = |level: (i64, i64)| first_size(current, level.0) is None;
    let is_changed = |level: (i64, i64)| first_size(previous, level.0) != Some(level.1);
    let gone = lemma_filter_places(previous, is_gone);
    let changed = lemma_filter_places(current, is_changed);
    assert forall|i: int|
        gone.contains(i) <==> 0 <= i < previous.len() && (forall|j: int|
            0 <= j < current.len() ==> (#[trigger] current[j]).0 != previous[i].0) by {
        if 0 <= i < previous.len() {
            law_first_size_is_first(current, previous[i].0);
        }
    }
    assert forall|j: int|
        changed.contains(j) <==> 0 <= j < current.len() && !(exists|i: int|
            0 <= i < previous.len() && (#[trigger] previous[i]) == current[j] && (forall|h: int|
                0 <= h < i ==> (#[trigger] previous[h]).0 != current[j].0)) by {
        if 0 <= j < current.len() {
            let (price, size) = current[j];
            law_first_size_is_first(previous, price);
            if exists|i: int|
                0 <= i < previous.len() && (#[trigger] previous[i]) == current[j] && (forall|h: int|
                    0 <= h < i ==> (#[trigger] previous[h]).0 != current[j].0) {
                let i = choose|i: int|
                    0 <= i < previous.len() && (#[trigger] previous[i]) == current[j] && (forall|
                        h: int,
                    |
                        0 <= h < i ==> (#[trigger] previous[h]).0 != current[j].0);
                let found = first_size(previous, price)->0;
                let m = choose|m: int|
                    0 <= m < previous.len() && (#[trigger] previous[m]) == (price, found) && (
                    forall|h: int| 0 <= h < m ==> (#[trigger] previous[h]).0 != price);
                assert(previous[i].0 == price && previous[m].0 == price);
                assert(i == m);
            }
        }
    }
    let removed = removals(previous, current);
    let delta = l2_delta(previous, current);
    assert forall|k: int| 0 <= k < gone.len() implies #[trigger] delta[k] == (
        previous[gone[k]].0,
        0i64,
    ) by {
        assert(delta[k] == removed[k]);
        assert(previous.filter(is_gone)[k] == previous[gone[k]]);
    }
    assert forall|k: int| 0 <= k < changed.len() implies delta[gone.len() + k] == current[
    #[trigger] changed[k]] by {
        assert(delta[removed.len() + k] == changes(previous, current)[k]);
    }
    (gone, changed)
}

/// Between two states of one side of a book, each kept by price, the delta of their
/// levels brings a client from the one to the other.
pub proof fn law_book_delta_replays(
    orders_before: Seq<(i64, i64)>,
    orders_after: Seq<(i64, i64)>,
    previous: Seq<(i64, i64)>,
    current: Seq<(i64, i64)>,
)
    requires
        prices_together(orders_before),
        prices_together(orders_after),
        as_levels(previous) == levels(orders_before),
        as_levels(current) == levels(orders_after),
    ensures
        replay(depth(previous), l2_delta(previous, current)) == depth(current),
{
    law_levels_have_distinct_prices(orders_before);
    law_levels_have_distinct_prices(orders_after);
    lemma_same_prices(levels(orders_before), previous);
    lemma_same_prices(levels(orders_after), current);
    law_delta_replays_distinct(previous, current);
}

} // verus!
