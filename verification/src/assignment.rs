//! The best one-to-one assignment between two sets of speakers.
use vstd::prelude::*;

verus! {

/// The weight of a pair; a pair outside the table weighs nothing.
pub open spec fn weight_at(weights: Seq<Vec<usize>>, row: int, column: int) -> int {
    if 0 <= row < weights.len() && 0 <= column < weights[row]@.len() {
        weights[row]@[column] as int
    } else {
        0
    }
}

/// Every number below `size` stands exactly once in `rows`.
pub open spec fn is_assignment(rows: Seq<int>, size: nat) -> bool {
    &&& rows.len() == size
    &&& forall|j: int| 0 <= j < size ==> 0 <= #[trigger] rows[j] < size
    &&& rows.no_duplicates()
}

/// The sum of the weights of the pairs `(rows[j], j)`.
pub open spec fn assignment_weight(weights: Seq<Vec<usize>>, rows: Seq<int>) -> int
    decreases rows.len(),
{
    if rows.len() == 0 {
        0
    } else {
        assignment_weight(weights, rows.drop_last()) + weight_at(
            weights,
            rows.last(),
            rows.len() - 1,
        )
    }
}

/// `best` is the greatest weight that an assignment of `size` rows to `size`
/// columns has.
pub open spec fn is_maximum_weight(weights: Seq<Vec<usize>>, size: nat, best: int) -> bool {
    &&& exists|rows: Seq<int>|
        is_assignment(rows, size) && #[trigger] assignment_weight(weights, rows) == best
    &&& forall|rows: Seq<int>|
        is_assignment(rows, size) ==> #[trigger] assignment_weight(weights, rows) <= best
}

/// The number of rows and columns of the square that holds the table.
pub open spec fn square_size(weights: Seq<Vec<usize>>, columns: nat) -> nat {
    if weights.len() >= columns {
        weights.len()
    } else {
        columns
    }
}

/// The weights are small enough for the sums over a row or a column.
pub open spec fn weights_fit(weights: Seq<Vec<usize>>, size: nat) -> bool {
    forall|i: int, j: int|
        0 <= i < weights.len() && 0 <= j < weights[i]@.len() ==> (size + 2) * (
        #[trigger] weights[i]@[j]) < 0x1000_0000_0000_0000 && (size + 2) * weights[i]@[j]
            <= usize::MAX
}

// ---------------------------------------------------------------------------
// Counting
// ---------------------------------------------------------------------------

/// Distinct numbers below `bound` are at most `bound` many.
proof fn lemma_distinct_bound(items: Seq<int>, bound: int)
    requires
        0 <= bound,
        items.no_duplicates(),
        forall|k: int| 0 <= k < items.len() ==> 0 <= #[trigger] items[k] < bound,
    ensures
        items.len() <= bound,
    decreases bound,
{
    if items.len() > 0 {
        if exists|k: int| 0 <= k < items.len() && items[k] == bound - 1 {
            let k = choose|k: int| 0 <= k < items.len() && items[k] == bound - 1;
            let rest = items.remove(k);
            assert forall|a: int, b: int|
                0 <= a < rest.len() && 0 <= b < rest.len() && a != b implies rest[a] != rest[b] by {
                let a1 = if a < k { a } else { a + 1 };
                let b1 = if b < k { b } else { b + 1 };
                assert(rest[a] == items[a1] && rest[b] == items[b1]);
            }
            assert forall|a: int| 0 <= a < rest.len() implies 0 <= #[trigger] rest[a] < bound
                - 1 by {
                let a1 = if a < k { a } else { a + 1 };
                assert(rest[a] == items[a1]);
                assert(items[a1] != items[k]);
            }
            lemma_distinct_bound(rest, bound - 1);
        } else {
            assert(0 <= items[0] < bound);
            lemma_distinct_bound(items, bound - 1);
        }
    }
}

/// `size` distinct numbers below `size` are all the numbers below `size`.
proof fn lemma_assignment_onto(rows: Seq<int>, size: nat, value: int)
    requires
        is_assignment(rows, size),
        0 <= value < size,
    ensures
        exists|j: int| 0 <= j < size && #[trigger] rows[j] == value,
{
    if forall|j: int| 0 <= j < size ==> #[trigger] rows[j] != value {
        let more = rows.push(value);
        assert(more.no_duplicates());
        lemma_distinct_bound(more, size as int);
    }
}

pub(crate) open spec fn sum_of(items: Seq<int>) -> int
    decreases items.len(),
{
    if items.len() == 0 {
        0
    } else {
        sum_of(items.drop_last()) + items.last()
    }
}

pub(crate) proof fn lemma_sum_remove(items: Seq<int>, k: int)
    requires
        0 <= k < items.len(),
    ensures
        sum_of(items) == sum_of(items.remove(k)) + items[k],
    decreases items.len(),
{
    if k == items.len() - 1 {
        assert(items.remove(k) == items.drop_last());
    } else {
        lemma_sum_remove(items.drop_last(), k);
        assert(items.remove(k).drop_last() == items.drop_last().remove(k));
        assert(items.remove(k).last() == items.last());
    }
}

spec fn picked(values: Seq<int>, rows: Seq<int>) -> Seq<int> {
    Seq::new(rows.len(), |j: int| values[rows[j]])
}

/// A sum over all rows does not depend on the order of the rows.
proof fn lemma_sum_assignment(values: Seq<int>, rows: Seq<int>, size: nat)
    requires
        is_assignment(rows, size),
        values.len() >= size,
    ensures
        sum_of(picked(values, rows)) == sum_of(values.take(size as int)),
    decreases size,
{
    if size == 0 {
        assert(picked(values, rows) =~= values.take(0));
    } else {
        let last = size - 1;
        lemma_assignment_onto(rows, size, last);
        let k = choose|k: int| 0 <= k < size && #[trigger] rows[k] == last;
        let rest = rows.remove(k);
        assert forall|a: int, b: int|
            0 <= a < rest.len() && 0 <= b < rest.len() && a != b implies rest[a] != rest[b] by {
            let a1 = if a < k { a } else { a + 1 };
            let b1 = if b < k { b } else { b + 1 };
            assert(rest[a] == rows[a1] && rest[b] == rows[b1]);
        }
        assert forall|a: int| 0 <= a < rest.len() implies 0 <= #[trigger] rest[a] < last by {
            let a1 = if a < k { a } else { a + 1 };
            assert(rest[a] == rows[a1] && rows[a1] != rows[k]);
        }
        lemma_sum_assignment(values, rest, last as nat);
        lemma_sum_remove(picked(values, rows), k);
        assert(picked(values, rows).remove(k) =~= picked(values, rest));
        assert(values.take(size as int).drop_last() =~= values.take(last));
    }
}

/// The weights of the pairs of an assignment, column by column.
pub(crate) open spec fn pair_weights(weights: Seq<Vec<usize>>, rows: Seq<int>) -> Seq<int> {
    Seq::new(rows.len(), |j: int| weight_at(weights, rows[j], j))
}

pub(crate) proof fn lemma_weight_is_sum(weights: Seq<Vec<usize>>, rows: Seq<int>)
    ensures
        assignment_weight(weights, rows) == sum_of(pair_weights(weights, rows)),
    decreases rows.len(),
{
    if rows.len() > 0 {
        lemma_weight_is_sum(weights, rows.drop_last());
        assert(pair_weights(weights, rows).drop_last() =~= pair_weights(
            weights,
            rows.drop_last(),
        ));
    }
}

/// A table whose rows and columns are those of another one in another order has
/// no smaller greatest weight.
pub proof fn lemma_rearranged(
    weights: Seq<Vec<usize>>,
    other: Seq<Vec<usize>>,
    row_places: Seq<int>,
    column_places: Seq<int>,
    size: nat,
    best: int,
    other_best: int,
)
    requires
        is_assignment(row_places, size),
        is_assignment(column_places, size),
        forall|row: int, column: int|
            0 <= row < size && 0 <= column < size ==> #[trigger] weight_at(
                weights,
                row,
                column_places[column],
            ) == weight_at(other, row_places[row], column),
        is_maximum_weight(weights, size, best),
        is_maximum_weight(other, size, other_best),
    ensures
        best <= other_best,
{
    let rows = choose|rows: Seq<int>|
        is_assignment(rows, size) && #[trigger] assignment_weight(weights, rows) == best;
    let moved = Seq::new(size, |column: int| row_places[rows[column_places[column]]]);
    assert forall|j: int| 0 <= j < size implies 0 <= #[trigger] moved[j] < size by {
        assert(0 <= column_places[j] < size);
        assert(0 <= rows[column_places[j]] < size);
    }
    assert(moved.no_duplicates()) by {
        assert forall|i: int, j: int|
            0 <= i < moved.len() && 0 <= j < moved.len() && i != j implies moved[i]
            != moved[j] by {
            assert(0 <= column_places[i] < size && 0 <= column_places[j] < size);
            assert(column_places[i] != column_places[j]);
            assert(0 <= rows[column_places[i]] < size && 0 <= rows[column_places[j]] < size);
            assert(rows[column_places[i]] != rows[column_places[j]]);
        }
    }
    assert(is_assignment(moved, size));
    let values = pair_weights(weights, rows);
    assert(pair_weights(other, moved) =~= picked(values, column_places)) by {
        assert forall|j: int| 0 <= j < size implies #[trigger] pair_weights(other, moved)[j]
            == picked(values, column_places)[j] by {
            let column = column_places[j];
            assert(0 <= column < size);
            let row = rows[column];
            assert(0 <= row < size);
            assert(weight_at(weights, row, column_places[j]) == weight_at(
                other,
                row_places[row],
                j,
            ));
        }
    }
    lemma_sum_assignment(values, column_places, size);
    assert(values.take(size as int) =~= values);
    lemma_weight_is_sum(weights, rows);
    lemma_weight_is_sum(other, moved);
    assert(assignment_weight(other, moved) <= other_best);
}

/// The weight of an assignment is at most the bound that prices give, and
/// equal to it where each pair of the assignment is priced exactly.
proof fn lemma_weight_by_prices(
    weights: Seq<Vec<usize>>,
    rows: Seq<int>,
    maximum: int,
    row_price: Seq<int>,
    column_price: Seq<int>,
)
    requires
        column_price.len() >= rows.len(),
        forall|j: int|
            0 <= j < rows.len() ==> row_price[#[trigger] rows[j]] + column_price[j] <= maximum
                - weight_at(weights, rows[j], j),
    ensures
        sum_of(picked(row_price, rows)) + sum_of(column_price.take(rows.len() as int))
            <= rows.len() * maximum - assignment_weight(weights, rows),
        (forall|j: int|
            0 <= j < rows.len() ==> row_price[#[trigger] rows[j]] + column_price[j] == maximum
                - weight_at(weights, rows[j], j)) ==> sum_of(picked(row_price, rows)) + sum_of(
            column_price.take(rows.len() as int),
        ) == rows.len() * maximum - assignment_weight(weights, rows),
    decreases rows.len(),
{
    if rows.len() == 0 {
        assert(picked(row_price, rows).len() == 0);
        assert(0 * maximum == 0);
    } else {
        let shorter = rows.drop_last();
        let last = rows.len() - 1;
        assert forall|j: int| 0 <= j < shorter.len() implies row_price[#[trigger] shorter[j]]
            + column_price[j] <= maximum - weight_at(weights, shorter[j], j) by {
            assert(shorter[j] == rows[j]);
        }
        lemma_weight_by_prices(weights, shorter, maximum, row_price, column_price);
        assert(picked(row_price, rows).drop_last() =~= picked(row_price, shorter));
        assert(picked(row_price, rows).last() == row_price[rows[last]]);
        assert(column_price.take(rows.len() as int).drop_last() =~= column_price.take(last));
        assert(column_price.take(rows.len() as int).last() == column_price[last]);
        assert(rows.len() * maximum == last * maximum + maximum) by (nonlinear_arith)
            requires
                last == rows.len() - 1,
        ;
        if forall|j: int|
            0 <= j < rows.len() ==> row_price[#[trigger] rows[j]] + column_price[j] == maximum
                - weight_at(weights, rows[j], j) {
            assert forall|j: int| 0 <= j < shorter.len() implies row_price[#[trigger] shorter[j]]
                + column_price[j] == maximum - weight_at(weights, shorter[j], j) by {
                assert(shorter[j] == rows[j]);
            }
        }
    }
}

// ---------------------------------------------------------------------------
// Prices and partial assignments
// ---------------------------------------------------------------------------

/// Prices of rows and columns, and the row that each column has. Rows and
/// columns count from one; row zero stands for none, column zero for the row
/// that is being added.
struct PricedAssignment {
    row_price: Vec<i64>,
    column_price: Vec<i64>,
    row_of: Vec<usize>,
}

spec fn cost(weights: Seq<Vec<usize>>, maximum: int, row: int, column: int) -> int {
    maximum - weight_at(weights, row - 1, column - 1)
}

impl PricedAssignment {
    spec fn shaped(&self, size: int) -> bool {
        &&& self.row_price@.len() == size + 1
        &&& self.column_price@.len() == size + 1
        &&& self.row_of@.len() == size + 1
    }

    spec fn slack(&self, weights: Seq<Vec<usize>>, maximum: int, row: int, column: int) -> int {
        cost(weights, maximum, row, column) - self.row_price@[row] - self.column_price@[column]
    }

    /// No pair costs less than its two prices.
    spec fn feasible(&self, weights: Seq<Vec<usize>>, maximum: int, size: int) -> bool {
        forall|i: int, j: int|
            #![trigger self.row_price@[i], self.column_price@[j]]
            1 <= i <= size && 1 <= j <= size ==> self.slack(weights, maximum, i, j) >= 0
    }

    /// Each pair that is assigned costs exactly its two prices.
    spec fn exact(&self, weights: Seq<Vec<usize>>, maximum: int, size: int) -> bool {
        forall|j: int|
            1 <= j <= size && #[trigger] self.row_of@[j] > 0 ==> self.slack(
                weights,
                maximum,
                self.row_of@[j] as int,
                j,
            ) == 0
    }

    spec fn priced_within(&self, limit: int, size: int) -> bool {
        &&& forall|i: int| 0 <= i <= size ==> 0 <= #[trigger] self.row_price@[i] <= limit
        &&& forall|j: int| 0 <= j <= size ==> -limit <= #[trigger] self.column_price@[j] <= 0
    }

    /// Columns `from..=size` have different rows.
    spec fn distinct(&self, from: int, size: int) -> bool {
        forall|j: int, k: int|
            from <= j <= size && from <= k <= size && j != k && #[trigger] self.row_of@[j] > 0
                ==> self.row_of@[j] != #[trigger] self.row_of@[k]
    }

    spec fn has_column(&self, size: int, row: int) -> bool {
        exists|j: int| 1 <= j <= size && #[trigger] self.row_of@[j] == row
    }

    /// The first `rows` rows are assigned, at prices that prove the assignment
    /// to be the cheapest.
    spec fn partial(
        &self,
        weights: Seq<Vec<usize>>,
        maximum: int,
        size: int,
        rows: int,
        limit: int,
    ) -> bool {
        &&& self.shaped(size)
        &&& self.feasible(weights, maximum, size)
        &&& self.exact(weights, maximum, size)
        &&& self.priced_within(limit, size)
        &&& self.distinct(1, size)
        &&& forall|j: int| 1 <= j <= size ==> #[trigger] self.row_of@[j] <= rows
        &&& forall|j: int|
            1 <= j <= size && #[trigger] self.row_of@[j] == 0 ==> self.column_price@[j] == 0
        &&& forall|i: int| rows < i <= size ==> #[trigger] self.row_price@[i] == 0
        &&& forall|i: int| 1 <= i <= rows ==> #[trigger] self.has_column(size, i)
    }
}

/// Fewer rows than columns are assigned, so a column is free.
proof fn lemma_free_column(state: PricedAssignment, size: int, rows: int)
    requires
        state.shaped(size),
        state.distinct(1, size),
        0 <= rows < size,
        forall|j: int| 1 <= j <= size ==> #[trigger] state.row_of@[j] <= rows,
    ensures
        exists|j: int| 1 <= j <= size && #[trigger] state.row_of@[j] == 0,
{
    if forall|j: int| 1 <= j <= size ==> #[trigger] state.row_of@[j] != 0 {
        let items = Seq::new(size as nat, |k: int| state.row_of@[k + 1] - 1);
        assert(items.no_duplicates());
        lemma_distinct_bound(items, rows);
    }
}

/// The columns that the search has reached, in the order in which it did.
spec fn search_order(
    state: PricedAssignment,
    weights: Seq<Vec<usize>>,
    maximum: int,
    size: int,
    order: Seq<usize>,
    predecessor: Seq<usize>,
) -> bool {
    &&& order.no_duplicates()
    &&& forall|t: int|
        0 <= t < order.len() ==> #[trigger] order[t] <= size && state.row_of@[order[t] as int] > 0
    &&& order.len() > 0 ==> order[0] == 0
    &&& forall|t: int|
        1 <= t < order.len() ==> reached_from(
            state,
            weights,
            maximum,
            order.take(t),
            predecessor,
            #[trigger] order[t] as int,
        )
}

/// The column is not the first, and its pair with the row of its predecessor,
/// one of `before`, has no slack.
spec fn reached_from(
    state: PricedAssignment,
    weights: Seq<Vec<usize>>,
    maximum: int,
    before: Seq<usize>,
    predecessor: Seq<usize>,
    column: int,
) -> bool {
    &&& column >= 1
    &&& before.contains(predecessor[column])
    &&& state.slack(
        weights,
        maximum,
        state.row_of@[predecessor[column] as int] as int,
        column,
    ) == 0
}

fn weight_of(weights: &[Vec<usize>], row: usize, column: usize) -> (weight: usize)
    ensures
        weight == weight_at(weights@, row as int, column as int),
{
    if row < weights.len() && column < weights[row].len() {
        weights[row][column]
    } else {
        0
    }
}

/// What the search knows of each column that it has not reached: the least
/// slack of a pair with a row it has reached, and where that row comes from.
spec fn minima(
    state: PricedAssignment,
    weights: Seq<Vec<usize>>,
    maximum: int,
    size: int,
    order: Seq<usize>,
    least: Seq<i64>,
    predecessor: Seq<usize>,
) -> bool {
    forall|j: int|
        1 <= j <= size && !order.contains(j as usize) ==> least_known(
            state,
            weights,
            maximum,
            order,
            #[trigger] least[j] as int,
            predecessor[j],
            j,
        )
}

spec fn least_known(
    state: PricedAssignment,
    weights: Seq<Vec<usize>>,
    maximum: int,
    order: Seq<usize>,
    least: int,
    predecessor: usize,
    column: int,
) -> bool {
    &&& order.contains(predecessor)
    &&& least == state.slack(
        weights,
        maximum,
        state.row_of@[predecessor as int] as int,
        column,
    )
    &&& forall|t: int|
        0 <= t < order.len() ==> least <= state.slack(
            weights,
            maximum,
            state.row_of@[#[trigger] order[t] as int] as int,
            column,
        )
}

/// Takes the row of column `current` into account in the least slacks, and
/// finds the unreached column with the least of them.
fn scan_columns(
    state: &PricedAssignment,
    weights: &[Vec<usize>],
    maximum: i64,
    size: usize,
    current: usize,
    used: &Vec<bool>,
    least: &mut Vec<i64>,
    predecessor: &mut Vec<usize>,
    Ghost(order): Ghost<Seq<usize>>,
    Ghost(free): Ghost<int>,
    Ghost(limit): Ghost<int>,
) -> (found: (i64, usize))
    requires
        state.shaped(size as int),
        state.priced_within(limit, size as int),
        0 <= maximum,
        0 <= limit,
        limit + maximum < 0x2000_0000_0000_0000,
        forall|i: int, j: int| weight_at(weights@, i, j) <= maximum,
        current <= size,
        1 <= state.row_of@[current as int] <= size,
        forall|t: int|
            0 <= t < order.len() ==> 1 <= state.row_of@[#[trigger] order[t] as int] <= size,
        used@.len() == size + 1,
        forall|k: int| 0 <= k <= size ==> #[trigger] used@[k] == order.push(current).contains(k as usize),
        old(least)@.len() == size + 1,
        old(predecessor)@.len() == size + 1,
        order.len() == 0 ==> forall|j: int|
            1 <= j <= size ==> #[trigger] old(least)@[j] == i64::MAX,
        order.len() > 0 ==> minima(
            *state,
            weights@,
            maximum as int,
            size as int,
            order,
            old(least)@,
            old(predecessor)@,
        ),
        1 <= free <= size,
        !used@[free],
        state.feasible(weights@, maximum as int, size as int),
    ensures
        final(least)@.len() == size + 1,
        final(predecessor)@.len() == size + 1,
        forall|k: int|
            0 <= k <= size && used@[k] ==> #[trigger] final(predecessor)@[k] == old(predecessor)@[k],
        minima(
            *state,
            weights@,
            maximum as int,
            size as int,
            order.push(current),
            final(least)@,
            final(predecessor)@,
        ),
        forall|j: int| 0 <= j <= size ==> #[trigger] final(least)@[j] <= old(least)@[j],
        1 <= found.1 <= size,
        !used@[found.1 as int],
        found.0 == final(least)@[found.1 as int],
        forall|j: int|
            1 <= j <= size && !#[trigger] used@[j] ==> found.0 <= final(least)@[j],
{
    let row: usize = state.row_of[current];
    assert(used.len() == size + 1);
    let mut delta: i64 = i64::MAX;
    let mut next: usize = 0;
    let mut column: usize = 1;
    while column <= size
        invariant
            1 <= column <= size + 1,
            size + 1 <= usize::MAX,
            state.shaped(size as int),
            state.priced_within(limit, size as int),
            0 <= maximum,
            0 <= limit,
            limit + maximum < 0x2000_0000_0000_0000,
            forall|i: int, j: int| weight_at(weights@, i, j) <= maximum,
            current <= size,
            row == state.row_of@[current as int],
            1 <= row <= size,
            forall|t: int|
                0 <= t < order.len() ==> 1 <= state.row_of@[#[trigger] order[t] as int] <= size,
            used@.len() == size + 1,
            forall|k: int|
                0 <= k <= size ==> #[trigger] used@[k] == order.push(current).contains(k as usize),
            least@.len() == size + 1,
            predecessor@.len() == size + 1,
            order.len() == 0 ==> forall|j: int|
                1 <= j <= size ==> #[trigger] old(least)@[j] == i64::MAX,
            order.len() > 0 ==> minima(
                *state,
                weights@,
                maximum as int,
                size as int,
                order,
                old(least)@,
                old(predecessor)@,
            ),
            forall|k: int|
                0 <= k <= size && used@[k] ==> #[trigger] predecessor@[k] == old(predecessor)@[k],
            forall|k: int|
                column <= k <= size ==> #[trigger] predecessor@[k] == old(predecessor)@[k],
            forall|k: int| column <= k <= size ==> #[trigger] least@[k] == old(least)@[k],
            forall|j: int| 0 <= j <= size ==> #[trigger] least@[j] <= old(least)@[j],
            forall|j: int|
                1 <= j < column && !used@[j] ==> least_known(
                    *state,
                    weights@,
                    maximum as int,
                    order.push(current),
                    #[trigger] least@[j] as int,
                    predecessor@[j],
                    j,
                ),
            forall|j: int| 1 <= j < column && !#[trigger] used@[j] ==> delta <= least@[j],
            next == 0 ==> forall|j: int| 1 <= j < column ==> #[trigger] used@[j],
            next > 0 ==> next < column && !used@[next as int] && delta == least@[next as int],
            next == 0 ==> delta == i64::MAX,
        decreases size + 1 - column,
    {
        if !used[column] {
            let weight: usize = weight_of(weights, row - 1, column - 1);
            assert(0 <= state.row_price@[row as int] <= limit);
            assert(-limit <= state.column_price@[column as int] <= 0);
            let reduced: i64 = maximum - weight as i64 - state.row_price[row]
                - state.column_price[column];
            assert(reduced == state.slack(weights@, maximum as int, row as int, column as int));
            let ghost old_least = least@[column as int];
            let ghost old_predecessor = predecessor@[column as int];
            let ghost grown = order.push(current);
            proof {
                assert(!grown.contains(column));
                assert(!order.contains(column)) by {
                    if order.contains(column) {
                        let t = order.index_of(column);
                        assert(grown[t] == column);
                    }
                }
                if order.len() > 0 {
                    assert(least_known(
                        *state,
                        weights@,
                        maximum as int,
                        order,
                        old(least)@[column as int] as int,
                        old(predecessor)@[column as int],
                        column as int,
                    ));
                }
                assert(grown[order.len() as int] == current);
            }
            if reduced < least[column] {
                least.set(column, reduced);
                predecessor.set(column, current);
            }
            proof {
                let new_least = least@[column as int] as int;
                assert forall|t: int| 0 <= t < grown.len() implies new_least <= state.slack(
                    weights@,
                    maximum as int,
                    state.row_of@[#[trigger] grown[t] as int] as int,
                    column as int,
                ) by {
                    if t < order.len() {
                        assert(grown[t] == order[t]);
                    }
                }
                if order.len() > 0 && reduced >= old_least {
                    let t = order.index_of(old_predecessor);
                    assert(grown[t] == old_predecessor);
                }
                assert(grown.contains(predecessor@[column as int]));
                assert(least_known(
                    *state,
                    weights@,
                    maximum as int,
                    grown,
                    least@[column as int] as int,
                    predecessor@[column as int],
                    column as int,
                ));
            }
            if least[column] < delta {
                delta = least[column];
                next = column;
            }
        }
        column += 1;
    }
    proof {
        if next == 0 {
            assert(used@[free]);
        }
        assert forall|j: int|
            1 <= j <= size && !order.push(current).contains(j as usize) implies least_known(
            *state,
            weights@,
            maximum as int,
            order.push(current),
            #[trigger] least@[j] as int,
            predecessor@[j],
            j,
        ) by {
            assert(!used@[j]);
        }
    }
    (delta, next)
}

/// The prices after those of the reached rows rose and those of the reached
/// columns fell by `delta`.
spec fn raised(
    before: PricedAssignment,
    after: PricedAssignment,
    size: int,
    order: Seq<usize>,
    delta: int,
) -> bool {
    &&& after.shaped(size)
    &&& after.row_of@ == before.row_of@
    &&& forall|t: int|
        0 <= t < order.len() ==> after.row_price@[before.row_of@[#[trigger] order[t] as int] as int]
            == before.row_price@[before.row_of@[order[t] as int] as int] + delta
    &&& forall|i: int|
        0 <= i <= size && !row_reached(before, order, i) ==> #[trigger] after.row_price@[i]
            == before.row_price@[i]
    &&& forall|j: int|
        0 <= j <= size ==> #[trigger] after.column_price@[j] == if order.contains(j as usize) {
            before.column_price@[j] - delta
        } else {
            before.column_price@[j] as int
        }
}

spec fn row_reached(state: PricedAssignment, order: Seq<usize>, row: int) -> bool {
    exists|t: int| 0 <= t < order.len() && state.row_of@[#[trigger] order[t] as int] == row
}

fn raise_prices(
    state: &mut PricedAssignment,
    size: usize,
    order: &Vec<usize>,
    used: &Vec<bool>,
    least: &mut Vec<i64>,
    delta: i64,
    Ghost(limit): Ghost<int>,
)
    requires
        old(state).shaped(size as int),
        old(state).priced_within(limit, size as int),
        old(state).distinct(0, size as int),
        0 <= delta,
        0 <= limit,
        limit + delta < 0x4000_0000_0000_0000,
        order@.no_duplicates(),
        forall|t: int|
            0 <= t < order@.len() ==> #[trigger] order@[t] <= size && 1
                <= old(state).row_of@[order@[t] as int] <= size,
        used@.len() == size + 1,
        forall|k: int| 0 <= k <= size ==> #[trigger] used@[k] == order@.contains(k as usize),
        old(least)@.len() == size + 1,
        forall|j: int| 0 <= j <= size && !used@[j] ==> #[trigger] old(least)@[j] >= delta,
    ensures
        raised(*old(state), *final(state), size as int, order@, delta as int),
        final(state).priced_within(limit + delta, size as int),
        final(least)@.len() == size + 1,
        forall|j: int|
            0 <= j <= size && !used@[j] ==> #[trigger] final(least)@[j] == old(least)@[j] - delta,
{
    let ghost base = *state;
    let mut t: usize = 0;
    while t < order.len()
        invariant
            t <= order@.len(),
            base == *old(state),
            base.shaped(size as int),
            base.priced_within(limit, size as int),
            base.distinct(0, size as int),
            0 <= delta,
            0 <= limit,
            limit + delta < 0x4000_0000_0000_0000,
            order@.no_duplicates(),
            forall|k: int|
                0 <= k < order@.len() ==> #[trigger] order@[k] <= size && 1
                    <= base.row_of@[order@[k] as int] <= size,
            state.shaped(size as int),
            state.row_of@ == base.row_of@,
            forall|k: int|
                0 <= k < order@.len() ==> state.row_price@[base.row_of@[#[trigger] order@[k] as int] as int]
                    == base.row_price@[base.row_of@[order@[k] as int] as int] + if k < t {
                    delta as int
                } else {
                    0
                },
            forall|i: int|
                0 <= i <= size && !row_reached(base, order@, i) ==> #[trigger] state.row_price@[i]
                    == base.row_price@[i],
            forall|j: int|
                0 <= j <= size ==> #[trigger] state.column_price@[j] == if order@.take(
                    t as int,
                ).contains(j as usize) {
                    base.column_price@[j] - delta
                } else {
                    base.column_price@[j] as int
                },
        decreases order@.len() - t,
    {
        let column: usize = order[t];
        let row: usize = state.row_of[column];
        let ghost before = *state;
        proof {
            assert(order@[t as int] == column);
            assert(!order@.take(t as int).contains(column)) by {
                if order@.take(t as int).contains(column) {
                    let k = order@.take(t as int).index_of(column);
                    assert(order@[k] == column);
                }
            }
            assert(0 <= base.row_price@[row as int] <= limit);
            assert(-limit <= base.column_price@[column as int] <= 0);
            assert(state.column_price@[column as int] == base.column_price@[column as int]);
        }
        let row_price: i64 = state.row_price[row];
        state.row_price.set(row, row_price + delta);
        let column_price: i64 = state.column_price[column];
        state.column_price.set(column, column_price - delta);
        proof {
            assert forall|k: int|
                0 <= k
                    < order@.len() implies state.row_price@[base.row_of@[#[trigger] order@[k] as int] as int]
                == base.row_price@[base.row_of@[order@[k] as int] as int] + if k < t + 1 {
                delta as int
            } else {
                0
            } by {
                if k != t {
                    assert(order@[k] != order@[t as int]);
                    assert(base.row_of@[order@[k] as int] != base.row_of@[column as int]);
                }
            }
            assert forall|i: int|
                0 <= i <= size && !row_reached(
                    base,
                    order@,
                    i,
                ) implies #[trigger] state.row_price@[i] == base.row_price@[i] by {
                assert(base.row_of@[order@[t as int] as int] == row);
                assert(i != row);
            }
            let grown = order@.take(t + 1);
            assert(grown == order@.take(t as int).push(column));
            assert forall|j: int| 0 <= j <= size implies #[trigger] state.column_price@[j]
                == if grown.contains(j as usize) {
                base.column_price@[j] - delta
            } else {
                base.column_price@[j] as int
            } by {
                if j == column {
                    assert(grown[t as int] == column);
                } else {
                    if grown.contains(j as usize) {
                        let k = grown.index_of(j as usize);
                        assert(order@.take(t as int)[k] == j);
                    } else if order@.take(t as int).contains(j as usize) {
                        let k = order@.take(t as int).index_of(j as usize);
                        assert(grown[k] == j);
                    }
                    assert(state.column_price@[j] == before.column_price@[j]);
                }
            }
        }
        t += 1;
    }
    assert(order@.take(t as int) == order@);
    assert(used.len() == size + 1);
    let mut column: usize = 0;
    while column <= size
        invariant
            0 <= column <= size + 1,
            size + 1 <= usize::MAX,
            0 <= delta,
            used@.len() == size + 1,
            least@.len() == size + 1,
            forall|j: int| 0 <= j <= size && !used@[j] ==> #[trigger] old(least)@[j] >= delta,
            forall|j: int|
                0 <= j <= size && !used@[j] ==> #[trigger] least@[j] == if j < column {
                    old(least)@[j] - delta
                } else {
                    old(least)@[j] as int
                },
        decreases size + 1 - column,
    {
        if !used[column] {
            let value: i64 = least[column];
            assert(value == old(least)@[column as int]);
            least.set(column, value - delta);
        }
        column += 1;
    }
    proof {
        assert forall|i: int| 0 <= i <= size implies 0 <= #[trigger] state.row_price@[i] <= limit
            + delta by {
            assert(0 <= base.row_price@[i] <= limit);
            if row_reached(base, order@, i) {
                let k = choose|k: int|
                    0 <= k < order@.len() && base.row_of@[#[trigger] order@[k] as int] == i;
                assert(order@[k] == order@[k]);
            }
        }
        assert forall|j: int| 0 <= j <= size implies -(limit + delta)
            <= #[trigger] state.column_price@[j] <= 0 by {
            assert(-limit <= base.column_price@[j] <= 0);
        }
    }
}

/// Raising the prices keeps every pair feasible and every assigned pair exact,
/// and takes `delta` from the slack between reached rows and other columns.
proof fn lemma_raised(
    before: PricedAssignment,
    after: PricedAssignment,
    weights: Seq<Vec<usize>>,
    maximum: int,
    size: int,
    order: Seq<usize>,
    least: Seq<i64>,
    least_after: Seq<i64>,
    predecessor: Seq<usize>,
    delta: int,
)
    requires
        before.shaped(size),
        before.feasible(weights, maximum, size),
        before.exact(weights, maximum, size),
        before.distinct(0, size),
        forall|j: int| 0 <= j <= size ==> #[trigger] before.row_of@[j] <= size,
        raised(before, after, size, order, delta),
        search_order(before, weights, maximum, size, order, predecessor),
        minima(before, weights, maximum, size, order, least, predecessor),
        least.len() == size + 1,
        least_after.len() == size + 1,
        0 <= delta,
        size < usize::MAX,
        forall|j: int|
            1 <= j <= size && !order.contains(j as usize) ==> #[trigger] least[j] >= delta
                && least_after[j] == least[j] - delta,
    ensures
        after.feasible(weights, maximum, size),
        after.exact(weights, maximum, size),
        after.distinct(0, size),
        search_order(after, weights, maximum, size, order, predecessor),
        minima(after, weights, maximum, size, order, least_after, predecessor),
{
    assert forall|i: int, j: int|
        #![trigger after.row_price@[i], after.column_price@[j]]
        1 <= i <= size && 1 <= j <= size implies after.slack(weights, maximum, i, j) >= 0 by {
        let was = before.slack(weights, maximum, i, j);
        assert(before.row_price@[i] == before.row_price@[i] && before.column_price@[j]
            == before.column_price@[j]);
        assert(was >= 0);
        if row_reached(before, order, i) {
            let t = choose|t: int|
                0 <= t < order.len() && before.row_of@[#[trigger] order[t] as int] == i;
            assert(order[t] == order[t]);
            if !order.contains(j as usize) {
                assert(least_known(
                    before,
                    weights,
                    maximum,
                    order,
                    least[j] as int,
                    predecessor[j],
                    j,
                ));
                assert(least[j] <= was);
            }
        }
    }
    assert forall|j: int| 1 <= j <= size && #[trigger] after.row_of@[j] > 0 implies after.slack(
        weights,
        maximum,
        after.row_of@[j] as int,
        j,
    ) == 0 by {
        let i = before.row_of@[j] as int;
        assert(before.slack(weights, maximum, i, j) == 0);
        if order.contains(j as usize) {
            let t = order.index_of(j as usize);
            assert(order[t] == j);
        } else if row_reached(before, order, i) {
            let t = choose|t: int|
                0 <= t < order.len() && before.row_of@[#[trigger] order[t] as int] == i;
            assert(before.row_of@[order[t] as int] == before.row_of@[j]);
            assert(order[t] as int != j) by {
                if order[t] as int == j {
                    assert(order.contains(j as usize));
                }
            }
        }
        assert(after.column_price@[j] == after.column_price@[j]);
        assert(after.row_price@[i] == after.row_price@[i]);
    }
    assert forall|t: int| 1 <= t < order.len() implies reached_from(
        after,
        weights,
        maximum,
        order.take(t),
        predecessor,
        #[trigger] order[t] as int,
    ) by {
        let column = order[t] as int;
        assert(reached_from(before, weights, maximum, order.take(t), predecessor, column));
        let k = order.take(t).index_of(predecessor[column]);
        assert(order[k] == predecessor[column]);
        assert(order.contains(order[t]));
        assert(after.column_price@[column] == before.column_price@[column] - delta);
    }
    assert forall|j: int| 1 <= j <= size && !order.contains(j as usize) implies least_known(
        after,
        weights,
        maximum,
        order,
        #[trigger] least_after[j] as int,
        predecessor[j],
        j,
    ) by {
        assert(least_known(before, weights, maximum, order, least[j] as int, predecessor[j], j));
        assert(after.column_price@[j] == before.column_price@[j]);
        let k = order.index_of(predecessor[j]);
        assert(order[k] == predecessor[j]);
        assert forall|t: int| 0 <= t < order.len() implies least_after[j] <= after.slack(
            weights,
            maximum,
            after.row_of@[#[trigger] order[t] as int] as int,
            j,
        ) by {
            assert(least[j] <= before.slack(
                weights,
                maximum,
                before.row_of@[order[t] as int] as int,
                j,
            ));
        }
    }
}

/// Moves each row on the way back from a free column to the row that is being
/// added one column further.
fn augment(
    state: &mut PricedAssignment,
    weights: &[Vec<usize>],
    maximum: i64,
    size: usize,
    row: usize,
    predecessor: &Vec<usize>,
    start: usize,
    Ghost(order): Ghost<Seq<usize>>,
    Ghost(limit): Ghost<int>,
)
    requires
        1 <= row <= size,
        old(state).shaped(size as int),
        old(state).feasible(weights@, maximum as int, size as int),
        old(state).exact(weights@, maximum as int, size as int),
        old(state).distinct(0, size as int),
        old(state).priced_within(limit, size as int),
        old(state).row_of@[0] == row,
        forall|j: int| 1 <= j <= size ==> #[trigger] old(state).row_of@[j] <= row,
        forall|j: int|
            1 <= j <= size && #[trigger] old(state).row_of@[j] == 0 ==> old(state).column_price@[j]
                == 0,
        forall|i: int| row < i <= size ==> #[trigger] old(state).row_price@[i] == 0,
        forall|i: int| 1 <= i < row ==> #[trigger] old(state).has_column(size as int, i),
        predecessor@.len() == size + 1,
        search_order(*old(state), weights@, maximum as int, size as int, order, predecessor@),
        order.len() > 0,
        1 <= start <= size,
        old(state).row_of@[start as int] == 0,
        !order.contains(start),
        reached_from(*old(state), weights@, maximum as int, order, predecessor@, start as int),
    ensures
        final(state).partial(weights@, maximum as int, size as int, row as int, limit),
        final(state).row_price@ == old(state).row_price@,
        final(state).column_price@ == old(state).column_price@,
{
    let ghost base = *state;
    let mut column: usize = start;
    let ghost mut position: int = order.len() as int;
    proof {
        assert(order.take(position) == order);
        assert forall|i: int| 1 <= i <= row implies #[trigger] has_other_column(
            state.row_of@,
            size as int,
            start as int,
            i,
        ) by {
            if i == row {
                assert(state.row_of@[0] == i);
            } else {
                assert(state.has_column(size as int, i));
            }
        }
    }
    while column != 0
        invariant
            1 <= row <= size,
            base == *old(state),
            base.shaped(size as int),
            base.exact(weights@, maximum as int, size as int),
            base.row_of@[0] == row,
            predecessor@.len() == size + 1,
            search_order(base, weights@, maximum as int, size as int, order, predecessor@),
            order.len() > 0,
            base.row_of@[start as int] == 0,
            1 <= start <= size,
            !order.contains(start),
            reached_from(base, weights@, maximum as int, order, predecessor@, start as int),
            state.shaped(size as int),
            state.row_price@ == base.row_price@,
            state.column_price@ == base.column_price@,
            0 <= position <= order.len(),
            position == order.len() ==> column == start,
            position < order.len() ==> order[position] == column,
            forall|t: int|
                0 <= t < position ==> state.row_of@[#[trigger] order[t] as int]
                    == base.row_of@[order[t] as int],
            forall|j: int, k: int|
                0 <= j <= size && 0 <= k <= size && j != k && j != column && k != column
                    && #[trigger] state.row_of@[j] > 0 ==> state.row_of@[j]
                    != #[trigger] state.row_of@[k],
            forall|j: int|
                1 <= j <= size && j != column && #[trigger] state.row_of@[j] > 0 ==> state.slack(
                    weights@,
                    maximum as int,
                    state.row_of@[j] as int,
                    j,
                ) == 0,
            forall|j: int|
                0 <= j <= size && j != column && #[trigger] state.row_of@[j] == 0
                    ==> base.row_of@[j] == 0,
            forall|j: int| 0 <= j <= size ==> #[trigger] state.row_of@[j] <= row,
            forall|i: int|
                1 <= i <= row ==> #[trigger] has_other_column(
                    state.row_of@,
                    size as int,
                    column as int,
                    i,
                ),
            column <= size,
        decreases position,
    {
        let previous: usize = predecessor[column];
        let ghost before = *state;
        let ghost mut at: int = 0;
        proof {
            if position < order.len() {
                if position == 0 {
                    assert(order[0] == 0);
                }
                assert(reached_from(
                    base,
                    weights@,
                    maximum as int,
                    order.take(position),
                    predecessor@,
                    order[position] as int,
                ));
            } else {
                assert(order.take(position) == order);
            }
            at = order.take(position).index_of(previous);
            assert(order.take(position)[at] == previous);
            assert(order[at] == previous);
            assert(previous != column) by {
                if position < order.len() {
                    assert(order[position] == column);
                } else {
                    assert(order.contains(order[at]));
                }
            }
            assert(state.row_of@[previous as int] == base.row_of@[order[at] as int]);
        }
        let moved: usize = state.row_of[previous];
        state.row_of.set(column, moved);
        proof {
            assert forall|j: int, k: int|
                0 <= j <= size && 0 <= k <= size && j != k && j != previous && k != previous
                    && #[trigger] state.row_of@[j] > 0 implies state.row_of@[j]
                != #[trigger] state.row_of@[k] by {
                let j0 = if j == column { previous as int } else { j };
                let k0 = if k == column { previous as int } else { k };
                assert(state.row_of@[j] == before.row_of@[j0]);
                assert(state.row_of@[k] == before.row_of@[k0]);
            }
            assert forall|j: int|
                1 <= j <= size && j != previous && #[trigger] state.row_of@[j]
                    > 0 implies state.slack(
                weights@,
                maximum as int,
                state.row_of@[j] as int,
                j,
            ) == 0 by {
                if j != column {
                    assert(state.row_of@[j] == before.row_of@[j]);
                    assert(before.slack(
                        weights@,
                        maximum as int,
                        before.row_of@[j] as int,
                        j,
                    ) == 0);
                } else {
                    assert(base.slack(
                        weights@,
                        maximum as int,
                        base.row_of@[previous as int] as int,
                        column as int,
                    ) == 0);
                }
            }
            assert forall|j: int|
                0 <= j <= size && j != previous && #[trigger] state.row_of@[j]
                    == 0 implies base.row_of@[j] == 0 by {
                if j == column {
                    assert(base.row_of@[order[at] as int] > 0);
                } else {
                    assert(state.row_of@[j] == before.row_of@[j]);
                }
            }
            assert forall|i: int| 1 <= i <= row implies #[trigger] has_other_column(
                state.row_of@,
                size as int,
                previous as int,
                i,
            ) by {
                assert(has_other_column(before.row_of@, size as int, column as int, i));
                let j = choose|j: int|
                    0 <= j <= size && j != column && #[trigger] before.row_of@[j] == i;
                if j == previous {
                    assert(state.row_of@[column as int] == i);
                } else {
                    assert(state.row_of@[j] == i);
                }
            }
            assert forall|t: int| 0 <= t < at implies state.row_of@[#[trigger] order[t] as int]
                == base.row_of@[order[t] as int] by {
                assert(order[t] != column) by {
                    if position < order.len() {
                        assert(order[position] == column);
                    } else {
                        assert(order.contains(order[t]));
                    }
                }
                assert(before.row_of@[order[t] as int] == base.row_of@[order[t] as int]);
            }
            assert forall|j: int| 0 <= j <= size implies #[trigger] state.row_of@[j] <= row by {
                if j == column {
                    assert(before.row_of@[previous as int] <= row);
                } else {
                    assert(state.row_of@[j] == before.row_of@[j]);
                }
            }
            position = at;
        }
        column = previous;
    }
    proof {
        assert forall|i: int, j: int|
            #![trigger state.row_price@[i], state.column_price@[j]]
            1 <= i <= size && 1 <= j <= size implies state.slack(
            weights@,
            maximum as int,
            i,
            j,
        ) >= 0 by {
            assert(base.row_price@[i] == state.row_price@[i]);
            assert(base.column_price@[j] == state.column_price@[j]);
            assert(base.slack(weights@, maximum as int, i, j) >= 0);
        }
        assert forall|i: int| 1 <= i <= row implies #[trigger] state.has_column(
            size as int,
            i,
        ) by {
            assert(has_other_column(state.row_of@, size as int, 0, i));
        }
        assert forall|j: int|
            1 <= j <= size && #[trigger] state.row_of@[j] == 0 implies state.column_price@[j]
            == 0 by {
            assert(base.row_of@[j] == 0);
        }
        assert forall|i: int| 0 <= i <= size implies 0 <= #[trigger] state.row_price@[i]
            <= limit by {
            assert(base.row_price@[i] == state.row_price@[i]);
        }
        assert forall|j: int| 0 <= j <= size implies -limit <= #[trigger] state.column_price@[j]
            <= 0 by {
            assert(base.column_price@[j] == state.column_price@[j]);
        }
        assert forall|i: int| row < i <= size implies #[trigger] state.row_price@[i] == 0 by {
            assert(base.row_price@[i] == state.row_price@[i]);
        }
    }
}

spec fn has_other_column(row_of: Seq<usize>, size: int, column: int, row: int) -> bool {
    exists|j: int| 0 <= j <= size && j != column && #[trigger] row_of[j] == row
}

/// Adds a row to a partial assignment.
fn insert_row(
    state: &mut PricedAssignment,
    weights: &[Vec<usize>],
    maximum: i64,
    size: usize,
    row: usize,
    Ghost(limit): Ghost<int>,
)
    requires
        1 <= row <= size,
        old(state).partial(weights@, maximum as int, size as int, row - 1, limit),
        0 <= maximum,
        0 <= limit,
        limit + maximum + maximum < 0x2000_0000_0000_0000,
        forall|i: int, j: int| weight_at(weights@, i, j) <= maximum,
    ensures
        final(state).partial(
            weights@,
            maximum as int,
            size as int,
            row as int,
            limit + maximum,
        ),
{
    let ghost base = *state;
    state.row_of.set(0, row);
    assert(base.row_of.len() == size + 1);
    let mut least: Vec<i64> = vec![i64::MAX; size + 1];
    let mut used: Vec<bool> = vec![false; size + 1];
    let mut predecessor: Vec<usize> = vec![0; size + 1];
    let mut order: Vec<usize> = Vec::new();
    let mut current: usize = 0;
    let ghost mut total: int = 0;
    let ghost mut free: int = 0;
    proof {
        lemma_free_column(base, size as int, row - 1);
        free = choose|j: int| 1 <= j <= size && #[trigger] base.row_of@[j] == 0;
        assert(state.row_of@ == base.row_of@.update(0, row));
        assert forall|i: int, j: int|
            #![trigger state.row_price@[i], state.column_price@[j]]
            1 <= i <= size && 1 <= j <= size implies state.slack(
            weights@,
            maximum as int,
            i,
            j,
        ) >= 0 by {
            assert(base.row_price@[i] == state.row_price@[i]);
            assert(base.column_price@[j] == state.column_price@[j]);
            assert(base.slack(weights@, maximum as int, i, j) >= 0);
        }
        assert forall|j: int| 1 <= j <= size && #[trigger] state.row_of@[j] > 0 implies state.slack(
            weights@,
            maximum as int,
            state.row_of@[j] as int,
            j,
        ) == 0 by {
            assert(base.row_of@[j] == state.row_of@[j]);
        }
        assert forall|j: int, k: int|
            0 <= j <= size && 0 <= k <= size && j != k && #[trigger] state.row_of@[j]
                > 0 implies state.row_of@[j] != #[trigger] state.row_of@[k] by {
            if j >= 1 {
                assert(base.row_of@[j] == state.row_of@[j]);
            }
            if k >= 1 {
                assert(base.row_of@[k] == state.row_of@[k]);
            }
        }
        assert forall|i: int| 0 <= i <= size implies 0 <= #[trigger] state.row_price@[i]
            <= limit by {
            assert(base.row_price@[i] == state.row_price@[i]);
        }
        assert forall|j: int| 0 <= j <= size implies -limit <= #[trigger] state.column_price@[j]
            <= 0 by {
            assert(base.column_price@[j] == state.column_price@[j]);
        }
        assert forall|k: int| 0 <= k <= size implies #[trigger] used@[k] == order@.contains(
            k as usize,
        ) by {}
        assert(search_order(
            *state,
            weights@,
            maximum as int,
            size as int,
            order@,
            predecessor@,
        ));
    }
    loop
        invariant_except_break
            state.row_of@[current as int] > 0,
            !used@[current as int],
            order@.len() == 0 ==> current == 0,
            order@.len() == 0 ==> total == 0 && forall|j: int|
                1 <= j <= size ==> #[trigger] least@[j] == i64::MAX,
            order@.len() > 0 ==> minima(
                *state,
                weights@,
                maximum as int,
                size as int,
                order@,
                least@,
                predecessor@,
            ),
            order@.len() > 0 ==> forall|j: int|
                1 <= j <= size && state.row_of@[j] == 0 ==> #[trigger] least@[j] + total <= maximum,
            order@.len() > 0 ==> reached_from(
                *state,
                weights@,
                maximum as int,
                order@,
                predecessor@,
                current as int,
            ),
            current <= size,
        invariant
            1 <= row <= size,
            0 <= maximum,
            0 <= limit,
            limit + maximum + maximum < 0x2000_0000_0000_0000,
            forall|i: int, j: int| weight_at(weights@, i, j) <= maximum,
            base.partial(weights@, maximum as int, size as int, row - 1, limit),
            size < usize::MAX,
            state.shaped(size as int),
            state.row_of@ == base.row_of@.update(0, row),
            state.feasible(weights@, maximum as int, size as int),
            state.exact(weights@, maximum as int, size as int),
            state.distinct(0, size as int),
            state.priced_within(limit + total, size as int),
            0 <= total <= maximum,
            used@.len() == size + 1,
            least@.len() == size + 1,
            predecessor@.len() == size + 1,
            forall|k: int|
                0 <= k <= size ==> #[trigger] used@[k] == order@.contains(k as usize),
            search_order(*state, weights@, maximum as int, size as int, order@, predecessor@),
            forall|i: int| row < i <= size ==> #[trigger] state.row_price@[i] == 0,
            forall|j: int|
                1 <= j <= size && #[trigger] state.row_of@[j] == 0 ==> state.column_price@[j] == 0,
            1 <= free <= size,
            base.row_of@[free] == 0,
        ensures
            1 <= current <= size,
            state.row_of@[current as int] == 0,
            !used@[current as int],
            order@.len() > 0,
            reached_from(
                *state,
                weights@,
                maximum as int,
                order@,
                predecessor@,
                current as int,
            ),
        decreases size + 1 - order@.len(),
    {
        let ghost order_before = order@;
        let ghost least_before = least@;
        let ghost predecessor_before = predecessor@;
        used.set(current, true);
        order.push(current);
        proof {
            assert forall|j: int| 0 <= j <= size implies #[trigger] state.row_of@[j] <= size by {
                if j >= 1 {
                    assert(base.row_of@[j] == state.row_of@[j]);
                }
            }
            assert(order@.no_duplicates()) by {
                assert(!order_before.contains(current));
                assert forall|a: int, b: int|
                    0 <= a < order@.len() && 0 <= b < order@.len() && a != b implies order@[a]
                    != order@[b] by {
                    if a < order_before.len() {
                        assert(order_before.contains(order_before[a]));
                    }
                    if b < order_before.len() {
                        assert(order_before.contains(order_before[b]));
                    }
                }
            }
            let columns = Seq::new(order@.len(), |k: int| order@[k] as int);
            assert forall|k: int| 0 <= k < columns.len() implies 0 <= #[trigger] columns[k] < size
                + 1 by {
                if k < order_before.len() {
                    assert(order@[k] == order_before[k]);
                }
            }
            lemma_distinct_bound(columns, size + 1);
            assert forall|k: int| 0 <= k <= size implies #[trigger] used@[k] == order@.contains(
                k as usize,
            ) by {
                if k == current {
                    assert(order@[order_before.len() as int] == current);
                } else if order_before.contains(k as usize) {
                    let t = order_before.index_of(k as usize);
                    assert(order@[t] == k);
                } else if order@.contains(k as usize) {
                    let t = order@.index_of(k as usize);
                    assert(t < order_before.len());
                    assert(order_before[t] == k);
                }
            }
            assert(search_order(
                *state,
                weights@,
                maximum as int,
                size as int,
                order@,
                predecessor@,
            )) by {
                assert forall|t: int| 1 <= t < order@.len() implies reached_from(
                    *state,
                    weights@,
                    maximum as int,
                    order@.take(t),
                    predecessor@,
                    #[trigger] order@[t] as int,
                ) by {
                    assert(order@.take(t) == order_before.take(t));
                    if t < order_before.len() {
                        assert(order@[t] == order_before[t]);
                    } else {
                        assert(order_before.take(t) == order_before);
                    }
                }
                assert forall|t: int| 0 <= t < order@.len() implies #[trigger] order@[t] <= size
                    && state.row_of@[order@[t] as int] > 0 by {
                    if t < order_before.len() {
                        assert(order@[t] == order_before[t]);
                    }
                }
            }
            assert(!used@[free]) by {
                if order@.contains(free as usize) {
                    let t = order@.index_of(free as usize);
                    assert(order@[t] == free);
                    assert(base.row_of@[free] == state.row_of@[free]);
                }
            }
            assert forall|t: int| 0 <= t < order_before.len() implies 1
                <= state.row_of@[#[trigger] order_before[t] as int] <= size by {
                assert(order@[t] == order_before[t]);
            }
        }
        let found = scan_columns(
            state,
            weights,
            maximum,
            size,
            current,
            &used,
            &mut least,
            &mut predecessor,
            Ghost(order_before),
            Ghost(free),
            Ghost(limit + total),
        );
        let delta: i64 = found.0;
        let next: usize = found.1;
        let ghost scanned = *state;
        let ghost least_scanned = least@;
        proof {
            assert(order_before.push(current) == order@);
            assert forall|t: int| 1 <= t < order@.len() implies reached_from(
                *state,
                weights@,
                maximum as int,
                order@.take(t),
                predecessor@,
                #[trigger] order@[t] as int,
            ) by {
                let column = order@[t] as int;
                assert(reached_from(
                    *state,
                    weights@,
                    maximum as int,
                    order@.take(t),
                    predecessor_before,
                    column,
                ));
                assert(order@.contains(order@[t]));
                assert(used@[column]);
                assert(predecessor@[column] == predecessor_before[column]);
            }
            // The least slack is not negative, and at most that of a free column.
            assert(!order@.contains(next));
            assert(least_known(
                *state,
                weights@,
                maximum as int,
                order@,
                least@[next as int] as int,
                predecessor@[next as int],
                next as int,
            ));
            let from = predecessor@[next as int] as int;
            let k = order@.index_of(predecessor@[next as int]);
            assert(order@[k] == from);
            let from_row = state.row_of@[from] as int;
            assert(1 <= from_row <= size);
            assert(state.row_price@[from_row] == state.row_price@[from_row]
                && state.column_price@[next as int] == state.column_price@[next as int]);
            assert(delta >= 0);
            assert forall|j: int| 1 <= j <= size && state.row_of@[j] == 0 implies #[trigger] least@[j]
                + total <= maximum by {
                assert(base.row_of@[j] == state.row_of@[j]);
                assert(!order@.contains(j as usize)) by {
                    if order@.contains(j as usize) {
                        let t = order@.index_of(j as usize);
                        assert(order@[t] == j);
                    }
                }
                assert(least_known(
                    *state,
                    weights@,
                    maximum as int,
                    order@,
                    least@[j] as int,
                    predecessor@[j],
                    j,
                ));
                if order_before.len() == 0 {
                    assert(order@[0] == 0);
                    assert(state.column_price@[j] == 0);
                    assert(0 <= state.row_price@[row as int]);
                    assert(least@[j] <= state.slack(
                        weights@,
                        maximum as int,
                        state.row_of@[order@[0] as int] as int,
                        j,
                    ));
                    assert(weight_at(weights@, row - 1, j - 1) >= 0);
                } else {
                    assert(least@[j] <= least_before[j]);
                }
            }
            assert(state.row_of@[free] == base.row_of@[free]);
            assert(least@[free] + total <= maximum);
            assert(!used@[free] ==> delta <= least@[free]);
            assert forall|j: int| 0 <= j <= size && !used@[j] implies #[trigger] least@[j]
                >= delta by {
                if j == 0 {
                    assert(order@[0] == 0);
                    assert(order@.contains(0usize));
                }
            }
        }
        raise_prices(state, size, &order, &used, &mut least, delta, Ghost(limit + total));
        proof {
            lemma_raised(
                scanned,
                *state,
                weights@,
                maximum as int,
                size as int,
                order@,
                least_scanned,
                least@,
                predecessor@,
                delta as int,
            );
            total = total + delta;
            assert forall|i: int| row < i <= size implies #[trigger] state.row_price@[i] == 0 by {
                assert(scanned.row_price@[i] == 0);
                assert(!row_reached(scanned, order@, i)) by {
                    if row_reached(scanned, order@, i) {
                        let t = choose|t: int|
                            0 <= t < order@.len() && scanned.row_of@[#[trigger] order@[t] as int]
                                == i;
                        let j = order@[t] as int;
                        if j >= 1 {
                            assert(base.row_of@[j] == scanned.row_of@[j]);
                        }
                    }
                }
            }
            assert forall|j: int|
                1 <= j <= size && #[trigger] state.row_of@[j] == 0 implies state.column_price@[j]
                == 0 by {
                assert(scanned.row_of@[j] == 0);
                assert(!order@.contains(j as usize)) by {
                    if order@.contains(j as usize) {
                        let t = order@.index_of(j as usize);
                        assert(order@[t] == j);
                    }
                }
            }
            assert forall|j: int| 1 <= j <= size && state.row_of@[j] == 0 implies #[trigger] least@[j]
                + total <= maximum by {
                assert(scanned.row_of@[j] == 0);
                assert(!order@.contains(j as usize)) by {
                    if order@.contains(j as usize) {
                        let t = order@.index_of(j as usize);
                        assert(order@[t] == j);
                    }
                }
                assert(!used@[j]);
                assert(least@[j] == least_scanned[j] - delta);
            }
            assert(least@[next as int] == 0);
            assert(least_known(
                *state,
                weights@,
                maximum as int,
                order@,
                least@[next as int] as int,
                predecessor@[next as int],
                next as int,
            ));
        }
        current = next;
        if state.row_of[current] == 0 {
            break;
        }
    }
    proof {
        assert forall|i: int| 1 <= i < row implies #[trigger] state.has_column(
            size as int,
            i,
        ) by {
            assert(base.has_column(size as int, i));
            let j = choose|j: int| 1 <= j <= size && #[trigger] base.row_of@[j] == i;
            assert(state.row_of@[j] == i);
        }
    }
    augment(
        state,
        weights,
        maximum,
        size,
        row,
        &predecessor,
        current,
        Ghost(order@),
        Ghost(limit + total),
    );
    proof {
        assert forall|i: int| 0 <= i <= size implies 0 <= #[trigger] state.row_price@[i] <= limit
            + maximum by {}
        assert forall|j: int| 0 <= j <= size implies -(limit + maximum)
            <= #[trigger] state.column_price@[j] <= 0 by {}
    }
}

/// The greatest weight in the table.
fn greatest_weight(weights: &[Vec<usize>]) -> (greatest: usize)
    ensures
        forall|i: int, j: int| weight_at(weights@, i, j) <= greatest,
        greatest == 0 || exists|i: int, j: int|
            0 <= i < weights@.len() && 0 <= j < weights@[i]@.len() && #[trigger] weights@[i]@[j]
                == greatest,
{
    let mut greatest: usize = 0;
    let mut i: usize = 0;
    while i < weights.len()
        invariant
            i <= weights@.len(),
            forall|a: int, b: int|
                0 <= a < i && 0 <= b < weights@[a]@.len() ==> #[trigger] weights@[a]@[b]
                    <= greatest,
            greatest == 0 || exists|a: int, b: int|
                0 <= a < weights@.len() && 0 <= b < weights@[a]@.len() && #[trigger] weights@[a]@[b]
                    == greatest,
        decreases weights@.len() - i,
    {
        let mut j: usize = 0;
        while j < weights[i].len()
            invariant
                i < weights@.len(),
                j <= weights@[i as int]@.len(),
                forall|a: int, b: int|
                    0 <= a < i && 0 <= b < weights@[a]@.len() ==> #[trigger] weights@[a]@[b]
                        <= greatest,
                forall|b: int| 0 <= b < j ==> #[trigger] weights@[i as int]@[b] <= greatest,
                greatest == 0 || exists|a: int, b: int|
                    0 <= a < weights@.len() && 0 <= b < weights@[a]@.len()
                        && #[trigger] weights@[a]@[b] == greatest,
            decreases weights@[i as int]@.len() - j,
        {
            if weights[i][j] > greatest {
                greatest = weights[i][j];
                assert(weights@[i as int]@[j as int] == greatest);
            }
            j += 1;
        }
        i += 1;
    }
    assert forall|a: int, b: int| weight_at(weights@, a, b) <= greatest by {
        if 0 <= a < weights@.len() && 0 <= b < weights@[a]@.len() {
            assert(weights@[a]@[b] <= greatest);
        }
    }
    greatest
}

/// The greatest total weight of pairs in which no row and no column stands
/// twice.
pub fn maximum_one_to_one_weight(weights: &[Vec<usize>], reference_speakers: usize) -> (best: usize)
    requires
        weights_fit(weights@, square_size(weights@, reference_speakers as nat)),
        square_size(weights@, reference_speakers as nat) < 0x1000_0000_0000_0000,
        square_size(weights@, reference_speakers as nat) < usize::MAX,
    ensures
        weights@.len() > 0 && reference_speakers > 0 ==> is_maximum_weight(
            weights@,
            square_size(weights@, reference_speakers as nat),
            best as int,
        ),
        weights@.len() == 0 || reference_speakers == 0 ==> best == 0,
{
    if weights.len() == 0 || reference_speakers == 0 {
        return 0;
    }
    let size: usize = if weights.len() >= reference_speakers {
        weights.len()
    } else {
        reference_speakers
    };
    let greatest: usize = greatest_weight(weights);
    proof {
        if greatest > 0 {
            let (i, j) = choose|i: int, j: int|
                0 <= i < weights@.len() && 0 <= j < weights@[i]@.len() && #[trigger] weights@[i]@[j]
                    == greatest;
            assert((size + 2) * weights@[i]@[j] < 0x1000_0000_0000_0000);
        }
        assert((size + 2) * greatest < 0x1000_0000_0000_0000);
        assert((size + 2) * greatest <= usize::MAX);
        assert(greatest < 0x1000_0000_0000_0000) by (nonlinear_arith)
            requires
                (size + 2) * greatest < 0x1000_0000_0000_0000,
                size >= 0,
                greatest >= 0,
        ;
    }
    let maximum: i64 = greatest as i64;
    let mut state = PricedAssignment {
        row_price: vec![0; size + 1],
        column_price: vec![0; size + 1],
        row_of: vec![0; size + 1],
    };
    let mut row: usize = 0;
    assert(0 * maximum == 0);
    while row < size
        invariant
            row <= size,
            0 <= maximum,
            maximum == greatest,
            (size + 2) * greatest < 0x1000_0000_0000_0000,
            forall|i: int, j: int| weight_at(weights@, i, j) <= maximum,
            state.partial(weights@, maximum as int, size as int, row as int, row * maximum),
        decreases size - row,
    {
        proof {
            assert(row * maximum + maximum + maximum < 0x2000_0000_0000_0000
                && 0 <= row * maximum && (row + 1) * maximum == row * maximum + maximum)
                by (nonlinear_arith)
                requires
                    0 <= row < size,
                    0 <= maximum,
                    (size + 2) * maximum < 0x1000_0000_0000_0000,
            ;
        }
        insert_row(&mut state, weights, maximum, size, row + 1, Ghost(row * maximum));
        row += 1;
    }
    let ghost rows = Seq::new(size as nat, |j: int| state.row_of@[j + 1] - 1);
    let ghost row_price = Seq::new(size as nat, |i: int| state.row_price@[i + 1] as int);
    let ghost column_price = Seq::new(size as nat, |j: int| state.column_price@[j + 1] as int);
    proof {
        lemma_complete(state, size as int);
        assert(is_assignment(rows, size as nat));
        assert forall|j: int| 0 <= j < rows.len() implies row_price[#[trigger] rows[j]]
            + column_price[j] == maximum - weight_at(weights@, rows[j], j) by {
            assert(state.row_of@[j + 1] > 0);
            assert(state.slack(
                weights@,
                maximum as int,
                state.row_of@[j + 1] as int,
                j + 1,
            ) == 0);
        }
        lemma_weight_by_prices(weights@, rows, maximum as int, row_price, column_price);
        lemma_sum_assignment(row_price, rows, size as nat);
        assert forall|other: Seq<int>|
            is_assignment(other, size as nat) implies #[trigger] assignment_weight(weights@, other)
            <= assignment_weight(weights@, rows) by {
            assert forall|j: int| 0 <= j < other.len() implies row_price[#[trigger] other[j]]
                + column_price[j] <= maximum - weight_at(weights@, other[j], j) by {
                assert(state.row_price@[other[j] + 1] == row_price[other[j]]);
                assert(state.column_price@[j + 1] == column_price[j]);
                assert(state.slack(weights@, maximum as int, other[j] + 1, j + 1) >= 0);
            }
            lemma_weight_by_prices(weights@, other, maximum as int, row_price, column_price);
            lemma_sum_assignment(row_price, other, size as nat);
        }
        assert(is_maximum_weight(
            weights@,
            size as nat,
            assignment_weight(weights@, rows),
        ));
    }
    let mut total: usize = 0;
    let mut column: usize = 0;
    while column < size
        invariant
            column <= size,
            size < usize::MAX,
            state.shaped(size as int),
            rows.len() == size,
            forall|j: int| 0 <= j < size ==> #[trigger] rows[j] == state.row_of@[j + 1] - 1,
            forall|j: int| 0 <= j < size ==> 0 <= #[trigger] rows[j] < size,
            total == assignment_weight(weights@, rows.take(column as int)),
            total <= column * greatest,
            (size + 2) * greatest <= usize::MAX,
            forall|i: int, j: int| weight_at(weights@, i, j) <= greatest,
        decreases size - column,
    {
        assert(rows[column as int] == state.row_of@[column + 1] - 1);
        let row: usize = state.row_of[column + 1] - 1;
        let weight: usize = weight_of(weights, row, column);
        proof {
            assert(rows.take(column + 1).drop_last() == rows.take(column as int));
            assert(column * greatest + greatest <= usize::MAX && (column + 1) * greatest == column
                * greatest + greatest) by (nonlinear_arith)
                requires
                    column < size,
                    (size + 2) * greatest <= usize::MAX,
                    greatest >= 0,
            ;
        }
        total = total + weight;
        column += 1;
    }
    assert(rows.take(size as int) == rows);
    total
}

/// Where every row has a column, every column has a row.
proof fn lemma_complete(state: PricedAssignment, size: int)
    requires
        0 < size,
        state.shaped(size),
        state.distinct(1, size),
        forall|j: int| 1 <= j <= size ==> #[trigger] state.row_of@[j] <= size,
        forall|i: int| 1 <= i <= size ==> #[trigger] state.has_column(size, i),
    ensures
        forall|j: int| 1 <= j <= size ==> #[trigger] state.row_of@[j] > 0,
{
    let columns = Seq::new(
        size as nat,
        |i: int| choose|j: int| 1 <= j <= size && #[trigger] state.row_of@[j] == i + 1,
    );
    let shifted = Seq::new(size as nat, |i: int| columns[i] - 1);
    assert forall|i: int| 0 <= i < size implies 1 <= #[trigger] columns[i] <= size
        && state.row_of@[columns[i]] == i + 1 by {
        assert(state.has_column(size, i + 1));
    }
    assert forall|a: int, b: int|
        0 <= a < shifted.len() && 0 <= b < shifted.len() && a != b implies shifted[a]
        != shifted[b] by {
        assert(state.row_of@[columns[a]] != state.row_of@[columns[b]]);
    }
    assert forall|j: int| 1 <= j <= size implies #[trigger] state.row_of@[j] > 0 by {
        assert(is_assignment(shifted, size as nat));
        lemma_assignment_onto(shifted, size as nat, j - 1);
        let i = choose|i: int| 0 <= i < size && #[trigger] shifted[i] == j - 1;
        assert(columns[i] == j);
    }
}

} // verus!
