//! Counting marked entries, and counting the same pairs once by rows and
//! once by columns.
use vstd::prelude::*;

verus! {

/// How many entries of `marks` are set.
pub open spec fn count_true(marks: Seq<bool>) -> nat
    decreases marks.len(),
{
    if marks.len() == 0 {
        0
    } else {
        count_true(marks.drop_last()) + if marks.last() {
            1nat
        } else {
            0nat
        }
    }
}

/// No more entries are set than there are.
pub proof fn lemma_count_true_bound(marks: Seq<bool>)
    ensures
        count_true(marks) <= marks.len(),
    decreases marks.len(),
{
    if marks.len() > 0 {
        lemma_count_true_bound(marks.drop_last());
    }
}

/// Changing one entry changes the count by that entry alone.
pub proof fn lemma_count_true_update(marks: Seq<bool>, i: int, b: bool)
    requires
        0 <= i < marks.len(),
    ensures
        count_true(marks.update(i, b)) + (if marks[i] {
            1nat
        } else {
            0nat
        }) == count_true(marks) + (if b {
            1nat
        } else {
            0nat
        }),
    decreases marks.len(),
{
    let after = marks.update(i, b);
    if i == marks.len() - 1 {
        assert(after.drop_last() =~= marks.drop_last());
    } else {
        assert(after.drop_last() =~= marks.drop_last().update(i, b));
        lemma_count_true_update(marks.drop_last(), i, b);
    }
}

/// When no entry is set, the count is zero, and the other way round.
pub proof fn lemma_count_true_zero(marks: Seq<bool>)
    ensures
        count_true(marks) == 0 <==> forall|i: int| 0 <= i < marks.len() ==> !marks[i],
    decreases marks.len(),
{
    if marks.len() > 0 {
        lemma_count_true_zero(marks.drop_last());
        let front = marks.drop_last();
        if forall|i: int| 0 <= i < marks.len() ==> !marks[i] {
            assert forall|i: int| 0 <= i < front.len() implies !front[i] by {
                assert(!marks[i]);
            }
        }
        if count_true(marks) == 0 {
            assert forall|i: int| 0 <= i < marks.len() implies !marks[i] by {
                if i < front.len() {
                    assert(!front[i]);
                }
            }
        }
    }
}

/// The entries that are marked in `a` or in `b`.
pub open spec fn either(a: Seq<bool>, b: Seq<bool>) -> Seq<bool> {
    Seq::new(a.len(), |i: int| a[i] || b[i])
}

/// No marks at all, `n` times.
pub open spec fn no_marks(n: nat) -> Seq<bool> {
    Seq::new(n, |i: int| false)
}

/// Without marks there is nothing to count.
pub proof fn lemma_count_none(n: nat)
    ensures
        count_true(no_marks(n)) == 0,
    decreases n,
{
    if n > 0 {
        lemma_count_none((n - 1) as nat);
        assert(no_marks(n).drop_last() =~= no_marks((n - 1) as nat));
    }
}

/// Marks that never coincide count separately.
pub proof fn lemma_count_disjoint(a: Seq<bool>, b: Seq<bool>)
    requires
        a.len() == b.len(),
        forall|i: int| 0 <= i < a.len() ==> !(a[i] && b[i]),
    ensures
        count_true(either(a, b)) == count_true(a) + count_true(b),
    decreases a.len(),
{
    if a.len() > 0 {
        lemma_count_disjoint(a.drop_last(), b.drop_last());
        assert(either(a, b).drop_last() =~= either(a.drop_last(), b.drop_last()));
    }
}

/// Marks that imply other marks count no more than those.
pub proof fn lemma_count_mono(a: Seq<bool>, b: Seq<bool>)
    requires
        a.len() == b.len(),
        forall|i: int| 0 <= i < a.len() ==> (a[i] ==> b[i]),
    ensures
        count_true(a) <= count_true(b),
    decreases a.len(),
{
    if a.len() > 0 {
        lemma_count_mono(a.drop_last(), b.drop_last());
    }
}

/// Marks that imply other marks, with one mark missing, count fewer.
pub proof fn lemma_count_strict(a: Seq<bool>, b: Seq<bool>, at: int)
    requires
        a.len() == b.len(),
        forall|i: int| 0 <= i < a.len() ==> (a[i] ==> b[i]),
        0 <= at < a.len(),
        b[at] && !a[at],
    ensures
        count_true(a) < count_true(b),
    decreases a.len(),
{
    if at == a.len() - 1 {
        lemma_count_mono(a.drop_last(), b.drop_last());
    } else {
        lemma_count_strict(a.drop_last(), b.drop_last(), at);
    }
}

/// The marked entries counted as a set.
pub open spec fn marked_set(marks: Seq<bool>) -> Set<int> {
    Set::new(|i: int| 0 <= i < marks.len() && marks[i])
}

/// Counting marks one by one gives the size of the set of marked entries.
pub proof fn lemma_count_is_set_size(marks: Seq<bool>)
    ensures
        marked_set(marks).finite(),
        marked_set(marks).len() == count_true(marks),
    decreases marks.len(),
{
    if marks.len() == 0 {
        assert(marked_set(marks) =~= Set::<int>::empty());
    } else {
        let front = marks.drop_last();
        lemma_count_is_set_size(front);
        let last = marks.len() - 1;
        if marks[last] {
            assert(marked_set(marks) =~= marked_set(front).insert(last));
        } else {
            assert(marked_set(marks) =~= marked_set(front));
        }
    }
}

/// A list without repetitions that holds just the marked entries is as long
/// as there are marks.
pub proof fn lemma_len_is_count(list: Seq<usize>, marks: Seq<bool>)
    requires
        list.no_duplicates(),
        forall|k: int| 0 <= k < list.len() ==> (#[trigger] list[k]) < marks.len() && marks[list[k] as int],
        forall|x: int| 0 <= x < marks.len() && marks[x] ==> #[trigger] list.contains(x as usize),
        marks.len() <= usize::MAX,
    ensures
        list.len() == count_true(marks),
{
    let ints = list.map_values(|a: usize| a as int);
    assert(ints.no_duplicates()) by {
        assert forall|i: int, j: int| 0 <= i < ints.len() && 0 <= j < ints.len() && i != j implies ints[i]
            != ints[j] by {
            assert(list[i] != list[j]);
        }
    }
    ints.unique_seq_to_set();
    lemma_count_is_set_size(marks);
    assert(ints.to_set() =~= marked_set(marks)) by {
        assert forall|x: int| ints.to_set().contains(x) implies marked_set(marks).contains(x) by {
            let i = choose|i: int| 0 <= i < ints.len() && ints[i] == x;
            assert(marks[list[i] as int]);
        }
        assert forall|x: int| marked_set(marks).contains(x) implies ints.to_set().contains(x) by {
            assert(list.contains(x as usize));
            let i = choose|i: int| 0 <= i < list.len() && list[i] == x as usize;
            assert(ints[i] == x);
        }
    }
}

/// Row `t` of a relation between rows and `n` columns.
pub open spec fn row(rel: spec_fn(int, int) -> bool, n: nat, t: int) -> Seq<bool> {
    Seq::new(n, |w: int| rel(t, w))
}

/// The columns that stand in the relation to one of the first `upto` rows
/// that is marked.
pub open spec fn rows_upto(rel: spec_fn(int, int) -> bool, n: nat, marks: Seq<bool>, upto: int) -> Seq<bool> {
    Seq::new(n, |w: int| exists|t: int| 0 <= t < upto && #[trigger] marks[t] && rel(t, w))
}

/// The entries of the marked rows among the first `upto`, added up row by
/// row.
pub open spec fn sum_rows(rel: spec_fn(int, int) -> bool, n: nat, marks: Seq<bool>, upto: int) -> nat
    decreases upto,
{
    if upto <= 0 {
        0
    } else {
        sum_rows(rel, n, marks, upto - 1) + if marks[upto - 1] {
            count_true(row(rel, n, upto - 1))
        } else {
            0
        }
    }
}

/// Where no column stands in the relation to two rows, the entries of the
/// marked rows are as many as the columns that stand in the relation to a
/// marked row.
pub proof fn lemma_double_count(rel: spec_fn(int, int) -> bool, n: nat, marks: Seq<bool>, upto: int)
    requires
        0 <= upto <= marks.len(),
        forall|w: int, t1: int, t2: int| #[trigger] rel(t1, w) && #[trigger] rel(t2, w) ==> t1 == t2,
    ensures
        sum_rows(rel, n, marks, upto) == count_true(rows_upto(rel, n, marks, upto)),
    decreases upto,
{
    if upto <= 0 {
        assert(rows_upto(rel, n, marks, upto) =~= no_marks(n));
        lemma_count_none(n);
    } else {
        lemma_double_count(rel, n, marks, upto - 1);
        let before = rows_upto(rel, n, marks, upto - 1);
        let now = rows_upto(rel, n, marks, upto);
        if marks[upto - 1] {
            let added = row(rel, n, upto - 1);
            assert forall|w: int| 0 <= w < n implies !(before[w] && added[w]) by {
                if before[w] && added[w] {
                    let t = choose|t: int| 0 <= t < upto - 1 && #[trigger] marks[t] && rel(t, w);
                    assert(rel(t, w) && rel(upto - 1, w));
                }
            }
            lemma_count_disjoint(before, added);
            assert(now =~= either(before, added)) by {
                assert forall|w: int| 0 <= w < n implies now[w] == (before[w] || added[w]) by {
                    if now[w] {
                        let t = choose|t: int| 0 <= t < upto && #[trigger] marks[t] && rel(t, w);
                        if t < upto - 1 {
                            assert(before[w]);
                        }
                    }
                    if before[w] {
                        let t = choose|t: int| 0 <= t < upto - 1 && #[trigger] marks[t] && rel(t, w);
                        assert(0 <= t < upto && marks[t] && rel(t, w));
                    }
                    if added[w] {
                        assert(marks[upto - 1] && rel(upto - 1, w));
                    }
                }
            }
        } else {
            assert(now =~= before) by {
                assert forall|w: int| 0 <= w < n implies now[w] == before[w] by {
                    if now[w] {
                        let t = choose|t: int| 0 <= t < upto && #[trigger] marks[t] && rel(t, w);
                        assert(0 <= t < upto - 1 && marks[t] && rel(t, w));
                    }
                    if before[w] {
                        let t = choose|t: int| 0 <= t < upto - 1 && #[trigger] marks[t] && rel(t, w);
                        assert(0 <= t < upto && marks[t] && rel(t, w));
                    }
                }
            }
        }
    }
}

/// The values of the marked entries among the first `upto`, added up.
pub open spec fn sum_marked(val: spec_fn(int) -> int, marks: Seq<bool>, upto: int) -> int
    decreases upto,
{
    if upto <= 0 {
        0
    } else {
        sum_marked(val, marks, upto - 1) + if marks[upto - 1] {
            val(upto - 1)
        } else {
            0
        }
    }
}

/// Values that are no greater, entry by entry, add up to no more.
pub proof fn lemma_sum_le(low: spec_fn(int) -> int, high: spec_fn(int) -> int, marks: Seq<bool>, upto: int)
    requires
        forall|t: int| 0 <= t < upto && marks[t] ==> #[trigger] low(t) <= high(t),
    ensures
        sum_marked(low, marks, upto) <= sum_marked(high, marks, upto),
    decreases upto,
{
    if upto > 0 {
        lemma_sum_le(low, high, marks, upto - 1);
        if marks[upto - 1] {
            assert(low(upto - 1) <= high(upto - 1));
        }
    }
}

/// What the marked and the unmarked entries add up to separately, they add
/// up to together.
pub proof fn lemma_sum_split(val: spec_fn(int) -> int, all: Seq<bool>, marks: Seq<bool>, rest: Seq<bool>, upto: int)
    requires
        forall|t: int| 0 <= t < upto ==> ((#[trigger] all[t]) <==> (marks[t] || rest[t])) && !(marks[t]
            && rest[t]),
    ensures
        sum_marked(val, all, upto) == sum_marked(val, marks, upto) + sum_marked(val, rest, upto),
    decreases upto,
{
    if upto > 0 {
        lemma_sum_split(val, all, marks, rest, upto - 1);
        assert(all[upto - 1] <==> (marks[upto - 1] || rest[upto - 1]));
    }
}

/// The entries of the marked rows add up to what the counts of those rows
/// add up to.
pub proof fn lemma_sum_rows_is_sum(
    rel: spec_fn(int, int) -> bool,
    n: nat,
    val: spec_fn(int) -> int,
    marks: Seq<bool>,
    upto: int,
)
    requires
        forall|t: int| 0 <= t < upto && marks[t] ==> #[trigger] val(t) == count_true(row(rel, n, t)),
    ensures
        sum_rows(rel, n, marks, upto) == sum_marked(val, marks, upto),
    decreases upto,
{
    if upto > 0 {
        lemma_sum_rows_is_sum(rel, n, val, marks, upto - 1);
        if marks[upto - 1] {
            assert(val(upto - 1) == count_true(row(rel, n, upto - 1)));
        }
    }
}

/// Sums add up entry by entry.
pub proof fn lemma_sum_add(
    f: spec_fn(int) -> int,
    g: spec_fn(int) -> int,
    both: spec_fn(int) -> int,
    marks: Seq<bool>,
    upto: int,
)
    requires
        forall|t: int| 0 <= t < upto && marks[t] ==> #[trigger] both(t) == f(t) + g(t),
    ensures
        sum_marked(both, marks, upto) == sum_marked(f, marks, upto) + sum_marked(g, marks, upto),
    decreases upto,
{
    if upto > 0 {
        lemma_sum_add(f, g, both, marks, upto - 1);
        if marks[upto - 1] {
            assert(both(upto - 1) == f(upto - 1) + g(upto - 1));
        }
    }
}

/// The values of the marked rows among the first `upto`, each taken as many
/// times as the row has entries among the first `cols` columns, added up.
pub open spec fn weighted_rows(
    rel: spec_fn(int, int) -> bool,
    val: spec_fn(int) -> int,
    cols: nat,
    marks: Seq<bool>,
    upto: int,
) -> int
    decreases upto,
{
    if upto <= 0 {
        0
    } else {
        weighted_rows(rel, val, cols, marks, upto - 1) + if marks[upto - 1] {
            val(upto - 1) * count_true(row(rel, cols, upto - 1))
        } else {
            0
        }
    }
}

/// One more column adds the value of the row it stands in the relation to,
/// if that row is marked and among the rows counted.
pub proof fn lemma_weighted_rows_step(
    rel: spec_fn(int, int) -> bool,
    val: spec_fn(int) -> int,
    cols: nat,
    marks: Seq<bool>,
    upto: int,
    home: int,
)
    requires
        cols > 0,
        forall|t: int| 0 <= t < upto && t != home ==> !#[trigger] rel(t, cols - 1),
        0 <= home < upto ==> rel(home, cols - 1),
    ensures
        weighted_rows(rel, val, cols, marks, upto) == weighted_rows(rel, val, (cols - 1) as nat, marks, upto)
            + if 0 <= home < upto && marks[home] {
            val(home)
        } else {
            0
        },
    decreases upto,
{
    if upto > 0 {
        lemma_weighted_rows_step(rel, val, cols, marks, upto - 1, home);
        let t = upto - 1;
        assert(row(rel, cols, t).drop_last() =~= row(rel, (cols - 1) as nat, t));
        let fewer = count_true(row(rel, (cols - 1) as nat, t)) as int;
        if t == home {
            assert(rel(t, cols - 1));
            assert(count_true(row(rel, cols, t)) == fewer + 1);
            assert(val(t) * (fewer + 1) == val(t) * fewer + val(t)) by (nonlinear_arith);
        } else {
            assert(!rel(t, cols - 1));
            assert(count_true(row(rel, cols, t)) == fewer);
        }
    }
}

/// The values of the rows that the marked columns belong to add up to the
/// values of the rows, each taken as many times as it has columns.
pub proof fn lemma_weighted_count(
    rel: spec_fn(int, int) -> bool,
    val: spec_fn(int) -> int,
    per_col: spec_fn(int) -> int,
    home: spec_fn(int) -> int,
    col_marks: Seq<bool>,
    cols: nat,
    marks: Seq<bool>,
    upto: int,
)
    requires
        cols <= col_marks.len(),
        forall|w: int, t: int| 0 <= w < cols ==> (#[trigger] rel(t, w) <==> col_marks[w] && home(w) == t),
        forall|w: int| 0 <= w < cols && col_marks[w] ==> 0 <= #[trigger] home(w) < upto && marks[home(w)],
        forall|w: int| 0 <= w < cols && col_marks[w] ==> #[trigger] per_col(w) == val(home(w)),
    ensures
        sum_marked(per_col, col_marks, cols as int) == weighted_rows(rel, val, cols, marks, upto),
    decreases cols,
{
    if cols == 0 {
        lemma_weighted_none(rel, val, marks, upto);
    } else {
        lemma_weighted_count(rel, val, per_col, home, col_marks, (cols - 1) as nat, marks, upto);
        let w = cols - 1;
        let target = if col_marks[w] {
            home(w)
        } else {
            -1
        };
        assert forall|t: int| 0 <= t < upto && t != target implies !#[trigger] rel(t, cols - 1) by {
            assert(rel(t, w) <==> col_marks[w] && home(w) == t);
        }
        if col_marks[w] {
            assert(rel(target, w) <==> col_marks[w] && home(w) == target);
            assert(per_col(w) == val(home(w)));
        }
        lemma_weighted_rows_step(rel, val, cols, marks, upto, target);
    }
}

/// Without columns the rows weigh nothing.
pub proof fn lemma_weighted_none(rel: spec_fn(int, int) -> bool, val: spec_fn(int) -> int, marks: Seq<bool>, upto: int)
    ensures
        weighted_rows(rel, val, 0, marks, upto) == 0,
    decreases upto,
{
    if upto > 0 {
        lemma_weighted_none(rel, val, marks, upto - 1);
        assert(row(rel, 0, upto - 1) =~= Seq::<bool>::empty());
        assert(val(upto - 1) * 0 == 0) by (nonlinear_arith);
    }
}

/// Rows that weigh no more, row by row, weigh no more together.
pub proof fn lemma_weighted_le(
    low_rel: spec_fn(int, int) -> bool,
    high_rel: spec_fn(int, int) -> bool,
    val: spec_fn(int) -> int,
    cols: nat,
    marks: Seq<bool>,
    upto: int,
)
    requires
        forall|t: int|
            0 <= t < upto && marks[t] ==> #[trigger] val(t) * count_true(row(low_rel, cols, t)) <= val(t)
                * count_true(row(high_rel, cols, t)),
    ensures
        weighted_rows(low_rel, val, cols, marks, upto) <= weighted_rows(high_rel, val, cols, marks, upto),
    decreases upto,
{
    if upto > 0 {
        lemma_weighted_le(low_rel, high_rel, val, cols, marks, upto - 1);
        if marks[upto - 1] {
            assert(val(upto - 1) * count_true(row(low_rel, cols, upto - 1)) <= val(upto - 1) * count_true(
                row(high_rel, cols, upto - 1),
            ));
        }
    }
}

/// A single mark counts as one.
pub proof fn lemma_count_single(marks: Seq<bool>, at: int)
    requires
        0 <= at < marks.len(),
        marks[at],
        forall|i: int| 0 <= i < marks.len() && i != at ==> !marks[i],
    ensures
        count_true(marks) == 1,
{
    let none = no_marks(marks.len());
    lemma_count_none(marks.len());
    lemma_count_true_update(none, at, true);
    assert(marks =~= none.update(at, true));
}

/// Where every marked row has one entry, the rows weigh what their values
/// add up to.
pub proof fn lemma_weighted_by_ones(
    rel: spec_fn(int, int) -> bool,
    val: spec_fn(int) -> int,
    cols: nat,
    marks: Seq<bool>,
    upto: int,
)
    requires
        forall|t: int| 0 <= t < upto && marks[t] ==> #[trigger] count_true(row(rel, cols, t)) == 1,
    ensures
        weighted_rows(rel, val, cols, marks, upto) == sum_marked(val, marks, upto),
    decreases upto,
{
    if upto > 0 {
        lemma_weighted_by_ones(rel, val, cols, marks, upto - 1);
        if marks[upto - 1] {
            assert(count_true(row(rel, cols, upto - 1)) == 1);
            assert(val(upto - 1) * 1 == val(upto - 1)) by (nonlinear_arith);
        }
    }
}

/// `there` and `back` rename the numbers below `n` and undo each other.
pub open spec fn renaming(there: Seq<int>, back: Seq<int>, n: int) -> bool {
    &&& there.len() == n
    &&& back.len() == n
    &&& forall|x: int| 0 <= x < n ==> 0 <= #[trigger] there[x] < n && back[there[x]] == x
    &&& forall|y: int| 0 <= y < n ==> 0 <= #[trigger] back[y] < n && there[back[y]] == y
}

/// Values add up to the same under a renaming of the entries.
pub proof fn lemma_sum_renamed(
    low: spec_fn(int) -> int,
    high: spec_fn(int) -> int,
    low_marks: Seq<bool>,
    high_marks: Seq<bool>,
    there: Seq<int>,
    back: Seq<int>,
    n: nat,
)
    requires
        renaming(there, back, n as int),
        low_marks.len() == n,
        high_marks.len() == n,
        forall|x: int| 0 <= x < n ==> high_marks[#[trigger] there[x]] == low_marks[x],
        forall|x: int| 0 <= x < n && low_marks[x] ==> high(#[trigger] there[x]) == low(x),
    ensures
        sum_marked(high, high_marks, n as int) == sum_marked(low, low_marks, n as int),
{
    let rel = |y: int, x: int| 0 <= x < n && low_marks[x] && there[x] == y;
    let home = |x: int| there[x];
    assert forall|x: int| 0 <= x < n && low_marks[x] implies 0 <= #[trigger] home(x) < n && high_marks[home(
        x,
    )] by {
        assert(high_marks[there[x]] == low_marks[x]);
    }
    assert forall|x: int| 0 <= x < n && low_marks[x] implies #[trigger] low(x) == high(home(x)) by {
        assert(high(there[x]) == low(x));
    }
    lemma_weighted_count(rel, high, low, home, low_marks, n, high_marks, n as int);
    assert forall|y: int| 0 <= y < n && high_marks[y] implies #[trigger] count_true(row(rel, n, y)) == 1 by {
        let x = back[y];
        assert(there[x] == y);
        assert(high_marks[there[x]] == low_marks[x]);
        let marks = row(rel, n, y);
        assert(marks[x]);
        assert forall|i: int| 0 <= i < marks.len() && i != x implies !marks[i] by {
            if marks[i] {
                assert(back[there[i]] == i);
            }
        }
        lemma_count_single(marks, x);
    }
    lemma_weighted_by_ones(rel, high, n, high_marks, n as int);
}

/// The number one, whatever the entry.
pub open spec fn one() -> spec_fn(int) -> int {
    |i: int| 1int
}

/// Counting marks is adding up ones.
pub proof fn lemma_count_as_sum(marks: Seq<bool>, upto: int)
    requires
        0 <= upto <= marks.len(),
    ensures
        count_true(marks.take(upto)) == sum_marked(one(), marks, upto),
    decreases upto,
{
    if upto > 0 {
        lemma_count_as_sum(marks, upto - 1);
        assert(marks.take(upto).drop_last() =~= marks.take(upto - 1));
    }
}

/// Marks count the same under a renaming of the entries.
pub proof fn lemma_count_renamed(low_marks: Seq<bool>, high_marks: Seq<bool>, there: Seq<int>, back: Seq<int>)
    requires
        renaming(there, back, low_marks.len() as int),
        high_marks.len() == low_marks.len(),
        forall|x: int| 0 <= x < low_marks.len() ==> high_marks[#[trigger] there[x]] == low_marks[x],
    ensures
        count_true(high_marks) == count_true(low_marks),
{
    let n = low_marks.len();
    lemma_count_as_sum(low_marks, n as int);
    lemma_count_as_sum(high_marks, n as int);
    assert(low_marks.take(n as int) =~= low_marks);
    assert(high_marks.take(n as int) =~= high_marks);
    assert forall|x: int| 0 <= x < n && low_marks[x] implies one()(#[trigger] there[x]) == one()(x) by {}
    lemma_sum_renamed(one(), one(), low_marks, high_marks, there, back, n);
}

/// The values of the entries among the first `upto` of `list` that are
/// below `bound`, added up entry by entry.
pub open spec fn list_sum(val: spec_fn(int) -> int, list: Seq<int>, upto: int, bound: int) -> int
    decreases upto,
{
    if upto <= 0 {
        0
    } else {
        list_sum(val, list, upto - 1, bound) + if list[upto - 1] < bound {
            val(list[upto - 1])
        } else {
            0
        }
    }
}

/// Raising the bound by one adds the value of the entry that equals the old
/// bound, if the list holds it.
pub proof fn lemma_list_sum_step(val: spec_fn(int) -> int, list: Seq<int>, upto: int, bound: int)
    requires
        0 <= upto <= list.len(),
        list.no_duplicates(),
    ensures
        list_sum(val, list, upto, bound + 1) == list_sum(val, list, upto, bound) + if list.take(upto).contains(
            bound,
        ) {
            val(bound)
        } else {
            0
        },
    decreases upto,
{
    if upto > 0 {
        lemma_list_sum_step(val, list, upto - 1, bound);
        let x = list[upto - 1];
        let shorter = list.take(upto - 1);
        let longer = list.take(upto);
        assert(longer[upto - 1] == x);
        if shorter.contains(bound) {
            let j = choose|j: int| 0 <= j < shorter.len() && shorter[j] == bound;
            assert(longer[j] == bound);
            assert(list[j] == bound);
        }
        if longer.contains(bound) && x != bound {
            let j = choose|j: int| 0 <= j < longer.len() && longer[j] == bound;
            assert(shorter[j] == bound);
        }
    } else {
        assert(list.take(0).len() == 0);
    }
}

/// Below the least entry there is nothing to add.
pub proof fn lemma_list_sum_none(val: spec_fn(int) -> int, list: Seq<int>, upto: int)
    requires
        0 <= upto <= list.len(),
        forall|k: int| 0 <= k < list.len() ==> 0 <= #[trigger] list[k],
    ensures
        list_sum(val, list, upto, 0) == 0,
    decreases upto,
{
    if upto > 0 {
        lemma_list_sum_none(val, list, upto - 1);
    }
}

/// A list without repetitions that holds just the marked entries adds up
/// to what the marked entries add up to.
pub proof fn lemma_list_sum_is_marked_sum(val: spec_fn(int) -> int, list: Seq<int>, marks: Seq<bool>, bound: int)
    requires
        list.no_duplicates(),
        0 <= bound <= marks.len(),
        forall|k: int| 0 <= k < list.len() ==> 0 <= #[trigger] list[k] < marks.len() && marks[list[k]],
        forall|x: int| 0 <= x < marks.len() && marks[x] ==> #[trigger] list.contains(x),
    ensures
        list_sum(val, list, list.len() as int, bound) == sum_marked(val, marks, bound),
    decreases bound,
{
    if bound == 0 {
        lemma_list_sum_none(val, list, list.len() as int);
    } else {
        lemma_list_sum_is_marked_sum(val, list, marks, bound - 1);
        lemma_list_sum_step(val, list, list.len() as int, bound - 1);
        assert(list.take(list.len() as int) =~= list);
        if list.contains(bound - 1) {
            let k = choose|k: int| 0 <= k < list.len() && list[k] == bound - 1;
            assert(marks[list[k]]);
        }
    }
}

/// Where one entry is worth more by `by` and the others are worth the same,
/// the marked entries add up to `by` more if that entry is marked.
pub proof fn lemma_sum_bump(
    low: spec_fn(int) -> int,
    high: spec_fn(int) -> int,
    marks: Seq<bool>,
    upto: int,
    at: int,
    by: int,
)
    requires
        forall|t: int|
            0 <= t < upto ==> #[trigger] high(t) == low(t) + if t == at {
                by
            } else {
                0
            },
    ensures
        sum_marked(high, marks, upto) == sum_marked(low, marks, upto) + if 0 <= at < upto && marks[at] {
            by
        } else {
            0
        },
    decreases upto,
{
    if upto > 0 {
        lemma_sum_bump(low, high, marks, upto - 1, at, by);
        assert(high(upto - 1) == low(upto - 1) + if upto - 1 == at {
            by
        } else {
            0
        });
    }
}

} // verus!
