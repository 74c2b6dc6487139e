use vstd::prelude::*;

use crate::pager::{blob_of, pages_hold, PagerModel};
use crate::table::{
    join_all, join_for_left, join_model, join_output_row, pair_matches, CellModel,
    cell_of, column_position, filtered_rows, kept_rows, lemma_first_position, lemma_first_position_is,
    matched_positions, matches_of, named, output_row, row_matches, rows_at,
    select_model, star_row, with_column, with_index, with_row, without_index, TableModel,
};
use crate::value::{JoinModel, ValueModel};

verus! {

/// The single wildcard column list `*`.
pub open spec fn star() -> Seq<Seq<char>> {
    seq![seq!['*']]
}

/// The rows at the matched positions below `n` are the first `n` rows that
/// satisfy the condition, and the rows kept by a delete are the others.
proof fn lemma_matched_filter(
    cols: Seq<Seq<char>>,
    rows: Seq<Seq<ValueModel>>,
    cond: Option<(Seq<char>, ValueModel)>,
    n: nat,
)
    requires
        n <= rows.len(),
        n <= usize::MAX,
    ensures
        rows_at(rows, matched_positions(cols, rows, cond, n))
            == rows.subrange(0, n as int).filter(|r: Seq<ValueModel>| row_matches(cols, r, cond)),
        kept_rows(cols, rows, cond, n)
            == rows.subrange(0, n as int).filter(|r: Seq<ValueModel>| !row_matches(cols, r, cond)),
    decreases n,
{
    reveal(Seq::filter);
    let p = |r: Seq<ValueModel>| row_matches(cols, r, cond);
    let q = |r: Seq<ValueModel>| !row_matches(cols, r, cond);
    if n == 0 {
        assert(rows.subrange(0, 0) =~= Seq::<Seq<ValueModel>>::empty());
        assert(rows_at(rows, Seq::<usize>::empty()) =~= Seq::<Seq<ValueModel>>::empty());
    } else {
        lemma_matched_filter(cols, rows, cond, (n - 1) as nat);
        let sub = rows.subrange(0, n as int);
        assert(sub.drop_last() =~= rows.subrange(0, n - 1));
        assert(sub.last() == rows[n - 1]);
        let s = matched_positions(cols, rows, cond, (n - 1) as nat);
        if row_matches(cols, rows[n - 1], cond) {
            assert(rows_at(rows, s.push((n - 1) as usize)) =~= rows_at(rows, s).push(rows[n - 1]));
        }
    }
}

/// An inserted row shows up, whole, when every row is selected with `*`.
pub proof fn law_insert_then_select(t: TableModel, vals: Seq<ValueModel>)
    requires
        vals.len() == t.columns.len(),
        t.rows.len() < usize::MAX,
    ensures
        select_model(with_row(t, vals), star(), None).contains(star_row(t.columns, vals)),
{
    let t2 = with_row(t, vals);
    let n = t.rows.len();
    lemma_matched_filter(t2.columns, t2.rows, None, (n + 1) as nat);
    reveal(Seq::filter);
    let rs = filtered_rows(t2, None);
    let all = t2.rows.subrange(0, (n + 1) as int);
    assert(all.drop_last() =~= t2.rows.subrange(0, n as int));
    assert(all.last() == vals);
    assert(rs.last() == vals);
    let out = select_model(t2, star(), None);
    assert(out[rs.len() - 1] == output_row(t2.columns, vals, star()));
    assert(out.contains(star_row(t.columns, vals)));
}

/// A selection with an equality condition returns the same rows whether or
/// not the condition's column is indexed.
pub proof fn law_index_transparent(
    t: TableModel,
    c: Seq<char>,
    requested: Seq<Seq<char>>,
    cond: Option<(Seq<char>, ValueModel)>,
)
    ensures
        select_model(with_index(t, c), requested, cond) == select_model(t, requested, cond),
        select_model(without_index(t, c), requested, cond) == select_model(t, requested, cond),
{
    assert(with_index(t, c).columns == t.columns && with_index(t, c).rows == t.rows);
    assert(without_index(t, c).columns == t.columns && without_index(t, c).rows == t.rows);
}

/// Writing a blob and reading it back gives the same bytes, the empty blob included.
pub proof fn law_blob_round_trip(m: PagerModel, data: Seq<u8>)
    requires
        pages_hold(m.pages, m.page_size, data),
        m.length == data.len(),
    ensures
        blob_of(m) == data,
{
}

/// The count an update or a delete reports is the number of rows that
/// satisfy the condition (all rows without one); a selection returns exactly
/// those rows, and a delete keeps exactly the others.
pub proof fn law_counts_match(t: TableModel, cond: Option<(Seq<char>, ValueModel)>)
    requires
        t.rows.len() <= usize::MAX,
    ensures
        filtered_rows(t, cond) == t.rows.filter(|r: Seq<ValueModel>| row_matches(t.columns, r, cond)),
        matches_of(t.columns, t.rows, cond).len() == t.rows.filter(|r: Seq<ValueModel>| row_matches(t.columns, r, cond)).len(),
        kept_rows(t.columns, t.rows, cond, t.rows.len()) == t.rows.filter(|r: Seq<ValueModel>| !row_matches(t.columns, r, cond)),
        cond is None ==> matches_of(t.columns, t.rows, cond).len() == t.rows.len(),
{
    lemma_matched_filter(t.columns, t.rows, cond, t.rows.len());
    assert(t.rows.subrange(0, t.rows.len() as int) =~= t.rows);
    if cond is None {
        lemma_all_match(t.columns, t.rows, t.rows.len());
    }
}

/// Without a condition every position matches.
proof fn lemma_all_match(cols: Seq<Seq<char>>, rows: Seq<Seq<ValueModel>>, n: nat)
    ensures
        matched_positions(cols, rows, None, n).len() == n,
    decreases n,
{
    if n > 0 {
        lemma_all_match(cols, rows, (n - 1) as nat);
    }
}

/// Adding a column keeps the first position of every name already in the schema.
proof fn lemma_position_after_push(cols: Seq<Seq<char>>, c: Seq<char>, d: Seq<char>)
    requires
        !cols.contains(c),
    ensures
        column_position(cols.push(c), c) == cols.len(),
        cols.contains(d) ==> column_position(cols.push(c), d) == column_position(cols, d),
{
    let cs = cols.push(c);
    assert forall|j: int| 0 <= j < cs.len() && j < cols.len() implies !named(c)(#[trigger] cs[j]) by {
        assert(cs[j] == cols[j]);
    }
    lemma_first_position_is(cs, named(c), cols.len() as int);
    if cols.contains(d) {
        lemma_first_position(cols, named(d));
        let p = column_position(cols, d);
        if p < 0 {
            let j = choose|j: int| 0 <= j < cols.len() && cols[j] == d;
            assert(named(d)(cols[j]));
        }
        assert forall|j: int| 0 <= j < cs.len() && j < p implies !named(d)(#[trigger] cs[j]) by {
            assert(cs[j] == cols[j]);
            assert(!named(d)(cols[j]));
        }
        assert(cs[p] == cols[p]);
        lemma_first_position_is(cs, named(d), p);
    }
}

/// After adding a column, every existing row holds Null there, every
/// earlier column keeps its value, the same columns stay indexed, and a
/// condition on an earlier column matches the same rows as before.
pub proof fn law_add_column(t: TableModel, c: Seq<char>)
    requires
        !t.columns.contains(c),
        forall|i: int| 0 <= i < t.rows.len() ==> (#[trigger] t.rows[i]).len() == t.columns.len(),
        t.rows.len() <= usize::MAX,
    ensures
        with_column(t, c).indexed == t.indexed,
        with_column(t, c).rows.len() == t.rows.len(),
        forall|i: int| 0 <= i < t.rows.len() ==> cell_of(with_column(t, c).columns, #[trigger] with_column(t, c).rows[i], c)
            == Some(ValueModel::Null),
        forall|i: int, d: Seq<char>| 0 <= i < t.rows.len() && t.columns.contains(d)
            ==> #[trigger] cell_of(with_column(t, c).columns, with_column(t, c).rows[i], d) == cell_of(t.columns, t.rows[i], d),
        forall|d: Seq<char>, k: ValueModel| t.columns.contains(d)
            ==> #[trigger] matches_of(with_column(t, c).columns, with_column(t, c).rows, Some((d, k)))
                == matches_of(t.columns, t.rows, Some((d, k))),
{
    let t2 = with_column(t, c);
    lemma_position_after_push(t.columns, c, c);
    assert forall|i: int, d: Seq<char>| 0 <= i < t.rows.len() && t.columns.contains(d)
        implies #[trigger] cell_of(t2.columns, t2.rows[i], d) == cell_of(t.columns, t.rows[i], d) by {
        lemma_position_after_push(t.columns, c, d);
        crate::table::lemma_column_position(t.columns, d);
    }
    assert forall|d: Seq<char>, k: ValueModel| t.columns.contains(d)
        implies #[trigger] matches_of(t2.columns, t2.rows, Some((d, k))) == matches_of(t.columns, t.rows, Some((d, k))) by {
        lemma_matches_after_push(t, c, d, k, t.rows.len());
    }
}

/// Matching on an earlier column is unchanged by adding a column.
proof fn lemma_matches_after_push(t: TableModel, c: Seq<char>, d: Seq<char>, k: ValueModel, n: nat)
    requires
        !t.columns.contains(c),
        t.columns.contains(d),
        forall|i: int| 0 <= i < t.rows.len() ==> (#[trigger] t.rows[i]).len() == t.columns.len(),
        n <= t.rows.len(),
    ensures
        matched_positions(with_column(t, c).columns, with_column(t, c).rows, Some((d, k)), n)
            == matched_positions(t.columns, t.rows, Some((d, k)), n),
    decreases n,
{
    if n > 0 {
        lemma_matches_after_push(t, c, d, k, (n - 1) as nat);
        lemma_position_after_push(t.columns, c, d);
        crate::table::lemma_column_position(t.columns, d);
        let t2 = with_column(t, c);
        assert(t2.rows[n - 1] == t.rows[n - 1].push(ValueModel::Null));
    }
}

/// A left row paired with each right row, in order.
pub open spec fn pairs_with(l: Seq<ValueModel>, rrows: Seq<Seq<ValueModel>>) -> Seq<(Seq<ValueModel>, Seq<ValueModel>)> {
    rrows.map_values(|r: Seq<ValueModel>| (l, r))
}

/// The Cartesian product of two row lists, left-major.
pub open spec fn product(lrows: Seq<Seq<ValueModel>>, rrows: Seq<Seq<ValueModel>>) -> Seq<(Seq<ValueModel>, Seq<ValueModel>)> {
    lrows.map_values(|l: Seq<ValueModel>| pairs_with(l, rrows)).flatten()
}

/// The output rows of the matching pairs of `ps`, in order.
pub open spec fn matching_outputs(
    ps: Seq<(Seq<ValueModel>, Seq<ValueModel>)>,
    lcols: Seq<Seq<char>>,
    rcols: Seq<Seq<char>>,
    j: JoinModel,
    requested: Seq<Seq<char>>,
) -> Seq<Seq<CellModel>> {
    ps.filter(|p: (Seq<ValueModel>, Seq<ValueModel>)| pair_matches(lcols, p.0, rcols, p.1, j)).map_values(
        |p: (Seq<ValueModel>, Seq<ValueModel>)| join_output_row(lcols, p.0, rcols, p.1, j, requested),
    )
}

/// Output rows of one left row are its matching pairs with the first `n` right rows.
proof fn lemma_join_for_left(
    lcols: Seq<Seq<char>>,
    l: Seq<ValueModel>,
    rcols: Seq<Seq<char>>,
    rrows: Seq<Seq<ValueModel>>,
    j: JoinModel,
    requested: Seq<Seq<char>>,
    n: nat,
)
    requires
        n <= rrows.len(),
    ensures
        join_for_left(lcols, l, rcols, rrows, j, requested, n)
            == matching_outputs(pairs_with(l, rrows.subrange(0, n as int)), lcols, rcols, j, requested),
    decreases n,
{
    let pred = |p: (Seq<ValueModel>, Seq<ValueModel>)| pair_matches(lcols, p.0, rcols, p.1, j);
    if n == 0 {
        reveal(Seq::filter);
        assert(pairs_with(l, rrows.subrange(0, 0)) =~= Seq::empty());
        assert(matching_outputs(pairs_with(l, rrows.subrange(0, 0)), lcols, rcols, j, requested) =~= Seq::empty());
    } else {
        lemma_join_for_left(lcols, l, rcols, rrows, j, requested, (n - 1) as nat);
        let prev = pairs_with(l, rrows.subrange(0, n - 1));
        let e = (l, rrows[n - 1]);
        assert(pairs_with(l, rrows.subrange(0, n as int)) =~= prev.push(e));
        prev.lemma_filter_push(e, pred);
        let f = |p: (Seq<ValueModel>, Seq<ValueModel>)| join_output_row(lcols, p.0, rcols, p.1, j, requested);
        if pred(e) {
            assert(prev.filter(pred).push(e).map_values(f) =~= prev.filter(pred).map_values(f).push(f(e)));
        }
    }
}

/// Output rows of the first `m` left rows are the matching pairs of their product with the right rows.
proof fn lemma_join_all(
    lcols: Seq<Seq<char>>,
    lrows: Seq<Seq<ValueModel>>,
    rcols: Seq<Seq<char>>,
    rrows: Seq<Seq<ValueModel>>,
    j: JoinModel,
    requested: Seq<Seq<char>>,
    m: nat,
)
    requires
        m <= lrows.len(),
    ensures
        join_all(lcols, lrows, rcols, rrows, j, requested, m)
            == matching_outputs(product(lrows.subrange(0, m as int), rrows), lcols, rcols, j, requested),
    decreases m,
{
    let pred = |p: (Seq<ValueModel>, Seq<ValueModel>)| pair_matches(lcols, p.0, rcols, p.1, j);
    let f = |p: (Seq<ValueModel>, Seq<ValueModel>)| join_output_row(lcols, p.0, rcols, p.1, j, requested);
    let g = |l: Seq<ValueModel>| pairs_with(l, rrows);
    if m == 0 {
        reveal(Seq::filter);
        assert(lrows.subrange(0, 0).map_values(g) =~= Seq::empty());
        assert(product(lrows.subrange(0, 0), rrows) =~= Seq::empty());
        assert(matching_outputs(product(lrows.subrange(0, 0), rrows), lcols, rcols, j, requested) =~= Seq::empty());
    } else {
        lemma_join_all(lcols, lrows, rcols, rrows, j, requested, (m - 1) as nat);
        lemma_join_for_left(lcols, lrows[m - 1], rcols, rrows, j, requested, rrows.len());
        assert(rrows.subrange(0, rrows.len() as int) =~= rrows);
        let a = lrows.subrange(0, m - 1).map_values(g);
        let x = pairs_with(lrows[m - 1], rrows);
        assert(lrows.subrange(0, m as int).map_values(g) =~= a.push(x));
        a.lemma_flatten_push(x);
        Seq::filter_distributes_over_add(a.flatten(), x, pred);
        assert((a.flatten().filter(pred) + x.filter(pred)).map_values(f)
            =~= a.flatten().filter(pred).map_values(f) + x.filter(pred).map_values(f));
    }
}

/// A join outputs, for the left rows that satisfy the condition and every
/// right row, exactly the pairs of their Cartesian product whose join
/// columns are equal under typed equality, each pair once, left-major.
pub proof fn law_join_is_filtered_product(
    l: TableModel,
    r: TableModel,
    requested: Seq<Seq<char>>,
    cond: Option<(Seq<char>, ValueModel)>,
    j: JoinModel,
)
    ensures
        join_model(l, r, requested, cond, j)
            == matching_outputs(product(filtered_rows(l, cond), r.rows), l.columns, r.columns, j, requested),
{
    let lrows = filtered_rows(l, cond);
    lemma_join_all(l.columns, lrows, r.columns, r.rows, j, requested, lrows.len());
    assert(lrows.subrange(0, lrows.len() as int) =~= lrows);
}

} // verus!
