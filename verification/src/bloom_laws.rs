//! Why skipping data on the word of the filters is safe.

use vstd::prelude::*;

use crate::bloom::{
    are_filter_columns, column_keys, equality, evals_to, false_at, filter_bytes, filter_column_name, filter_says,
    filters_say, filters_say_of, folds_to, is_filter_column, is_keys, readable, readable_for, rewrite_fails,
    rewrites_to, span_of, verdict_on, ConstantFolder, Filter, FilterEvalResult,
};
use crate::expression::{entry_with_id, is_first_with_id, Chunk, ChunkEntry, DataType, Expr, Scalar, ScalarView, Value};

verus! {

/// A filter takes every key that it was made over for one of its keys, after it has been to bytes
/// and back.
pub open spec fn complete<F: Filter<S, D>, S, D>() -> bool {
    forall|keys: &Vec<&Scalar<S>>, made: F, bytes: Vec<u8>, read: F, size: usize, key: Scalar<S>, i: int|
        {
            &&& #[trigger] call_ensures(F::build, (keys,), Ok(made))
            &&& #[trigger] call_ensures(F::to_bytes, (&made,), Ok(bytes))
            &&& #[trigger] call_ensures(F::from_bytes, (&bytes,), Ok((read, size)))
            &&& 0 <= i < keys@.len()
            &&& (#[trigger] keys@[i])@ == key@
        } ==> !#[trigger] call_ensures(F::contains, (&read, &key), false)
}

/// No two columns have the same name.
pub open spec fn distinct_names<S, D>(columns: Seq<ChunkEntry<S, D>>) -> bool {
    forall|i: int, j: int|
        0 <= i < j < columns.len() ==> (#[trigger] columns[i]).id@ != (#[trigger] columns[j]).id@
}

/// Whether a value occurs in a column of the chunks.
pub open spec fn occurs<S, D>(chunks: Seq<&Chunk<S, D>>, offset: int, value: ScalarView<S>) -> bool {
    exists|i: int|
        0 <= i < column_keys(chunks, offset).len() && (#[trigger] column_keys(chunks, offset)[i])@ == value
}

/// Different columns have filters of different names.
pub proof fn law_filter_name_injective(a: Seq<char>, b: Seq<char>)
    requires
        filter_column_name(a) == filter_column_name(b),
    ensures
        a == b,
{
    let open = "Bloom("@;
    let close = ")"@;
    assert(filter_column_name(a).len() == open.len() + a.len() + close.len());
    assert(a =~= filter_column_name(a).subrange(open.len() as int, (open.len() + a.len()) as int));
    assert(b =~= filter_column_name(b).subrange(open.len() as int, (open.len() + b.len()) as int));
}

/// Every entry that was made holds the filter for some column.
proof fn lemma_filter_of_column<F: Filter<S, D>, S, D>(
    chunks: Seq<&Chunk<S, D>>,
    n: int,
    entries: Seq<ChunkEntry<S, D>>,
    m: int,
)
    requires
        are_filter_columns::<F, S, D>(chunks, n, entries),
        0 <= m < entries.len(),
    ensures
        exists|offset: int| 0 <= offset < n && #[trigger] is_filter_column::<F, S, D>(chunks, offset, entries[m]),
    decreases n,
{
    if n > 0 {
        if are_filter_columns::<F, S, D>(chunks, n - 1, entries) {
            lemma_filter_of_column::<F, S, D>(chunks, n - 1, entries, m);
            let offset = choose|offset: int|
                0 <= offset < n - 1 && #[trigger] is_filter_column::<F, S, D>(chunks, offset, entries[m]);
            assert(is_filter_column::<F, S, D>(chunks, offset, entries[m]));
        } else if m == entries.len() - 1 {
            assert(is_filter_column::<F, S, D>(chunks, n - 1, entries[m]));
        } else {
            lemma_filter_of_column::<F, S, D>(chunks, n - 1, entries.drop_last(), m);
            assert(entries.drop_last()[m] == entries[m]);
            let offset = choose|offset: int|
                0 <= offset < n - 1 && #[trigger] is_filter_column::<F, S, D>(chunks, offset, entries[m]);
            assert(is_filter_column::<F, S, D>(chunks, offset, entries[m]));
        }
    }
}

/// The entry that is found under the filter name of a column is one of the entries.
proof fn lemma_entry_found<S, D>(entries: Seq<ChunkEntry<S, D>>, id: Seq<char>) -> (m: int)
    requires
        entry_with_id(entries, id) is Some,
    ensures
        0 <= m < entries.len(),
        entries[m].id@ == id,
        entry_with_id(entries, id) == Some(entries[m]),
{
    let m = choose|index: int| is_first_with_id(entries, id, index);
    assert(is_first_with_id(entries, id, m));
    m
}

/// There are no false negatives: filters that were made for some data never say of a value that
/// occurs in a column of the data that an equality of the column with it must be false.
pub proof fn law_no_false_negative<F: Filter<S, D>, S, D>(
    chunks: Seq<&Chunk<S, D>>,
    filters: Seq<ChunkEntry<S, D>>,
    offset: int,
    target: Scalar<S>,
    ty: DataType<D>,
)
    requires
        complete::<F, S, D>(),
        distinct_names(chunks[0].columns@),
        are_filter_columns::<F, S, D>(chunks, chunks[0].columns@.len() as int, filters),
        0 <= offset < chunks[0].columns@.len(),
        occurs(chunks, offset, target@),
    ensures
        !filters_say::<F, S, D>(
            filters,
            chunks[0].columns@[offset].id@,
            target,
            ty,
            Ok(FilterEvalResult::MustFalse),
        ),
{
    let name = chunks[0].columns@[offset].id@;
    let n = chunks[0].columns@.len() as int;
    let must_false: Result<FilterEvalResult, F::Error> = Ok(FilterEvalResult::MustFalse);
    if filters_say::<F, S, D>(filters, name, target, ty, must_false) {
        let id = filter_column_name(name);
        let m = lemma_entry_found(filters, id);
        lemma_filter_of_column::<F, S, D>(chunks, n, filters, m);
        let c = choose|c: int| 0 <= c < n && #[trigger] is_filter_column::<F, S, D>(chunks, c, filters[m]);
        law_filter_name_injective(name, chunks[0].columns@[c].id@);
        assert(c == offset);
        let bytes = filters[m].value->Scalar_0->String_0;
        let scalars = column_keys(chunks, offset);
        assert(filter_bytes::<F, S, D>(scalars, bytes));
        let (keys, made) = choose|keys: &Vec<&Scalar<S>>, made: F|
            {
                &&& is_keys(keys, scalars)
                &&& #[trigger] call_ensures(F::build, (keys,), Ok(made))
                &&& call_ensures(F::to_bytes, (&made,), Ok(bytes))
            };
        assert(filter_says::<F, S, D>(bytes, target, must_false));
        let (read, size) = choose|read: F, size: usize|
            {
                &&& #[trigger] call_ensures(F::from_bytes, (&bytes,), Ok((read, size)))
                &&& call_ensures(F::contains, (&read, &target), false)
            };
        let i = choose|i: int| 0 <= i < scalars.len() && (#[trigger] scalars[i])@ == target@;
        assert(keys@[i]@ == target@);
        assert(false);
    }
}

/// A filter that was written to bytes can be read from them.
pub open spec fn reads_back<F: Filter<S, D>, S, D>() -> bool {
    forall|made: F, bytes: Vec<u8>, error: F::Error| #[trigger]
        call_ensures(F::to_bytes, (&made,), Ok(bytes)) ==> !#[trigger] call_ensures(
            F::from_bytes,
            (&bytes,),
            Err(error),
        )
}

/// Filters that were made for some data always have an answer, if a filter that was written to bytes
/// can be read from them.
pub proof fn law_made_filters_answer<F: Filter<S, D>, S, D>(
    chunks: Seq<&Chunk<S, D>>,
    filters: Seq<ChunkEntry<S, D>>,
    column_name: Seq<char>,
    target: Scalar<S>,
    ty: DataType<D>,
    error: F::Error,
)
    requires
        reads_back::<F, S, D>(),
        are_filter_columns::<F, S, D>(chunks, chunks[0].columns@.len() as int, filters),
    ensures
        !filters_say::<F, S, D>(filters, column_name, target, ty, Err(error)),
{
    let failure: Result<FilterEvalResult, F::Error> = Err(error);
    if filters_say::<F, S, D>(filters, column_name, target, ty, failure) {
        let n = chunks[0].columns@.len() as int;
        let m = lemma_entry_found(filters, filter_column_name(column_name));
        lemma_filter_of_column::<F, S, D>(chunks, n, filters, m);
        let c = choose|c: int| 0 <= c < n && #[trigger] is_filter_column::<F, S, D>(chunks, c, filters[m]);
        let bytes = filters[m].value->Scalar_0->String_0;
        let scalars = column_keys(chunks, c);
        assert(filter_bytes::<F, S, D>(scalars, bytes));
        let (keys, made) = choose|keys: &Vec<&Scalar<S>>, made: F|
            {
                &&& is_keys(keys, scalars)
                &&& #[trigger] call_ensures(F::build, (keys,), Ok(made))
                &&& call_ensures(F::to_bytes, (&made,), Ok(bytes))
            };
        assert(filter_says::<F, S, D>(bytes, target, failure));
        assert(call_ensures(F::to_bytes, (&made,), Ok(bytes)));
        assert(false);
    }
}

/// Rewriting by filters that were made for some data never fails, if a filter that was written to
/// bytes can be read from them.
pub proof fn law_made_filters_never_fail<F: Filter<S, D>, S, D, G>(
    chunks: Seq<&Chunk<S, D>>,
    filters: Seq<ChunkEntry<S, D>>,
    expr: Expr<S, D, G>,
    error: F::Error,
    rest: Expr<S, D, G>,
)
    requires
        reads_back::<F, S, D>(),
        are_filter_columns::<F, S, D>(chunks, chunks[0].columns@.len() as int, filters),
    ensures
        !rewrite_fails::<F, S, D, G>(filters, expr, error, rest),
    decreases expr,
{
    let failure: Result<FilterEvalResult, F::Error> = Err(error);
    if rewrite_fails::<F, S, D, G>(filters, expr, error, rest) {
        if let Some((id, scalar, ty)) = equality(expr) {
            law_made_filters_answer::<F, S, D>(chunks, filters, id@, scalar, ty, error);
        }
        assert(!filters_say_of::<F, S, D, G>(filters, expr, failure));
        match expr {
            Expr::Cast { expr: inner, .. } => {
                law_made_filters_never_fail::<F, S, D, G>(chunks, filters, *inner, error, *rest->expr);
            },
            Expr::FunctionCall { args, .. } => {
                let k = choose|k: int|
                    {
                        &&& 0 <= k < args@.len()
                        &&& rewrite_fails::<F, S, D, G>(filters, #[trigger] args@[k], error, rest->args@[k])
                    };
                law_made_filters_never_fail::<F, S, D, G>(chunks, filters, args@[k], error, rest->args@[k]);
            },
            _ => {},
        }
    }
}

/// A value that occurs in a column of the data is looked up as uncertain, if a filter that was
/// written to bytes can be read from them.
pub proof fn law_present_is_uncertain<F: Filter<S, D>, S, D>(
    chunks: Seq<&Chunk<S, D>>,
    filters: Seq<ChunkEntry<S, D>>,
    offset: int,
    target: Scalar<S>,
    ty: DataType<D>,
    res: Result<FilterEvalResult, F::Error>,
)
    requires
        complete::<F, S, D>(),
        reads_back::<F, S, D>(),
        distinct_names(chunks[0].columns@),
        are_filter_columns::<F, S, D>(chunks, chunks[0].columns@.len() as int, filters),
        0 <= offset < chunks[0].columns@.len(),
        occurs(chunks, offset, target@),
        filters_say::<F, S, D>(filters, chunks[0].columns@[offset].id@, target, ty, res),
    ensures
        res == Ok::<FilterEvalResult, F::Error>(FilterEvalResult::Uncertain),
{
    law_no_false_negative::<F, S, D>(chunks, filters, offset, target, ty);
    if let Err(error) = res {
        law_made_filters_answer::<F, S, D>(chunks, filters, chunks[0].columns@[offset].id@, target, ty, error);
    }
}

/// Nothing is said of a column that there is no filter for.
pub proof fn law_no_filter_uncertain<F: Filter<S, D>, S, D>(
    filters: Seq<ChunkEntry<S, D>>,
    column_name: Seq<char>,
    target: Scalar<S>,
    ty: DataType<D>,
    res: Result<FilterEvalResult, F::Error>,
)
    requires
        forall|m: int| 0 <= m < filters.len() ==> (#[trigger] filters[m]).id@ != filter_column_name(column_name),
        filters_say::<F, S, D>(filters, column_name, target, ty, res),
    ensures
        res == Ok::<FilterEvalResult, F::Error>(FilterEvalResult::Uncertain),
{
    if entry_with_id(filters, filter_column_name(column_name)) is Some {
        let m = lemma_entry_found(filters, filter_column_name(column_name));
    }
}

/// What calls and casts give.
#[verifier::reject_recursive_types(S)]
#[verifier::reject_recursive_types(D)]
#[verifier::reject_recursive_types(G)]
pub struct Semantics<S, D, G> {
    /// What the function of this name gives for these arguments.
    pub call: spec_fn(Seq<char>, G, Seq<ScalarView<S>>) -> ScalarView<S>,
    /// What a cast to this type gives, one that gives null where it fails or one that does not.
    pub cast: spec_fn(bool, DataType<D>, ScalarView<S>) -> ScalarView<S>,
}

/// A row of the data: the value in each column.
pub type Row<S> = spec_fn(Seq<char>) -> ScalarView<S>;

/// The value of an expression in a row.
pub open spec fn value_in<S, D, G>(sem: Semantics<S, D, G>, row: Row<S>, expr: Expr<S, D, G>) -> ScalarView<S>
    decreases expr,
{
    match expr {
        Expr::Constant { scalar, .. } => scalar@,
        Expr::ColumnRef { id, .. } => row(id@),
        Expr::Cast { is_try, expr: inner, dest_type, .. } => (sem.cast)(
            is_try,
            dest_type,
            value_in(sem, row, *inner),
        ),
        Expr::FunctionCall { function, args, .. } => (sem.call)(
            function.name@,
            function.function,
            values_in(sem, row, args@),
        ),
    }
}

/// The values of a run of expressions in a row.
pub open spec fn values_in<S, D, G>(sem: Semantics<S, D, G>, row: Row<S>, exprs: Seq<Expr<S, D, G>>) -> Seq<
    ScalarView<S>,
>
    decreases exprs,
{
    if exprs.len() == 0 {
        Seq::empty()
    } else {
        values_in(sem, row, exprs.drop_last()).push(value_in(sem, row, exprs.last()))
    }
}

/// `eq` is false of different values, null apart.
pub open spec fn eq_tells_apart<S, D, G>(sem: Semantics<S, D, G>) -> bool {
    forall|function: G, args: Seq<ScalarView<S>>|
        args.len() == 2 && !(args[0] is Null) && !(args[1] is Null) && args[0] != args[1] ==> #[trigger] (
        sem.call)("eq"@, function, args) == ScalarView::<S>::Boolean(false)
}

/// The filters never say of a value in the row that an equality of its column with it must be
/// false.
pub open spec fn filters_cover<F: Filter<S, D>, S, D>(filters: Seq<ChunkEntry<S, D>>, row: Row<S>) -> bool {
    forall|name: Seq<char>, target: Scalar<S>, ty: DataType<D>|
        target@ == row(name) ==> !#[trigger] filters_say::<F, S, D>(
            filters,
            name,
            target,
            ty,
            Ok(FilterEvalResult::MustFalse),
        )
}

/// The row has no null in a column that the expression compares with a constant.
pub open spec fn no_null_compared<S, D, G>(row: Row<S>, expr: Expr<S, D, G>) -> bool
    decreases expr,
{
    &&& equality(expr) matches Some((id, scalar, ty)) ==> !(row(id@) is Null)
    &&& match expr {
        Expr::Cast { expr: inner, .. } => no_null_compared(row, *inner),
        Expr::FunctionCall { args, .. } => forall|i: int|
            0 <= i < args@.len() ==> no_null_compared(row, #[trigger] args@[i]),
        _ => true,
    }
}

proof fn lemma_values_in<S, D, G>(
    sem: Semantics<S, D, G>,
    row: Row<S>,
    exprs: Seq<Expr<S, D, G>>,
    others: Seq<Expr<S, D, G>>,
)
    requires
        exprs.len() == others.len(),
        forall|i: int|
            0 <= i < exprs.len() ==> value_in(sem, row, #[trigger] exprs[i]) == value_in(sem, row, others[i]),
    ensures
        values_in(sem, row, exprs) == values_in(sem, row, others),
    decreases exprs.len(),
{
    if exprs.len() > 0 {
        let before = exprs.drop_last();
        assert forall|i: int| 0 <= i < before.len() implies value_in(sem, row, #[trigger] before[i]) == value_in(
            sem,
            row,
            others.drop_last()[i],
        ) by {
            assert(before[i] == exprs[i]);
        }
        lemma_values_in(sem, row, before, others.drop_last());
        assert(exprs.last() == exprs[exprs.len() - 1]);
    }
}

/// Rewriting does not change the value of an expression in a row of the data.
pub proof fn law_rewrite_keeps_value<F: Filter<S, D>, S, D, G>(
    sem: Semantics<S, D, G>,
    row: Row<S>,
    filters: Seq<ChunkEntry<S, D>>,
    expr: Expr<S, D, G>,
    result: Expr<S, D, G>,
)
    requires
        eq_tells_apart(sem),
        filters_cover::<F, S, D>(filters, row),
        no_null_compared(row, expr),
        rewrites_to::<F, S, D, G>(filters, expr, result),
    ensures
        value_in(sem, row, result) == value_in(sem, row, expr),
    decreases expr,
{
    if filters_say_of::<F, S, D, G>(filters, expr, Ok(FilterEvalResult::MustFalse)) && result == false_at::<
        S,
        D,
        G,
    >(span_of(expr)) {
        let (id, scalar, ty) = equality(expr)->0;
        assert(scalar@ != row(id@));
        assert(!(scalar@ is Null));
        let args = expr->args@;
        let values = values_in(sem, row, args);
        reveal_with_fuel(values_in, 3);
        assert(values =~= seq![value_in(sem, row, args[0]), value_in(sem, row, args[1])]);
    } else {
        match expr {
            Expr::Cast { expr: inner, .. } => {
                law_rewrite_keeps_value::<F, S, D, G>(sem, row, filters, *inner, *result->expr);
            },
            Expr::FunctionCall { args, .. } => {
                assert forall|i: int| 0 <= i < args@.len() implies value_in(sem, row, #[trigger] args@[i])
                    == value_in(sem, row, result->args@[i]) by {
                    law_rewrite_keeps_value::<F, S, D, G>(sem, row, filters, args@[i], result->args@[i]);
                }
                lemma_values_in(sem, row, args@, result->args@);
            },
            _ => {},
        }
    }
}

/// The row could be made of values of the data: in each column of the data it has one that occurs
/// there.
pub open spec fn row_of<S, D>(chunks: Seq<&Chunk<S, D>>, row: Row<S>) -> bool {
    forall|offset: int|
        0 <= offset < chunks[0].columns@.len() ==> occurs(
            chunks,
            offset,
            row((#[trigger] chunks[0].columns@[offset]).id@),
        )
}

/// Filters that were made for some data cover every row of it.
pub proof fn law_filters_cover<F: Filter<S, D>, S, D>(
    chunks: Seq<&Chunk<S, D>>,
    filters: Seq<ChunkEntry<S, D>>,
    row: Row<S>,
)
    requires
        complete::<F, S, D>(),
        distinct_names(chunks[0].columns@),
        are_filter_columns::<F, S, D>(chunks, chunks[0].columns@.len() as int, filters),
        row_of(chunks, row),
    ensures
        filters_cover::<F, S, D>(filters, row),
{
    let columns = chunks[0].columns@;
    let must_false: Result<FilterEvalResult, F::Error> = Ok(FilterEvalResult::MustFalse);
    assert forall|name: Seq<char>, target: Scalar<S>, ty: DataType<D>|
        target@ == row(name) implies !#[trigger] filters_say::<F, S, D>(filters, name, target, ty, must_false) by {
        if exists|offset: int| 0 <= offset < columns.len() && (#[trigger] columns[offset]).id@ == name {
            let offset = choose|offset: int|
                0 <= offset < columns.len() && (#[trigger] columns[offset]).id@ == name;
            law_no_false_negative::<F, S, D>(chunks, filters, offset, target, ty);
        } else if filters_say::<F, S, D>(filters, name, target, ty, must_false) {
            assert forall|m: int| 0 <= m < filters.len() implies (#[trigger] filters[m]).id@
                != filter_column_name(name) by {
                lemma_filter_of_column::<F, S, D>(chunks, columns.len() as int, filters, m);
                let c = choose|c: int|
                    0 <= c < columns.len() && #[trigger] is_filter_column::<F, S, D>(chunks, c, filters[m]);
                if filters[m].id@ == filter_column_name(name) {
                    law_filter_name_injective(name, columns[c].id@);
                }
            }
            law_no_filter_uncertain::<F, S, D>(filters, name, target, ty, must_false);
        }
    }
}

/// Rewriting by filters that were made for some data does not change the value of an expression in
/// a row of the data that has no null in a column that the expression compares with a constant.
pub proof fn law_made_filters_keep_value<F: Filter<S, D>, S, D, G>(
    sem: Semantics<S, D, G>,
    row: Row<S>,
    chunks: Seq<&Chunk<S, D>>,
    filters: Seq<ChunkEntry<S, D>>,
    expr: Expr<S, D, G>,
    result: Expr<S, D, G>,
)
    requires
        complete::<F, S, D>(),
        eq_tells_apart(sem),
        distinct_names(chunks[0].columns@),
        are_filter_columns::<F, S, D>(chunks, chunks[0].columns@.len() as int, filters),
        row_of(chunks, row),
        no_null_compared(row, expr),
        rewrites_to::<F, S, D, G>(filters, expr, result),
    ensures
        value_in(sem, row, result) == value_in(sem, row, expr),
{
    law_filters_cover::<F, S, D>(chunks, filters, row);
    law_rewrite_keeps_value::<F, S, D, G>(sem, row, filters, expr, result);
}

/// The row is row `index` of a chunk: in each column of the data it has the value that stands there
/// in that row.
pub open spec fn row_at<S, D>(columns: Seq<ChunkEntry<S, D>>, chunk: Chunk<S, D>, index: int, row: Row<S>) -> bool {
    &&& columns.len() <= chunk.columns@.len()
    &&& forall|offset: int|
        0 <= offset < columns.len() ==> match chunk.columns@[offset].value {
            Value::Scalar(scalar) => row((#[trigger] columns[offset]).id@) == scalar@,
            Value::Column(column) => 0 <= index < column@.len() && row(columns[offset].id@)
                == column@[index]@,
        }
}

/// Every row of every chunk of the data is a row of the data.
pub proof fn law_row_of_chunk<S, D>(chunks: Seq<&Chunk<S, D>>, i: int, index: int, row: Row<S>)
    requires
        0 <= i < chunks.len(),
        row_at(chunks[0].columns@, *chunks[i], index, row),
    ensures
        row_of(chunks, row),
{
    let columns = chunks[0].columns@;
    assert forall|offset: int| 0 <= offset < columns.len() implies occurs(
        chunks,
        offset,
        row((#[trigger] columns[offset]).id@),
    ) by {
        let value = chunks[i].columns@[offset].value;
        let at = if value is Scalar {
            0
        } else {
            index
        };
        let k = lemma_key_at(chunks, offset, i, at);
        assert(column_keys(chunks, offset)[k]@ == row(columns[offset].id@));
    }
}

/// Where the value at `index` of a column of chunk `i` stands among the values of all chunks.
proof fn lemma_key_at<S, D>(chunks: Seq<&Chunk<S, D>>, offset: int, i: int, index: int) -> (k: int)
    requires
        0 <= i < chunks.len(),
        0 <= index < chunks[i].columns@[offset].value.scalars().len(),
    ensures
        0 <= k < column_keys(chunks, offset).len(),
        column_keys(chunks, offset)[k] == chunks[i].columns@[offset].value.scalars()[index],
    decreases chunks.len(),
{
    let before = chunks.drop_last();
    if i < before.len() {
        lemma_key_at(before, offset, i, index)
    } else {
        column_keys(before, offset).len() + index
    }
}

/// Folding does not change the value of an expression in a row.
pub open spec fn folding_keeps_value<K: ConstantFolder<S, D, G, C>, S, D, G, C>(
    sem: Semantics<S, D, G>,
    row: Row<S>,
    fn_ctx: C,
) -> bool {
    forall|expr: Expr<S, D, G>, folded: Expr<S, D, G>| #[trigger]
        folds_to::<K, S, D, G, C>(expr, fn_ctx, folded) ==> value_in(sem, row, folded) == value_in(sem, row, expr)
}

/// What a predicate was rewritten and folded to.
pub proof fn lemma_evaluated<F: Filter<S, D>, K: ConstantFolder<S, D, G, C>, S, D, G, C>(
    filters: Seq<ChunkEntry<S, D>>,
    fn_ctx: C,
    expr: Expr<S, D, G>,
    res: Result<FilterEvalResult, F::Error>,
) -> (parts: (Expr<S, D, G>, Expr<S, D, G>))
    requires
        evals_to::<F, K, S, D, G, C>(filters, fn_ctx, expr, res),
        res is Ok,
    ensures
        rewrites_to::<F, S, D, G>(filters, expr, parts.0),
        folds_to::<K, S, D, G, C>(parts.0, fn_ctx, parts.1),
        res->Ok_0 == verdict_on(parts.1),
{
    choose|rewritten: Expr<S, D, G>, folded: Expr<S, D, G>|
        {
            &&& rewrites_to::<F, S, D, G>(filters, expr, rewritten)
            &&& #[trigger] folds_to::<K, S, D, G, C>(rewritten, fn_ctx, folded)
            &&& res->Ok_0 == verdict_on(folded)
        }
}

/// Skipping is safe: where the filters that were made for some data give the verdict that a
/// predicate must be false, the predicate is false in every row of the data that has no null in a
/// column that the predicate compares with a constant.
pub proof fn law_skip_is_safe<F: Filter<S, D>, K: ConstantFolder<S, D, G, C>, S, D, G, C>(
    sem: Semantics<S, D, G>,
    row: Row<S>,
    chunks: Seq<&Chunk<S, D>>,
    filters: Seq<ChunkEntry<S, D>>,
    fn_ctx: C,
    expr: Expr<S, D, G>,
)
    requires
        complete::<F, S, D>(),
        eq_tells_apart(sem),
        folding_keeps_value::<K, S, D, G, C>(sem, row, fn_ctx),
        distinct_names(chunks[0].columns@),
        are_filter_columns::<F, S, D>(chunks, chunks[0].columns@.len() as int, filters),
        row_of(chunks, row),
        no_null_compared(row, expr),
        evals_to::<F, K, S, D, G, C>(filters, fn_ctx, expr, Ok(FilterEvalResult::MustFalse)),
    ensures
        value_in(sem, row, expr) == ScalarView::<S>::Boolean(false),
{
    let (rewritten, folded) = lemma_evaluated::<F, K, S, D, G, C>(
        filters,
        fn_ctx,
        expr,
        Ok(FilterEvalResult::MustFalse),
    );
    law_filters_cover::<F, S, D>(chunks, filters, row);
    law_rewrite_keeps_value::<F, S, D, G>(sem, row, filters, expr, rewritten);
}

/// An entry that was made for the filter of a column holds a byte string.
pub proof fn lemma_made_readable<F: Filter<S, D>, S, D>(
    chunks: Seq<&Chunk<S, D>>,
    filters: Seq<ChunkEntry<S, D>>,
    name: Seq<char>,
)
    requires
        are_filter_columns::<F, S, D>(chunks, chunks[0].columns@.len() as int, filters),
    ensures
        readable(filters, name),
{
    let id = filter_column_name(name);
    if entry_with_id(filters, id) is Some {
        let m = lemma_entry_found(filters, id);
        lemma_filter_of_column::<F, S, D>(chunks, chunks[0].columns@.len() as int, filters, m);
    }
}

/// Filters that hold byte strings can be asked for any expression.
pub proof fn lemma_readable_for<F: Filter<S, D>, S, D, G>(filters: Seq<ChunkEntry<S, D>>, expr: Expr<S, D, G>)
    requires
        forall|name: Seq<char>| #[trigger] readable(filters, name),
    ensures
        readable_for::<F, S, D, G>(filters, expr),
    decreases expr,
{
    match expr {
        Expr::Cast { expr: inner, .. } => {
            lemma_readable_for::<F, S, D, G>(filters, *inner);
        },
        Expr::FunctionCall { args, .. } => {
            assert forall|i: int| 0 <= i < args@.len() implies readable_for::<F, S, D, G>(
                filters,
                #[trigger] args@[i],
            ) by {
                lemma_readable_for::<F, S, D, G>(filters, args@[i]);
            }
        },
        _ => {},
    }
}

/// The filters that were made for some data can be asked for any expression.
pub proof fn law_made_filters_readable<F: Filter<S, D>, S, D, G>(
    chunks: Seq<&Chunk<S, D>>,
    filters: Seq<ChunkEntry<S, D>>,
    expr: Expr<S, D, G>,
)
    requires
        are_filter_columns::<F, S, D>(chunks, chunks[0].columns@.len() as int, filters),
    ensures
        readable_for::<F, S, D, G>(filters, expr),
{
    assert forall|name: Seq<char>| #[trigger] readable(filters, name) by {
        lemma_made_readable::<F, S, D>(chunks, filters, name);
    }
    lemma_readable_for::<F, S, D, G>(filters, expr);
}

/// A value is null or is the other value: null stands for what is not known.
pub open spec fn known_by<S>(value: ScalarView<S>, other: ScalarView<S>) -> bool {
    value is Null || value == other
}

pub open spec fn all_known_by<S>(values: Seq<ScalarView<S>>, others: Seq<ScalarView<S>>) -> bool {
    &&& values.len() == others.len()
    &&& forall|i: int| 0 <= i < values.len() ==> known_by(#[trigger] values[i], others[i])
}

/// What a call or a cast gives for arguments some of which are null, unless it is null, is what it
/// gives whatever stands for the nulls. Comparisons, arithmetic and the connectives of three-valued
/// logic are like this; a function that asks whether its argument is null is not.
pub open spec fn null_is_unknown<S, D, G>(sem: Semantics<S, D, G>) -> bool {
    &&& forall|name: Seq<char>, function: G, args: Seq<ScalarView<S>>, others: Seq<ScalarView<S>>|
        #![trigger (sem.call)(name, function, args), (sem.call)(name, function, others)]
        all_known_by(args, others) ==> known_by(
            (sem.call)(name, function, args),
            (sem.call)(name, function, others),
        )
    &&& forall|is_try: bool, ty: DataType<D>, value: ScalarView<S>, other: ScalarView<S>|
        #![trigger (sem.cast)(is_try, ty, value), (sem.cast)(is_try, ty, other)]
        known_by(value, other) ==> known_by((sem.cast)(is_try, ty, value), (sem.cast)(is_try, ty, other))
}

proof fn lemma_values_known<S, D, G>(
    sem: Semantics<S, D, G>,
    row: Row<S>,
    exprs: Seq<Expr<S, D, G>>,
    others: Seq<Expr<S, D, G>>,
)
    requires
        exprs.len() == others.len(),
        forall|i: int|
            0 <= i < exprs.len() ==> known_by(
                value_in(sem, row, #[trigger] exprs[i]),
                value_in(sem, row, others[i]),
            ),
    ensures
        all_known_by(values_in(sem, row, exprs), values_in(sem, row, others)),
    decreases exprs.len(),
{
    if exprs.len() > 0 {
        let before = exprs.drop_last();
        assert forall|i: int| 0 <= i < before.len() implies known_by(
            value_in(sem, row, #[trigger] before[i]),
            value_in(sem, row, others.drop_last()[i]),
        ) by {
            assert(before[i] == exprs[i]);
        }
        lemma_values_known(sem, row, before, others.drop_last());
        assert(exprs.last() == exprs[exprs.len() - 1]);
    }
}

/// An equality with a constant that is not the value in the row is false or null.
proof fn lemma_equality_false<S, D, G>(sem: Semantics<S, D, G>, row: Row<S>, expr: Expr<S, D, G>)
    requires
        eq_tells_apart(sem),
        null_is_unknown(sem),
        equality(expr) matches Some((id, scalar, ty)) && !(scalar@ is Null) && scalar@ != row(id@),
    ensures
        known_by(value_in(sem, row, expr), ScalarView::<S>::Boolean(false)),
{
    let (id, scalar, ty) = equality(expr)->0;
    let args = expr->args@;
    let function = expr->function.function;
    let values = values_in(sem, row, args);
    reveal_with_fuel(values_in, 3);
    assert(values =~= seq![value_in(sem, row, args[0]), value_in(sem, row, args[1])]);
    if row(id@) is Null {
        // Some value that is not the constant, in place of null.
        let other = ScalarView::<S>::Boolean(scalar@ != ScalarView::<S>::Boolean(true));
        let others = if args[0] is ColumnRef {
            seq![other, values[1]]
        } else {
            seq![values[0], other]
        };
        assert(all_known_by(values, others));
        assert((sem.call)("eq"@, function, others) == ScalarView::<S>::Boolean(false));
    }
}

/// Rewriting does not change the value of an expression in a row of the data unless it is null.
pub proof fn law_rewrite_keeps_known_value<F: Filter<S, D>, S, D, G>(
    sem: Semantics<S, D, G>,
    row: Row<S>,
    filters: Seq<ChunkEntry<S, D>>,
    expr: Expr<S, D, G>,
    result: Expr<S, D, G>,
)
    requires
        eq_tells_apart(sem),
        null_is_unknown(sem),
        filters_cover::<F, S, D>(filters, row),
        rewrites_to::<F, S, D, G>(filters, expr, result),
    ensures
        known_by(value_in(sem, row, expr), value_in(sem, row, result)),
    decreases expr,
{
    if filters_say_of::<F, S, D, G>(filters, expr, Ok(FilterEvalResult::MustFalse)) && result == false_at::<
        S,
        D,
        G,
    >(span_of(expr)) {
        let (id, scalar, ty) = equality(expr)->0;
        assert(scalar@ != row(id@));
        lemma_equality_false(sem, row, expr);
    } else {
        match expr {
            Expr::Cast { expr: inner, .. } => {
                law_rewrite_keeps_known_value::<F, S, D, G>(sem, row, filters, *inner, *result->expr);
            },
            Expr::FunctionCall { args, .. } => {
                assert forall|i: int| 0 <= i < args@.len() implies known_by(
                    value_in(sem, row, #[trigger] args@[i]),
                    value_in(sem, row, result->args@[i]),
                ) by {
                    law_rewrite_keeps_known_value::<F, S, D, G>(sem, row, filters, args@[i], result->args@[i]);
                }
                lemma_values_known(sem, row, args@, result->args@);
            },
            _ => {},
        }
    }
}

/// Skipping is safe where there are nulls: where the filters that were made for some data give the
/// verdict that a predicate must be false, the predicate is false or null in every row of the
/// data, if null stands for what is not known in all that the predicate calls.
pub proof fn law_skip_is_safe_with_nulls<F: Filter<S, D>, K: ConstantFolder<S, D, G, C>, S, D, G, C>(
    sem: Semantics<S, D, G>,
    row: Row<S>,
    chunks: Seq<&Chunk<S, D>>,
    filters: Seq<ChunkEntry<S, D>>,
    fn_ctx: C,
    expr: Expr<S, D, G>,
)
    requires
        complete::<F, S, D>(),
        eq_tells_apart(sem),
        null_is_unknown(sem),
        folding_keeps_value::<K, S, D, G, C>(sem, row, fn_ctx),
        distinct_names(chunks[0].columns@),
        are_filter_columns::<F, S, D>(chunks, chunks[0].columns@.len() as int, filters),
        row_of(chunks, row),
        evals_to::<F, K, S, D, G, C>(filters, fn_ctx, expr, Ok(FilterEvalResult::MustFalse)),
    ensures
        known_by(value_in(sem, row, expr), ScalarView::<S>::Boolean(false)),
{
    let (rewritten, folded) = lemma_evaluated::<F, K, S, D, G, C>(
        filters,
        fn_ctx,
        expr,
        Ok(FilterEvalResult::MustFalse),
    );
    law_filters_cover::<F, S, D>(chunks, filters, row);
    law_rewrite_keeps_known_value::<F, S, D, G>(sem, row, filters, expr, rewritten);
}

} // verus!
