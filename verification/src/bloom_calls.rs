//! What the calls of the pruning by filters give, told by the data, the filters and the expressions
//! themselves.

use vstd::prelude::*;

use crate::bloom::{
    are_filter_columns, column_keys, equality, filter_bytes, filter_column_name, filter_error, filter_says, filters_say,
    filters_say_of, folds_to, found_supported, is_filter_column, is_keys, readable, rewrite_fails, rewrites_to,
    ChunkFilter, ConstantFolder, ErrorCode, Filter, FilterEvalResult,
};
use crate::bloom_laws::{lemma_evaluated, lemma_readable_for};
use crate::expression::{
    column_refs, column_refs_of, entry_with_id, is_first_with_id, refs_view, Chunk, ChunkEntry, DataType, Expr, Scalar,
    Value,
};

verus! {

/// An expression is the constant `false`, wherever it stands and whatever its type is called.
pub open spec fn is_false<S, D, G>(expr: Expr<S, D, G>) -> bool {
    expr matches Expr::Constant { scalar: Scalar::Boolean(false), .. }
}

/// A folded expression tells that the predicate must be false exactly if it is a constant and its value
/// is `false`.
pub proof fn law_verdict<S, D, C, G>(folded: Expr<S, D, G>, res: FilterEvalResult)
    requires
        call_ensures(ChunkFilter::<S, D, C>::verdict::<G>, (&folded,), res),
    ensures
        res == FilterEvalResult::MustFalse <==> folded is Constant && folded->scalar == Scalar::<S>::Boolean(
            false,
        ),
        res == FilterEvalResult::Uncertain <==> !(folded is Constant && folded->scalar == Scalar::<S>::Boolean(
            false,
        )),
{
}

/// The filter of a column is named after the column.
pub proof fn law_filter_is_named_after_column<S, D, C>(column_name: &str, name: String)
    requires
        call_ensures(ChunkFilter::<S, D, C>::build_filter_column_name, (column_name,), name),
    ensures
        name@ == "Bloom("@ + column_name@ + ")"@,
{
}

/// Taking filters that were made earlier keeps them and the context as they are, and never fails.
pub proof fn law_filters_are_taken_as_given<S, D, C, E>(
    fn_ctx: C,
    filter_chunk: Chunk<S, D>,
    res: Result<ChunkFilter<S, D, C>, ErrorCode<E>>,
)
    requires
        call_ensures(ChunkFilter::<S, D, C>::from_filter_chunk::<E>, (fn_ctx, filter_chunk), res),
    ensures
        res is Ok,
        res->Ok_0.filter_chunk == filter_chunk,
        res->Ok_0.fn_ctx == fn_ctx,
{
}

/// Nothing is known of null, of a value of a type that filters are not made for, and of a value in a
/// column that there is no filter for.
pub proof fn law_find_is_uncertain<F: Filter<S, D>, S, D, C>(
    filter: ChunkFilter<S, D, C>,
    column_name: &str,
    target: Scalar<S>,
    ty: DataType<D>,
    res: Result<FilterEvalResult, F::Error>,
)
    requires
        call_ensures(ChunkFilter::<S, D, C>::find::<F>, (&filter, column_name, &target, &ty), res),
        ({
            let columns = filter.filter_chunk.columns@;
            ||| target == Scalar::<S>::Null
            ||| !call_ensures(F::is_supported_type, (&ty,), true)
            ||| forall|i: int|
                0 <= i < columns.len() ==> (#[trigger] columns[i]).id@ != "Bloom("@ + column_name@ + ")"@
        }),
    ensures
        res == Ok::<FilterEvalResult, F::Error>(FilterEvalResult::Uncertain),
{
    lemma_none_with_id(filter.filter_chunk.columns@, "Bloom("@ + column_name@ + ")"@);
}

proof fn lemma_none_with_id<S, D>(columns: Seq<ChunkEntry<S, D>>, id: Seq<char>)
    ensures
        (forall|i: int| 0 <= i < columns.len() ==> (#[trigger] columns[i]).id@ != id) ==> entry_with_id(
            columns,
            id,
        ) is None,
{
}

/// The column at `i` is the first one that bears the name of the filter of a column, and it holds these
/// bytes.
pub open spec fn has_filter<S, D>(
    columns: Seq<ChunkEntry<S, D>>,
    column_name: Seq<char>,
    i: int,
    bytes: Vec<u8>,
) -> bool {
    &&& 0 <= i < columns.len()
    &&& columns[i].id@ == "Bloom("@ + column_name + ")"@
    &&& forall|j: int| 0 <= j < i ==> (#[trigger] columns[j]).id@ != "Bloom("@ + column_name + ")"@
    &&& columns[i].value == Value::Scalar(Scalar::<S>::String(bytes))
}

proof fn lemma_has_filter<S, D>(columns: Seq<ChunkEntry<S, D>>, column_name: Seq<char>, i: int, bytes: Vec<u8>)
    requires
        has_filter(columns, column_name, i, bytes),
    ensures
        entry_with_id(columns, "Bloom("@ + column_name + ")"@) == Some(columns[i]),
{
    let id = "Bloom("@ + column_name + ")"@;
    assert(is_first_with_id(columns, id, i));
    let first = choose|index: int| is_first_with_id(columns, id, index);
    assert(is_first_with_id(columns, id, first));
    assert(first == i);
}

/// Where there is a filter for the column, it is read, and it is asked for this very value: if it takes
/// the value for one of its keys nothing is known, and if it does not the value does not occur. What
/// goes wrong in reading is passed on.
pub proof fn law_find_asks_the_filter<F: Filter<S, D>, S, D, C>(
    filter: ChunkFilter<S, D, C>,
    column_name: &str,
    target: Scalar<S>,
    ty: DataType<D>,
    res: Result<FilterEvalResult, F::Error>,
    i: int,
    bytes: Vec<u8>,
)
    requires
        call_ensures(ChunkFilter::<S, D, C>::find::<F>, (&filter, column_name, &target, &ty), res),
        target != Scalar::<S>::Null,
        !call_ensures(F::is_supported_type, (&ty,), false),
        has_filter(filter.filter_chunk.columns@, column_name@, i, bytes),
    ensures
        match res {
            Err(error) => call_ensures(F::from_bytes, (&bytes,), Err(error)),
            Ok(FilterEvalResult::Uncertain) => exists|read: F, size: usize|
                {
                    &&& #[trigger] call_ensures(F::from_bytes, (&bytes,), Ok((read, size)))
                    &&& call_ensures(F::contains, (&read, &target), true)
                },
            Ok(FilterEvalResult::MustFalse) => exists|read: F, size: usize|
                {
                    &&& #[trigger] call_ensures(F::from_bytes, (&bytes,), Ok((read, size)))
                    &&& call_ensures(F::contains, (&read, &target), false)
                },
        },
{
    lemma_has_filter(filter.filter_chunk.columns@, column_name@, i, bytes);
}

/// The only thing that the filters can say of a value in a column is that it does not occur: there is a
/// filter for the column, it can be read, and it does not take the value for one of its keys.
pub open spec fn refutes<F: Filter<S, D>, S, D>(
    columns: Seq<ChunkEntry<S, D>>,
    column_name: Seq<char>,
    target: Scalar<S>,
    ty: DataType<D>,
) -> bool {
    &&& target != Scalar::<S>::Null
    &&& !call_ensures(F::is_supported_type, (&ty,), false)
    &&& exists|i: int, bytes: Vec<u8>|
        {
            &&& #[trigger] has_filter(columns, column_name, i, bytes)
            &&& forall|error: F::Error| !#[trigger] call_ensures(F::from_bytes, (&bytes,), Err(error))
            &&& forall|read: F, size: usize| #[trigger]
                call_ensures(F::from_bytes, (&bytes,), Ok((read, size))) ==> !call_ensures(
                    F::contains,
                    (&read, &target),
                    true,
                )
        }
}

proof fn lemma_refuted<F: Filter<S, D>, S, D>(
    columns: Seq<ChunkEntry<S, D>>,
    column_name: Seq<char>,
    target: Scalar<S>,
    ty: DataType<D>,
    res: Result<FilterEvalResult, F::Error>,
)
    requires
        refutes::<F, S, D>(columns, column_name, target, ty),
        filters_say::<F, S, D>(columns, column_name, target, ty, res),
    ensures
        res == Ok::<FilterEvalResult, F::Error>(FilterEvalResult::MustFalse),
{
    let (i, bytes) = choose|i: int, bytes: Vec<u8>|
        {
            &&& #[trigger] has_filter(columns, column_name, i, bytes)
            &&& forall|error: F::Error| !#[trigger] call_ensures(F::from_bytes, (&bytes,), Err(error))
            &&& forall|read: F, size: usize| #[trigger]
                call_ensures(F::from_bytes, (&bytes,), Ok((read, size))) ==> !call_ensures(
                    F::contains,
                    (&read, &target),
                    true,
                )
        };
    lemma_has_filter(columns, column_name, i, bytes);
    assert(filter_says::<F, S, D>(bytes, target, res));
}

/// A value that can only be found not to occur is found so.
pub proof fn law_refuted_is_found_false<F: Filter<S, D>, S, D, C>(
    filter: ChunkFilter<S, D, C>,
    column_name: &str,
    target: Scalar<S>,
    ty: DataType<D>,
    res: Result<FilterEvalResult, F::Error>,
)
    requires
        call_ensures(ChunkFilter::<S, D, C>::find::<F>, (&filter, column_name, &target, &ty), res),
        refutes::<F, S, D>(filter.filter_chunk.columns@, column_name@, target, ty),
    ensures
        res == Ok::<FilterEvalResult, F::Error>(FilterEvalResult::MustFalse),
{
    lemma_refuted::<F, S, D>(filter.filter_chunk.columns@, column_name@, target, ty, res);
}

/// The expression is a call of `eq` on a column and a constant, in this order or the other.
pub open spec fn is_equality<S, D, G>(
    expr: Expr<S, D, G>,
    id: String,
    scalar: Scalar<S>,
    ty: DataType<D>,
) -> bool {
    &&& expr is FunctionCall
    &&& expr->function.name@ == "eq"@
    &&& expr->args@.len() == 2
    &&& {
        let first = expr->args@[0];
        let second = expr->args@[1];
        ||| {
            &&& first is ColumnRef && first->id == id && first->ColumnRef_data_type == ty
            &&& second is Constant && second->scalar == scalar
        }
        ||| {
            &&& second is ColumnRef && second->id == id && second->ColumnRef_data_type == ty
            &&& first is Constant && first->scalar == scalar
        }
    }
}

/// Rewriting in place is what it is stated to be, on success and on an error.
pub proof fn law_rewrite_call<F: Filter<S, D>, S, D, C, G>(
    filter: ChunkFilter<S, D, C>,
    expr: &mut Expr<S, D, G>,
    res: Result<(), F::Error>,
)
    requires
        call_ensures(ChunkFilter::<S, D, C>::rewrite_expr::<F, G>, (&filter, expr), res),
    ensures
        match res {
            Ok(_) => rewrites_to::<F, S, D, G>(filter.filter_chunk.columns@, *old(expr), *final(expr)),
            Err(error) => rewrite_fails::<F, S, D, G>(
                filter.filter_chunk.columns@,
                *old(expr),
                error,
                *final(expr),
            ),
        },
{
}

/// An equality that the filters can only refute becomes the constant `false`, at the same place.
pub proof fn law_refuted_equality_becomes_false<F: Filter<S, D>, S, D, G>(
    columns: Seq<ChunkEntry<S, D>>,
    expr: Expr<S, D, G>,
    result: Expr<S, D, G>,
    id: String,
    scalar: Scalar<S>,
    ty: DataType<D>,
)
    requires
        is_equality(expr, id, scalar, ty),
        refutes::<F, S, D>(columns, id@, scalar, ty),
        rewrites_to::<F, S, D, G>(columns, expr, result),
    ensures
        result is Constant,
        result->Constant_span == expr->FunctionCall_span,
        result->scalar == Scalar::<S>::Boolean(false),
        result->Constant_data_type == DataType::<D>::Boolean,
{
    let uncertain: Result<FilterEvalResult, F::Error> = Ok(FilterEvalResult::Uncertain);
    if filters_say_of::<F, S, D, G>(columns, expr, uncertain) {
        lemma_refuted::<F, S, D>(columns, id@, scalar, ty, uncertain);
    }
}

/// An equality becomes the constant `false` only if a filter for the column was read that does not take
/// the constant for one of its keys; otherwise it stays, with both its arguments.
pub proof fn law_equality_stays_or_becomes_false<F: Filter<S, D>, S, D, G>(
    columns: Seq<ChunkEntry<S, D>>,
    expr: Expr<S, D, G>,
    result: Expr<S, D, G>,
    id: String,
    scalar: Scalar<S>,
    ty: DataType<D>,
)
    requires
        is_equality(expr, id, scalar, ty),
        rewrites_to::<F, S, D, G>(columns, expr, result),
    ensures
        if result is FunctionCall {
            &&& result->FunctionCall_span == expr->FunctionCall_span
            &&& result->function == expr->function
            &&& result->return_type == expr->return_type
            &&& result->args@ == expr->args@
        } else {
            &&& is_false(result)
            &&& scalar != Scalar::<S>::Null
            &&& call_ensures(F::is_supported_type, (&ty,), true)
            &&& exists|i: int, bytes: Vec<u8>, read: F, size: usize|
                {
                    &&& has_filter(columns, id@, i, bytes)
                    &&& #[trigger] call_ensures(F::from_bytes, (&bytes,), Ok((read, size)))
                    &&& call_ensures(F::contains, (&read, &scalar), false)
                    &&& #[trigger] columns[i].value == Value::Scalar(Scalar::<S>::String(bytes))
                }
        },
{
    let must_false: Result<FilterEvalResult, F::Error> = Ok(FilterEvalResult::MustFalse);
    if result is FunctionCall {
        lemma_leaf::<F, S, D, G>(columns, expr->args@[0], result->args@[0]);
        lemma_leaf::<F, S, D, G>(columns, expr->args@[1], result->args@[1]);
        assert(result->args@ =~= expr->args@);
    } else {
        assert(filters_say::<F, S, D>(columns, id@, scalar, ty, must_false));
        let name = "Bloom("@ + id@ + ")"@;
        let i = choose|index: int| is_first_with_id(columns, name, index);
        assert(is_first_with_id(columns, name, i));
        let bytes = columns[i].value->Scalar_0->String_0;
        assert(filter_says::<F, S, D>(bytes, scalar, must_false));
        assert(has_filter(columns, id@, i, bytes));
        assert(columns[i].value == Value::Scalar(Scalar::<S>::String(bytes)));
    }
}

proof fn lemma_leaf<F: Filter<S, D>, S, D, G>(
    columns: Seq<ChunkEntry<S, D>>,
    expr: Expr<S, D, G>,
    result: Expr<S, D, G>,
)
    requires
        expr is Constant || expr is ColumnRef,
        rewrites_to::<F, S, D, G>(columns, expr, result),
    ensures
        result == expr,
{
}

/// A constant and a column stay as they are.
pub proof fn law_leaves_stay<F: Filter<S, D>, S, D, G>(
    columns: Seq<ChunkEntry<S, D>>,
    expr: Expr<S, D, G>,
    result: Expr<S, D, G>,
)
    requires
        expr is Constant || expr is ColumnRef,
        rewrites_to::<F, S, D, G>(columns, expr, result),
    ensures
        result == expr,
{
}

/// A cast stays, and what is cast is rewritten.
pub proof fn law_what_is_cast_is_rewritten<F: Filter<S, D>, S, D, G>(
    columns: Seq<ChunkEntry<S, D>>,
    expr: Expr<S, D, G>,
    result: Expr<S, D, G>,
)
    requires
        expr is Cast,
        rewrites_to::<F, S, D, G>(columns, expr, result),
    ensures
        result is Cast,
        result->Cast_span == expr->Cast_span,
        result->is_try == expr->is_try,
        result->dest_type == expr->dest_type,
        rewrites_to::<F, S, D, G>(columns, *expr->expr, *result->expr),
{
}

/// Every other call stays, and each of its arguments is rewritten, in its place.
pub proof fn law_arguments_are_rewritten<F: Filter<S, D>, S, D, G>(
    columns: Seq<ChunkEntry<S, D>>,
    expr: Expr<S, D, G>,
    result: Expr<S, D, G>,
)
    requires
        expr is FunctionCall,
        forall|id: String, scalar: Scalar<S>, ty: DataType<D>| !#[trigger] is_equality(expr, id, scalar, ty),
        rewrites_to::<F, S, D, G>(columns, expr, result),
    ensures
        result is FunctionCall,
        result->FunctionCall_span == expr->FunctionCall_span,
        result->function == expr->function,
        result->return_type == expr->return_type,
        result->args@.len() == expr->args@.len(),
        forall|i: int|
            0 <= i < expr->args@.len() ==> rewrites_to::<F, S, D, G>(
                columns,
                #[trigger] expr->args@[i],
                result->args@[i],
            ),
{
    lemma_no_equality(expr);
}

proof fn lemma_no_equality<S, D, G>(expr: Expr<S, D, G>)
    requires
        forall|id: String, scalar: Scalar<S>, ty: DataType<D>| !#[trigger] is_equality(expr, id, scalar, ty),
    ensures
        equality(expr) is None,
{
    if equality(expr) is Some {
        let (id, scalar, ty) = equality(expr)->0;
        assert(is_equality(expr, id, scalar, ty));
    }
}

/// Rewriting fails only where a filter that is asked for cannot be read, with what went wrong there. At
/// an equality nothing has changed by then.
pub proof fn law_equality_fails_by_its_filter<F: Filter<S, D>, S, D, G>(
    columns: Seq<ChunkEntry<S, D>>,
    expr: Expr<S, D, G>,
    error: F::Error,
    rest: Expr<S, D, G>,
    id: String,
    scalar: Scalar<S>,
    ty: DataType<D>,
)
    requires
        is_equality(expr, id, scalar, ty),
        rewrite_fails::<F, S, D, G>(columns, expr, error, rest),
    ensures
        rest == expr,
        scalar != Scalar::<S>::Null,
        call_ensures(F::is_supported_type, (&ty,), true),
        exists|i: int, bytes: Vec<u8>|
            {
                &&& #[trigger] has_filter(columns, id@, i, bytes)
                &&& call_ensures(F::from_bytes, (&bytes,), Err(error))
            },
{
    let failure: Result<FilterEvalResult, F::Error> = Err(error);
    if rest != expr || !filters_say_of::<F, S, D, G>(columns, expr, failure) {
        let k = choose|k: int|
            {
                &&& 0 <= k < expr->args@.len()
                &&& rewrite_fails::<F, S, D, G>(columns, #[trigger] expr->args@[k], error, rest->args@[k])
            };
        lemma_leaf_never_fails::<F, S, D, G>(columns, expr->args@[k], error, rest->args@[k]);
    }
    let name = "Bloom("@ + id@ + ")"@;
    let i = choose|index: int| is_first_with_id(columns, name, index);
    assert(is_first_with_id(columns, name, i));
    let bytes = columns[i].value->Scalar_0->String_0;
    assert(filter_says::<F, S, D>(bytes, scalar, failure));
    assert(has_filter(columns, id@, i, bytes));
}

proof fn lemma_leaf_never_fails<F: Filter<S, D>, S, D, G>(
    columns: Seq<ChunkEntry<S, D>>,
    expr: Expr<S, D, G>,
    error: F::Error,
    rest: Expr<S, D, G>,
)
    requires
        expr is Constant || expr is ColumnRef,
    ensures
        !rewrite_fails::<F, S, D, G>(columns, expr, error, rest),
{
}

/// Anywhere else, rewriting fails only where rewriting what is cast or an argument fails. The arguments
/// to the left of it are rewritten by then, and those to the right are as they were.
pub proof fn law_failure_comes_from_within<F: Filter<S, D>, S, D, G>(
    columns: Seq<ChunkEntry<S, D>>,
    expr: Expr<S, D, G>,
    error: F::Error,
    rest: Expr<S, D, G>,
)
    requires
        forall|id: String, scalar: Scalar<S>, ty: DataType<D>| !#[trigger] is_equality(expr, id, scalar, ty),
        rewrite_fails::<F, S, D, G>(columns, expr, error, rest),
    ensures
        expr is Cast || expr is FunctionCall,
        expr is Cast ==> {
            &&& rest is Cast
            &&& rest->Cast_span == expr->Cast_span
            &&& rest->is_try == expr->is_try
            &&& rest->dest_type == expr->dest_type
            &&& rewrite_fails::<F, S, D, G>(columns, *expr->expr, error, *rest->expr)
        },
        expr is FunctionCall ==> {
            &&& rest is FunctionCall
            &&& rest->FunctionCall_span == expr->FunctionCall_span
            &&& rest->function == expr->function
            &&& rest->return_type == expr->return_type
            &&& rest->args@.len() == expr->args@.len()
            &&& exists|k: int|
                {
                    &&& 0 <= k < expr->args@.len()
                    &&& #[trigger] rewrite_fails::<F, S, D, G>(columns, expr->args@[k], error, rest->args@[k])
                    &&& forall|i: int|
                        0 <= i < k ==> rewrites_to::<F, S, D, G>(
                            columns,
                            #[trigger] expr->args@[i],
                            rest->args@[i],
                        )
                    &&& forall|i: int| k < i < expr->args@.len() ==> #[trigger] rest->args@[i] == expr->args@[i]
                }
        },
{
    lemma_no_equality(expr);
    if expr is FunctionCall {
        let args = expr->args@;
        let k = choose|k: int|
            {
                &&& 0 <= k < args.len()
                &&& forall|i: int|
                    0 <= i < k ==> rewrites_to::<F, S, D, G>(columns, #[trigger] args[i], rest->args@[i])
                &&& rewrite_fails::<F, S, D, G>(columns, #[trigger] args[k], error, rest->args@[k])
                &&& forall|i: int| k < i < args.len() ==> #[trigger] args[i] == rest->args@[i]
            };
        assert(rewrite_fails::<F, S, D, G>(columns, args[k], error, rest->args@[k]));
        assert forall|i: int| k < i < args.len() implies #[trigger] rest->args@[i] == args[i] by {
            let arg = args[i];
        }
    }
}

/// The columns that an expression refers to: a constant refers to none, a column to itself with its
/// type, a cast to those of what is cast, and a call to those of its arguments, one after the other.
pub proof fn law_column_refs<S, D, G>(expr: Expr<S, D, G>)
    ensures
        expr is Constant ==> column_refs(expr).len() == 0,
        expr is ColumnRef ==> column_refs(expr) == seq![(expr->id@, expr->ColumnRef_data_type)],
        expr is Cast ==> column_refs(expr) == column_refs(*expr->expr),
        expr is FunctionCall ==> column_refs(expr) == expr->args@.map_values(
            |arg: Expr<S, D, G>| column_refs(arg),
        ).flatten(),
{
    if expr is FunctionCall {
        lemma_refs_of(expr->args@);
    }
}

proof fn lemma_refs_of<S, D, G>(exprs: Seq<Expr<S, D, G>>)
    ensures
        column_refs_of(exprs) == exprs.map_values(|arg: Expr<S, D, G>| column_refs(arg)).flatten(),
    decreases exprs.len(),
{
    let refs = exprs.map_values(|arg: Expr<S, D, G>| column_refs(arg));
    if exprs.len() == 0 {
        assert(column_refs_of(exprs) =~= refs.flatten());
    } else {
        let before = exprs.drop_last();
        let before_refs = before.map_values(|arg: Expr<S, D, G>| column_refs(arg));
        lemma_refs_of(before);
        assert(refs =~= before_refs.push(column_refs(exprs.last())));
        before_refs.lemma_flatten_push(column_refs(exprs.last()));
    }
}

/// The columns that an expression refers to are given one by one, with their types.
pub proof fn law_column_refs_call<S, D, G>(expr: Expr<S, D, G>, refs: Vec<(&String, &DataType<D>)>)
    requires
        call_ensures(Expr::<S, D, G>::column_refs, (&expr,), refs),
    ensures
        refs@.len() == column_refs(expr).len(),
        forall|i: int|
            0 <= i < refs@.len() ==> ((#[trigger] refs@[i]).0@, *refs@[i].1) == column_refs(expr)[i],
{
    assert(refs_view(refs@).len() == refs@.len());
    assert forall|i: int| 0 <= i < refs@.len() implies ((#[trigger] refs@[i]).0@, *refs@[i].1) == column_refs(
        expr,
    )[i] by {
        assert(refs_view(refs@)[i] == column_refs(expr)[i]);
    }
}

/// A predicate is rewritten by the filters and then folded, given the columns that are left in it and the
/// context. It must be false exactly if what comes of that is a constant and its value is `false`.
pub proof fn law_eval<F: Filter<S, D>, K: ConstantFolder<S, D, G, C>, S, D, C, G>(
    filter: ChunkFilter<S, D, C>,
    expr: Expr<S, D, G>,
    res: Result<FilterEvalResult, F::Error>,
)
    requires
        call_ensures(ChunkFilter::<S, D, C>::eval::<F, K, G>, (&filter, expr), res),
    ensures
        match res {
            Ok(verdict) => exists|
                rewritten: Expr<S, D, G>,
                columns: &Vec<(&String, &DataType<D>)>,
                folded: Expr<S, D, G>,
            |
                {
                    &&& rewrites_to::<F, S, D, G>(filter.filter_chunk.columns@, expr, rewritten)
                    &&& columns@.len() == column_refs(rewritten).len()
                    &&& forall|i: int|
                        0 <= i < columns@.len() ==> ((#[trigger] columns@[i]).0@, *columns@[i].1)
                            == column_refs(rewritten)[i]
                    &&& #[trigger] call_ensures(K::fold, (&rewritten, columns, &filter.fn_ctx), folded)
                    &&& verdict == FilterEvalResult::MustFalse <==> folded is Constant && folded->scalar
                        == Scalar::<S>::Boolean(false)
                },
            Err(error) => exists|rest: Expr<S, D, G>| #[trigger]
                rewrite_fails::<F, S, D, G>(filter.filter_chunk.columns@, expr, error, rest),
        },
{
    if res is Ok {
        let (rewritten, folded) = lemma_evaluated::<F, K, S, D, G, C>(
            filter.filter_chunk.columns@,
            filter.fn_ctx,
            expr,
            res,
        );
        let columns = choose|columns: &Vec<(&String, &DataType<D>)>|
            {
                &&& refs_view(columns@) == column_refs(rewritten)
                &&& #[trigger] call_ensures(K::fold, (&rewritten, columns, &filter.fn_ctx), folded)
            };
        assert(refs_view(columns@).len() == columns@.len());
        assert forall|i: int| 0 <= i < columns@.len() implies ((#[trigger] columns@[i]).0@, *columns@[i].1)
            == column_refs(rewritten)[i] by {
            assert(refs_view(columns@)[i] == column_refs(rewritten)[i]);
        }
        assert(call_ensures(K::fold, (&rewritten, columns, &filter.fn_ctx), folded));
    }
}

/// Folding leaves the constant `false` false.
pub open spec fn keeps_false<K: ConstantFolder<S, D, G, C>, S, D, G, C>(fn_ctx: C) -> bool {
    forall|expr: Expr<S, D, G>, columns: &Vec<(&String, &DataType<D>)>, folded: Expr<S, D, G>| #[trigger]
        call_ensures(K::fold, (&expr, columns, &fn_ctx), folded) && is_false(expr) ==> is_false(folded)
}

/// An equality of a column and a value that the filters can only refute must be false, wherever it
/// stands in the text of the query and whichever of the two comes first.
pub proof fn law_refuted_predicate_must_be_false<F: Filter<S, D>, K: ConstantFolder<S, D, G, C>, S, D, C, G>(
    filter: ChunkFilter<S, D, C>,
    expr: Expr<S, D, G>,
    id: String,
    scalar: Scalar<S>,
    ty: DataType<D>,
    res: Result<FilterEvalResult, F::Error>,
)
    requires
        call_ensures(ChunkFilter::<S, D, C>::eval::<F, K, G>, (&filter, expr), res),
        is_equality(expr, id, scalar, ty),
        refutes::<F, S, D>(filter.filter_chunk.columns@, id@, scalar, ty),
        keeps_false::<K, S, D, G, C>(filter.fn_ctx),
    ensures
        res == Ok::<FilterEvalResult, F::Error>(FilterEvalResult::MustFalse),
{
    let columns = filter.filter_chunk.columns@;
    law_eval::<F, K, S, D, C, G>(filter, expr, res);
    match res {
        Ok(_) => {
            let (rewritten, folded) = lemma_evaluated::<F, K, S, D, G, C>(columns, filter.fn_ctx, expr, res);
            law_refuted_equality_becomes_false::<F, S, D, G>(columns, expr, rewritten, id, scalar, ty);
            assert(folds_to::<K, S, D, G, C>(rewritten, filter.fn_ctx, folded));
        },
        Err(error) => {
            let rest = choose|rest: Expr<S, D, G>| #[trigger]
                rewrite_fails::<F, S, D, G>(columns, expr, error, rest);
            let failure: Result<FilterEvalResult, F::Error> = Err(error);
            if filters_say_of::<F, S, D, G>(columns, expr, failure) {
                lemma_refuted::<F, S, D>(columns, id@, scalar, ty, failure);
            } else {
                let uncertain: Result<FilterEvalResult, F::Error> = Ok(FilterEvalResult::Uncertain);
                lemma_refuted::<F, S, D>(columns, id@, scalar, ty, uncertain);
            }
        },
    }
}

/// The values of the column at `offset` in all chunks: those of each chunk, one chunk after the other. A
/// value that stands in every row counts once.
pub open spec fn values_at<S, D>(chunks: Seq<&Chunk<S, D>>, offset: int) -> Seq<Scalar<S>> {
    chunks.map_values(
        |chunk: &Chunk<S, D>|
            match chunk.columns@[offset].value {
                Value::Scalar(scalar) => seq![scalar],
                Value::Column(column) => column@,
            },
    ).flatten()
}

/// The keys of the filter of a column are the values of the column in all chunks.
pub proof fn law_keys_are_all_values<S, D>(chunks: Seq<&Chunk<S, D>>, offset: int)
    ensures
        column_keys(chunks, offset) == values_at(chunks, offset),
    decreases chunks.len(),
{
    let values = |chunk: &Chunk<S, D>|
        match chunk.columns@[offset].value {
            Value::Scalar(scalar) => seq![scalar],
            Value::Column(column) => column@,
        };
    if chunks.len() == 0 {
        assert(column_keys(chunks, offset) =~= values_at(chunks, offset));
    } else {
        let before = chunks.drop_last();
        law_keys_are_all_values(before, offset);
        assert(chunks.map_values(values) =~= before.map_values(values).push(values(chunks.last())));
        before.map_values(values).lemma_flatten_push(values(chunks.last()));
        assert(column_keys(chunks, offset) =~= values_at(before, offset) + values(chunks.last()));
    }
}

/// The keys are a run of these values.
pub open spec fn are_values<S>(keys: &Vec<&Scalar<S>>, values: Seq<Scalar<S>>) -> bool {
    &&& keys@.len() == values.len()
    &&& forall|k: int| 0 <= k < values.len() ==> *(#[trigger] keys@[k]) == values[k]
}

/// The entry bears the name of the filter of the column at `offset`, and holds the bytes of a filter that
/// was made over all values of that column.
pub open spec fn is_filter_for<F: Filter<S, D>, S, D>(
    chunks: Seq<&Chunk<S, D>>,
    offset: int,
    entry: ChunkEntry<S, D>,
) -> bool {
    &&& entry.id@ == "Bloom("@ + chunks[0].columns@[offset].id@ + ")"@
    &&& entry.data_type == DataType::<D>::String
    &&& entry.value is Scalar
    &&& entry.value->Scalar_0 is String
    &&& exists|keys: &Vec<&Scalar<S>>, made: F|
        {
            &&& are_values(keys, values_at(chunks, offset))
            &&& #[trigger] call_ensures(F::build, (keys,), Ok(made))
            &&& call_ensures(F::to_bytes, (&made,), Ok(entry.value->Scalar_0->String_0))
        }
}

proof fn lemma_filter_for<F: Filter<S, D>, S, D>(
    chunks: Seq<&Chunk<S, D>>,
    offset: int,
    entry: ChunkEntry<S, D>,
)
    requires
        is_filter_column::<F, S, D>(chunks, offset, entry),
    ensures
        is_filter_for::<F, S, D>(chunks, offset, entry),
{
    law_keys_are_all_values(chunks, offset);
    let scalars = column_keys(chunks, offset);
    let bytes = entry.value->Scalar_0->String_0;
    assert(filter_bytes::<F, S, D>(scalars, bytes));
    let (keys, made) = choose|keys: &Vec<&Scalar<S>>, made: F|
        {
            &&& is_keys(keys, scalars)
            &&& #[trigger] call_ensures(F::build, (keys,), Ok(made))
            &&& call_ensures(F::to_bytes, (&made,), Ok(bytes))
        };
    assert(are_values(keys, scalars));
    assert(call_ensures(F::build, (keys,), Ok(made)));
}

/// The filters stand for these columns: one entry for each, in order, all of them columns of a type that
/// can be found to be supported, and every column that is left out is of one that can be found not to be.
pub open spec fn stand_for<F: Filter<S, D>, S, D>(
    chunks: Seq<&Chunk<S, D>>,
    n: int,
    entries: Seq<ChunkEntry<S, D>>,
    offsets: Seq<int>,
) -> bool {
    &&& entries.len() == offsets.len()
    &&& forall|j: int|
        0 <= j < offsets.len() ==> {
            &&& 0 <= #[trigger] offsets[j] < n
            &&& call_ensures(F::is_supported_type, (&chunks[0].columns@[offsets[j]].data_type,), true)
            &&& is_filter_for::<F, S, D>(chunks, offsets[j], entries[j])
        }
    &&& forall|i: int, j: int| 0 <= i < j < offsets.len() ==> #[trigger] offsets[i] < #[trigger] offsets[j]
    &&& forall|c: int|
        0 <= c < n && !offsets.contains(c) ==> call_ensures(
            F::is_supported_type,
            (&(#[trigger] chunks[0].columns@[c]).data_type,),
            false,
        )
}

proof fn lemma_stand_for<F: Filter<S, D>, S, D>(
    chunks: Seq<&Chunk<S, D>>,
    n: int,
    entries: Seq<ChunkEntry<S, D>>,
) -> (offsets: Seq<int>)
    requires
        are_filter_columns::<F, S, D>(chunks, n, entries),
    ensures
        stand_for::<F, S, D>(chunks, n, entries, offsets),
    decreases n,
{
    if n <= 0 {
        Seq::empty()
    } else if found_supported::<F, S, D>(chunks, n - 1, false) && are_filter_columns::<F, S, D>(
        chunks,
        n - 1,
        entries,
    ) {
        lemma_stand_for::<F, S, D>(chunks, n - 1, entries)
    } else {
        let before = lemma_stand_for::<F, S, D>(chunks, n - 1, entries.drop_last());
        lemma_filter_for::<F, S, D>(chunks, n - 1, entries.last());
        let offsets = before.push(n - 1);
        assert forall|j: int| 0 <= j < offsets.len() implies {
            &&& 0 <= #[trigger] offsets[j] < n
            &&& call_ensures(F::is_supported_type, (&chunks[0].columns@[offsets[j]].data_type,), true)
            &&& is_filter_for::<F, S, D>(chunks, offsets[j], entries[j])
        } by {
            if j < before.len() {
                assert(offsets[j] == before[j]);
                assert(entries.drop_last()[j] == entries[j]);
            }
        }
        assert forall|c: int| 0 <= c < n && !offsets.contains(c) implies call_ensures(
            F::is_supported_type,
            (&(#[trigger] chunks[0].columns@[c]).data_type,),
            false,
        ) by {
            assert(offsets[before.len() as int] == n - 1);
            if before.contains(c) {
                let j = choose|j: int| 0 <= j < before.len() && before[j] == c;
                assert(offsets[j] == c);
            }
        }
        offsets
    }
}

/// The filters for some data: one for each column of a type that filters are made for, in the order of
/// the columns, over all values of the column; the context is kept.
pub proof fn law_filters_are_made<F: Filter<S, D>, S, D, C>(
    fn_ctx: C,
    chunks: &[&Chunk<S, D>],
    res: Result<ChunkFilter<S, D, C>, ErrorCode<F::Error>>,
) -> (offsets: Seq<int>)
    requires
        call_ensures(ChunkFilter::<S, D, C>::try_create::<F>, (fn_ctx, chunks), res),
        res is Ok,
    ensures
        chunks@.len() > 0,
        res->Ok_0.fn_ctx == fn_ctx,
        res->Ok_0.filter_chunk.num_rows == 1,
        stand_for::<F, S, D>(
            chunks@,
            chunks@[0].columns@.len() as int,
            res->Ok_0.filter_chunk.columns@,
            offsets,
        ),
{
    lemma_stand_for::<F, S, D>(
        chunks@,
        chunks@[0].columns@.len() as int,
        res->Ok_0.filter_chunk.columns@,
    )
}

/// Every column of a type that can only be found to be supported has its filter.
pub proof fn law_every_supported_column_has_its_filter<F: Filter<S, D>, S, D, C>(
    fn_ctx: C,
    chunks: &[&Chunk<S, D>],
    res: Result<ChunkFilter<S, D, C>, ErrorCode<F::Error>>,
    c: int,
) -> (j: int)
    requires
        call_ensures(ChunkFilter::<S, D, C>::try_create::<F>, (fn_ctx, chunks), res),
        res is Ok,
        0 <= c < chunks@[0].columns@.len(),
        !call_ensures(F::is_supported_type, (&chunks@[0].columns@[c].data_type,), false),
    ensures
        0 <= j < res->Ok_0.filter_chunk.columns@.len(),
        ({
            let entry = res->Ok_0.filter_chunk.columns@[j];
            &&& entry.id@ == "Bloom("@ + chunks@[0].columns@[c].id@ + ")"@
            &&& entry.data_type == DataType::<D>::String
            &&& exists|keys: &Vec<&Scalar<S>>, made: F, bytes: Vec<u8>|
                {
                    &&& are_values(keys, values_at(chunks@, c))
                    &&& #[trigger] call_ensures(F::build, (keys,), Ok(made))
                    &&& #[trigger] call_ensures(F::to_bytes, (&made,), Ok(bytes))
                    &&& entry.value == Value::Scalar(Scalar::<S>::String(bytes))
                }
        }),
{
    let offsets = law_filters_are_made::<F, S, D, C>(fn_ctx, chunks, res);
    let column = chunks@[0].columns@[c];
    assert(offsets.contains(c));
    let j = choose|j: int| 0 <= j < offsets.len() && offsets[j] == c;
    let entry = res->Ok_0.filter_chunk.columns@[j];
    assert(is_filter_for::<F, S, D>(chunks@, offsets[j], entry));
    let bytes = entry.value->Scalar_0->String_0;
    let (keys, made) = choose|keys: &Vec<&Scalar<S>>, made: F|
        {
            &&& are_values(keys, values_at(chunks@, c))
            &&& #[trigger] call_ensures(F::build, (keys,), Ok(made))
            &&& call_ensures(F::to_bytes, (&made,), Ok(bytes))
        };
    assert(call_ensures(F::build, (keys,), Ok(made)));
    assert(call_ensures(F::to_bytes, (&made,), Ok(bytes)));
    j
}

/// No filters are made exactly where there are no chunks, or where the filter of a column of a supported
/// type could not be made or written, after those of the columns before it: what went wrong there is
/// passed on.
pub proof fn law_filters_are_not_made<F: Filter<S, D>, S, D, C>(
    fn_ctx: C,
    chunks: &[&Chunk<S, D>],
    res: Result<ChunkFilter<S, D, C>, ErrorCode<F::Error>>,
)
    requires
        call_ensures(ChunkFilter::<S, D, C>::try_create::<F>, (fn_ctx, chunks), res),
    ensures
        chunks@.len() == 0 <==> res is Err && res->Err_0 is BadArguments,
        chunks@.len() == 0 ==> res->Err_0->BadArguments_0@ == "chunks is empty"@,
        res is Err && res->Err_0 is Filter ==> exists|
            c: int,
            keys: &Vec<&Scalar<S>>,
            entries: Seq<ChunkEntry<S, D>>,
            offsets: Seq<int>,
        |
            {
                &&& 0 <= c < chunks@[0].columns@.len()
                &&& #[trigger] stand_for::<F, S, D>(chunks@, c, entries, offsets)
                &&& call_ensures(F::is_supported_type, (&chunks@[0].columns@[c].data_type,), true)
                &&& #[trigger] are_values(keys, values_at(chunks@, c))
                &&& {
                    ||| call_ensures(F::build, (keys,), Err(res->Err_0->Filter_0))
                    ||| exists|made: F|
                        {
                            &&& #[trigger] call_ensures(F::build, (keys,), Ok(made))
                            &&& call_ensures(F::to_bytes, (&made,), Err(res->Err_0->Filter_0))
                        }
                }
            },
{
    if let Err(ErrorCode::Filter(error)) = res {
        let (c, entries) = choose|c: int, entries: Seq<ChunkEntry<S, D>>|
            {
                &&& 0 <= c < chunks@[0].columns@.len()
                &&& #[trigger] are_filter_columns::<F, S, D>(chunks@, c, entries)
                &&& found_supported::<F, S, D>(chunks@, c, true)
                &&& filter_error::<F, S, D>(column_keys(chunks@, c), error)
            };
        law_keys_are_all_values(chunks@, c);
        let scalars = column_keys(chunks@, c);
        let keys = choose|keys: &Vec<&Scalar<S>>|
            {
                &&& #[trigger] is_keys(keys, scalars)
                &&& {
                    ||| call_ensures(F::build, (keys,), Err(error))
                    ||| exists|filter: F|
                        {
                            &&& #[trigger] call_ensures(F::build, (keys,), Ok(filter))
                            &&& call_ensures(F::to_bytes, (&filter,), Err(error))
                        }
                }
            };
        assert(are_values(keys, values_at(chunks@, c)));
        let offsets = lemma_stand_for::<F, S, D>(chunks@, c, entries);
        assert(stand_for::<F, S, D>(chunks@, c, entries, offsets));
    }
}

/// Filters can be made for any chunks that have at least as many columns as the first one.
pub proof fn law_filters_can_be_made<F: Filter<S, D>, S, D, C>(fn_ctx: C, chunks: &[&Chunk<S, D>])
    requires
        forall|i: int|
            0 <= i < chunks@.len() ==> (#[trigger] chunks@[i]).columns@.len() >= chunks@[0].columns@.len(),
    ensures
        call_requires(ChunkFilter::<S, D, C>::try_create::<F>, (fn_ctx, chunks)),
{
}

/// Any value can be looked up, and any expression rewritten and evaluated, where all filters are byte
/// strings.
pub proof fn law_filters_can_be_asked<F: Filter<S, D>, K: ConstantFolder<S, D, G, C>, S, D, C, G>(
    filter: ChunkFilter<S, D, C>,
    column_name: &str,
    target: Scalar<S>,
    ty: DataType<D>,
    expr: Expr<S, D, G>,
)
    requires
        forall|i: int|
            0 <= i < filter.filter_chunk.columns@.len() ==> {
                &&& (#[trigger] filter.filter_chunk.columns@[i]).value is Scalar
                &&& filter.filter_chunk.columns@[i].value->Scalar_0 is String
            },
    ensures
        call_requires(ChunkFilter::<S, D, C>::find::<F>, (&filter, column_name, &target, &ty)),
        call_requires(ChunkFilter::<S, D, C>::eval::<F, K, G>, (&filter, expr)),
{
    let columns = filter.filter_chunk.columns@;
    assert forall|name: Seq<char>| #[trigger] readable(columns, name) by {
        let id = filter_column_name(name);
        if exists|index: int| is_first_with_id(columns, id, index) {
            let i = choose|index: int| is_first_with_id(columns, id, index);
            assert(is_first_with_id(columns, id, i));
        }
    }
    lemma_readable_for::<F, S, D, G>(columns, expr);
}

/// Any expression can be rewritten in place, where all filters are byte strings.
pub proof fn law_any_expression_can_be_rewritten<F: Filter<S, D>, S, D, C, G>(
    filter: ChunkFilter<S, D, C>,
    expr: &mut Expr<S, D, G>,
)
    requires
        forall|i: int|
            0 <= i < filter.filter_chunk.columns@.len() ==> {
                &&& (#[trigger] filter.filter_chunk.columns@[i]).value is Scalar
                &&& filter.filter_chunk.columns@[i].value->Scalar_0 is String
            },
    ensures
        call_requires(ChunkFilter::<S, D, C>::rewrite_expr::<F, G>, (&filter, expr)),
{
    let columns = filter.filter_chunk.columns@;
    assert forall|name: Seq<char>| #[trigger] readable(columns, name) by {
        let id = filter_column_name(name);
        if exists|index: int| is_first_with_id(columns, id, index) {
            let i = choose|index: int| is_first_with_id(columns, id, index);
            assert(is_first_with_id(columns, id, i));
        }
    }
    lemma_readable_for::<F, S, D, G>(columns, *old(expr));
}

/// What is never looked into does not matter to looking a value up: null, a value of a type that filters
/// are not made for, a value in a column without a filter, and every filter but that of the column.
pub proof fn law_find_needs_one_filter<F: Filter<S, D>, S, D, C>(
    filter: ChunkFilter<S, D, C>,
    column_name: &str,
    target: Scalar<S>,
    ty: DataType<D>,
)
    requires
        ({
            let columns = filter.filter_chunk.columns@;
            ||| target == Scalar::<S>::Null
            ||| !call_ensures(F::is_supported_type, (&ty,), true)
            ||| forall|i: int|
                0 <= i < columns.len() ==> (#[trigger] columns[i]).id@ != "Bloom("@ + column_name@ + ")"@
            ||| exists|i: int, bytes: Vec<u8>| has_filter(columns, column_name@, i, bytes)
        }),
    ensures
        call_requires(ChunkFilter::<S, D, C>::find::<F>, (&filter, column_name, &target, &ty)),
{
    let columns = filter.filter_chunk.columns@;
    lemma_none_with_id(columns, "Bloom("@ + column_name@ + ")"@);
    if exists|i: int, bytes: Vec<u8>| has_filter(columns, column_name@, i, bytes) {
        let (i, bytes) = choose|i: int, bytes: Vec<u8>| has_filter(columns, column_name@, i, bytes);
        lemma_has_filter(columns, column_name@, i, bytes);
    }
}

/// These calls can be made at any time.
pub proof fn law_calls_without_conditions<S, D, C, G, E>(
    fn_ctx: C,
    chunk: Chunk<S, D>,
    columns: Vec<ChunkEntry<S, D>>,
    n: usize,
    id: String,
    name: &str,
    scalar: Scalar<S>,
    expr: Expr<S, D, G>,
)
    ensures
        call_requires(ChunkFilter::<S, D, C>::from_filter_chunk::<E>, (fn_ctx, chunk)),
        call_requires(ChunkFilter::<S, D, C>::build_filter_column_name, (name,)),
        call_requires(ChunkFilter::<S, D, C>::verdict::<G>, (&expr,)),
        call_requires(Chunk::<S, D>::new, (columns, n)),
        call_requires(Chunk::<S, D>::num_columns, (&chunk,)),
        call_requires(Chunk::<S, D>::get_by_id, (&chunk, &id)),
        n < chunk.columns@.len() ==> call_requires(Chunk::<S, D>::get_by_offset, (&chunk, n)),
        call_requires(Scalar::<S>::is_null, (&scalar,)),
        call_requires(Expr::<S, D, G>::column_refs, (&expr,)),
{
}

/// A chunk has the columns and the number of rows that it was made with.
pub proof fn law_chunk_is_made_as_given<S, D>(
    columns: Vec<ChunkEntry<S, D>>,
    num_rows: usize,
    chunk: Chunk<S, D>,
    n: usize,
)
    requires
        call_ensures(Chunk::<S, D>::new, (columns, num_rows), chunk),
        call_ensures(Chunk::<S, D>::num_columns, (&chunk,), n),
    ensures
        chunk.columns == columns,
        chunk.num_rows == num_rows,
        n == columns@.len(),
{
}

/// A column is given by its place, and by its name the first one that bears it, if one does.
pub proof fn law_columns_are_found<S, D>(
    chunk: Chunk<S, D>,
    offset: usize,
    entry: &ChunkEntry<S, D>,
    id: String,
    found: Option<&ChunkEntry<S, D>>,
)
    requires
        offset < chunk.columns@.len(),
        call_ensures(Chunk::<S, D>::get_by_offset, (&chunk, offset), entry),
        call_ensures(Chunk::<S, D>::get_by_id, (&chunk, &id), found),
    ensures
        *entry == chunk.columns@[offset as int],
        match found {
            None => forall|i: int| 0 <= i < chunk.columns@.len() ==> (#[trigger] chunk.columns@[i]).id@ != id@,
            Some(column) => exists|i: int|
                {
                    &&& 0 <= i < chunk.columns@.len()
                    &&& #[trigger] chunk.columns@[i] == *column
                    &&& column.id@ == id@
                    &&& forall|j: int| 0 <= j < i ==> (#[trigger] chunk.columns@[j]).id@ != id@
                },
        },
{
    let columns = chunk.columns@;
    if exists|index: int| is_first_with_id(columns, id@, index) {
        let i = choose|index: int| is_first_with_id(columns, id@, index);
        assert(is_first_with_id(columns, id@, i));
        assert(columns[i] == *found->0);
    } else {
        assert forall|i: int| 0 <= i < columns.len() implies (#[trigger] columns[i]).id@ != id@ by {
            lemma_first_bearing(columns, id@, i);
        }
    }
}

/// Where a column bears a name there is a first one that does.
proof fn lemma_first_bearing<S, D>(columns: Seq<ChunkEntry<S, D>>, id: Seq<char>, i: int)
    requires
        0 <= i < columns.len(),
    ensures
        columns[i].id@ == id ==> exists|index: int| is_first_with_id(columns, id, index),
    decreases i,
{
    if columns[i].id@ == id {
        if exists|j: int| 0 <= j < i && (#[trigger] columns[j]).id@ == id {
            let j = choose|j: int| 0 <= j < i && (#[trigger] columns[j]).id@ == id;
            lemma_first_bearing(columns, id, j);
        } else {
            assert(is_first_with_id(columns, id, i));
        }
    }
}

/// Null is told apart from every other value.
pub proof fn law_null_is_told_apart<S>(scalar: Scalar<S>, res: bool)
    requires
        call_ensures(Scalar::<S>::is_null, (&scalar,), res),
    ensures
        res <==> scalar == Scalar::<S>::Null,
{
}

} // verus!
