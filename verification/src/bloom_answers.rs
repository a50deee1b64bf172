//! The answers of the filters as a function of what they are asked and of what they were made over.

use vstd::prelude::*;

use crate::bloom::{
    are_filter_columns, can_rewrite, column_keys, equality, evals_to, false_at, filter_bytes, filter_column_name, filter_says,
    filters_say, filters_say_of, folds_to, found_supported, is_filter_column, readable, readable_for, rewrite_fails,
    rewrites_to, span_of, verdict_on, ChunkFilter, ConstantFolder, ErrorCode, Filter, FilterEvalResult,
};
use crate::bloom_laws::{lemma_evaluated, lemma_made_readable, lemma_readable_for};
use crate::expression::{entry_with_id, is_first_with_id, Chunk, ChunkEntry, DataType, Expr, Scalar, Span};

verus! {

/// What a filter answers depends on its bytes and on the value that it is asked for only, and
/// whether filters are made for a type on the type only.
pub open spec fn answers_fixed<F: Filter<S, D>, S, D>() -> bool {
    &&& support_fixed::<F, S, D>()
    &&& forall|
        bytes: Vec<u8>,
        other_bytes: Vec<u8>,
        target: Scalar<S>,
        other_target: Scalar<S>,
        res: Result<FilterEvalResult, F::Error>,
        other_res: Result<FilterEvalResult, F::Error>,
    |
        {
            &&& bytes@ == other_bytes@
            &&& target@ == other_target@
            &&& #[trigger] filter_says::<F, S, D>(bytes, target, res)
            &&& #[trigger] filter_says::<F, S, D>(other_bytes, other_target, other_res)
        } ==> res == other_res
}

/// Whether filters are made for a type depends on the type only.
pub open spec fn support_fixed<F: Filter<S, D>, S, D>() -> bool {
    forall|ty: DataType<D>, supported: bool, other: bool| #[trigger]
        call_ensures(F::is_supported_type, (&ty,), supported) && #[trigger] call_ensures(
            F::is_supported_type,
            (&ty,),
            other,
        ) ==> supported == other
}

/// Two runs of values are the same.
pub open spec fn same_scalars<S>(scalars: Seq<Scalar<S>>, others: Seq<Scalar<S>>) -> bool {
    &&& scalars.len() == others.len()
    &&& forall|i: int| 0 <= i < scalars.len() ==> (#[trigger] scalars[i])@ == others[i]@
}

/// The bytes of a filter depend on the keys that it was made over only.
pub open spec fn bytes_fixed<F: Filter<S, D>, S, D>() -> bool {
    forall|scalars: Seq<Scalar<S>>, others: Seq<Scalar<S>>, bytes: Vec<u8>, other_bytes: Vec<u8>|
        {
            &&& same_scalars(scalars, others)
            &&& #[trigger] filter_bytes::<F, S, D>(scalars, bytes)
            &&& #[trigger] filter_bytes::<F, S, D>(others, other_bytes)
        } ==> bytes@ == other_bytes@
}

/// Two columns have the same name, type and values.
pub open spec fn same_entry<S, D>(entry: ChunkEntry<S, D>, other: ChunkEntry<S, D>) -> bool {
    &&& entry.id@ == other.id@
    &&& entry.data_type == other.data_type
    &&& (entry.value is Scalar) == (other.value is Scalar)
    &&& same_scalars(entry.value.scalars(), other.value.scalars())
}

/// Two runs of columns hold the same.
pub open spec fn same_columns<S, D>(columns: Seq<ChunkEntry<S, D>>, others: Seq<ChunkEntry<S, D>>) -> bool {
    &&& columns.len() == others.len()
    &&& forall|i: int| 0 <= i < columns.len() ==> same_entry(#[trigger] columns[i], others[i])
}

/// Two runs of columns have the same names and types.
pub open spec fn same_schema<S, D>(columns: Seq<ChunkEntry<S, D>>, others: Seq<ChunkEntry<S, D>>) -> bool {
    &&& columns.len() == others.len()
    &&& forall|i: int|
        0 <= i < columns.len() ==> (#[trigger] columns[i]).id@ == others[i].id@ && columns[i].data_type
            == others[i].data_type
}

proof fn lemma_same_filters<F: Filter<S, D>, S, D>(
    chunks: Seq<&Chunk<S, D>>,
    others: Seq<&Chunk<S, D>>,
    n: int,
    filters: Seq<ChunkEntry<S, D>>,
    other_filters: Seq<ChunkEntry<S, D>>,
)
    requires
        support_fixed::<F, S, D>(),
        bytes_fixed::<F, S, D>(),
        same_schema(chunks[0].columns@, others[0].columns@),
        n <= chunks[0].columns@.len(),
        forall|offset: int|
            0 <= offset < n ==> same_scalars(
                #[trigger] column_keys(chunks, offset),
                column_keys(others, offset),
            ),
        are_filter_columns::<F, S, D>(chunks, n, filters),
        are_filter_columns::<F, S, D>(others, n, other_filters),
    ensures
        same_columns(filters, other_filters),
    decreases n,
{
    if n > 0 {
        let offset = n - 1;
        let column = chunks[0].columns@[offset];
        let other = others[0].columns@[offset];
        assert(column.data_type == other.data_type);
        if found_supported::<F, S, D>(chunks, offset, false) {
            lemma_same_filters::<F, S, D>(chunks, others, offset, filters, other_filters);
        } else {
            let before = filters.drop_last();
            let other_before = other_filters.drop_last();
            lemma_same_filters::<F, S, D>(chunks, others, offset, before, other_before);
            let last = filters.last();
            let other_last = other_filters.last();
            assert(same_scalars(column_keys(chunks, offset), column_keys(others, offset)));
            assert(is_filter_column::<F, S, D>(chunks, offset, last));
            assert(is_filter_column::<F, S, D>(others, offset, other_last));
            assert(same_entry(last, other_last));
            assert forall|i: int| 0 <= i < filters.len() implies same_entry(
                #[trigger] filters[i],
                other_filters[i],
            ) by {
                if i < before.len() {
                    assert(same_entry(before[i], other_before[i]));
                }
            }
        }
    }
}

/// How the rows are cut into chunks does not matter: filters that were made for two runs of chunks
/// with the same columns, and the same values in them one chunk after the other, have the same names
/// and bytes, if the bytes of a filter depend on its keys only.
pub proof fn law_cut_into_chunks<F: Filter<S, D>, S, D>(
    chunks: Seq<&Chunk<S, D>>,
    others: Seq<&Chunk<S, D>>,
    filters: Seq<ChunkEntry<S, D>>,
    other_filters: Seq<ChunkEntry<S, D>>,
)
    requires
        support_fixed::<F, S, D>(),
        bytes_fixed::<F, S, D>(),
        same_schema(chunks[0].columns@, others[0].columns@),
        forall|offset: int|
            0 <= offset < chunks[0].columns@.len() ==> same_scalars(
                #[trigger] column_keys(chunks, offset),
                column_keys(others, offset),
            ),
        are_filter_columns::<F, S, D>(chunks, chunks[0].columns@.len() as int, filters),
        are_filter_columns::<F, S, D>(others, others[0].columns@.len() as int, other_filters),
    ensures
        same_columns(filters, other_filters),
{
    lemma_same_filters::<F, S, D>(chunks, others, chunks[0].columns@.len() as int, filters, other_filters);
}

/// The values of a column in two runs of chunks are those of the first run, then those of the
/// second.
pub proof fn law_keys_of_more_chunks<S, D>(chunks: Seq<&Chunk<S, D>>, more: Seq<&Chunk<S, D>>, offset: int)
    ensures
        column_keys(chunks + more, offset) == column_keys(chunks, offset) + column_keys(more, offset),
    decreases more.len(),
{
    if more.len() == 0 {
        assert(chunks + more =~= chunks);
    } else {
        assert((chunks + more).drop_last() =~= chunks + more.drop_last());
        law_keys_of_more_chunks(chunks, more.drop_last(), offset);
    }
    assert(column_keys(chunks + more, offset) =~= column_keys(chunks, offset) + column_keys(more, offset));
}

/// Two sets of filters never answer the same question differently.
pub open spec fn agree<F: Filter<S, D>, S, D>(
    filters: Seq<ChunkEntry<S, D>>,
    others: Seq<ChunkEntry<S, D>>,
) -> bool {
    forall|
        name: Seq<char>,
        target: Scalar<S>,
        other_target: Scalar<S>,
        ty: DataType<D>,
        res: Result<FilterEvalResult, F::Error>,
        other_res: Result<FilterEvalResult, F::Error>,
    |
        {
            &&& target@ == other_target@
            &&& #[trigger] filters_say::<F, S, D>(filters, name, target, ty, res)
            &&& #[trigger] filters_say::<F, S, D>(others, name, other_target, ty, other_res)
        } ==> res == other_res
}

proof fn lemma_first_with_id<S, D>(columns: Seq<ChunkEntry<S, D>>, others: Seq<ChunkEntry<S, D>>, id: Seq<char>)
    requires
        same_columns(columns, others),
    ensures
        (entry_with_id(columns, id) is Some) == (entry_with_id(others, id) is Some),
        entry_with_id(columns, id) is Some ==> same_entry(
            entry_with_id(columns, id)->0,
            entry_with_id(others, id)->0,
        ),
{
    if exists|index: int| is_first_with_id(columns, id, index) {
        let index = choose|index: int| is_first_with_id(columns, id, index);
        assert(same_entry(columns[index], others[index]));
        assert forall|i: int| 0 <= i < index implies (#[trigger] others[i]).id@ != id by {
            assert(same_entry(columns[i], others[i]));
        }
        assert(is_first_with_id(others, id, index));
        let other = choose|index: int| is_first_with_id(others, id, index);
        assert(other == index);
    } else if exists|index: int| is_first_with_id(others, id, index) {
        let index = choose|index: int| is_first_with_id(others, id, index);
        assert(same_entry(columns[index], others[index]));
        assert forall|i: int| 0 <= i < index implies (#[trigger] columns[i]).id@ != id by {
            assert(same_entry(columns[i], others[i]));
        }
        assert(is_first_with_id(columns, id, index));
    }
}

/// Filters that hold the same answer alike, if what a filter answers depends on its bytes and the
/// question only.
pub proof fn law_same_filters_agree<F: Filter<S, D>, S, D>(
    filters: Seq<ChunkEntry<S, D>>,
    others: Seq<ChunkEntry<S, D>>,
)
    requires
        answers_fixed::<F, S, D>(),
        same_columns(filters, others),
    ensures
        agree::<F, S, D>(filters, others),
{
    assert forall|
        name: Seq<char>,
        target: Scalar<S>,
        other_target: Scalar<S>,
        ty: DataType<D>,
        res: Result<FilterEvalResult, F::Error>,
        other_res: Result<FilterEvalResult, F::Error>,
    |
        {
            &&& target@ == other_target@
            &&& #[trigger] filters_say::<F, S, D>(filters, name, target, ty, res)
            &&& #[trigger] filters_say::<F, S, D>(others, name, other_target, ty, other_res)
        } implies res == other_res by {
        let id = filter_column_name(name);
        lemma_first_with_id(filters, others, id);
        if !(target is Null) && call_ensures(F::is_supported_type, (&ty,), true) {
            if let Some(entry) = entry_with_id(filters, id) {
                let other = entry_with_id(others, id)->0;
                assert(entry.value.scalars()[0]@ == other.value.scalars()[0]@);
            }
        }
    }
}

/// Two expressions are the same.
pub open spec fn same_expr<S, D, G>(expr: Expr<S, D, G>, other: Expr<S, D, G>) -> bool
    decreases expr,
{
    match expr {
        Expr::Constant { span, scalar, data_type } => {
            &&& other is Constant
            &&& other->Constant_span == span
            &&& other->scalar@ == scalar@
            &&& other->Constant_data_type == data_type
        },
        Expr::ColumnRef { span, id, data_type } => {
            &&& other is ColumnRef
            &&& other->ColumnRef_span == span
            &&& other->id@ == id@
            &&& other->ColumnRef_data_type == data_type
        },
        Expr::Cast { span, is_try, expr: inner, dest_type } => {
            &&& other is Cast
            &&& other->Cast_span == span
            &&& other->is_try == is_try
            &&& other->dest_type == dest_type
            &&& same_expr(*inner, *other->expr)
        },
        Expr::FunctionCall { span, function, args, return_type } => {
            &&& other is FunctionCall
            &&& other->FunctionCall_span == span
            &&& other->function.name@ == function.name@
            &&& other->function.function == function.function
            &&& other->return_type == return_type
            &&& other->args@.len() == args@.len()
            &&& forall|i: int| 0 <= i < args@.len() ==> same_expr(#[trigger] args@[i], other->args@[i])
        },
    }
}

pub proof fn lemma_same_expr_reflexive<S, D, G>(expr: Expr<S, D, G>)
    ensures
        same_expr(expr, expr),
    decreases expr,
{
    match expr {
        Expr::Cast { expr: inner, .. } => {
            lemma_same_expr_reflexive(*inner);
        },
        Expr::FunctionCall { args, .. } => {
            assert forall|i: int| 0 <= i < args@.len() implies same_expr(#[trigger] args@[i], args@[i]) by {
                lemma_same_expr_reflexive(args@[i]);
            }
        },
        _ => {},
    }
}

/// Expressions that are the same ask for the same.
proof fn lemma_same_equality<S, D, G>(expr: Expr<S, D, G>, other: Expr<S, D, G>)
    requires
        same_expr(expr, other),
    ensures
        match (equality(expr), equality(other)) {
            (Some((id, scalar, ty)), Some((other_id, other_scalar, other_ty))) => {
                &&& id@ == other_id@
                &&& scalar@ == other_scalar@
                &&& ty == other_ty
            },
            (None, None) => true,
            _ => false,
        },
{
    if let Expr::FunctionCall { args, .. } = expr {
        if args@.len() == 2 {
            assert(same_expr(args@[0], other->args@[0]));
            assert(same_expr(args@[1], other->args@[1]));
        }
    }
}

/// What agreeing filters say of expressions that are the same is the same.
proof fn lemma_say_same<F: Filter<S, D>, S, D, G>(
    filters: Seq<ChunkEntry<S, D>>,
    others: Seq<ChunkEntry<S, D>>,
    expr: Expr<S, D, G>,
    other: Expr<S, D, G>,
    res: Result<FilterEvalResult, F::Error>,
    other_res: Result<FilterEvalResult, F::Error>,
)
    requires
        agree::<F, S, D>(filters, others),
        same_expr(expr, other),
        filters_say_of::<F, S, D, G>(filters, expr, res),
        filters_say_of::<F, S, D, G>(others, other, other_res),
    ensures
        res == other_res,
{
    lemma_same_equality(expr, other);
}

/// Filters that agree rewrite expressions that are the same to expressions that are the same.
pub proof fn law_rewrite_same<F: Filter<S, D>, S, D, G>(
    filters: Seq<ChunkEntry<S, D>>,
    others: Seq<ChunkEntry<S, D>>,
    expr: Expr<S, D, G>,
    other: Expr<S, D, G>,
    result: Expr<S, D, G>,
    other_result: Expr<S, D, G>,
)
    requires
        agree::<F, S, D>(filters, others),
        same_expr(expr, other),
        rewrites_to::<F, S, D, G>(filters, expr, result),
        rewrites_to::<F, S, D, G>(others, other, other_result),
    ensures
        same_expr(result, other_result),
    decreases expr,
{
    let must_false: Result<FilterEvalResult, F::Error> = Ok(FilterEvalResult::MustFalse);
    let uncertain: Result<FilterEvalResult, F::Error> = Ok(FilterEvalResult::Uncertain);
    if filters_say_of::<F, S, D, G>(filters, expr, must_false) {
        if filters_say_of::<F, S, D, G>(others, other, uncertain) {
            lemma_say_same::<F, S, D, G>(filters, others, expr, other, must_false, uncertain);
        }
        if filters_say_of::<F, S, D, G>(filters, expr, uncertain) {
            lemma_say_same::<F, S, D, G>(filters, others, expr, other, uncertain, must_false);
        }
    } else {
        if filters_say_of::<F, S, D, G>(others, other, must_false) {
            lemma_say_same::<F, S, D, G>(filters, others, expr, other, uncertain, must_false);
        }
        match expr {
            Expr::Cast { expr: inner, .. } => {
                law_rewrite_same::<F, S, D, G>(
                    filters,
                    others,
                    *inner,
                    *other->expr,
                    *result->expr,
                    *other_result->expr,
                );
            },
            Expr::FunctionCall { args, .. } => {
                assert forall|i: int| 0 <= i < args@.len() implies same_expr(
                    #[trigger] result->args@[i],
                    other_result->args@[i],
                ) by {
                    let arg = args@[i];
                    let other_arg = other->args@[i];
                    law_rewrite_same::<F, S, D, G>(
                        filters,
                        others,
                        arg,
                        other_arg,
                        result->args@[i],
                        other_result->args@[i],
                    );
                }
            },
            _ => {},
        }
    }
}

/// Of filters that agree, one does not rewrite what the other fails on.
pub proof fn law_rewrite_or_fail<F: Filter<S, D>, S, D, G>(
    filters: Seq<ChunkEntry<S, D>>,
    others: Seq<ChunkEntry<S, D>>,
    expr: Expr<S, D, G>,
    other: Expr<S, D, G>,
    result: Expr<S, D, G>,
    error: F::Error,
    rest: Expr<S, D, G>,
)
    requires
        agree::<F, S, D>(filters, others),
        same_expr(expr, other),
        rewrites_to::<F, S, D, G>(filters, expr, result),
    ensures
        !rewrite_fails::<F, S, D, G>(others, other, error, rest),
    decreases expr,
{
    let must_false: Result<FilterEvalResult, F::Error> = Ok(FilterEvalResult::MustFalse);
    let uncertain: Result<FilterEvalResult, F::Error> = Ok(FilterEvalResult::Uncertain);
    let failure: Result<FilterEvalResult, F::Error> = Err(error);
    if rewrite_fails::<F, S, D, G>(others, other, error, rest) {
        let said = if filters_say_of::<F, S, D, G>(filters, expr, must_false) {
            must_false
        } else {
            uncertain
        };
        if filters_say_of::<F, S, D, G>(others, other, failure) {
            lemma_say_same::<F, S, D, G>(filters, others, expr, other, said, failure);
        } else {
            lemma_say_same::<F, S, D, G>(filters, others, expr, other, said, uncertain);
            match expr {
                Expr::Cast { expr: inner, .. } => {
                    law_rewrite_or_fail::<F, S, D, G>(
                        filters,
                        others,
                        *inner,
                        *other->expr,
                        *result->expr,
                        error,
                        *rest->expr,
                    );
                },
                Expr::FunctionCall { args, .. } => {
                    let k = choose|k: int|
                        {
                            &&& 0 <= k < args@.len()
                            &&& rewrite_fails::<F, S, D, G>(
                                others,
                                #[trigger] other->args@[k],
                                error,
                                rest->args@[k],
                            )
                        };
                    let arg = args@[k];
                    law_rewrite_or_fail::<F, S, D, G>(
                        filters,
                        others,
                        arg,
                        other->args@[k],
                        result->args@[k],
                        error,
                        rest->args@[k],
                    );
                },
                _ => {},
            }
        }
    }
}

/// Filters that agree fail on expressions that are the same with the same error.
pub proof fn law_fail_same<F: Filter<S, D>, S, D, G>(
    filters: Seq<ChunkEntry<S, D>>,
    others: Seq<ChunkEntry<S, D>>,
    expr: Expr<S, D, G>,
    other: Expr<S, D, G>,
    error: F::Error,
    rest: Expr<S, D, G>,
    other_error: F::Error,
    other_rest: Expr<S, D, G>,
)
    requires
        agree::<F, S, D>(filters, others),
        agree::<F, S, D>(others, filters),
        same_expr(expr, other),
        rewrite_fails::<F, S, D, G>(filters, expr, error, rest),
        rewrite_fails::<F, S, D, G>(others, other, other_error, other_rest),
    ensures
        error == other_error,
    decreases expr,
{
    let uncertain: Result<FilterEvalResult, F::Error> = Ok(FilterEvalResult::Uncertain);
    let failure: Result<FilterEvalResult, F::Error> = Err(error);
    let other_failure: Result<FilterEvalResult, F::Error> = Err(other_error);
    let fails = filters_say_of::<F, S, D, G>(filters, expr, failure);
    let other_fails = filters_say_of::<F, S, D, G>(others, other, other_failure);
    lemma_say_same::<F, S, D, G>(
        filters,
        others,
        expr,
        other,
        if fails {
            failure
        } else {
            uncertain
        },
        if other_fails {
            other_failure
        } else {
            uncertain
        },
    );
    if !fails {
        match expr {
            Expr::Cast { expr: inner, .. } => {
                law_fail_same::<F, S, D, G>(
                    filters,
                    others,
                    *inner,
                    *other->expr,
                    error,
                    *rest->expr,
                    other_error,
                    *other_rest->expr,
                );
            },
            Expr::FunctionCall { args, .. } => {
                let k = choose|k: int|
                    {
                        &&& 0 <= k < args@.len()
                        &&& forall|i: int|
                            0 <= i < k ==> rewrites_to::<F, S, D, G>(filters, #[trigger] args@[i], rest->args@[i])
                        &&& rewrite_fails::<F, S, D, G>(filters, #[trigger] args@[k], error, rest->args@[k])
                    };
                let other_args = other->args@;
                let j = choose|j: int|
                    {
                        &&& 0 <= j < other_args.len()
                        &&& forall|i: int|
                            0 <= i < j ==> rewrites_to::<F, S, D, G>(
                                others,
                                #[trigger] other_args[i],
                                other_rest->args@[i],
                            )
                        &&& rewrite_fails::<F, S, D, G>(
                            others,
                            #[trigger] other_args[j],
                            other_error,
                            other_rest->args@[j],
                        )
                    };
                assert(same_expr(args@[k], other_args[k]));
                assert(same_expr(args@[j], other_args[j]));
                if k < j {
                    lemma_same_expr_symmetric(args@[k], other_args[k]);
                    law_rewrite_or_fail::<F, S, D, G>(
                        others,
                        filters,
                        other_args[k],
                        args@[k],
                        other_rest->args@[k],
                        error,
                        rest->args@[k],
                    );
                } else if j < k {
                    law_rewrite_or_fail::<F, S, D, G>(
                        filters,
                        others,
                        args@[j],
                        other_args[j],
                        rest->args@[j],
                        other_error,
                        other_rest->args@[j],
                    );
                } else {
                    law_fail_same::<F, S, D, G>(
                        filters,
                        others,
                        args@[k],
                        other_args[k],
                        error,
                        rest->args@[k],
                        other_error,
                        other_rest->args@[k],
                    );
                }
            },
            _ => {},
        }
    }
}

proof fn lemma_same_expr_symmetric<S, D, G>(expr: Expr<S, D, G>, other: Expr<S, D, G>)
    requires
        same_expr(expr, other),
    ensures
        same_expr(other, expr),
    decreases expr,
{
    match expr {
        Expr::Cast { expr: inner, .. } => {
            lemma_same_expr_symmetric(*inner, *other->expr);
        },
        Expr::FunctionCall { args, .. } => {
            assert forall|i: int| 0 <= i < args@.len() implies same_expr(
                #[trigger] other->args@[i],
                args@[i],
            ) by {
                lemma_same_expr_symmetric(args@[i], other->args@[i]);
            }
        },
        _ => {},
    }
}

/// Every call of `eq` in an expression has only columns and constants as arguments.
pub open spec fn flat_equalities<S, D, G>(expr: Expr<S, D, G>) -> bool
    decreases expr,
{
    match expr {
        Expr::Cast { expr: inner, .. } => flat_equalities(*inner),
        Expr::FunctionCall { function, args, .. } => {
            &&& function.name@ == "eq"@ ==> forall|i: int|
                0 <= i < args@.len() ==> (#[trigger] args@[i]) is ColumnRef || args@[i] is Constant
            &&& forall|i: int| 0 <= i < args@.len() ==> flat_equalities(#[trigger] args@[i])
        },
        _ => true,
    }
}

/// Rewriting leaves a column or a constant as it is.
proof fn lemma_leaf_stays<F: Filter<S, D>, S, D, G>(
    filters: Seq<ChunkEntry<S, D>>,
    leaf: Expr<S, D, G>,
    result: Expr<S, D, G>,
)
    requires
        leaf is ColumnRef || leaf is Constant,
        rewrites_to::<F, S, D, G>(filters, leaf, result),
    ensures
        result == leaf,
{
}

/// What is left where the filters are uncertain asks for what was asked for before.
proof fn lemma_equality_left<F: Filter<S, D>, S, D, G>(
    filters: Seq<ChunkEntry<S, D>>,
    expr: Expr<S, D, G>,
    once: Expr<S, D, G>,
)
    requires
        flat_equalities(expr),
        rewrites_to::<F, S, D, G>(filters, expr, once),
    ensures
        equality(once) == equality(expr) || equality(once) is None,
        !(once is Constant) ==> equality(once) == equality(expr),
{
    if let Expr::FunctionCall { function, args, .. } = expr {
        if once is FunctionCall && function.name@ == "eq"@ && args@.len() == 2 {
            assert(args@[0] is ColumnRef || args@[0] is Constant);
            assert(args@[1] is ColumnRef || args@[1] is Constant);
            lemma_leaf_stays::<F, S, D, G>(filters, args@[0], once->args@[0]);
            lemma_leaf_stays::<F, S, D, G>(filters, args@[1], once->args@[1]);
        }
    }
}

/// What an expression was rewritten to can be rewritten to itself.
proof fn lemma_rewrites_to_itself<F: Filter<S, D>, S, D, G>(
    filters: Seq<ChunkEntry<S, D>>,
    expr: Expr<S, D, G>,
    once: Expr<S, D, G>,
)
    requires
        flat_equalities(expr),
        rewrites_to::<F, S, D, G>(filters, expr, once),
    ensures
        rewrites_to::<F, S, D, G>(filters, once, once),
    decreases expr,
{
    lemma_equality_left::<F, S, D, G>(filters, expr, once);
    match once {
        Expr::Cast { expr: inner, .. } => {
            lemma_rewrites_to_itself::<F, S, D, G>(filters, *expr->expr, *inner);
        },
        Expr::FunctionCall { args, .. } => {
            assert forall|i: int| 0 <= i < args@.len() implies rewrites_to::<F, S, D, G>(
                filters,
                #[trigger] args@[i],
                args@[i],
            ) by {
                let arg = expr->args@[i];
                lemma_rewrites_to_itself::<F, S, D, G>(filters, arg, args@[i]);
            }
        },
        _ => {},
    }
}

/// What an expression was rewritten to asks for no filter that it did not ask for itself.
proof fn lemma_still_readable<F: Filter<S, D>, S, D, G>(
    filters: Seq<ChunkEntry<S, D>>,
    expr: Expr<S, D, G>,
    once: Expr<S, D, G>,
    copy: Expr<S, D, G>,
)
    requires
        flat_equalities(expr),
        readable_for::<F, S, D, G>(filters, expr),
        rewrites_to::<F, S, D, G>(filters, expr, once),
        same_expr(once, copy),
    ensures
        readable_for::<F, S, D, G>(filters, copy),
    decreases expr,
{
    lemma_equality_left::<F, S, D, G>(filters, expr, once);
    lemma_same_equality(once, copy);
    match once {
        Expr::Cast { expr: inner, .. } => {
            lemma_still_readable::<F, S, D, G>(filters, *expr->expr, *inner, *copy->expr);
        },
        Expr::FunctionCall { args, .. } => {
            let before = expr->args@;
            assert forall|i: int| 0 <= i < args@.len() implies readable_for::<F, S, D, G>(
                filters,
                #[trigger] copy->args@[i],
            ) by {
                assert forall|j: int| 0 <= j < i implies can_rewrite::<F, S, D, G>(
                    filters,
                    #[trigger] before[j],
                ) by {
                    assert(rewrites_to::<F, S, D, G>(filters, before[j], args@[j]));
                }
                assert(readable_for::<F, S, D, G>(filters, before[i]));
                assert(same_expr(args@[i], copy->args@[i]));
                lemma_still_readable::<F, S, D, G>(filters, before[i], args@[i], copy->args@[i]);
            }
        },
        _ => {},
    }
}

/// Rewriting twice is rewriting once: what an expression was rewritten to can be rewritten again,
/// without an error, and does not change by it. This holds if every call of `eq` in the expression
/// has only columns and constants as arguments, and the filters do not answer a question now so and
/// now otherwise.
pub proof fn law_rewrite_twice<F: Filter<S, D>, S, D, G>(
    filters: Seq<ChunkEntry<S, D>>,
    expr: Expr<S, D, G>,
    once: Expr<S, D, G>,
    copy: Expr<S, D, G>,
)
    requires
        agree::<F, S, D>(filters, filters),
        flat_equalities(expr),
        readable_for::<F, S, D, G>(filters, expr),
        rewrites_to::<F, S, D, G>(filters, expr, once),
        same_expr(once, copy),
    ensures
        readable_for::<F, S, D, G>(filters, copy),
        forall|twice: Expr<S, D, G>| #[trigger]
            rewrites_to::<F, S, D, G>(filters, copy, twice) ==> same_expr(once, twice),
        forall|error: F::Error, rest: Expr<S, D, G>|
            !#[trigger] rewrite_fails::<F, S, D, G>(filters, copy, error, rest),
{
    lemma_still_readable::<F, S, D, G>(filters, expr, once, copy);
    lemma_rewrites_to_itself::<F, S, D, G>(filters, expr, once);
    assert forall|twice: Expr<S, D, G>| #[trigger]
        rewrites_to::<F, S, D, G>(filters, copy, twice) implies same_expr(once, twice) by {
        law_rewrite_same::<F, S, D, G>(filters, filters, once, copy, once, twice);
    }
    assert forall|error: F::Error, rest: Expr<S, D, G>|
        !#[trigger] rewrite_fails::<F, S, D, G>(filters, copy, error, rest) by {
        law_rewrite_or_fail::<F, S, D, G>(filters, filters, once, copy, once, error, rest);
    }
}

/// What a folded expression tells depends on the expression only.
pub open spec fn folding_fixed<K: ConstantFolder<S, D, G, C>, S, D, G, C>(fn_ctx: C) -> bool {
    forall|expr: Expr<S, D, G>, other: Expr<S, D, G>, folded: Expr<S, D, G>, other_folded: Expr<S, D, G>|
        {
            &&& same_expr(expr, other)
            &&& #[trigger] folds_to::<K, S, D, G, C>(expr, fn_ctx, folded)
            &&& #[trigger] folds_to::<K, S, D, G, C>(other, fn_ctx, other_folded)
        } ==> verdict_on(folded) == verdict_on(other_folded)
}

/// Filters that agree bring predicates that are the same to the same.
pub proof fn law_eval_same<F: Filter<S, D>, K: ConstantFolder<S, D, G, C>, S, D, G, C>(
    filters: Seq<ChunkEntry<S, D>>,
    others: Seq<ChunkEntry<S, D>>,
    fn_ctx: C,
    expr: Expr<S, D, G>,
    other: Expr<S, D, G>,
    res: Result<FilterEvalResult, F::Error>,
    other_res: Result<FilterEvalResult, F::Error>,
)
    requires
        agree::<F, S, D>(filters, others),
        agree::<F, S, D>(others, filters),
        folding_fixed::<K, S, D, G, C>(fn_ctx),
        same_expr(expr, other),
        evals_to::<F, K, S, D, G, C>(filters, fn_ctx, expr, res),
        evals_to::<F, K, S, D, G, C>(others, fn_ctx, other, other_res),
    ensures
        res == other_res,
{
    lemma_same_expr_symmetric(expr, other);
    match (res, other_res) {
        (Ok(_), Ok(_)) => {
            let (rewritten, folded) = lemma_evaluated::<F, K, S, D, G, C>(filters, fn_ctx, expr, res);
            let (other_rewritten, other_folded) = lemma_evaluated::<F, K, S, D, G, C>(
                others,
                fn_ctx,
                other,
                other_res,
            );
            law_rewrite_same::<F, S, D, G>(filters, others, expr, other, rewritten, other_rewritten);
        },
        (Ok(_), Err(error)) => {
            let (rewritten, folded) = lemma_evaluated::<F, K, S, D, G, C>(filters, fn_ctx, expr, res);
            let rest = lemma_failed::<F, K, S, D, G, C>(others, fn_ctx, other, error);
            law_rewrite_or_fail::<F, S, D, G>(filters, others, expr, other, rewritten, error, rest);
        },
        (Err(error), Ok(_)) => {
            let (rewritten, folded) = lemma_evaluated::<F, K, S, D, G, C>(others, fn_ctx, other, other_res);
            let rest = lemma_failed::<F, K, S, D, G, C>(filters, fn_ctx, expr, error);
            law_rewrite_or_fail::<F, S, D, G>(others, filters, other, expr, rewritten, error, rest);
        },
        (Err(error), Err(other_error)) => {
            let rest = lemma_failed::<F, K, S, D, G, C>(filters, fn_ctx, expr, error);
            let other_rest = lemma_failed::<F, K, S, D, G, C>(others, fn_ctx, other, other_error);
            law_fail_same::<F, S, D, G>(filters, others, expr, other, error, rest, other_error, other_rest);
        },
    }
}

/// What a predicate was left as where rewriting it failed.
proof fn lemma_failed<F: Filter<S, D>, K: ConstantFolder<S, D, G, C>, S, D, G, C>(
    filters: Seq<ChunkEntry<S, D>>,
    fn_ctx: C,
    expr: Expr<S, D, G>,
    error: F::Error,
) -> (rest: Expr<S, D, G>)
    requires
        evals_to::<F, K, S, D, G, C>(filters, fn_ctx, expr, Err(error)),
    ensures
        rewrite_fails::<F, S, D, G>(filters, expr, error, rest),
{
    choose|rest: Expr<S, D, G>| rewrite_fails::<F, S, D, G>(filters, expr, error, rest)
}

/// The constant `false` is a constant `false`, folded.
pub open spec fn false_folds_to_false<K: ConstantFolder<S, D, G, C>, S, D, G, C>(fn_ctx: C) -> bool {
    forall|span: Option<Span>, folded: Expr<S, D, G>| #[trigger]
        folds_to::<K, S, D, G, C>(false_at(span), fn_ctx, folded) ==> (folded matches Expr::Constant {
            scalar: Scalar::Boolean(false),
            ..
        })
}

/// An equality that the filters refute must be false: if all that the filters can say of an equality
/// of a column and a constant is that it must be false, the equality comes to that.
pub proof fn law_refuted_must_be_false<F: Filter<S, D>, K: ConstantFolder<S, D, G, C>, S, D, G, C>(
    filters: Seq<ChunkEntry<S, D>>,
    fn_ctx: C,
    expr: Expr<S, D, G>,
    res: Result<FilterEvalResult, F::Error>,
)
    requires
        equality(expr) is Some,
        forall|said: Result<FilterEvalResult, F::Error>| #[trigger]
            filters_say_of::<F, S, D, G>(filters, expr, said) ==> said == Ok::<FilterEvalResult, F::Error>(
                FilterEvalResult::MustFalse,
            ),
        forall|folded: Expr<S, D, G>| #[trigger]
            folds_to::<K, S, D, G, C>(false_at(span_of(expr)), fn_ctx, folded) ==> (folded
                matches Expr::Constant { scalar: Scalar::Boolean(false), .. }),
        evals_to::<F, K, S, D, G, C>(filters, fn_ctx, expr, res),
    ensures
        res == Ok::<FilterEvalResult, F::Error>(FilterEvalResult::MustFalse),
{
    let uncertain: Result<FilterEvalResult, F::Error> = Ok(FilterEvalResult::Uncertain);
    assert(!filters_say_of::<F, S, D, G>(filters, expr, uncertain));
    match res {
        Ok(_) => {
            let (rewritten, folded) = lemma_evaluated::<F, K, S, D, G, C>(filters, fn_ctx, expr, res);
            assert(rewritten == false_at::<S, D, G>(span_of(expr)));
        },
        Err(error) => {
            let rest = lemma_failed::<F, K, S, D, G, C>(filters, fn_ctx, expr, error);
            let failure: Result<FilterEvalResult, F::Error> = Err(error);
            assert(!filters_say_of::<F, S, D, G>(filters, expr, failure));
        },
    }
}

/// What is found not to occur in a column must be false: where the filters say so of a value in a
/// column, an equality of the column and the value comes to that, whichever stands first. This holds
/// if the filters do not answer a question now so and now otherwise.
pub proof fn law_not_found_must_be_false<F: Filter<S, D>, K: ConstantFolder<S, D, G, C>, S, D, G, C>(
    filters: Seq<ChunkEntry<S, D>>,
    fn_ctx: C,
    column_name: Seq<char>,
    target: Scalar<S>,
    ty: DataType<D>,
    expr: Expr<S, D, G>,
    res: Result<FilterEvalResult, F::Error>,
)
    requires
        agree::<F, S, D>(filters, filters),
        false_folds_to_false::<K, S, D, G, C>(fn_ctx),
        filters_say::<F, S, D>(filters, column_name, target, ty, Ok(FilterEvalResult::MustFalse)),
        equality(expr) matches Some((id, scalar, column_ty)) && id@ == column_name && scalar@ == target@
            && column_ty == ty,
        evals_to::<F, K, S, D, G, C>(filters, fn_ctx, expr, res),
    ensures
        res == Ok::<FilterEvalResult, F::Error>(FilterEvalResult::MustFalse),
{
    let must_false: Result<FilterEvalResult, F::Error> = Ok(FilterEvalResult::MustFalse);
    assert(filters_say::<F, S, D>(filters, column_name, target, ty, must_false));
    law_refuted_must_be_false::<F, K, S, D, G, C>(filters, fn_ctx, expr, res);
}

proof fn lemma_same_columns_symmetric<S, D>(columns: Seq<ChunkEntry<S, D>>, others: Seq<ChunkEntry<S, D>>)
    requires
        same_columns(columns, others),
    ensures
        same_columns(others, columns),
{
    assert forall|i: int| 0 <= i < others.len() implies same_entry(#[trigger] others[i], columns[i]) by {
        assert(same_entry(columns[i], others[i]));
    }
}

/// Filters that are loaded from a stored chunk answer as the ones that it was stored from did: a
/// predicate comes to the same with both. What is loaded may be a copy of what was stored, and so
/// may the predicate.
pub proof fn law_loaded_answers_as_stored<F: Filter<S, D>, K: ConstantFolder<S, D, G, C>, S, D, G, C, E>(
    stored: ChunkFilter<S, D, C>,
    filter_chunk: Chunk<S, D>,
    loaded: Result<ChunkFilter<S, D, C>, ErrorCode<E>>,
    expr: Expr<S, D, G>,
    copy: Expr<S, D, G>,
    res: Result<FilterEvalResult, F::Error>,
    loaded_res: Result<FilterEvalResult, F::Error>,
)
    requires
        answers_fixed::<F, S, D>(),
        folding_fixed::<K, S, D, G, C>(stored.fn_ctx),
        same_columns(stored.filter_chunk.columns@, filter_chunk.columns@),
        call_ensures(ChunkFilter::<S, D, C>::from_filter_chunk::<E>, (stored.fn_ctx, filter_chunk), loaded),
        same_expr(expr, copy),
        evals_to::<F, K, S, D, G, C>(stored.filter_chunk.columns@, stored.fn_ctx, expr, res),
        loaded matches Ok(filter) ==> evals_to::<F, K, S, D, G, C>(
            filter.filter_chunk.columns@,
            filter.fn_ctx,
            copy,
            loaded_res,
        ),
    ensures
        loaded is Ok,
        loaded_res == res,
{
    let filters = stored.filter_chunk.columns@;
    let others = filter_chunk.columns@;
    lemma_same_columns_symmetric(filters, others);
    law_same_filters_agree::<F, S, D>(filters, others);
    law_same_filters_agree::<F, S, D>(others, filters);
    law_eval_same::<F, K, S, D, G, C>(filters, others, stored.fn_ctx, expr, copy, res, loaded_res);
}

/// Filters that are loaded from what was stored of filters that were made for some data can be asked
/// for any expression.
pub proof fn law_loaded_filters_readable<F: Filter<S, D>, S, D, G>(
    chunks: Seq<&Chunk<S, D>>,
    stored: Seq<ChunkEntry<S, D>>,
    loaded: Seq<ChunkEntry<S, D>>,
    expr: Expr<S, D, G>,
)
    requires
        are_filter_columns::<F, S, D>(chunks, chunks[0].columns@.len() as int, stored),
        same_columns(stored, loaded),
    ensures
        readable_for::<F, S, D, G>(loaded, expr),
{
    assert forall|name: Seq<char>| #[trigger] readable(loaded, name) by {
        lemma_made_readable::<F, S, D>(chunks, stored, name);
        lemma_first_with_id(stored, loaded, filter_column_name(name));
        if let Some(entry) = entry_with_id(stored, filter_column_name(name)) {
            let other = entry_with_id(loaded, filter_column_name(name))->0;
            assert(entry.value.scalars()[0]@ == other.value.scalars()[0]@);
        }
    }
    lemma_readable_for::<F, S, D, G>(loaded, expr);
}

/// Loading the very chunk that was stored changes nothing, whatever the filters are like: what a
/// predicate can come to is the same before and after.
pub proof fn law_load_changes_nothing<F: Filter<S, D>, K: ConstantFolder<S, D, G, C>, S, D, G, C, E>(
    stored: ChunkFilter<S, D, C>,
    loaded: Result<ChunkFilter<S, D, C>, ErrorCode<E>>,
    expr: Expr<S, D, G>,
    res: Result<FilterEvalResult, F::Error>,
)
    requires
        call_ensures(
            ChunkFilter::<S, D, C>::from_filter_chunk::<E>,
            (stored.fn_ctx, stored.filter_chunk),
            loaded,
        ),
    ensures
        loaded matches Ok(filter) && {
            &&& readable_for::<F, S, D, G>(filter.filter_chunk.columns@, expr) == readable_for::<F, S, D, G>(
                stored.filter_chunk.columns@,
                expr,
            )
            &&& evals_to::<F, K, S, D, G, C>(filter.filter_chunk.columns@, filter.fn_ctx, expr, res)
                == evals_to::<F, K, S, D, G, C>(stored.filter_chunk.columns@, stored.fn_ctx, expr, res)
        },
{
}

} // verus!
