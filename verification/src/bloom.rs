//! Pruning by filters: a filter per column tells that a value does not occur there, and an
//! expression that asks for the value is then false without looking at the data.

use vstd::prelude::*;

use crate::expression::{
    column_refs, entry_with_id, refs_view, Chunk, ChunkEntry, DataType, Expr, Scalar, Span, Value,
};

verus! {

/// A filter over the values of a column: a bloom filter, an xor filter or the like. It may take a
/// value for one of the column that is not. Nothing is promised of what the functions return; the
/// contracts below are stated in terms of it.
pub trait Filter<S, D>: Sized {
    type Error;

    /// Whether filters are made for columns of this type.
    fn is_supported_type(data_type: &DataType<D>) -> bool;

    /// A filter over the given keys.
    fn build(keys: &Vec<&Scalar<S>>) -> Result<Self, Self::Error>;

    fn to_bytes(&self) -> Result<Vec<u8>, Self::Error>;

    /// The filter that the bytes begin with, and how many bytes it takes.
    fn from_bytes(bytes: &Vec<u8>) -> Result<(Self, usize), Self::Error>;

    /// Whether the filter takes the value for one of its keys.
    fn contains(&self, key: &Scalar<S>) -> bool;
}

/// Folding of the constant parts of an expression.
pub trait ConstantFolder<S, D, G, C> {
    /// The expression, folded as far as is possible when nothing is known of the columns in it
    /// but their types.
    fn fold(expr: &Expr<S, D, G>, columns: &Vec<(&String, &DataType<D>)>, fn_ctx: &C) -> Expr<S, D, G>;
}

/// Why no filters could be made.
#[derive(Debug, PartialEq, Eq)]
pub enum ErrorCode<E> {
    BadArguments(String),
    Filter(E),
}

/// What a filter can say of an expression.
///
/// 'age = 12' must be false if the filter is sure that 12 does not occur in the column 'age'.
/// Otherwise, and where the column is of a type that filters are not made for, it is uncertain.
#[derive(Debug, Clone, Copy, PartialEq, Eq, Structural)]
pub enum FilterEvalResult {
    MustFalse,
    Uncertain,
}

/// The filters for the columns of a chunk, as a chunk of their own with a single row.
///
/// There is a filter for each column of a type that filters are made for, so there may be none.
/// `C` is the context that functions are evaluated in.
///
/// ```text
///         +---name--+--age--+          +---Bloom(name)--+--Bloom(age)--+
///         | "Alice" |  20   |    ->    |  123456789abcd |  ac2345bcd   |
///         | "Bob"   |  30   |          +----------------+--------------+
///         +---------+-------+
/// ```
pub struct ChunkFilter<S, D, C> {
    pub filter_chunk: Chunk<S, D>,
    pub fn_ctx: C,
}

/// The name of the column that holds the filter for a column of this name.
pub open spec fn filter_column_name(column_name: Seq<char>) -> Seq<char> {
    "Bloom("@ + column_name + ")"@
}

/// The values of the column at `offset` in all chunks, one chunk after the other.
pub open spec fn column_keys<S, D>(chunks: Seq<&Chunk<S, D>>, offset: int) -> Seq<Scalar<S>>
    decreases chunks.len(),
{
    if chunks.len() == 0 {
        Seq::empty()
    } else {
        column_keys(chunks.drop_last(), offset) + chunks.last().columns@[offset].value.scalars()
    }
}

/// The keys as they are handed to a filter.
pub open spec fn is_keys<S>(keys: &Vec<&Scalar<S>>, scalars: Seq<Scalar<S>>) -> bool {
    &&& keys@.len() == scalars.len()
    &&& forall|i: int| 0 <= i < scalars.len() ==> *(#[trigger] keys@[i]) == scalars[i]
}

/// Whether a filter over the keys can be made, and be these bytes.
pub open spec fn filter_bytes<F: Filter<S, D>, S, D>(scalars: Seq<Scalar<S>>, bytes: Vec<u8>) -> bool {
    exists|keys: &Vec<&Scalar<S>>, filter: F|
        {
            &&& is_keys(keys, scalars)
            &&& #[trigger] call_ensures(F::build, (keys,), Ok(filter))
            &&& call_ensures(F::to_bytes, (&filter,), Ok(bytes))
        }
}

/// Whether making a filter over the keys can give this error.
pub open spec fn filter_error<F: Filter<S, D>, S, D>(scalars: Seq<Scalar<S>>, error: F::Error) -> bool {
    exists|keys: &Vec<&Scalar<S>>|
        {
            &&& #[trigger] is_keys(keys, scalars)
            &&& {
                ||| call_ensures(F::build, (keys,), Err(error))
                ||| exists|filter: F|
                    {
                        &&& #[trigger] call_ensures(F::build, (keys,), Ok(filter))
                        &&& call_ensures(F::to_bytes, (&filter,), Err(error))
                    }
            }
        }
}

/// Whether the entry holds the filter for the column at `offset`.
pub open spec fn is_filter_column<F: Filter<S, D>, S, D>(
    chunks: Seq<&Chunk<S, D>>,
    offset: int,
    entry: ChunkEntry<S, D>,
) -> bool {
    &&& entry.id@ == filter_column_name(chunks[0].columns@[offset].id@)
    &&& entry.data_type == DataType::<D>::String
    &&& entry.value matches Value::Scalar(Scalar::String(bytes)) && filter_bytes::<F, S, D>(
        column_keys(chunks, offset),
        bytes,
    )
}

/// Whether the type of the column at `offset` can be found to be one that filters are made for,
/// or not to be.
pub open spec fn found_supported<F: Filter<S, D>, S, D>(
    chunks: Seq<&Chunk<S, D>>,
    offset: int,
    supported: bool,
) -> bool {
    call_ensures(F::is_supported_type, (&chunks[0].columns@[offset].data_type,), supported)
}

/// Whether these can be the filters for the first `n` columns: one for each column of a type that
/// filters are made for, in the order of the columns.
pub open spec fn are_filter_columns<F: Filter<S, D>, S, D>(
    chunks: Seq<&Chunk<S, D>>,
    n: int,
    entries: Seq<ChunkEntry<S, D>>,
) -> bool
    decreases n,
{
    if n <= 0 {
        entries.len() == 0
    } else {
        ||| found_supported::<F, S, D>(chunks, n - 1, false) && are_filter_columns::<F, S, D>(
            chunks,
            n - 1,
            entries,
        )
        ||| {
            &&& found_supported::<F, S, D>(chunks, n - 1, true)
            &&& entries.len() > 0
            &&& is_filter_column::<F, S, D>(chunks, n - 1, entries.last())
            &&& are_filter_columns::<F, S, D>(chunks, n - 1, entries.drop_last())
        }
    }
}

/// Every chunk has the columns of the first one that filters are made for, as far as the making
/// comes: a column counts only if filters for those before it can be made.
pub open spec fn columns_present<F: Filter<S, D>, S, D>(chunks: Seq<&Chunk<S, D>>) -> bool {
    forall|offset: int, entries: Seq<ChunkEntry<S, D>>, i: int|
        #![trigger are_filter_columns::<F, S, D>(chunks, offset, entries), chunks[i]]
        {
            &&& 0 <= offset < chunks[0].columns@.len()
            &&& are_filter_columns::<F, S, D>(chunks, offset, entries)
            &&& found_supported::<F, S, D>(chunks, offset, true)
            &&& 0 <= i < chunks.len()
        } ==> offset < chunks[i].columns@.len()
}

/// What a filter, given as bytes, can say of a value.
pub open spec fn filter_says<F: Filter<S, D>, S, D>(
    bytes: Vec<u8>,
    target: Scalar<S>,
    res: Result<FilterEvalResult, F::Error>,
) -> bool {
    match res {
        Err(error) => call_ensures(F::from_bytes, (&bytes,), Err(error)),
        Ok(verdict) => exists|filter: F, size: usize|
            {
                &&& #[trigger] call_ensures(F::from_bytes, (&bytes,), Ok((filter, size)))
                &&& call_ensures(F::contains, (&filter, &target), verdict is Uncertain)
            },
    }
}

/// What the filters in a chunk can say of a value in a column of this name and type. They are
/// asked only for types that filters are made for, and never for null.
pub open spec fn filters_say<F: Filter<S, D>, S, D>(
    filters: Seq<ChunkEntry<S, D>>,
    column_name: Seq<char>,
    target: Scalar<S>,
    ty: DataType<D>,
    res: Result<FilterEvalResult, F::Error>,
) -> bool {
    ||| res == Ok::<FilterEvalResult, F::Error>(FilterEvalResult::Uncertain) && {
        ||| target is Null
        ||| call_ensures(F::is_supported_type, (&ty,), false)
    }
    ||| {
        &&& !(target is Null)
        &&& call_ensures(F::is_supported_type, (&ty,), true)
        &&& match entry_with_id(filters, filter_column_name(column_name)) {
            None => res == Ok::<FilterEvalResult, F::Error>(FilterEvalResult::Uncertain),
            Some(entry) => entry.value matches Value::Scalar(Scalar::String(bytes)) && filter_says::<F, S, D>(
                bytes,
                target,
                res,
            ),
        }
    }
}

/// Whether the entry that holds the filter for the column, if there is one, holds a byte string.
pub open spec fn readable<S, D>(filters: Seq<ChunkEntry<S, D>>, column_name: Seq<char>) -> bool {
    entry_with_id(filters, filter_column_name(column_name)) matches Some(entry) ==> (entry.value matches Value::Scalar(
        Scalar::String(_),
    ))
}

/// What an expression asks for, if it is `column = constant` or `constant = column`: the name of
/// the column, the constant, and the type of the column.
pub open spec fn equality<S, D, G>(expr: Expr<S, D, G>) -> Option<(String, Scalar<S>, DataType<D>)> {
    match expr {
        Expr::FunctionCall { function, args, .. } => if function.name@ == "eq"@ && args@.len() == 2 {
            match (args@[0], args@[1]) {
                (Expr::ColumnRef { id, data_type, .. }, Expr::Constant { scalar, .. }) => Some((id, scalar, data_type)),
                (Expr::Constant { scalar, .. }, Expr::ColumnRef { id, data_type, .. }) => Some((id, scalar, data_type)),
                _ => None,
            }
        } else {
            None
        },
        _ => None,
    }
}

/// What the filters can say of an expression, taken by itself: only an equality of a column and a
/// constant is looked up.
pub open spec fn filters_say_of<F: Filter<S, D>, S, D, G>(
    filters: Seq<ChunkEntry<S, D>>,
    expr: Expr<S, D, G>,
    res: Result<FilterEvalResult, F::Error>,
) -> bool {
    match equality(expr) {
        Some((id, scalar, ty)) => filters_say::<F, S, D>(filters, id@, scalar, ty, res),
        None => res == Ok::<FilterEvalResult, F::Error>(FilterEvalResult::Uncertain),
    }
}

/// The constant that stands for an expression that must be false.
pub open spec fn false_at<S, D, G>(span: Option<Span>) -> Expr<S, D, G> {
    Expr::Constant { span, scalar: Scalar::Boolean(false), data_type: DataType::Boolean }
}

/// Whether two expressions are the same but for their arguments, which are as many.
pub open spec fn same_head<S, D, G>(expr: Expr<S, D, G>, other: Expr<S, D, G>) -> bool {
    match expr {
        Expr::Cast { span, is_try, dest_type, .. } => {
            &&& other is Cast
            &&& other->Cast_span == span
            &&& other->is_try == is_try
            &&& other->dest_type == dest_type
        },
        Expr::FunctionCall { span, function, args, return_type } => {
            &&& other is FunctionCall
            &&& other->FunctionCall_span == span
            &&& other->function == function
            &&& other->return_type == return_type
            &&& other->args@.len() == args@.len()
        },
        _ => other == expr,
    }
}

pub open spec fn span_of<S, D, G>(expr: Expr<S, D, G>) -> Option<Span> {
    match expr {
        Expr::Constant { span, .. } => span,
        Expr::ColumnRef { span, .. } => span,
        Expr::Cast { span, .. } => span,
        Expr::FunctionCall { span, .. } => span,
    }
}

/// Whether an expression can be rewritten to another by the filters: the constant `false` stands
/// for each equality that they say must be false, and nothing else changes.
pub open spec fn rewrites_to<F: Filter<S, D>, S, D, G>(
    filters: Seq<ChunkEntry<S, D>>,
    expr: Expr<S, D, G>,
    result: Expr<S, D, G>,
) -> bool
    decreases expr,
{
    ||| {
        &&& filters_say_of::<F, S, D, G>(filters, expr, Ok(FilterEvalResult::MustFalse))
        &&& result == false_at::<S, D, G>(span_of(expr))
    }
    ||| {
        &&& filters_say_of::<F, S, D, G>(filters, expr, Ok(FilterEvalResult::Uncertain))
        &&& same_head(expr, result)
        &&& match expr {
            Expr::Cast { expr: inner, .. } => rewrites_to::<F, S, D, G>(filters, *inner, *result->expr),
            Expr::FunctionCall { args, .. } => forall|i: int|
                0 <= i < args@.len() ==> rewrites_to::<F, S, D, G>(filters, #[trigger] args@[i], result->args@[i]),
            _ => true,
        }
    }
}

/// Whether an expression can be rewritten without an error.
pub open spec fn can_rewrite<F: Filter<S, D>, S, D, G>(filters: Seq<ChunkEntry<S, D>>, expr: Expr<S, D, G>) -> bool {
    exists|result: Expr<S, D, G>| rewrites_to::<F, S, D, G>(filters, expr, result)
}

/// The filters that an expression asks for hold byte strings, as far as the rewriting comes: an
/// argument counts only if those to its left can be rewritten without an error.
pub open spec fn readable_for<F: Filter<S, D>, S, D, G>(filters: Seq<ChunkEntry<S, D>>, expr: Expr<S, D, G>) -> bool
    decreases expr,
{
    &&& equality(expr) matches Some((id, scalar, ty)) ==> !(scalar is Null) && call_ensures(
        F::is_supported_type,
        (&ty,),
        true,
    ) ==> readable(filters, id@)
    &&& match expr {
        Expr::Cast { expr: inner, .. } => readable_for::<F, S, D, G>(filters, *inner),
        Expr::FunctionCall { args, .. } => forall|i: int|
            0 <= i < args@.len() && (forall|j: int|
                0 <= j < i ==> can_rewrite::<F, S, D, G>(filters, #[trigger] args@[j]))
                ==> readable_for::<F, S, D, G>(filters, #[trigger] args@[i]),
        _ => true,
    }
}

/// Whether rewriting an expression can end in this error, and leave this expression behind: what
/// stands to the left of where it ended is rewritten, and what stands to the right is not.
pub open spec fn rewrite_fails<F: Filter<S, D>, S, D, G>(
    filters: Seq<ChunkEntry<S, D>>,
    expr: Expr<S, D, G>,
    error: F::Error,
    result: Expr<S, D, G>,
) -> bool
    decreases expr,
{
    ||| {
        &&& filters_say_of::<F, S, D, G>(filters, expr, Err(error))
        &&& result == expr
    }
    ||| {
        &&& filters_say_of::<F, S, D, G>(filters, expr, Ok(FilterEvalResult::Uncertain))
        &&& same_head(expr, result)
        &&& match expr {
            Expr::Cast { expr: inner, .. } => rewrite_fails::<F, S, D, G>(filters, *inner, error, *result->expr),
            Expr::FunctionCall { args, .. } => exists|k: int|
                {
                    &&& 0 <= k < args@.len()
                    &&& forall|i: int|
                        0 <= i < k ==> rewrites_to::<F, S, D, G>(
                            filters,
                            #[trigger] args@[i],
                            result->args@[i],
                        )
                    &&& rewrite_fails::<F, S, D, G>(filters, #[trigger] args@[k], error, result->args@[k])
                    &&& forall|i: int| k < i < args@.len() ==> #[trigger] args@[i] == result->args@[i]
                },
            _ => false,
        }
    }
}

/// What a folded expression tells: it must be false if it is the constant `false`.
pub open spec fn verdict_on<S, D, G>(folded: Expr<S, D, G>) -> FilterEvalResult {
    match folded {
        Expr::Constant { scalar: Scalar::Boolean(b), .. } => if b {
            FilterEvalResult::Uncertain
        } else {
            FilterEvalResult::MustFalse
        },
        _ => FilterEvalResult::Uncertain,
    }
}

/// Whether folding can make this of an expression, given the columns that it refers to.
pub open spec fn folds_to<K: ConstantFolder<S, D, G, C>, S, D, G, C>(
    expr: Expr<S, D, G>,
    fn_ctx: C,
    folded: Expr<S, D, G>,
) -> bool {
    exists|columns: &Vec<(&String, &DataType<D>)>|
        {
            &&& refs_view(columns@) == column_refs(expr)
            &&& #[trigger] call_ensures(K::fold, (&expr, columns, &fn_ctx), folded)
        }
}

/// What a predicate can come to: it is rewritten by the filters and folded, and the outcome tells,
/// or rewriting it ends in an error.
pub open spec fn evals_to<F: Filter<S, D>, K: ConstantFolder<S, D, G, C>, S, D, G, C>(
    filters: Seq<ChunkEntry<S, D>>,
    fn_ctx: C,
    expr: Expr<S, D, G>,
    res: Result<FilterEvalResult, F::Error>,
) -> bool {
    match res {
        Ok(verdict) => exists|rewritten: Expr<S, D, G>, folded: Expr<S, D, G>|
            {
                &&& rewrites_to::<F, S, D, G>(filters, expr, rewritten)
                &&& #[trigger] folds_to::<K, S, D, G, C>(rewritten, fn_ctx, folded)
                &&& verdict == verdict_on(folded)
            },
        Err(error) => exists|rest: Expr<S, D, G>| #[trigger]
            rewrite_fails::<F, S, D, G>(filters, expr, error, rest),
    }
}

impl<S, D, C> ChunkFilter<S, D, C> {
    /// Take filters that were made earlier.
    pub fn from_filter_chunk<E>(fn_ctx: C, filter_chunk: Chunk<S, D>) -> (res: Result<Self, ErrorCode<E>>)
        ensures
            res == Ok::<Self, ErrorCode<E>>(ChunkFilter { filter_chunk, fn_ctx }),
    {
        Ok(ChunkFilter { filter_chunk, fn_ctx })
    }

    /// Make the filters for the columns of some data.
    ///
    /// All chunks should belong to one data file: together they are the file in memory.
    pub fn try_create<F: Filter<S, D>>(fn_ctx: C, chunks: &[&Chunk<S, D>]) -> (res: Result<
        Self,
        ErrorCode<F::Error>,
    >)
        requires
            chunks@.len() > 0 ==> columns_present::<F, S, D>(chunks@),
        ensures
            match res {
                Err(ErrorCode::BadArguments(message)) => chunks@.len() == 0 && message@ == "chunks is empty"@,
                Err(ErrorCode::Filter(error)) => {
                    &&& chunks@.len() > 0
                    &&& exists|offset: int, entries: Seq<ChunkEntry<S, D>>|
                        {
                            &&& 0 <= offset < chunks@[0].columns@.len()
                            &&& #[trigger] are_filter_columns::<F, S, D>(chunks@, offset, entries)
                            &&& found_supported::<F, S, D>(chunks@, offset, true)
                            &&& filter_error::<F, S, D>(column_keys(chunks@, offset), error)
                        }
                },
                Ok(filter) => {
                    &&& chunks@.len() > 0
                    &&& filter.fn_ctx == fn_ctx
                    &&& filter.filter_chunk.num_rows == 1
                    &&& are_filter_columns::<F, S, D>(
                        chunks@,
                        chunks@[0].columns@.len() as int,
                        filter.filter_chunk.columns@,
                    )
                },
            },
    {
        if chunks.len() == 0 {
            return Err(ErrorCode::BadArguments(String::from_str("chunks is empty")));
        }
        let mut filter_columns: Vec<ChunkEntry<S, D>> = Vec::new();
        let num_columns: usize = chunks[0].num_columns();
        for offset in 0..num_columns
            invariant
                chunks@.len() > 0,
                num_columns == chunks@[0].columns@.len(),
                columns_present::<F, S, D>(chunks@),
                are_filter_columns::<F, S, D>(chunks@, offset as int, filter_columns@),
        {
            if F::is_supported_type(&chunks[0].get_by_offset(offset).data_type) {
                assert(found_supported::<F, S, D>(chunks@, offset as int, true));
                let keys = Self::keys_of_column(chunks, offset);
                let filter = match F::build(&keys) {
                    Ok(filter) => filter,
                    Err(error) => {
                        assert(is_keys(&keys, column_keys(chunks@, offset as int)));
                        return Err(ErrorCode::Filter(error));
                    },
                };
                let serialized_bytes = match filter.to_bytes() {
                    Ok(serialized_bytes) => serialized_bytes,
                    Err(error) => {
                        assert(is_keys(&keys, column_keys(chunks@, offset as int)));
                        return Err(ErrorCode::Filter(error));
                    },
                };
                let entry = ChunkEntry {
                    id: Self::build_filter_column_name(chunks[0].get_by_offset(offset).id.as_str()),
                    data_type: DataType::String,
                    value: Value::Scalar(Scalar::String(serialized_bytes)),
                };
                let ghost entries = filter_columns@;
                filter_columns.push(entry);
                assert(filter_columns@.drop_last() =~= entries);
                assert(is_filter_column::<F, S, D>(chunks@, offset as int, entry));
            } else {
                assert(found_supported::<F, S, D>(chunks@, offset as int, false));
            }
        }
        Ok(ChunkFilter { filter_chunk: Chunk::new(filter_columns, 1), fn_ctx })
    }

    /// The values of the column at `offset` in all chunks, one chunk after the other.
    fn keys_of_column<'a>(chunks: &[&'a Chunk<S, D>], offset: usize) -> (keys: Vec<&'a Scalar<S>>)
        requires
            forall|i: int| 0 <= i < chunks@.len() ==> offset < (#[trigger] chunks@[i]).columns@.len(),
        ensures
            is_keys(&keys, column_keys(chunks@, offset as int)),
    {
        let mut keys: Vec<&'a Scalar<S>> = Vec::new();
        for index in 0..chunks.len()
            invariant
                forall|i: int| 0 <= i < chunks@.len() ==> offset < (#[trigger] chunks@[i]).columns@.len(),
                is_keys(&keys, column_keys(chunks@.take(index as int), offset as int)),
        {
            let chunk: &'a Chunk<S, D> = chunks[index];
            let entry = chunk.get_by_offset(offset);
            let ghost before = column_keys(chunks@.take(index as int), offset as int);
            assert(chunks@.take(index + 1).drop_last() =~= chunks@.take(index as int));
            match &entry.value {
                Value::Scalar(scalar) => {
                    keys.push(scalar);
                },
                Value::Column(column) => {
                    for row in 0..column.len()
                        invariant
                            is_keys(&keys, before + column@.take(row as int)),
                    {
                        keys.push(&column[row]);
                    }
                    assert(column@.take(column@.len() as int) =~= column@);
                },
            }
        }
        assert(chunks@.take(chunks@.len() as int) =~= chunks@);
        keys
    }

    /// The name of the column that holds the filter for a column of this name.
    pub fn build_filter_column_name(column_name: &str) -> (name: String)
        ensures
            name@ == filter_column_name(column_name@),
    {
        let mut name = String::from_str("Bloom(");
        name.append(column_name);
        name.append(")");
        name
    }

    /// Whether a value can occur in a column, as far as the filter for the column tells.
    pub fn find<F: Filter<S, D>>(&self, column_name: &str, target: &Scalar<S>, ty: &DataType<D>) -> (res: Result<
        FilterEvalResult,
        F::Error,
    >)
        requires
            !(target is Null) && call_ensures(F::is_supported_type, (ty,), true) ==> readable(
                self.filter_chunk.columns@,
                column_name@,
            ),
        ensures
            filters_say::<F, S, D>(self.filter_chunk.columns@, column_name@, *target, *ty, res),
    {
        let filter_column = Self::build_filter_column_name(column_name);
        if !F::is_supported_type(ty) || target.is_null() {
            // The column does not have a filter.
            return Ok(FilterEvalResult::Uncertain);
        }
        match self.filter_chunk.get_by_id(&filter_column) {
            Some(entry) => match &entry.value {
                Value::Scalar(Scalar::String(filter_bytes)) => match F::from_bytes(filter_bytes) {
                    Ok((filter, _size)) => {
                        if filter.contains(target) {
                            Ok(FilterEvalResult::Uncertain)
                        } else {
                            Ok(FilterEvalResult::MustFalse)
                        }
                    },
                    Err(error) => Err(error),
                },
                _ => vstd::pervasive::unreached(),
            },
            None => Ok(FilterEvalResult::Uncertain),
        }
    }

    /// What an expression asks for, if it is `column = constant` or `constant = column`.
    fn equality_parts<'a, G>(expr: &'a Expr<S, D, G>) -> (parts: Option<
        (&'a String, &'a Scalar<S>, &'a DataType<D>),
    >)
        ensures
            match parts {
                Some((id, scalar, data_type)) => equality(*expr) == Some((*id, *scalar, *data_type)),
                None => equality(*expr) is None,
            },
    {
        match expr {
            Expr::FunctionCall { function, args, .. } => {
                if function.name == String::from_str("eq") && args.len() == 2 {
                    match (&args[0], &args[1]) {
                        (Expr::ColumnRef { id, data_type, .. }, Expr::Constant { scalar, .. }) => {
                            Some((id, scalar, data_type))
                        },
                        (Expr::Constant { scalar, .. }, Expr::ColumnRef { id, data_type, .. }) => {
                            Some((id, scalar, data_type))
                        },
                        _ => None,
                    }
                } else {
                    None
                }
            },
            _ => None,
        }
    }

    /// What the filters say of an expression, taken by itself.
    fn find_equality<F: Filter<S, D>, G>(&self, expr: &Expr<S, D, G>) -> (res: Result<FilterEvalResult, F::Error>)
        requires
            readable_for::<F, S, D, G>(self.filter_chunk.columns@, *expr),
        ensures
            filters_say_of::<F, S, D, G>(self.filter_chunk.columns@, *expr, res),
    {
        match Self::equality_parts(expr) {
            Some((id, scalar, data_type)) => self.find::<F>(id.as_str(), scalar, data_type),
            None => Ok(FilterEvalResult::Uncertain),
        }
    }

    /// Put the constant `false` for each equality in the expression that the filters say must be
    /// false.
    pub fn rewrite_expr<F: Filter<S, D>, G>(&self, expr: &mut Expr<S, D, G>) -> (res: Result<(), F::Error>)
        requires
            readable_for::<F, S, D, G>(self.filter_chunk.columns@, *old(expr)),
        ensures
            match res {
                Ok(_) => rewrites_to::<F, S, D, G>(self.filter_chunk.columns@, *old(expr), *final(expr)),
                Err(error) => rewrite_fails::<F, S, D, G>(
                    self.filter_chunk.columns@,
                    *old(expr),
                    error,
                    *final(expr),
                ),
            },
        decreases *old(expr),
    {
        let ghost filters = self.filter_chunk.columns@;
        match self.find_equality::<F, G>(expr) {
            Ok(FilterEvalResult::MustFalse) => {
                // The column does not contain the constant.
                if let Expr::FunctionCall { span, .. } = expr {
                    let span = *span;
                    *expr = Expr::Constant { span, scalar: Scalar::Boolean(false), data_type: DataType::Boolean };
                }
                return Ok(());
            },
            Ok(FilterEvalResult::Uncertain) => {},
            Err(error) => {
                return Err(error);
            },
        }
        // Otherwise, rewrite the sub-expressions.
        match expr {
            Expr::Cast { expr: inner, .. } => self.rewrite_expr::<F, G>(inner),
            Expr::FunctionCall { args, .. } => {
                let ghost before = args@;
                let mut failed: Option<F::Error> = None;
                let mut index: usize = 0;
                while index < args.len() && failed.is_none()
                    invariant
                        index <= args@.len(),
                        args@.len() == before.len(),
                        filters == self.filter_chunk.columns@,
                        *old(expr) is FunctionCall,
                        (*old(expr))->args@ == before,
                        readable_for::<F, S, D, G>(filters, *old(expr)),
                        match failed {
                            None => forall|i: int|
                                0 <= i < index ==> rewrites_to::<F, S, D, G>(
                                    filters,
                                    #[trigger] before[i],
                                    args@[i],
                                ),
                            Some(error) => {
                                &&& index > 0
                                &&& forall|i: int|
                                    0 <= i < index - 1 ==> rewrites_to::<F, S, D, G>(
                                        filters,
                                        #[trigger] before[i],
                                        args@[i],
                                    )
                                &&& rewrite_fails::<F, S, D, G>(filters, before[index - 1], error, args@[index - 1])
                            },
                        },
                        forall|i: int| index <= i < before.len() ==> #[trigger] before[i] == args@[i],
                    decreases args@.len() - index,
                {
                    assert(readable_for::<F, S, D, G>(filters, before[index as int])) by {
                        assert forall|j: int| 0 <= j < index implies can_rewrite::<F, S, D, G>(
                            filters,
                            #[trigger] before[j],
                        ) by {
                            assert(rewrites_to::<F, S, D, G>(filters, before[j], args@[j]));
                        }
                    }
                    match self.rewrite_expr::<F, G>(&mut args[index]) {
                        Ok(_) => {},
                        Err(error) => {
                            failed = Some(error);
                        },
                    }
                    index = index + 1;
                }
                match failed {
                    None => Ok(()),
                    Some(error) => {
                        assert(rewrite_fails::<F, S, D, G>(filters, before[index - 1], error, args@[index - 1]));
                        Err(error)
                    },
                }
            },
            _ => Ok(()),
        }
    }

    /// What a folded expression tells: it must be false if it is the constant `false`.
    pub fn verdict<G>(folded: &Expr<S, D, G>) -> (res: FilterEvalResult)
        ensures
            res == verdict_on(*folded),
    {
        match folded {
            Expr::Constant { scalar: Scalar::Boolean(false), .. } => FilterEvalResult::MustFalse,
            _ => FilterEvalResult::Uncertain,
        }
    }

    /// Apply a predicate to the filters. If the data can be skipped, the predicate must be false:
    /// this happens when a value that it asks for does not show up in a filter. Otherwise it is
    /// uncertain.
    pub fn eval<F: Filter<S, D>, K: ConstantFolder<S, D, G, C>, G>(&self, expr: Expr<S, D, G>) -> (res: Result<
        FilterEvalResult,
        F::Error,
    >)
        requires
            readable_for::<F, S, D, G>(self.filter_chunk.columns@, expr),
        ensures
            evals_to::<F, K, S, D, G, C>(self.filter_chunk.columns@, self.fn_ctx, expr, res),
    {
        let mut rewritten = expr;
        match self.rewrite_expr::<F, G>(&mut rewritten) {
            Ok(_) => {
                let columns = rewritten.column_refs();
                let folded = K::fold(&rewritten, &columns, &self.fn_ctx);
                assert(folds_to::<K, S, D, G, C>(rewritten, self.fn_ctx, folded));
                Ok(Self::verdict(&folded))
            },
            Err(error) => {
                let res: Result<FilterEvalResult, F::Error> = Err(error);
                assert(rewrite_fails::<F, S, D, G>(
                    self.filter_chunk.columns@,
                    expr,
                    res->Err_0,
                    rewritten,
                ));
                res
            },
        }
    }
}

} // verus!
