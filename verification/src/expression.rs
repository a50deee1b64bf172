//! Chunks of columns and the expressions over them, as far as pruning by filters looks at them.
//!
//! What the engine knows and pruning never looks into stands in type parameters: `S` for the
//! scalars of all other types, `D` for all other data types, `G` for the functions themselves.

use vstd::prelude::*;

verus! {

/// A value of a column.
#[derive(Debug, PartialEq, Eq)]
pub enum Scalar<S> {
    Null,
    Boolean(bool),
    String(Vec<u8>),
    Other(S),
}

/// A [`Scalar`] as a mathematical value.
pub enum ScalarView<S> {
    Null,
    Boolean(bool),
    String(Seq<u8>),
    Other(S),
}

impl<S> View for Scalar<S> {
    type V = ScalarView<S>;

    open spec fn view(&self) -> ScalarView<S> {
        match *self {
            Scalar::Null => ScalarView::Null,
            Scalar::Boolean(b) => ScalarView::Boolean(b),
            Scalar::String(bytes) => ScalarView::String(bytes@),
            Scalar::Other(s) => ScalarView::Other(s),
        }
    }
}

impl<S> Scalar<S> {
    pub fn is_null(&self) -> (res: bool)
        ensures
            res == (*self is Null),
    {
        match self {
            Scalar::Null => true,
            _ => false,
        }
    }
}

/// The type of a column or an expression.
#[derive(Debug, PartialEq, Eq)]
pub enum DataType<D> {
    Boolean,
    String,
    Other(D),
}

/// The values of a column: one that stands in every row, or one for each row.
#[derive(Debug, PartialEq, Eq)]
pub enum Value<S> {
    Scalar(Scalar<S>),
    Column(Vec<Scalar<S>>),
}

impl<S> Value<S> {
    /// The values that occur, in order.
    pub open spec fn scalars(self) -> Seq<Scalar<S>> {
        match self {
            Value::Scalar(scalar) => seq![scalar],
            Value::Column(column) => column@,
        }
    }
}

/// A column of a chunk.
#[derive(Debug, PartialEq, Eq)]
pub struct ChunkEntry<S, D> {
    pub id: String,
    pub data_type: DataType<D>,
    pub value: Value<S>,
}

/// Columns of the same number of rows.
#[derive(Debug, PartialEq, Eq)]
pub struct Chunk<S, D> {
    pub columns: Vec<ChunkEntry<S, D>>,
    pub num_rows: usize,
}

/// The column at `index` is the first one with this name.
pub open spec fn is_first_with_id<S, D>(columns: Seq<ChunkEntry<S, D>>, id: Seq<char>, index: int) -> bool {
    &&& 0 <= index < columns.len()
    &&& columns[index].id@ == id
    &&& forall|i: int| 0 <= i < index ==> (#[trigger] columns[i]).id@ != id
}

/// The first column with this name.
pub open spec fn entry_with_id<S, D>(columns: Seq<ChunkEntry<S, D>>, id: Seq<char>) -> Option<ChunkEntry<S, D>> {
    if exists|index: int| is_first_with_id(columns, id, index) {
        Some(columns[choose|index: int| is_first_with_id(columns, id, index)])
    } else {
        None
    }
}

impl<S, D> Chunk<S, D> {
    pub fn new(columns: Vec<ChunkEntry<S, D>>, num_rows: usize) -> (chunk: Self)
        ensures
            chunk.columns == columns,
            chunk.num_rows == num_rows,
    {
        Chunk { columns, num_rows }
    }

    pub fn num_columns(&self) -> (n: usize)
        ensures
            n == self.columns@.len(),
    {
        self.columns.len()
    }

    pub fn get_by_offset(&self, offset: usize) -> (entry: &ChunkEntry<S, D>)
        requires
            offset < self.columns@.len(),
        ensures
            *entry == self.columns@[offset as int],
    {
        &self.columns[offset]
    }

    /// The first column with this name.
    pub fn get_by_id(&self, id: &String) -> (entry: Option<&ChunkEntry<S, D>>)
        ensures
            match entry {
                Some(entry) => entry_with_id(self.columns@, id@) == Some(*entry),
                None => entry_with_id(self.columns@, id@) is None,
            },
    {
        for index in 0..self.columns.len()
            invariant
                forall|i: int| 0 <= i < index ==> (#[trigger] self.columns@[i]).id@ != id@,
        {
            if self.columns[index].id == *id {
                proof {
                    assert(is_first_with_id(self.columns@, id@, index as int));
                    let first = choose|i: int| is_first_with_id(self.columns@, id@, i);
                    assert(is_first_with_id(self.columns@, id@, first));
                    assert(first == index);
                }
                return Some(&self.columns[index]);
            }
        }
        None
    }
}

/// Where in the text of a query an expression stands.
#[derive(Debug, Clone, Copy, PartialEq, Eq)]
pub struct Span {
    pub start: usize,
    pub end: usize,
}

/// A function that an expression calls, and its name.
#[derive(Debug, PartialEq, Eq)]
pub struct Function<G> {
    pub name: String,
    pub function: G,
}

/// A typed expression over the columns of a chunk.
#[derive(Debug, PartialEq, Eq)]
pub enum Expr<S, D, G> {
    Constant { span: Option<Span>, scalar: Scalar<S>, data_type: DataType<D> },
    ColumnRef { span: Option<Span>, id: String, data_type: DataType<D> },
    Cast { span: Option<Span>, is_try: bool, expr: Box<Expr<S, D, G>>, dest_type: DataType<D> },
    FunctionCall {
        span: Option<Span>,
        function: Function<G>,
        args: Vec<Expr<S, D, G>>,
        return_type: DataType<D>,
    },
}

/// The columns that an expression refers to, with their types, from left to right.
pub open spec fn column_refs<S, D, G>(expr: Expr<S, D, G>) -> Seq<(Seq<char>, DataType<D>)>
    decreases expr,
{
    match expr {
        Expr::Constant { .. } => Seq::empty(),
        Expr::ColumnRef { id, data_type, .. } => seq![(id@, data_type)],
        Expr::Cast { expr: inner, .. } => column_refs(*inner),
        Expr::FunctionCall { args, .. } => column_refs_of(args@),
    }
}

/// The columns that a run of expressions refers to.
pub open spec fn column_refs_of<S, D, G>(exprs: Seq<Expr<S, D, G>>) -> Seq<(Seq<char>, DataType<D>)>
    decreases exprs,
{
    if exprs.len() == 0 {
        Seq::empty()
    } else {
        column_refs_of(exprs.drop_last()) + column_refs(exprs.last())
    }
}

/// References to columns as mathematical values.
pub open spec fn refs_view<D>(refs: Seq<(&String, &DataType<D>)>) -> Seq<(Seq<char>, DataType<D>)> {
    refs.map_values(|r: (&String, &DataType<D>)| (r.0@, *r.1))
}

impl<S, D, G> Expr<S, D, G> {
    /// The columns that the expression refers to, with their types, from left to right.
    pub fn column_refs(&self) -> (refs: Vec<(&String, &DataType<D>)>)
        ensures
            refs_view(refs@) == column_refs(*self),
    {
        let mut refs: Vec<(&String, &DataType<D>)> = Vec::new();
        self.add_column_refs(&mut refs);
        assert(refs_view(refs@) =~= column_refs(*self));
        refs
    }

    fn add_column_refs<'a>(&'a self, refs: &mut Vec<(&'a String, &'a DataType<D>)>)
        ensures
            refs_view(final(refs)@) == refs_view(old(refs)@) + column_refs(*self),
        decreases *self,
    {
        match self {
            Expr::Constant { .. } => {},
            Expr::ColumnRef { id, data_type, .. } => {
                refs.push((id, data_type));
            },
            Expr::Cast { expr, .. } => {
                expr.add_column_refs(refs);
            },
            Expr::FunctionCall { args, .. } => {
                for index in 0..args.len()
                    invariant
                        *self is FunctionCall,
                        (*self)->args == *args,
                        refs_view(refs@) == refs_view(old(refs)@) + column_refs_of(args@.take(index as int)),
                {
                    args[index].add_column_refs(refs);
                    assert(args@.take(index + 1).drop_last() =~= args@.take(index as int));
                    assert(refs_view(refs@) =~= refs_view(old(refs)@) + column_refs_of(args@.take(index + 1)));
                }
                assert(args@.take(args@.len() as int) =~= args@);
            },
        }
        assert(refs_view(refs@) =~= refs_view(old(refs)@) + column_refs(*self));
    }
}

} // verus!
