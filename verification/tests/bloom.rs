use databend_query::bloom::{ChunkFilter, ConstantFolder, ErrorCode, Filter, FilterEvalResult};
use databend_query::expression::{Chunk, ChunkEntry, DataType, Expr, Function, Scalar, Span, Value};

type S = Scalar<i64>;
type Type = DataType<&'static str>;
type Entry = ChunkEntry<i64, &'static str>;
type Data = Chunk<i64, &'static str>;
type E = Expr<i64, &'static str, ()>;
type Index = ChunkFilter<i64, &'static str, &'static str>;

/// A filter over the sums of digits and bytes: it has no false negatives, and false positives.
/// It makes no filter over 666, writes none over 667, and reads none that begins with 255.
struct Sums(Vec<u8>);

fn sum(key: &S) -> u8 {
    match key {
        Scalar::Null => 0,
        Scalar::Boolean(b) => *b as u8,
        Scalar::String(bytes) => bytes.iter().fold(0u8, |sum, byte| sum.wrapping_add(*byte)),
        Scalar::Other(n) => n.to_string().bytes().fold(0u8, |sum, digit| sum.wrapping_add(digit)),
    }
}

impl Filter<i64, &'static str> for Sums {
    type Error = String;

    fn is_supported_type(data_type: &Type) -> bool {
        *data_type != DataType::Other("struct")
    }

    fn build(keys: &Vec<&S>) -> Result<Self, String> {
        if keys.contains(&&Scalar::Other(666)) {
            return Err("cannot build".to_string());
        }
        let mut sums: Vec<u8> = keys.iter().map(|key| sum(key)).collect();
        if keys.contains(&&Scalar::Other(667)) {
            sums.push(254);
        }
        Ok(Sums(sums))
    }

    fn to_bytes(&self) -> Result<Vec<u8>, String> {
        if self.0.contains(&254) {
            return Err("cannot write".to_string());
        }
        Ok(self.0.clone())
    }

    fn from_bytes(bytes: &Vec<u8>) -> Result<(Self, usize), String> {
        if bytes.first() == Some(&255) {
            return Err("cannot read".to_string());
        }
        Ok((Sums(bytes.clone()), bytes.len()))
    }

    fn contains(&self, key: &S) -> bool {
        self.0.contains(&sum(key))
    }
}

/// Folds `and` over constants; knows the columns of the expression, and the context.
struct And;

fn boolean(b: bool) -> E {
    Expr::Constant { span: None, scalar: Scalar::Boolean(b), data_type: DataType::Boolean }
}

fn is_false(expr: &E) -> bool {
    matches!(expr, Expr::Constant { scalar: Scalar::Boolean(false), .. })
}

impl ConstantFolder<i64, &'static str, (), &'static str> for And {
    fn fold(expr: &E, columns: &Vec<(&String, &Type)>, fn_ctx: &&'static str) -> E {
        assert_eq!(*fn_ctx, "utc");
        assert_eq!(*columns, expr.column_refs());
        match expr {
            Expr::FunctionCall { function, args, .. } if function.name == "and" => {
                boolean(!args.iter().any(is_false))
            }
            Expr::FunctionCall { function, args, .. } if function.name == "or" => {
                boolean(!args.iter().all(is_false))
            }
            Expr::Constant { scalar: Scalar::Boolean(b), .. } => boolean(*b),
            _ => boolean(true),
        }
    }
}

fn text(s: &str) -> S {
    Scalar::String(s.as_bytes().to_vec())
}

fn number(n: i64) -> S {
    Scalar::Other(n)
}

fn entry(id: &str, data_type: Type, value: Value<i64>) -> Entry {
    ChunkEntry { id: id.to_string(), data_type, value }
}

fn people() -> Data {
    Chunk::new(
        vec![
            entry("name", DataType::String, Value::Column(vec![text("Alice"), text("Bob")])),
            entry("age", DataType::Other("int"), Value::Column(vec![number(20), number(30)])),
            entry("address", DataType::Other("struct"), Value::Column(vec![number(1), number(2)])),
        ],
        2,
    )
}

fn more_people() -> Data {
    Chunk::new(
        vec![
            entry("name", DataType::String, Value::Scalar(text("Eve"))),
            entry("age", DataType::Other("int"), Value::Column(vec![number(41)])),
        ],
        1,
    )
}

fn index() -> Index {
    ChunkFilter::try_create::<Sums>("utc", &[&people(), &more_people()]).unwrap()
}

fn column(id: &str, data_type: Type) -> E {
    Expr::ColumnRef { span: None, id: id.to_string(), data_type }
}

fn constant(scalar: S, data_type: Type) -> E {
    Expr::Constant { span: None, scalar, data_type }
}

fn call_at(span: Option<Span>, name: &str, args: Vec<E>) -> E {
    Expr::FunctionCall {
        span,
        function: Function { name: name.to_string(), function: () },
        args,
        return_type: DataType::Boolean,
    }
}

fn call(name: &str, args: Vec<E>) -> E {
    call_at(None, name, args)
}

fn age_is(n: i64) -> E {
    call("eq", vec![column("age", DataType::Other("int")), constant(number(n), DataType::Other("int"))])
}

fn bytes_of(index: &Index, offset: usize) -> Vec<u8> {
    match &index.filter_chunk.columns[offset].value {
        Value::Scalar(Scalar::String(bytes)) => bytes.clone(),
        _ => panic!("not a filter"),
    }
}

#[test]
fn a_filter_is_made_for_each_supported_column() {
    let index = index();
    let chunk = &index.filter_chunk;
    assert_eq!(chunk.num_rows, 1);
    assert_eq!(chunk.num_columns(), 2);
    assert_eq!(chunk.get_by_offset(0).id, "Bloom(name)");
    assert_eq!(chunk.get_by_offset(1).id, "Bloom(age)");
    assert_eq!(chunk.get_by_offset(0).data_type, DataType::String);
    assert_eq!(chunk.get_by_offset(1).data_type, DataType::String);
    assert_eq!(bytes_of(&index, 0), vec![sum(&text("Alice")), sum(&text("Bob")), sum(&text("Eve"))]);
    assert_eq!(bytes_of(&index, 1), vec![50 + 48, 51 + 48, 52 + 49]);
    assert_eq!(index.fn_ctx, "utc");
}

#[test]
fn no_chunks_are_bad_arguments() {
    let index: Result<Index, ErrorCode<String>> = ChunkFilter::try_create::<Sums>("utc", &[]);
    match index {
        Err(ErrorCode::BadArguments(message)) => assert_eq!(message, "chunks is empty"),
        _ => panic!("no error"),
    }
}

#[test]
fn errors_of_the_filter_are_passed_on() {
    for (n, expected) in [(666, "cannot build"), (667, "cannot write")] {
        let chunk = Chunk::new(vec![entry("n", DataType::Other("int"), Value::Scalar(number(n)))], 1);
        match Index::try_create::<Sums>("utc", &[&chunk]) {
            Err(ErrorCode::Filter(message)) => assert_eq!(message, expected),
            _ => panic!("no error"),
        }
    }
}

#[test]
fn a_chunk_without_supported_columns_has_no_filters() {
    let chunk = Chunk::new(vec![entry("s", DataType::Other("struct"), Value::Scalar(number(1)))], 1);
    let index = Index::try_create::<Sums>("utc", &[&chunk]).unwrap();
    assert_eq!(index.filter_chunk.num_columns(), 0);
    let found = index.find::<Sums>("s", &number(7), &DataType::Other("int"));
    assert_eq!(found, Ok(FilterEvalResult::Uncertain));
}

#[test]
fn filter_columns_are_named_after_their_columns() {
    assert_eq!(Index::build_filter_column_name("age"), "Bloom(age)");
    assert_eq!(Index::build_filter_column_name(""), "Bloom()");
}

#[test]
fn every_value_of_the_data_is_found() {
    let index = index();
    for name in ["Alice", "Bob", "Eve"] {
        let found = index.find::<Sums>("name", &text(name), &DataType::String);
        assert_eq!(found, Ok(FilterEvalResult::Uncertain));
    }
    for age in [20, 30, 41] {
        let found = index.find::<Sums>("age", &number(age), &DataType::Other("int"));
        assert_eq!(found, Ok(FilterEvalResult::Uncertain));
    }
}

#[test]
fn a_value_that_is_not_in_the_filter_must_be_false() {
    let index = index();
    let int = DataType::Other("int");
    assert_eq!(index.find::<Sums>("age", &number(12), &int), Ok(FilterEvalResult::Uncertain));
    assert_eq!(index.find::<Sums>("age", &number(99), &int), Ok(FilterEvalResult::MustFalse));
    assert_eq!(index.find::<Sums>("name", &text("Mallory"), &DataType::String), Ok(FilterEvalResult::MustFalse));
}

#[test]
fn null_and_other_types_and_columns_are_uncertain() {
    let index = index();
    let int = DataType::Other("int");
    assert_eq!(index.find::<Sums>("age", &Scalar::Null, &int), Ok(FilterEvalResult::Uncertain));
    assert_eq!(
        index.find::<Sums>("age", &number(99), &DataType::Other("struct")),
        Ok(FilterEvalResult::Uncertain)
    );
    assert_eq!(index.find::<Sums>("height", &number(99), &int), Ok(FilterEvalResult::Uncertain));
}

#[test]
fn bytes_that_are_no_filter_are_an_error() {
    let chunk = Chunk::new(
        vec![entry("Bloom(age)", DataType::String, Value::Scalar(Scalar::String(vec![255])))],
        1,
    );
    let index = Index::from_filter_chunk::<String>("utc", chunk).unwrap();
    let int = DataType::Other("int");
    assert_eq!(index.find::<Sums>("age", &number(1), &int), Err("cannot read".to_string()));
    // The left argument is rewritten before the right one is looked at.
    let mut expr = call("or", vec![age_is(1), age_is(2)]);
    assert_eq!(index.rewrite_expr::<Sums, ()>(&mut expr), Err("cannot read".to_string()));
    assert_eq!(expr, call("or", vec![age_is(1), age_is(2)]));
    assert_eq!(index.eval::<Sums, And, ()>(age_is(1)), Err("cannot read".to_string()));
    // An expression that asks for no filter is not affected.
    assert_eq!(index.eval::<Sums, And, ()>(boolean(false)), Ok(FilterEvalResult::MustFalse));
}

#[test]
fn what_stands_left_of_an_error_is_rewritten() {
    let chunk = Chunk::new(
        vec![
            entry("Bloom(a)", DataType::String, Value::Scalar(Scalar::String(vec![1]))),
            entry("Bloom(b)", DataType::String, Value::Scalar(Scalar::String(vec![255]))),
        ],
        1,
    );
    let index = Index::from_filter_chunk::<String>("utc", chunk).unwrap();
    let is = |id: &str| call("eq", vec![column(id, DataType::Boolean), constant(number(7), DataType::Boolean)]);
    let mut expr = call("f", vec![is("a"), is("b"), is("a")]);
    assert_eq!(index.rewrite_expr::<Sums, ()>(&mut expr), Err("cannot read".to_string()));
    assert_eq!(expr, call("f", vec![boolean(false), is("b"), is("a")]));
}

#[test]
fn equalities_are_rewritten_either_way_round_and_deep_inside() {
    let index = index();
    let int = || DataType::Other("int");
    let span = Some(Span { start: 3, end: 9 });
    let absent = call_at(span, "eq", vec![constant(number(99), int()), column("age", int())]);
    let mut expr = call(
        "and",
        vec![
            age_is(20),
            Expr::Cast {
                span: None,
                is_try: true,
                expr: Box::new(call("not", vec![absent])),
                dest_type: DataType::Boolean,
            },
        ],
    );
    assert_eq!(index.rewrite_expr::<Sums, ()>(&mut expr), Ok(()));
    let rewritten: E =
        Expr::Constant { span, scalar: Scalar::Boolean(false), data_type: DataType::Boolean };
    assert_eq!(
        expr,
        call(
            "and",
            vec![
                age_is(20),
                Expr::Cast {
                    span: None,
                    is_try: true,
                    expr: Box::new(call("not", vec![rewritten])),
                    dest_type: DataType::Boolean,
                },
            ]
        )
    );
}

#[test]
fn only_equalities_of_a_column_and_a_constant_are_rewritten() {
    let index = index();
    let int = || DataType::Other("int");
    let kept = |expr: fn() -> E| {
        let mut rewritten = expr();
        assert_eq!(index.rewrite_expr::<Sums, ()>(&mut rewritten), Ok(()));
        assert_eq!(rewritten, expr());
    };
    kept(|| call("noteq", vec![column("age", DataType::Other("int")), constant(number(99), DataType::Other("int"))]));
    kept(|| call("eq", vec![column("age", DataType::Other("int")), column("age", DataType::Other("int"))]));
    kept(|| call("eq", vec![constant(number(99), DataType::Other("int"))]));
    kept(|| column("age", DataType::Other("int")));
    let mut inner = call("eq", vec![age_is(99), constant(number(1), int())]);
    assert_eq!(index.rewrite_expr::<Sums, ()>(&mut inner), Ok(()));
    assert_eq!(inner, call("eq", vec![boolean(false), constant(number(1), int())]));
}

#[test]
fn predicates_that_must_be_false_are_told() {
    let index = index();
    assert_eq!(index.eval::<Sums, And, ()>(age_is(99)), Ok(FilterEvalResult::MustFalse));
    assert_eq!(index.eval::<Sums, And, ()>(age_is(20)), Ok(FilterEvalResult::Uncertain));
    let both = |a, b| call("and", vec![age_is(a), age_is(b)]);
    let either = |a, b| call("or", vec![age_is(a), age_is(b)]);
    assert_eq!(index.eval::<Sums, And, ()>(both(20, 99)), Ok(FilterEvalResult::MustFalse));
    assert_eq!(index.eval::<Sums, And, ()>(both(20, 30)), Ok(FilterEvalResult::Uncertain));
    assert_eq!(index.eval::<Sums, And, ()>(either(20, 99)), Ok(FilterEvalResult::Uncertain));
    assert_eq!(index.eval::<Sums, And, ()>(either(98, 99)), Ok(FilterEvalResult::MustFalse));
}

#[test]
fn a_refuted_equality_must_be_false_either_way_round() {
    let index = index();
    let int = || DataType::Other("int");
    for age in 0..100 {
        let found = index.find::<Sums>("age", &number(age), &int());
        assert_eq!(index.eval::<Sums, And, ()>(age_is(age)), found);
        let turned = call("eq", vec![constant(number(age), int()), column("age", int())]);
        assert_eq!(index.eval::<Sums, And, ()>(turned), found);
    }
    assert_eq!(index.find::<Sums>("age", &number(99), &int()), Ok(FilterEvalResult::MustFalse));
}

#[test]
fn a_row_that_matches_is_never_skipped() {
    let index = index();
    for age in 0..100 {
        let verdict = index.eval::<Sums, And, ()>(age_is(age)).unwrap();
        if [20, 30, 41].contains(&age) {
            assert_eq!(verdict, FilterEvalResult::Uncertain);
        }
    }
}

#[test]
fn a_column_with_nulls_is_skipped_like_others() {
    let chunk = Chunk::new(
        vec![entry("age", DataType::Other("int"), Value::Column(vec![Scalar::Null, number(20)]))],
        2,
    );
    let index = Index::try_create::<Sums>("utc", &[&chunk]).unwrap();
    assert_eq!(bytes_of(&index, 0), vec![0, 98]);
    assert_eq!(index.eval::<Sums, And, ()>(age_is(99)), Ok(FilterEvalResult::MustFalse));
    assert_eq!(index.eval::<Sums, And, ()>(age_is(20)), Ok(FilterEvalResult::Uncertain));
    let is_null =
        call("eq", vec![column("age", DataType::Other("int")), constant(Scalar::Null, DataType::Other("int"))]);
    assert_eq!(index.eval::<Sums, And, ()>(is_null), Ok(FilterEvalResult::Uncertain));
}

#[test]
fn the_verdict_is_that_of_the_folded_expression() {
    assert_eq!(Index::verdict(&boolean(false)), FilterEvalResult::MustFalse);
    assert_eq!(Index::verdict(&boolean(true)), FilterEvalResult::Uncertain);
    assert_eq!(Index::verdict(&constant(Scalar::Null, DataType::Boolean)), FilterEvalResult::Uncertain);
    assert_eq!(Index::verdict(&age_is(1)), FilterEvalResult::Uncertain);
}

#[test]
fn filters_that_were_made_earlier_are_taken_as_they_are() {
    let made = index();
    let names: Vec<String> = made.filter_chunk.columns.iter().map(|entry| entry.id.clone()).collect();
    let taken = Index::from_filter_chunk::<String>("utc", made.filter_chunk).unwrap();
    let taken_names: Vec<String> = taken.filter_chunk.columns.iter().map(|entry| entry.id.clone()).collect();
    assert_eq!(names, taken_names);
    assert_eq!(taken.eval::<Sums, And, ()>(age_is(99)), Ok(FilterEvalResult::MustFalse));
}

#[test]
fn loaded_filters_answer_as_the_stored_ones() {
    let made = index();
    let stored: Vec<Entry> = made
        .filter_chunk
        .columns
        .iter()
        .zip([0, 1])
        .map(|(column, offset)| {
            let bytes = Scalar::String(bytes_of(&made, offset));
            entry(&column.id, DataType::String, Value::Scalar(bytes))
        })
        .collect();
    let loaded = Index::from_filter_chunk::<String>("utc", Chunk::new(stored, 1)).unwrap();
    for age in 0..100 {
        let verdict = made.eval::<Sums, And, ()>(age_is(age));
        assert_eq!(loaded.eval::<Sums, And, ()>(age_is(age)), verdict);
    }
    assert_eq!(loaded.eval::<Sums, And, ()>(age_is(99)), Ok(FilterEvalResult::MustFalse));
}

#[test]
fn rewriting_twice_is_rewriting_once() {
    let index = index();
    let expr = || call("or", vec![age_is(20), call("and", vec![age_is(99), age_is(41)])]);
    let once = || call("or", vec![age_is(20), call("and", vec![boolean(false), age_is(41)])]);
    let mut rewritten = expr();
    assert_eq!(index.rewrite_expr::<Sums, ()>(&mut rewritten), Ok(()));
    assert_eq!(rewritten, once());
    assert_eq!(index.rewrite_expr::<Sums, ()>(&mut rewritten), Ok(()));
    assert_eq!(rewritten, once());
}

#[test]
fn an_equality_within_an_equality_is_seen_only_the_second_time() {
    let index = index();
    let mut expr = call("eq", vec![column("flag", DataType::Boolean), age_is(99)]);
    let once = || call("eq", vec![column("flag", DataType::Boolean), boolean(false)]);
    assert_eq!(index.rewrite_expr::<Sums, ()>(&mut expr), Ok(()));
    assert_eq!(expr, once());
    let flags = Chunk::new(
        vec![entry("Bloom(flag)", DataType::String, Value::Scalar(Scalar::String(vec![1])))],
        1,
    );
    let flags = Index::from_filter_chunk::<String>("utc", flags).unwrap();
    assert_eq!(flags.rewrite_expr::<Sums, ()>(&mut expr), Ok(()));
    assert_eq!(expr, boolean(false));
}

#[test]
fn the_cut_of_the_rows_into_chunks_does_not_matter() {
    let ages = |ages: &[i64]| -> Data {
        let column = ages.iter().map(|age| number(*age)).collect();
        Chunk::new(vec![entry("age", DataType::Other("int"), Value::Column(column))], ages.len())
    };
    let whole = Index::try_create::<Sums>("utc", &[&ages(&[20, 30, 41])]).unwrap();
    let cut = Index::try_create::<Sums>("utc", &[&ages(&[20]), &ages(&[]), &ages(&[30, 41])]).unwrap();
    assert_eq!(whole.filter_chunk, cut.filter_chunk);
    assert_eq!(bytes_of(&whole, 0), vec![98, 99, 101]);
}

#[test]
fn a_filter_that_cannot_be_made_comes_before_a_missing_column() {
    let int = || DataType::Other("int");
    let both = Chunk::new(
        vec![entry("m", int(), Value::Scalar(number(666))), entry("n", int(), Value::Scalar(number(1)))],
        1,
    );
    let one = Chunk::new(vec![entry("m", int(), Value::Scalar(number(2)))], 1);
    match Index::try_create::<Sums>("utc", &[&both, &one]) {
        Err(ErrorCode::Filter(message)) => assert_eq!(message, "cannot build"),
        _ => panic!("no error"),
    }
}

#[test]
fn a_filter_that_cannot_be_read_comes_before_an_entry_that_is_none() {
    let chunk = Chunk::new(
        vec![
            entry("Bloom(age)", DataType::String, Value::Scalar(Scalar::String(vec![255]))),
            entry("Bloom(b)", DataType::String, Value::Scalar(Scalar::Boolean(true))),
        ],
        1,
    );
    let index = Index::from_filter_chunk::<String>("utc", chunk).unwrap();
    let b_is_true = call("eq", vec![column("b", DataType::Boolean), boolean(true)]);
    let expr = call("and", vec![age_is(1), b_is_true]);
    assert_eq!(index.eval::<Sums, And, ()>(expr), Err("cannot read".to_string()));
}

#[test]
fn columns_are_found_by_name_and_referred_to_in_order() {
    let chunk = people();
    assert_eq!(chunk.get_by_id(&"age".to_string()).map(|entry| entry.id.as_str()), Some("age"));
    assert!(chunk.get_by_id(&"height".to_string()).is_none());
    let expr = call("and", vec![age_is(1), call("f", vec![column("name", DataType::String), age_is(2)])]);
    let refs: Vec<String> = expr.column_refs().into_iter().map(|(id, _)| id.clone()).collect();
    assert_eq!(refs, vec!["age", "name", "age"]);
}
