use sbom_catalog::error::Error;
use sbom_catalog::filter::{build_filter, Clause, ColumnType, Columns, Filter, Predicate, Target, Test, Value};
use sbom_catalog::query::Operator;
use sbom_catalog::value::{CalendarDate, Timestamp};

fn advisory_columns() -> Columns {
    Columns::new()
        .add("id", ColumnType::Uuid)
        .add("location", ColumnType::Text)
        .add("title", ColumnType::Text)
        .add("authors", ColumnType::TextArray)
        .add("published", ColumnType::Timestamp)
        .add(
            "severity",
            ColumnType::Enum(
                "Severity".to_string(),
                vec!["low".to_string(), "medium".to_string(), "high".to_string(), "critical".to_string()],
            ),
        )
        .add("purl", ColumnType::Json)
}

fn new_year() -> Timestamp {
    at(2010, 1, 1, 0, 0, 0)
}

fn at(year: i32, month: u8, day: u8, hour: u8, minute: u8, second: u8) -> Timestamp {
    Timestamp { date: CalendarDate { year, month, day }, hour, minute, second, nanosecond: 0, offset_seconds: 0 }
}

fn filter(q: &str) -> Result<Filter, Error> {
    build_filter(q, &advisory_columns(), new_year())
}

fn column(name: &str) -> Target {
    Target::Column(name.to_string())
}

fn text(v: &str) -> Value {
    Value::Text(v.to_string())
}

fn pred(target: Target, test: Test) -> Predicate {
    Predicate { target, test }
}

fn any(predicates: Vec<Predicate>) -> Clause {
    Clause { all: false, predicates }
}

fn all(predicates: Vec<Predicate>) -> Clause {
    Clause { all: true, predicates }
}

fn single(clause: Clause) -> Filter {
    Filter { clauses: vec![clause] }
}

fn compare(name: &str, op: Operator, v: Value) -> Filter {
    single(any(vec![pred(column(name), Test::Compare(op, v))]))
}

fn like(pattern: &str) -> Test {
    Test::Like(pattern.to_string())
}

fn full_text(term: &str) -> Vec<Predicate> {
    let pattern = format!("%{term}%");
    vec![
        pred(column("location"), like(&pattern)),
        pred(column("title"), like(&pattern)),
        pred(Target::JoinedArray("authors".to_string()), like(&pattern)),
    ]
}

#[test]
fn conditions() {
    match filter("foo=bar") {
        Ok(_) => panic!("invalid field"),
        Err(e) => assert_eq!(e, Error::UnknownField("foo".to_string())),
    }
    assert_eq!(filter("location=foo").unwrap(), compare("location", Operator::Equal, text("foo")));
    assert_eq!(filter(r"location=foo\=bar").unwrap(), compare("location", Operator::Equal, text("foo=bar")));
    assert_eq!(
        filter(r"location~foo\~bar").unwrap(),
        single(any(vec![pred(column("location"), like("%foo~bar%"))]))
    );
    assert_eq!(filter(r"location=foo\\bar").unwrap(), compare("location", Operator::Equal, text(r"foo\bar")));
    assert_eq!(
        filter("location!=foo").unwrap(),
        single(all(vec![pred(column("location"), Test::Compare(Operator::NotEqual, text("foo")))]))
    );
    assert_eq!(filter("location~foo").unwrap(), single(any(vec![pred(column("location"), like("%foo%"))])));
    assert_eq!(
        filter("location~f_o%o").unwrap(),
        single(any(vec![pred(column("location"), like(r"%f\_o\%o%"))]))
    );
    assert_eq!(
        filter("location!~foo").unwrap(),
        single(all(vec![pred(column("location"), Test::NotLike("%foo%".to_string()))]))
    );
    assert_eq!(
        filter("location!~f_o%o").unwrap(),
        single(all(vec![pred(column("location"), Test::NotLike(r"%f\_o\%o%".to_string()))]))
    );
    assert_eq!(filter("location>foo").unwrap(), compare("location", Operator::GreaterThan, text("foo")));
    assert_eq!(filter("location>=foo").unwrap(), compare("location", Operator::GreaterThanOrEqual, text("foo")));
    assert_eq!(filter("location<foo").unwrap(), compare("location", Operator::LessThan, text("foo")));
    assert_eq!(filter("location<=foo").unwrap(), compare("location", Operator::LessThanOrEqual, text("foo")));
    assert_eq!(
        filter("location=a|b|c").unwrap(),
        single(any(vec![
            pred(column("location"), Test::Compare(Operator::Equal, text("a"))),
            pred(column("location"), Test::Compare(Operator::Equal, text("b"))),
            pred(column("location"), Test::Compare(Operator::Equal, text("c"))),
        ]))
    );
    assert_eq!(
        filter("location!=a|b|c").unwrap(),
        single(all(vec![
            pred(column("location"), Test::Compare(Operator::NotEqual, text("a"))),
            pred(column("location"), Test::Compare(Operator::NotEqual, text("b"))),
            pred(column("location"), Test::Compare(Operator::NotEqual, text("c"))),
        ]))
    );
    assert_eq!(
        filter(r"location=foo|\&\|").unwrap(),
        single(any(vec![
            pred(column("location"), Test::Compare(Operator::Equal, text("foo"))),
            pred(column("location"), Test::Compare(Operator::Equal, text("&|"))),
        ]))
    );
    let date = CalendarDate { year: 2023, month: 11, day: 3 };
    assert_eq!(
        filter("published>2023-11-03T23:20:50.52Z").unwrap(),
        compare(
            "published",
            Operator::GreaterThan,
            Value::Timestamp(Timestamp {
                date,
                hour: 23,
                minute: 20,
                second: 50,
                nanosecond: 520_000_000,
                offset_seconds: 0
            })
        )
    );
    assert_eq!(
        filter("published>2023-11-03T23:20:51-04:00").unwrap(),
        compare(
            "published",
            Operator::GreaterThan,
            Value::Timestamp(Timestamp {
                date,
                hour: 23,
                minute: 20,
                second: 51,
                nanosecond: 0,
                offset_seconds: -4 * 3600
            })
        )
    );
    assert_eq!(filter("published>2023-11-03").unwrap(), compare("published", Operator::GreaterThan, Value::Date(date)));
    assert_eq!(filter("published=null").unwrap(), single(any(vec![pred(column("published"), Test::IsNull)])));
    assert_eq!(filter("published!=NULL").unwrap(), single(all(vec![pred(column("published"), Test::IsNotNull)])));
    assert_eq!(
        filter("severity=high").unwrap(),
        compare("severity", Operator::Equal, Value::Enum("Severity".to_string(), "high".to_string()))
    );
    assert_eq!(
        filter("severity>low").unwrap(),
        compare("severity", Operator::GreaterThan, Value::Enum("Severity".to_string(), "low".to_string()))
    );
}

#[test]
fn complex_ilikes() {
    assert_eq!(filter("foo").unwrap(), single(any(full_text("foo"))));
    assert_eq!(filter(r"type\=jar").unwrap(), single(any(full_text("type=jar"))));
    assert_eq!(filter(r"type\~\=\!\>\<jar").unwrap(), single(any(full_text("type~=!><jar"))));
    assert_eq!(
        filter("foo&location=bar").unwrap(),
        Filter {
            clauses: vec![
                any(full_text("foo")),
                any(vec![pred(column("location"), Test::Compare(Operator::Equal, text("bar")))]),
            ]
        }
    );
    let id = 0x0e840505_e29b_41d4_a716_665544004400u128;
    assert_eq!(
        filter(r"m\&m's&location=f\&oo&id=0e840505-e29b-41d4-a716-665544004400").unwrap(),
        Filter {
            clauses: vec![
                any(full_text("m&m's")),
                any(vec![pred(column("location"), Test::Compare(Operator::Equal, text("f&oo")))]),
                any(vec![pred(column("id"), Test::Compare(Operator::Equal, Value::Uuid(id)))]),
            ]
        }
    );
    let mut abc = full_text("a");
    abc.extend(full_text("b"));
    abc.extend(full_text("c"));
    assert_eq!(filter("a|b|c").unwrap(), single(any(abc)));
    let mut ab = full_text("a");
    ab.extend(full_text("b"));
    assert_eq!(
        filter("a|b&id=0e840505-e29b-41d4-a716-665544004400").unwrap(),
        Filter {
            clauses: vec![
                any(ab),
                any(vec![pred(column("id"), Test::Compare(Operator::Equal, Value::Uuid(id)))]),
            ]
        }
    );
    assert_eq!(
        filter("a&b").unwrap(),
        Filter { clauses: vec![any(full_text("a")), any(full_text("b"))] }
    );
    assert_eq!(
        filter("here&location!~there|hereford").unwrap(),
        Filter {
            clauses: vec![
                any(full_text("here")),
                all(vec![
                    pred(column("location"), Test::NotLike("%there%".to_string())),
                    pred(column("location"), Test::NotLike("%hereford%".to_string())),
                ]),
            ]
        }
    );
}

#[test]
fn empty_values() {
    assert_eq!(filter("location=").unwrap(), compare("location", Operator::Equal, text("")));
    assert_eq!(
        filter("location=|foo").unwrap(),
        single(any(vec![
            pred(column("location"), Test::Compare(Operator::Equal, text(""))),
            pred(column("location"), Test::Compare(Operator::Equal, text("foo"))),
        ]))
    );
    assert_eq!(
        filter("location=foo|").unwrap(),
        single(any(vec![
            pred(column("location"), Test::Compare(Operator::Equal, text("foo"))),
            pred(column("location"), Test::Compare(Operator::Equal, text(""))),
        ]))
    );
    assert_eq!(
        filter("location=&authors=&purl:namespace=").unwrap(),
        Filter {
            clauses: vec![
                any(vec![pred(column("location"), Test::Compare(Operator::Equal, text("")))]),
                any(vec![pred(column("authors"), Test::Contains(text("")))]),
                any(vec![pred(
                    Target::JsonField("purl".to_string(), "namespace".to_string()),
                    Test::Compare(Operator::Equal, text(""))
                )]),
            ]
        }
    );
}

#[test]
fn human_time() {
    let day = |year, month, day| Value::Date(CalendarDate { year, month, day });
    assert_eq!(
        filter("published<yesterday").unwrap(),
        compare("published", Operator::LessThan, day(2009, 12, 31))
    );
    assert_eq!(
        filter("published>last week").unwrap(),
        compare("published", Operator::GreaterThan, day(2009, 12, 25))
    );
    assert_eq!(
        filter("published=3 days ago").unwrap(),
        compare("published", Operator::Equal, Value::Timestamp(at(2009, 12, 29, 0, 0, 0)))
    );
    assert_eq!(
        filter("published=Tomorrow").unwrap(),
        compare("published", Operator::Equal, day(2010, 1, 2))
    );
    assert_eq!(
        filter("published=2 weeks ago").unwrap(),
        compare("published", Operator::Equal, Value::Timestamp(at(2009, 12, 18, 0, 0, 0)))
    );
}

#[test]
fn human_time_instants() {
    let ts = |q: &str| match filter(q).unwrap().clauses[0].predicates[0].test.clone() {
        Test::Compare(_, Value::Timestamp(t)) => t,
        other => panic!("{other:?}"),
    };
    assert_eq!(ts("published>now"), at(2010, 1, 1, 0, 0, 0));
    assert_eq!(ts("published>In 2 hours"), at(2010, 1, 1, 2, 0, 0));
    assert_eq!(ts("published>10 seconds ago"), at(2009, 12, 31, 23, 59, 50));
    assert_eq!(ts("published>An hour ago"), at(2009, 12, 31, 23, 0, 0));
    assert_eq!(ts("published>A minute ago"), at(2009, 12, 31, 23, 59, 0));
    assert_eq!(ts("published>A week ago"), at(2009, 12, 25, 0, 0, 0));
    assert_eq!(ts("published>in 3 days"), at(2010, 1, 4, 0, 0, 0));
    let noon = Timestamp { offset_seconds: -4 * 3600, ..at(2024, 2, 28, 12, 30, 15) };
    assert_eq!(
        build_filter("published<36 hours ago", &advisory_columns(), noon).unwrap(),
        compare(
            "published",
            Operator::LessThan,
            Value::Timestamp(Timestamp { offset_seconds: -4 * 3600, ..at(2024, 2, 27, 0, 30, 15) })
        )
    );
    assert_eq!(
        filter("published>a year ago").err(),
        Some(Error::ValueParse("published".to_string(), "a year ago".to_string()))
    );
}

#[test]
fn unknown_field_is_reported() {
    assert_eq!(filter("foo=bar").err(), Some(Error::UnknownField("foo".to_string())));
    assert_eq!(filter("nope:key=1").err(), Some(Error::UnknownField("nope:key".to_string())));
    assert_eq!(filter("location:key=1").err(), Some(Error::UnknownField("location:key".to_string())));
}

#[test]
fn unsupported_operator_and_bad_values() {
    assert_eq!(filter("id~abc").err(), Some(Error::UnsupportedOperator("id".to_string())));
    assert_eq!(filter("authors>x").err(), Some(Error::UnsupportedOperator("authors".to_string())));
    assert_eq!(
        filter("id=not-a-uuid").err(),
        Some(Error::ValueParse("id".to_string(), "not-a-uuid".to_string()))
    );
    assert_eq!(
        filter("severity=extreme").err(),
        Some(Error::ValueParse("severity".to_string(), "extreme".to_string()))
    );
    assert_eq!(
        filter("published>someday").err(),
        Some(Error::ValueParse("published".to_string(), "someday".to_string()))
    );
    assert_eq!(
        filter("published>2023-02-30").err(),
        Some(Error::ValueParse("published".to_string(), "2023-02-30".to_string()))
    );
}

#[test]
fn invalid_escape_is_reported_with_position() {
    assert_eq!(filter(r"location=a\b").err(), Some(Error::InvalidQueryEscape(10)));
    assert_eq!(filter(r"abc\").err(), Some(Error::InvalidQueryEscape(3)));
}

#[test]
fn enum_values_match_any_case() {
    assert_eq!(
        filter("severity=HIGH").unwrap(),
        compare("severity", Operator::Equal, Value::Enum("Severity".to_string(), "high".to_string()))
    );
}

#[test]
fn empty_query_has_no_clauses() {
    assert_eq!(filter("").unwrap(), Filter { clauses: vec![] });
    assert_eq!(filter("&&").unwrap(), Filter { clauses: vec![] });
}

#[test]
fn building_twice_gives_the_same_filter() {
    let q = r"here&location!~there|hereford&published>2023-11-03&m\&m";
    assert_eq!(filter(q).unwrap(), filter(q).unwrap());
}

#[test]
fn escaped_delimiters_stay_in_values() {
    assert_eq!(
        filter(r"location=a\|b\&c\=d\!e\~f\>g\<h\\i").unwrap(),
        compare("location", Operator::Equal, text(r"a|b&c=d!e~f>g<h\i"))
    );
}

#[test]
fn full_text_follows_column_order() {
    let columns = Columns::new().add("b", ColumnType::TextArray).add("n", ColumnType::Integer).add("a", ColumnType::Text);
    assert_eq!(
        build_filter("x", &columns, new_year()).unwrap(),
        single(any(vec![
            pred(Target::JoinedArray("b".to_string()), like("%x%")),
            pred(column("a"), like("%x%")),
        ]))
    );
}

#[test]
fn integer_and_boolean_columns() {
    let columns = Columns::new().add("count", ColumnType::Integer).add("ok", ColumnType::Boolean);
    let today = new_year();
    assert_eq!(
        build_filter("count>=-42", &columns, today).unwrap(),
        compare("count", Operator::GreaterThanOrEqual, Value::Integer(-42))
    );
    assert_eq!(
        build_filter("ok=TRUE|false", &columns, today).unwrap(),
        single(any(vec![
            pred(column("ok"), Test::Compare(Operator::Equal, Value::Boolean(true))),
            pred(column("ok"), Test::Compare(Operator::Equal, Value::Boolean(false))),
        ]))
    );
    assert_eq!(
        build_filter("count=4x", &columns, today).err(),
        Some(Error::ValueParse("count".to_string(), "4x".to_string()))
    );
    assert_eq!(build_filter("ok~t", &columns, today).err(), Some(Error::UnsupportedOperator("ok".to_string())));
}

#[test]
fn filters_combine_with_and() {
    let a = filter("location=a").unwrap();
    let b = filter("title~b&published=null").unwrap();
    let both = Filter::all(vec![a.clone(), b.clone()]);
    let mut expected = a.clauses.clone();
    expected.extend(b.clauses.clone());
    assert_eq!(both, Filter { clauses: expected });
    assert_eq!(Filter::all(vec![]), Filter { clauses: vec![] });
}

#[test]
fn integer_values_follow_decimal_syntax() {
    let columns = Columns::new().add("count", ColumnType::Integer);
    let now = new_year();
    let read = |v: &str| match build_filter(&format!("count={v}"), &columns, now) {
        Ok(f) => match &f.clauses[0].predicates[0].test {
            Test::Compare(_, Value::Integer(n)) => Some(*n),
            other => panic!("{other:?}"),
        },
        Err(_) => None,
    };
    assert_eq!(read("9223372036854775807"), Some(i64::MAX));
    assert_eq!(read("-9223372036854775808"), Some(i64::MIN));
    assert_eq!(read("9223372036854775808"), None);
    assert_eq!(read("-9223372036854775809"), None);
    assert_eq!(read("+17"), Some(17));
    assert_eq!(read("0000000000000000000000042"), Some(42));
    assert_eq!(read("-"), None);
    assert_eq!(read(""), None);
    assert_eq!(read("1_000"), None);
}
