use aro::filter::{build_filter, filter_value, get_field_value, matching_ids, SearchCard};
use aro::parser::{parse_filters, parse_raw_filter, parse_raw_filters, readable_query, Field, Operator, RawCardFilter, Value};
use aro::data::{parse_cents, Card, ReleaseCatalog};
use aro::text::decimal;

fn one(input: &str) -> RawCardFilter {
    let (rest, filter) = parse_raw_filter(input).unwrap();
    assert_eq!(rest, "");
    filter
}

#[test]
fn sequential_parsing_test() {
    let (rest, filter) = parse_raw_filter("atk>=100 l:4").unwrap();
    assert_eq!(filter, RawCardFilter(Field::Atk, Operator::GreaterEqual, Value::Numerical(100)));
    assert_eq!(parse_raw_filter(&rest), Ok(("".to_owned(), RawCardFilter(Field::Level, Operator::Equal, Value::Numerical(4)))));

    assert_eq!(
        parse_raw_filters("atk>=100 l=4"),
        Ok((
            "".to_owned(),
            vec![
                RawCardFilter(Field::Atk, Operator::GreaterEqual, Value::Numerical(100)),
                RawCardFilter(Field::Level, Operator::Equal, Value::Numerical(4))
            ]
        ))
    );

    assert_eq!(
        parse_raw_filters(r#"t:counter c:trap o:"negate the summon""#),
        Ok((
            "".to_owned(),
            vec![
                RawCardFilter(Field::Type, Operator::Equal, Value::String("counter".into())),
                RawCardFilter(Field::Class, Operator::Equal, Value::String("trap".into())),
                RawCardFilter(Field::Text, Operator::Equal, Value::String("negate the summon".into())),
            ]
        ))
    );
}

#[test]
fn test_parse_raw_filters_with_multiple_values() {
    let input = "level=4|5|6";
    let expected_output = vec![RawCardFilter(
        Field::Level,
        Operator::Equal,
        Value::Multiple(vec![Value::Numerical(4), Value::Numerical(5), Value::Numerical(6)]),
    )];
    assert_eq!(parse_raw_filters(input), Ok(("".to_owned(), expected_output)));
}

#[test]
fn quoted_value_test() {
    let (rest, filter) = parse_raw_filter(r#"o:"destroy that target""#).unwrap();
    assert_eq!(rest, "");
    assert_eq!(filter, RawCardFilter(Field::Text, Operator::Equal, Value::String("destroy that target".into())));
}

#[test]
fn questionmark_should_be_minus_one() {
    assert!(filter_value(&Operator::Equal, &Value::Numerical(-1), &Value::String("?".to_owned())));
    assert!(!filter_value(&Operator::NotEqual, &Value::Numerical(-1), &Value::String("?".to_owned())));
    assert!(!filter_value(&Operator::LessEqual, &Value::Numerical(1000), &Value::String("?".to_owned())));
}

#[test]
fn successful_single_clauses() {
    assert_eq!(one("t=pyro"), RawCardFilter(Field::Type, Operator::Equal, Value::String("pyro".into())));
    assert_eq!(one("t:PYro"), RawCardFilter(Field::Type, Operator::Equal, Value::String("pyro".into())));
    assert_eq!(one("t==warrior"), RawCardFilter(Field::Type, Operator::Equal, Value::String("warrior".into())));
    assert_eq!(one("atk>=100"), RawCardFilter(Field::Atk, Operator::GreaterEqual, Value::Numerical(100)));
    assert_eq!(one("Necrovalley"), RawCardFilter(Field::Name, Operator::Equal, Value::String("necrovalley".into())));
    assert_eq!(one("l=10"), RawCardFilter(Field::Level, Operator::Equal, Value::Numerical(10)));
    assert_eq!(one("Ib"), RawCardFilter(Field::Name, Operator::Equal, Value::String("ib".into())));
    assert_eq!(one("c!=synchro"), RawCardFilter(Field::Class, Operator::NotEqual, Value::String("synchro".into())));
    assert_eq!(one("ATK=>5"), RawCardFilter(Field::Atk, Operator::GreaterEqual, Value::Numerical(5)));
    assert_eq!(one("def=<-1"), RawCardFilter(Field::Def, Operator::LessEqual, Value::Numerical(-1)));
    assert_eq!(one("lr<3"), RawCardFilter(Field::LinkRating, Operator::Less, Value::Numerical(3)));
    assert_eq!(one("a"), RawCardFilter(Field::Name, Operator::Equal, Value::String("a".into())));
}

#[test]
fn unsuccessful_queries() {
    for input in ["atk<=>1", "l===10", "t=", "=100", "t:\"unterminated", "o:/open", "", "   ", "l=|", "t:a|b>"] {
        assert!(parse_filters(input).is_err(), "{input:?} should not parse");
    }
}

#[test]
fn atk_ordering_typo_is_rejected_before_scan() {
    let err = parse_filters("atk<=>1").unwrap_err();
    assert!(!err.is_empty());
}

#[test]
fn leftover_input_is_reported() {
    let err = parse_filters("atk>1 l=").unwrap_err();
    assert!(err.contains("l="), "{err}");
}

#[test]
fn too_many_clauses_are_rejected() {
    let ok = vec!["x"; 32].join(" ");
    assert!(parse_filters(&ok).is_ok());
    let too_many = vec!["x"; 33].join(" ");
    assert!(parse_filters(&too_many).is_err());
}

#[test]
fn ordering_on_text_field_is_a_compile_error() {
    assert!(parse_filters("t>warrior").is_err());
    assert!(parse_filters("name<b").is_err());
    assert!(build_filter(RawCardFilter(Field::SetCode, Operator::GreaterEqual, Value::String("x".into()))).is_err());
    assert!(build_filter(RawCardFilter(Field::Atk, Operator::GreaterEqual, Value::Numerical(1))).is_ok());
}

#[test]
fn adjacent_words_coalesce() {
    let (raw, filters) = parse_filters("ally of justice").unwrap();
    assert_eq!(raw, vec![RawCardFilter(Field::Name, Operator::Equal, Value::String("ally of justice".into()))]);
    assert_eq!(filters.len(), 1);
    assert_eq!(readable_query(&raw), "name is \"ally of justice\"");
}

#[test]
fn clauses_are_ordered_cheapest_first() {
    let (raw, _) = parse_filters("dark atk>=100 magician").unwrap();
    assert_eq!(
        raw,
        vec![
            RawCardFilter(Field::Atk, Operator::GreaterEqual, Value::Numerical(100)),
            RawCardFilter(Field::Name, Operator::Equal, Value::String("dark magician".into())),
        ]
    );
    assert_eq!(readable_query(&raw), "ATK >= 100 and name is \"dark magician\"");
}

#[test]
fn regex_with_alternation_is_one_value() {
    let (raw, filters) = parse_filters("o:/(a|b) card/").unwrap();
    assert_eq!(raw.len(), 1);
    assert_eq!(filters.len(), 1);
    assert!(matches!(raw[0].2, Value::Regex(_)));
    assert_eq!(raw[0].2.describe(), "/(a|b) card/");
    assert!(parse_filters("o:/(unclosed/").is_err());
}

#[test]
fn alternatives_collapse_and_mix() {
    assert_eq!(one("l=3|"), RawCardFilter(Field::Level, Operator::Equal, Value::Numerical(3)));
    assert_eq!(
        one("t=Zombie|4"),
        RawCardFilter(Field::Type, Operator::Equal, Value::Multiple(vec![Value::String("zombie".into()), Value::Numerical(4)]))
    );
    assert_eq!(one("l=4|5").2.describe(), "4 or 5");
}

#[test]
fn parsing_twice_selects_the_same_cards() {
    let cards: Vec<SearchCard> = (0..6)
        .map(|i| {
            let card = Card { id: i, level: Some(i as i32), name: format!("Card {i}"), ..Default::default() };
            SearchCard::new(&card, &ReleaseCatalog::new(&vec![]))
        })
        .collect();
    let (_, first) = parse_filters("l>=2 card l!=4").unwrap();
    let (_, second) = parse_filters("l>=2 card l!=4").unwrap();
    assert_eq!(matching_ids(&first, &cards), matching_ids(&second, &cards));
    assert_eq!(matching_ids(&first, &cards), vec![2, 3, 5]);
}

#[test]
fn field_values_of_a_projection() {
    let card = Card { id: 1, name: "Foo".into(), atk: Some(5), typeline: Some(vec!["Zombie".into()]), ..Default::default() };
    let projected = SearchCard::new(&card, &ReleaseCatalog::new(&vec![]));
    assert_eq!(get_field_value(&projected, Field::Atk), Value::Numerical(5));
    assert_eq!(get_field_value(&projected, Field::Def), Value::Absent);
    assert_eq!(get_field_value(&projected, Field::Type), Value::Multiple(vec![Value::String("zombie".into())]));
    assert_eq!(get_field_value(&projected, Field::Name), Value::MultiplePartial(vec!["foo".into()]));
    assert_eq!(get_field_value(&projected, Field::Attribute), Value::String(String::new()));
}

#[test]
fn filter_number_on_absent_is_false() {
    for op in [Operator::Equal, Operator::NotEqual, Operator::Less, Operator::Greater] {
        assert!(!op.filter_number(None, 1));
    }
    assert!(Operator::NotEqual.filter_number(Some(2), 1));
    assert!(Operator::LessEqual.filter_number(Some(1), 1));
}

#[test]
fn prices_parse_to_cents() {
    assert_eq!(parse_cents("0.22"), Some(22));
    assert_eq!(parse_cents("2.60"), Some(260));
    assert_eq!(parse_cents("12"), Some(1200));
    assert_eq!(parse_cents("1.5"), Some(150));
    assert_eq!(parse_cents("1.999"), Some(199));
    assert_eq!(parse_cents(""), None);
    assert_eq!(parse_cents("abc"), None);
    assert_eq!(parse_cents(".5"), None);
    assert_eq!(parse_cents("99999999999"), None);
}

#[test]
fn decimal_rendering() {
    assert_eq!(decimal(0), "0");
    assert_eq!(decimal(-1), "-1");
    assert_eq!(decimal(2147483647), "2147483647");
    assert_eq!(decimal(i32::MIN), "-2147483648");
}

#[test]
fn integers_follow_32_bit_range() {
    assert_eq!(one("atk=2147483647").2, Value::Numerical(2147483647));
    assert_eq!(one("atk=-2147483648").2, Value::Numerical(-2147483648));
    assert_eq!(one("atk=2147483648").2, Value::String("2147483648".into()));
    assert_eq!(one("atk=+7").2, Value::Numerical(7));
}

#[test]
fn compile_error_names_the_clause() {
    let err = build_filter(RawCardFilter(Field::SetCode, Operator::GreaterEqual, Value::String("x".into()))).unwrap_err();
    assert_eq!(err, "Cannot compile clause: set >= x");
    assert_eq!(parse_filters("t>warrior").unwrap_err(), "Cannot compile clause: type > warrior");
}

#[test]
fn undefined_value_shapes_are_compile_errors() {
    for input in ["atk=abc", "name:/x/", "set=5", "t:/x/", "l=3|abc", "o:5", "name=7"] {
        assert!(parse_raw_filter(input).is_ok(), "{input:?} should parse");
        assert!(parse_filters(input).is_err(), "{input:?} should not compile");
    }
    assert_eq!(parse_filters("atk=abc").unwrap_err(), "Cannot compile clause: ATK is abc");
    for input in ["atk<?", "def=?", "o:/x/", "a!=/dark/", "l=3|4"] {
        assert!(parse_filters(input).is_ok(), "{input:?} should compile");
    }
}

#[test]
fn error_texts_are_fixed_by_the_input() {
    assert_eq!(parse_filters("atk>1 l=").unwrap_err(), parse_filters("atk>1 l=").unwrap_err());
    assert_eq!(parse_filters("atk>1 l=").unwrap_err(), "Input was not fully parsed. Left over:  l=");
    assert_eq!(parse_filters("=100").unwrap_err(), "Could not read a clause in: =100");
    assert_eq!(parse_filters("o:5 t>x").unwrap_err(), "Cannot compile clause: type > x");
}

#[test]
fn quoted_content_is_verbatim_text() {
    assert_eq!(one("o:\"ATK: 0\""), RawCardFilter(Field::Text, Operator::Equal, Value::String("atk: 0".into())));
    assert_eq!(one("o:\"100\""), RawCardFilter(Field::Text, Operator::Equal, Value::String("100".into())));
    assert_eq!(one("o:\"a|b\""), RawCardFilter(Field::Text, Operator::Equal, Value::String("a|b".into())));
}
