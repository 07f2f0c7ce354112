use unit_graph::convert::parse_query;
use unit_graph::distance::get_edit_distance;
use unit_graph::errors::Error;
use unit_graph::graph::create_graph;
use unit_graph::parse::parse_number;
use unit_graph::pgraph::{empty_cost, empty_heuristic};

#[test]
fn edit_distance_classic_pair() {
    let a = String::from("kitten");
    let b = String::from("sitting");
    assert_eq!(get_edit_distance(&a, &b), 3);
}

#[test]
fn edit_distance_to_empty_is_length() {
    let a = String::from("");
    let b = String::from("abc");
    assert_eq!(get_edit_distance(&a, &b), 3);
    assert_eq!(get_edit_distance(&b, &a), 3);
}

#[test]
fn edit_distance_of_equal_strings_is_zero() {
    let a = String::from("metre");
    let b = String::from("metre");
    assert_eq!(get_edit_distance(&a, &b), 0);
}

#[test]
fn zero_estimates_for_search() {
    assert_eq!(empty_heuristic(42usize), 0);
    assert_eq!(empty_cost("anything"), 0);
}

#[test]
fn decimal_number_parses_exactly() {
    let tok: Vec<char> = "2.4".chars().collect();
    let v = parse_number(&tok).unwrap();
    assert_eq!((v.num, v.den), (24, 10));
}

#[test]
fn integer_number_parses_exactly() {
    let tok: Vec<char> = "5280".chars().collect();
    let v = parse_number(&tok).unwrap();
    assert_eq!((v.num, v.den), (5280, 1));
}

#[test]
fn non_numeric_value_is_invalid_quantity() {
    let tok: Vec<char> = "12a".chars().collect();
    assert_eq!(parse_number(&tok), Err(Error::InvalidQuantity));
    let two_dots: Vec<char> = "1.2.3".chars().collect();
    assert_eq!(parse_number(&two_dots), Err(Error::InvalidQuantity));
}

#[test]
fn table_line_without_equals_is_malformed() {
    assert_eq!(
        create_graph("12 inches(in) 1 foot(ft)").err(),
        Some(Error::MalformedTableLine)
    );
}

#[test]
fn table_line_with_two_equals_is_malformed() {
    assert_eq!(
        create_graph("1 a = 2 b = 3 c").err(),
        Some(Error::MalformedTableLine)
    );
}

#[test]
fn table_value_that_is_not_numeric_is_invalid() {
    assert_eq!(
        create_graph("x inches(in) = 1 foot(ft)").err(),
        Some(Error::InvalidQuantity)
    );
}

#[test]
fn zero_table_value_is_invalid() {
    assert_eq!(
        create_graph("0 inches(in) = 1 foot(ft)").err(),
        Some(Error::InvalidQuantity)
    );
}

#[test]
fn blank_lines_are_skipped() {
    let g = create_graph("\n12 inches(in) = 1 foot(ft)\n\n   \n1 foot(ft) = 0.3048 meters(m)\n")
        .unwrap();
    assert_eq!(g.unit_count(), 3);
}

#[test]
fn names_are_lowercased_and_singularized() {
    let g = create_graph("12 Inches(IN) = 1 Foot(FT)").unwrap();
    let listing = g.unit_list();
    assert_eq!(listing[0], "inche(in)");
    assert_eq!(listing[1], "foot(ft)");
}

#[test]
fn missing_abbreviation_is_suppressed_in_listing() {
    let g = create_graph("1 smoot = 67 inches(in)").unwrap();
    let listing = g.unit_list();
    assert_eq!(listing[0], "smoot");
    assert_eq!(listing[1], "inche(in)");
}

#[test]
fn repeated_unit_without_abbreviation_deduplicates() {
    let g = create_graph("1 foot(ft) = 12 inches(in)\n3 feet = 1 yard(yd)").unwrap();
    // "feet" is within edit distance two of "foot", so no new node appears
    assert_eq!(g.unit_count(), 3);
}

#[test]
fn query_without_value_is_malformed() {
    assert_eq!(parse_query("hello").err(), Some(Error::MalformedQuery));
}

#[test]
fn query_without_separator_is_malformed() {
    assert_eq!(parse_query("12 meters feet").err(), Some(Error::MalformedQuery));
}

#[test]
fn query_with_bad_value_is_invalid_quantity() {
    assert_eq!(parse_query("12x meters to feet").err(), Some(Error::InvalidQuantity));
}

#[test]
fn query_with_one_compound_side_is_malformed() {
    assert_eq!(
        parse_query("60 miles/hour to km").err(),
        Some(Error::MalformedQuery)
    );
}

#[test]
fn query_tokens_come_out_normalized() {
    let q = parse_query("2.4 Meters in MM").unwrap();
    assert_eq!((q.value.num, q.value.den), (24, 10));
    assert_eq!(q.from_name, "meter");
    assert_eq!(q.to_name, "mm");
    assert!(q.from_den_name.is_none());
    assert!(q.to_den_name.is_none());
}

#[test]
fn arrow_separator_is_accepted() {
    let q = parse_query("1 foot -> inches").unwrap();
    assert_eq!(q.from_name, "foot");
    assert_eq!(q.to_name, "inche");
}
