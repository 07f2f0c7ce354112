use unit_graph::convert::{convert, parse_query};
use unit_graph::errors::Error;
use unit_graph::factor::get_conversion_factor;
use unit_graph::graph::{create_graph, UnitGraph};
use unit_graph::rational::Rational;
use unit_graph::resolve::get_node_from_name;

fn build(table: &str) -> UnitGraph {
    create_graph(table).expect("table must build")
}

fn answer(g: &UnitGraph, query: &str) -> Result<Rational, Error> {
    let q = parse_query(query)?;
    convert(g, &q)
}

fn as_f64(r: Rational) -> f64 {
    r.num as f64 / r.den as f64
}

#[test]
fn inches_to_feet_direct() {
    let g = build("12 inches(in) = 1 foot(ft)");
    let r = answer(&g, "24 in to ft").unwrap();
    assert_eq!((r.num, r.den), (2, 1));
}

#[test]
fn feet_to_inches_reverse_edge() {
    let g = build("12 inches(in) = 1 foot(ft)");
    let r = answer(&g, "1 ft to in").unwrap();
    assert_eq!((r.num, r.den), (12, 1));
}

#[test]
fn miles_to_inches_two_hop_path() {
    let g = build("1 mile(mi) = 5280 feet(ft)\n1 foot(ft) = 12 inches(in)");
    let r = answer(&g, "1 mi to in").unwrap();
    assert_eq!((r.num, r.den), (63360, 1));
}

#[test]
fn direct_factor_and_its_reciprocal() {
    let g = build("12 inches(in) = 1 foot(ft)");
    let inches = String::from("in");
    let feet = String::from("ft");
    let i = get_node_from_name(&g.units, &inches, 2).unwrap();
    let f = get_node_from_name(&g.units, &feet, 2).unwrap();
    let forward = get_conversion_factor(&g, i, f).unwrap();
    let back = get_conversion_factor(&g, f, i).unwrap();
    // stored factor 1/12 one way, exactly its reciprocal the other way
    assert_eq!((forward.num, forward.den), (1, 12));
    assert_eq!((back.num, back.den), (12, 1));
}

#[test]
fn path_factor_is_product_of_leg_factors() {
    let g = build("1 mile(mi) = 5280 feet(ft)\n1 foot(ft) = 12 inches(in)");
    let mi = get_node_from_name(&g.units, &String::from("mi"), 2).unwrap();
    let ft = get_node_from_name(&g.units, &String::from("ft"), 2).unwrap();
    let inch = get_node_from_name(&g.units, &String::from("in"), 2).unwrap();
    let whole = get_conversion_factor(&g, mi, inch).unwrap();
    let leg1 = get_conversion_factor(&g, mi, ft).unwrap();
    let leg2 = get_conversion_factor(&g, ft, inch).unwrap();
    // cross-multiplied equality of whole and leg1 * leg2
    assert_eq!(
        whole.num as u128 * (leg1.den as u128 * leg2.den as u128),
        (leg1.num as u128 * leg2.num as u128) * whole.den as u128
    );
}

#[test]
fn round_trip_returns_the_value_exactly() {
    let g = build("1 mile(mi) = 5280 feet(ft)\n1 foot(ft) = 12 inches(in)");
    let there = answer(&g, "7 mi to in").unwrap();
    assert_eq!((there.num, there.den), (443520, 1));
    let back = answer(&g, "443520 in to mi").unwrap();
    assert_eq!((back.num, back.den), (7, 1));
}

#[test]
fn compound_speed_conversion() {
    let g = build("1 mile(mi) = 1.609 kilometers(km)\n1 hour(hr) = 60 minutes(min)");
    let r = answer(&g, "60 miles/hour to km/hour").unwrap();
    assert!((as_f64(r) - 96.54).abs() < 1e-9);
}

#[test]
fn compound_with_per_word() {
    let g = build("1 mile(mi) = 1.609 kilometers(km)\n1 hour(hr) = 60 minutes(min)");
    let r = answer(&g, "60 miles per hour to km per hour").unwrap();
    assert!((as_f64(r) - 96.54).abs() < 1e-9);
}

#[test]
fn compound_denominators_divide() {
    // 30 miles per hour in feet per minute: 30 * 5280 / 60 = 2640
    let g = build("1 mile(mi) = 5280 feet(ft)\n1 hour(hr) = 60 minutes(min)");
    let r = answer(&g, "30 miles/hour to feet/minute").unwrap();
    assert_eq!((r.num, r.den), (2640, 1));
}

#[test]
fn unknown_far_name_is_unresolved() {
    let g = build("12 inches(in) = 1 foot(ft)");
    assert_eq!(answer(&g, "1 zorblat to ft"), Err(Error::UnresolvedUnit));
}

#[test]
fn exact_name_beats_nearer_fuzzy_candidate() {
    // "mile" is an exact full-name match; "mild" is at distance one and
    // must not be considered once the exact match exists.
    let g = build("1 mile(mi) = 1609 meters(m)\n1 mild(md) = 2 meters(m)");
    let r = answer(&g, "1 mile to meter").unwrap();
    assert_eq!((r.num, r.den), (1609, 1));
}

#[test]
fn typo_resolves_through_edit_distance() {
    let g = build("1 mile(mi) = 5280 feet(ft)");
    // "milez" is within distance two of "mile"
    let r = answer(&g, "1 milez to feet").unwrap();
    assert_eq!((r.num, r.den), (5280, 1));
}

#[test]
fn two_char_token_never_fuzzy_matches() {
    let g = build("1 qq = 2 zz");
    // "qx" is within distance one of "qq", but tokens of three characters
    // or fewer are excluded from fuzzy matching.
    let q = String::from("qx");
    assert_eq!(get_node_from_name(&g.units, &q, 2), None);
}

#[test]
fn ambiguous_exact_matches_resolve_to_none() {
    // two distinct nodes deliberately share the full name "widget"
    let g = build("1 widget(w1) = 2 gadget(g1)\n1 widget(w2) = 3 sprocket(s1)");
    let q = String::from("widget");
    assert_eq!(get_node_from_name(&g.units, &q, 2), None);
    assert_eq!(answer(&g, "1 widget to gadget"), Err(Error::UnresolvedUnit));
}

#[test]
fn disconnected_units_have_no_path() {
    let g = build("12 inches(in) = 1 foot(ft)\n1 hour(hr) = 60 minutes(min)");
    assert_eq!(answer(&g, "1 ft to hr"), Err(Error::NoConversionPath));
}

#[test]
fn overflowing_factor_reports_overflow() {
    let big = "1 aaaa = 18446744073709551615 bbbb\n1 bbbb = 18446744073709551615 cccc";
    let g = build(big);
    assert_eq!(answer(&g, "1 aaaa to cccc"), Err(Error::ArithmeticOverflow));
}

#[test]
fn empty_table_builds_an_empty_graph() {
    let g = build("");
    assert_eq!(g.unit_count(), 0);
    assert_eq!(answer(&g, "1 meter to foot"), Err(Error::UnresolvedUnit));
}

#[test]
fn seconds_unit_name_is_not_swallowed() {
    // the singularizing rule must keep the one-letter name "s" intact
    let g = build("1 second(s) = 1000 milliseconds(ms)");
    let r = answer(&g, "5 seconds to milliseconds").unwrap();
    assert_eq!((r.num, r.den), (5000, 1));
    let s = String::from("s");
    assert!(get_node_from_name(&g.units, &s, 2).is_some());
    let ms = String::from("ms");
    assert!(get_node_from_name(&g.units, &ms, 2).is_some());
}

#[test]
fn fuzzy_tie_resolves_to_the_earliest_unit() {
    // "hoot" is at distance one from both "hood" and "hoop"; the earlier
    // node in table order wins
    let g = build("1 hood(hd) = 2 cover(cv)\n1 hoop(hp) = 3 ring(rg)");
    let q = String::from("hoot");
    let i = get_node_from_name(&g.units, &q, 2).unwrap();
    assert_eq!(g.units[i].full_name, "hood");
}

#[test]
fn same_unit_factor_is_one() {
    let g = build("1 hour(hr) = 60 minutes(min)");
    let r = answer(&g, "7 hours to hour").unwrap();
    assert_eq!((r.num, r.den), (7, 1));
}

#[test]
fn authored_reverse_edge_is_preserved() {
    // the table writes its own (inconsistent) reverse entry; the authored
    // ratio wins over the reciprocal the synthesis would have added
    let g = build("2 aaa = 4 bbb\n1 bbb = 1 aaa");
    let r = answer(&g, "1 bbb to aaa").unwrap();
    assert_eq!((r.num, r.den), (1, 1));
}
