use toktokenizer::nodes::{Add, Multiply};
use toktokenizer::search::{decimal_string, format_query, Params};

#[test]
fn params_render_in_fixed_order() {
    let mut p = Params::new(String::from("k1"), String::from("c1"));
    p.set_query(String::from("cats"));
    p.set_start(11);
    let list = p.to_list();
    let expect: Vec<(String, String)> = vec![
        (String::from("cx"), String::from("c1")),
        (String::from("key"), String::from("k1")),
        (String::from("searchType"), String::from("image")),
        (String::from("q"), String::from("cats")),
        (String::from("num"), String::from("10")),
        (String::from("start"), String::from("11")),
    ];
    assert_eq!(list, expect);
}

#[test]
fn params_defaults() {
    let p = Params::new(String::from("key"), String::from("cx"));
    let list = p.to_list();
    assert_eq!(list[3].1, "");
    assert_eq!(list[4].1, "10");
    assert_eq!(list[5].1, "0");
}

#[test]
fn format_query_replaces_underscores() {
    assert_eq!(format_query("a_b_c"), "a b c");
    assert_eq!(format_query("a__b"), "a  b");
    assert_eq!(format_query("plain"), "plain");
    assert_eq!(format_query(""), "");
}

#[test]
fn decimal_strings() {
    assert_eq!(decimal_string(0), "0");
    assert_eq!(decimal_string(7), "7");
    assert_eq!(decimal_string(40960), "40960");
    assert_eq!(decimal_string(1000001), "1000001");
}

#[test]
fn node_channel_counts() {
    assert_eq!(Add::new(2).channels, 2);
    assert_eq!(Multiply::new(3).channels, 3);
    assert_eq!(Add::new(0).channels, 0);
}
