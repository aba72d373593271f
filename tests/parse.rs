use mandelbrot::parse::{join_fields, parse_bounds, parse_pair, split_pair};

#[test]
fn test_parse_pair() {
    assert_eq!(parse_pair::<i32>("", ','), None);
    assert_eq!(parse_pair::<i32>("10,", ','), None);
    assert_eq!(parse_pair::<i32>(",10", ','), None);
    assert_eq!(parse_pair::<i32>("10,20", ','), Some((10, 20)));
    assert_eq!(parse_pair::<i32>("10,20xy", ','), None);
    assert_eq!(parse_pair::<f64>("0.5x", 'x'), None);
    assert_eq!(parse_pair::<f64>("0.5x1.5", 'x'), Some((0.5, 1.5)));
}

#[test]
fn parse_pair_reads_bounds_and_coordinates() {
    assert_eq!(parse_pair::<usize>("400x600", 'x'), Some((400, 600)));
    assert_eq!(parse_pair::<f64>("1.25,-0.0625", ','), Some((1.25, -0.0625)));
    assert_eq!(parse_pair::<f64>(",-0.0625", ','), None);
    assert_eq!(parse_pair::<usize>("400,600", 'x'), None);
}

#[test]
fn split_pair_cuts_at_first_separator() {
    assert_eq!(split_pair("10,20", ','), Some(("10", "20")));
    assert_eq!(split_pair("a,b,c", ','), Some(("a", "b,c")));
    assert_eq!(split_pair(",", ','), Some(("", "")));
    assert_eq!(split_pair("élan×ü", '×'), Some(("élan", "ü")));
    assert_eq!(split_pair("1020", ','), None);
    assert_eq!(split_pair("", ','), None);
}

#[test]
fn join_fields_needs_both() {
    assert_eq!(join_fields(Some(1), Some(2)), Some((1, 2)));
    assert_eq!(join_fields(None, Some(2)), None);
    assert_eq!(join_fields(Some(1), None::<i32>), None);
    assert_eq!(join_fields(None::<i32>, None), None);
}

#[test]
fn parse_bounds_reads_width_and_height() {
    assert_eq!(parse_bounds("400x600"), Some((400, 600)));
    assert_eq!(parse_bounds("+7x007"), Some((7, 7)));
    assert_eq!(parse_bounds("0x0"), Some((0, 0)));
    assert_eq!(parse_bounds("18446744073709551615x1"), Some((usize::MAX, 1)));
}

#[test]
fn parse_bounds_refuses_malformed_text() {
    assert_eq!(parse_bounds(""), None);
    assert_eq!(parse_bounds("400"), None);
    assert_eq!(parse_bounds("400x"), None);
    assert_eq!(parse_bounds("x600"), None);
    assert_eq!(parse_bounds("400x600x2"), None);
    assert_eq!(parse_bounds("-4x6"), None);
    assert_eq!(parse_bounds("+x6"), None);
    assert_eq!(parse_bounds(" 4x6"), None);
    assert_eq!(parse_bounds("4x6 "), None);
    assert_eq!(parse_bounds("4,6"), None);
    assert_eq!(parse_bounds("18446744073709551616x1"), None);
}
