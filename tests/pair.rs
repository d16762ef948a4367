use mandelbrot::pair::{find_separator, join_parsed, parse_bounds, parse_pair, split_pair};

#[test]
fn test_parse_pair() {
    assert_eq!(parse_pair::<i32>("", ','), None);
    assert_eq!(parse_pair::<i32>("10,", ','), None);
    assert_eq!(parse_pair::<i32>(",10", ','), None);
    assert_eq!(parse_pair::<i32>("20,10", ','), Some((20, 10)));
    assert_eq!(parse_pair::<i32>("20,10x", ','), None);
    assert_eq!(parse_pair::<f64>("0.5x", 'x'), None);
    assert_eq!(parse_pair::<f64>("0.5x1.5", 'x'), Some((0.5, 1.5)));
}

#[test]
fn parse_pair_reads_complex_point_fields() {
    assert_eq!(parse_pair::<f64>("1.25,-0.625", ','), Some((1.25, -0.625)));
    assert_eq!(parse_pair::<f64>(",-0.625", ','), None);
}

#[test]
fn parse_pair_reads_image_bounds() {
    assert_eq!(parse_pair::<usize>("1000x750", 'x'), Some((1000, 750)));
    assert_eq!(parse_pair::<usize>("1000,750", 'x'), None);
    assert_eq!(parse_pair::<usize>("-3x750", 'x'), None);
}

#[test]
fn parse_pair_cuts_at_first_separator() {
    assert_eq!(parse_pair::<i32>("1,2,3", ','), None);
    assert_eq!(parse_pair::<String>("1,2,3", ','), Some(("1".to_string(), "2,3".to_string())));
}

#[test]
fn find_separator_gives_first_position() {
    assert_eq!(find_separator("", ','), None);
    assert_eq!(find_separator("abc", ','), None);
    assert_eq!(find_separator("a,b,c", ','), Some(1));
    assert_eq!(find_separator(",", ','), Some(0));
    assert_eq!(find_separator("éx2", 'x'), Some(1));
}

#[test]
fn split_pair_drops_the_separator() {
    assert_eq!(split_pair("20,10", ','), Some(("20", "10")));
    assert_eq!(split_pair("10,", ','), Some(("10", "")));
    assert_eq!(split_pair(",", ','), Some(("", "")));
    assert_eq!(split_pair("é,ü", ','), Some(("é", "ü")));
    assert_eq!(split_pair("2010", ','), None);
}

#[test]
fn join_parsed_needs_both_sides() {
    assert_eq!(join_parsed(Some(1), Some(2)), Some((1, 2)));
    assert_eq!(join_parsed(Some(1), None), None);
    assert_eq!(join_parsed(None, Some(2)), None);
    assert_eq!(join_parsed::<i32>(None, None), None);
}

#[test]
fn parse_bounds_reads_two_sizes() {
    assert_eq!(parse_bounds("1000x750", 'x'), Some((1000, 750)));
    assert_eq!(parse_bounds("20,10", ','), Some((20, 10)));
    assert_eq!(parse_bounds("+20,007", ','), Some((20, 7)));
}

#[test]
fn parse_bounds_rejects_malformed_sides() {
    assert_eq!(parse_bounds("", ','), None);
    assert_eq!(parse_bounds("10,", ','), None);
    assert_eq!(parse_bounds(",10", ','), None);
    assert_eq!(parse_bounds("20,10x", ','), None);
    assert_eq!(parse_bounds("1,2,3", ','), None);
    assert_eq!(parse_bounds("-3x750", 'x'), None);
    assert_eq!(parse_bounds("+x750", 'x'), None);
    assert_eq!(parse_bounds("1000 x750", 'x'), None);
    assert_eq!(parse_bounds("1000,750", 'x'), None);
}

#[test]
fn parse_bounds_rejects_overflow() {
    let max = usize::MAX.to_string();
    assert_eq!(parse_bounds(&format!("{}x1", max), 'x'), Some((usize::MAX, 1)));
    assert_eq!(parse_bounds(&format!("{}0x1", max), 'x'), None);
}

#[test]
fn parse_bounds_reads_back_written_sizes() {
    for &(w, h) in &[(0usize, 0usize), (1, 9), (10, 100), (1000, 750), (usize::MAX, 12345)] {
        for sep in ['x', ',', '+', 'é'] {
            assert_eq!(parse_bounds(&format!("{}{}{}", w, sep, h), sep), Some((w, h)));
        }
    }
}
