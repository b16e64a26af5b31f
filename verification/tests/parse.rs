use mandelbrot::parse::{pair_of, parse_pair, split_pair};

#[test]
fn test_parse_pair() {
    assert_eq!(parse_pair::<i32>("", ','), None);
    assert_eq!(parse_pair::<i32>("10,", ','), None);
    assert_eq!(parse_pair::<i32>(",10", ','), None);
    assert_eq!(parse_pair::<i32>("10,20", ','), Some((10, 20)));
    assert_eq!(parse_pair::<i32>("10,20xy", ','), None);
    assert_eq!(parse_pair::<f64>("0.5x", ','), None);
    assert_eq!(parse_pair::<f64>("0.5x1.5", 'x'), Some((0.5, 1.5)));
}

#[test]
fn parse_pair_reads_raster_dimensions() {
    assert_eq!(parse_pair::<usize>("1000x750", 'x'), Some((1000, 750)));
    assert_eq!(parse_pair::<usize>("1000x-750", 'x'), None);
    assert_eq!(parse_pair::<usize>("1000", 'x'), None);
}

#[test]
fn parse_pair_splits_at_the_first_separator() {
    assert_eq!(parse_pair::<i32>("1,2,3", ','), None);
    assert_eq!(
        parse_pair::<String>("1,2,3", ','),
        Some(("1".to_string(), "2,3".to_string()))
    );
}

#[test]
fn parse_pair_differs_from_its_input() {
    assert_eq!(
        parse_pair::<String>("left,right", ','),
        Some(("left".to_string(), "right".to_string()))
    );
}

#[test]
fn split_pair_finds_the_first_separator() {
    assert_eq!(split_pair("10,20", ','), Some(("10", "20")));
    assert_eq!(split_pair("a,b,c", ','), Some(("a", "b,c")));
    assert_eq!(split_pair(",", ','), Some(("", "")));
    assert_eq!(split_pair(",x", ','), Some(("", "x")));
    assert_eq!(split_pair("x,", ','), Some(("x", "")));
}

#[test]
fn split_pair_without_separator() {
    assert_eq!(split_pair("", ','), None);
    assert_eq!(split_pair("1020", ','), None);
    assert_eq!(split_pair("10x20", ','), None);
}

#[test]
fn split_pair_keeps_longer_characters_whole() {
    assert_eq!(split_pair("é,ü", ','), Some(("é", "ü")));
    assert_eq!(split_pair("日本x語", 'x'), Some(("日本", "語")));
    assert_eq!(split_pair("日本語", 'x'), None);
}

#[test]
fn pair_of_needs_both() {
    assert_eq!(pair_of(Some(1), Some(2)), Some((1, 2)));
    assert_eq!(pair_of(Some(1), None), None);
    assert_eq!(pair_of(None, Some(2)), None);
    assert_eq!(pair_of::<i32>(None, None), None);
}

#[test]
fn test_parse_complex() {
    let parse_complex =
        |s: &str| parse_pair::<f64>(s, ',').map(|(re, im)| num::Complex { re, im });
    assert_eq!(
        parse_complex("1.25,-0.0625"),
        Some(num::Complex {
            re: 1.25,
            im: -0.0625
        })
    );
    assert_eq!(
        parse_complex("1,-0.0625"),
        Some(num::Complex {
            re: 1.0,
            im: -0.0625
        })
    );
    assert_eq!(parse_complex(",-0.0625"), None);
}
