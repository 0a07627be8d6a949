use image_to_ascii::config::Config;
use image_to_ascii::error::Error;
use image_to_ascii::scale::{parse_scale, scale_dimension};

fn args(tokens: &[&str]) -> Vec<String> {
    tokens.iter().map(|t| t.to_string()).collect()
}

#[test]
fn ok_config_build() {
    let values = vec![".".to_string(), "path/to/image".to_string(), "0.5".to_string()];
    let config = Config::build(&values[..]);
    assert!(config.is_ok())
}

#[test]
fn err_config_build() {
    let values = vec![".".to_string(), "path/to/image".to_string(), "1.5".to_string()];
    let config = Config::build(&values[..]);
    assert!(config.is_err());

    let values = vec![".".to_string(), "path/to/image".to_string()];
    let config = Config::build(&values[..]);
    assert!(config.is_err())
}

#[test]
fn build_accepts_sample_arguments() {
    let config = Config::build(&args(&["prog", "img.png", "0.5"])).unwrap();
    assert_eq!(config.image_path, "img.png");
    assert!(!config.invert);
}

#[test]
fn build_fourth_token_inverts() {
    let config = Config::build(&args(&["prog", "img.png", "0.5", "x"])).unwrap();
    assert!(config.invert);
}

#[test]
fn build_rejects_too_few_tokens() {
    assert!(matches!(Config::build(&args(&["prog", "img.png"])), Err(Error::InvalidArguments)));
    assert!(matches!(Config::build(&args(&[])), Err(Error::InvalidArguments)));
}

#[test]
fn build_rejects_bad_number() {
    assert!(matches!(Config::build(&args(&["prog", "img.png", "half"])), Err(Error::InvalidNumber)));
}

#[test]
fn build_rejects_out_of_range() {
    assert!(matches!(Config::build(&args(&["prog", "img.png", "1.5"])), Err(Error::InvalidRange)));
    assert!(matches!(Config::build(&args(&["prog", "img.png", "0"])), Err(Error::InvalidRange)));
    assert!(matches!(Config::build(&args(&["prog", "img.png", "-0.5"])), Err(Error::InvalidRange)));
}

#[test]
fn parse_scale_accepts_numerals() {
    for text in ["0.5", "1", "1.0", ".5", "1.", "+0.25", "0001.000", "0.000001"] {
        assert!(parse_scale(text).is_ok(), "{text}");
    }
}

#[test]
fn parse_scale_rejects_non_numerals() {
    for text in ["", ".", "+", "-", "abc", "1.2.3", "0,5", " 0.5", "0.5x", "e", "infin", "na", "+-1"] {
        assert!(matches!(parse_scale(text), Err(Error::InvalidNumber)), "{text}");
    }
}

#[test]
fn parse_scale_rejects_out_of_range() {
    for text in ["1.5", "2", "10", "1.0000001", "0", "0.000", "-0.5", "-1", "-0"] {
        assert!(matches!(parse_scale(text), Err(Error::InvalidRange)), "{text}");
    }
}

#[test]
fn build_accepts_exponent_forms() {
    assert!(Config::build(&args(&["prog", "img.png", "5e-1"])).is_ok());
    assert!(matches!(Config::build(&args(&["prog", "img.png", "2e0"])), Err(Error::InvalidRange)));
}

#[test]
fn parse_scale_exponents() {
    for text in ["5e-1", "1e0", "0.05e1", "100e-2", "25E-2", ".5E+0", "1e-99999999999999999999999999", "0.0001e4"] {
        assert!(parse_scale(text).is_ok(), "{text}");
    }
    for text in ["2e0", "1e1", "101e-2", "0e5", "0.1e2", "-5e-1", "1e99999999999999999999999999"] {
        assert!(matches!(parse_scale(text), Err(Error::InvalidRange)), "{text}");
    }
    for text in ["1e", "e1", "1e+", "1e-", "1e1.5", "1ee1", ".e1", "1e 1"] {
        assert!(matches!(parse_scale(text), Err(Error::InvalidNumber)), "{text}");
    }
}

#[test]
fn scale_dimension_with_exponent() {
    assert_eq!(scale_dimension(400, &parse_scale("5e-1").unwrap()), 200);
    assert_eq!(scale_dimension(400, &parse_scale("25E-2").unwrap()), 100);
    assert_eq!(scale_dimension(401, &parse_scale("100e-2").unwrap()), 401);
    assert_eq!(scale_dimension(777, &parse_scale("0.0001e4").unwrap()), 777);
    assert_eq!(scale_dimension(1000, &parse_scale("333e-3").unwrap()), 333);
    assert_eq!(scale_dimension(1000, &parse_scale("0.0333e1").unwrap()), 333);
    assert_eq!(scale_dimension(u32::MAX, &parse_scale("1e-30").unwrap()), 0);
    assert_eq!(scale_dimension(u32::MAX, &parse_scale("1e-99999999999999999999999999").unwrap()), 0);
    assert_eq!(scale_dimension(1_000_000_000, &parse_scale("1e-9").unwrap()), 1);
}

#[test]
fn parse_scale_rejects_non_finite() {
    for text in ["inf", "-Infinity", "INF", "NaN", "+nan", "infinity"] {
        assert!(matches!(parse_scale(text), Err(Error::InvalidRange)), "{text}");
    }
}

#[test]
fn scale_dimension_floors_exactly() {
    let half = parse_scale("0.5").unwrap();
    assert_eq!(scale_dimension(400, &half), 200);
    assert_eq!(scale_dimension(401, &half), 200);
    let third = parse_scale("0.333").unwrap();
    assert_eq!(scale_dimension(1000, &third), 333);
    let tenth = parse_scale(".1").unwrap();
    assert_eq!(scale_dimension(400, &tenth), 40);
    let one = parse_scale("1.000").unwrap();
    assert_eq!(scale_dimension(u32::MAX, &one), u32::MAX);
    let almost = parse_scale("0.999999999999999999999999").unwrap();
    assert_eq!(scale_dimension(u32::MAX, &almost), u32::MAX - 1);
    let tiny = parse_scale("0.001").unwrap();
    assert_eq!(scale_dimension(400, &tiny), 0);
}
