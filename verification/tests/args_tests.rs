use gbm_pricer::args::parse_arg;

fn args() -> Vec<String> {
    ["prog", "full", "100.0", "0.05", "0.2", "1.0", "100", "120", "100000", "abc", "-3", ""]
        .iter()
        .map(|s| s.to_string())
        .collect()
}

fn as_number(text: &String) -> Result<f64, String> {
    text.parse::<f64>().map_err(|e| e.to_string())
}

fn as_count(text: &String) -> Result<usize, String> {
    text.parse::<usize>().map_err(|e| e.to_string())
}

#[test]
fn reads_a_real_number() {
    assert_eq!(parse_arg(&args(), 2, "spot price", as_number), Ok(100.0));
    assert_eq!(parse_arg(&args(), 3, "risk-free rate", as_number), Ok(0.05));
    assert_eq!(parse_arg(&args(), 7, "strike price", as_number), Ok(120.0));
    assert_eq!(parse_arg(&args(), 10, "drift", as_number), Ok(-3.0));
}

#[test]
fn reads_a_count() {
    assert_eq!(parse_arg(&args(), 6, "steps", as_count), Ok(100));
    assert_eq!(parse_arg(&args(), 8, "number of trials", as_count), Ok(100000));
}

#[test]
fn missing_argument() {
    assert_eq!(
        parse_arg(&args(), 12, "number of trials", as_count),
        Err("Missing argument for number of trials".to_string())
    );
    assert_eq!(
        parse_arg(&args(), usize::MAX, "steps", as_count),
        Err("Missing argument for steps".to_string())
    );
    let none: Vec<String> = Vec::new();
    assert_eq!(parse_arg(&none, 0, "spot price", as_number), Err("Missing argument for spot price".to_string()));
}

#[test]
fn invalid_real_number() {
    assert_eq!(
        parse_arg(&args(), 9, "volatility", as_number),
        Err("Invalid volatility: invalid float literal".to_string())
    );
    assert_eq!(
        parse_arg(&args(), 11, "spot price", as_number),
        Err("Invalid spot price: cannot parse float from empty string".to_string())
    );
}

#[test]
fn invalid_count() {
    assert_eq!(
        parse_arg(&args(), 9, "steps", as_count),
        Err("Invalid steps: invalid digit found in string".to_string())
    );
    assert_eq!(
        parse_arg(&args(), 10, "steps", as_count),
        Err("Invalid steps: invalid digit found in string".to_string())
    );
    assert_eq!(
        parse_arg(&args(), 11, "number of trials", as_count),
        Err("Invalid number of trials: cannot parse integer from empty string".to_string())
    );
}

#[test]
fn parser_is_not_called_for_a_missing_argument() {
    let r: Result<u8, String> =
        parse_arg(&args(), 40, "mode", |_text: &String| panic!("must not be called"));
    assert_eq!(r, Err("Missing argument for mode".to_string()));
}

#[test]
fn parser_reason_is_handed_on_unchanged() {
    let r: Result<u8, String> =
        parse_arg(&args(), 1, "mode", |text: &String| Err(format!("no such mode {}", text)));
    assert_eq!(r, Err("Invalid mode: no such mode full".to_string()));
}
