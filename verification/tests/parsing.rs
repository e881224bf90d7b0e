use wasimlarth::dataset::{header_values, parse_header_counts, HeaderError};
use wasimlarth::decimal::parse_usize;
use wasimlarth::polybench::{get_arg_value, parse_args};
use wasimlarth::text::{is_tag_line, is_whitespace_char, same_text};

fn strings(items: &[&str]) -> Vec<String> {
    items.iter().map(|s| s.to_string()).collect()
}

#[test]
fn parse_usize_agrees_with_std() {
    let cases = [
        "0", "42", "+42", "007", "", "+", "-", "-0", "++1", "1+", " 1", "1 ", "12a", "١",
        "18446744073709551615", "18446744073709551616", "99999999999999999999999",
        "4294967295", "4294967296",
    ];
    for case in cases {
        assert_eq!(parse_usize(case), case.parse::<usize>().ok(), "input {:?}", case);
    }
}

#[test]
fn parse_usize_exact_values() {
    assert_eq!(parse_usize("+123"), Some(123));
    assert_eq!(parse_usize("0"), Some(0));
    assert_eq!(parse_usize("12x"), None);
    assert_eq!(parse_usize(""), None);
}

#[test]
fn whitespace_agrees_with_std() {
    for code in 0u32..0x3100 {
        if let Some(c) = char::from_u32(code) {
            assert_eq!(is_whitespace_char(c), c.is_whitespace(), "char {:#x}", code);
        }
    }
}

#[test]
fn same_text_compares_contents() {
    assert!(same_text("abc", "abc"));
    assert!(!same_text("abc", "abd"));
    assert!(!same_text("abc", "ab"));
    assert!(same_text("", ""));
}

#[test]
fn tag_line_is_trimmed() {
    assert!(is_tag_line("  A \t", "A"));
    assert!(is_tag_line("X\r", "X"));
    assert!(!is_tag_line("AB", "A"));
    assert!(!is_tag_line("A,", "A"));
    assert!(is_tag_line("\u{3000}\u{a0}", ""));
}

#[test]
fn dims_header_parses() {
    assert_eq!(parse_header_counts("dims,4,5,6,7", "dims", 4), Ok(vec![4, 5, 6, 7]));
    assert_eq!(parse_header_counts(" dims , 10 ,\t20\r", "dims", 2), Ok(vec![10, 20]));
}

#[test]
fn dims_header_malformed() {
    assert_eq!(parse_header_counts("dims,4,5", "dims", 4), Err(HeaderError::Malformed));
    assert_eq!(parse_header_counts("dim,4,5", "dims", 2), Err(HeaderError::Malformed));
    assert_eq!(parse_header_counts("dims,4,5,", "dims", 2), Err(HeaderError::Malformed));
    assert_eq!(parse_header_counts("", "dims", 0), Err(HeaderError::Malformed));
}

#[test]
fn dims_header_invalid_number() {
    assert_eq!(parse_header_counts("dims,4,x", "dims", 2), Err(HeaderError::InvalidNumber));
    assert_eq!(parse_header_counts("dims,,5", "dims", 2), Err(HeaderError::InvalidNumber));
    assert_eq!(parse_header_counts("dims,-1,5", "dims", 2), Err(HeaderError::InvalidNumber));
}

#[test]
fn coeff_header_values_are_trimmed() {
    assert_eq!(
        header_values("coeff, 1.5 ,2.25", "coeff", 2),
        Some(vec!["1.5".to_string(), "2.25".to_string()])
    );
    assert_eq!(header_values("coeff,1.5", "coeff", 2), None);
    assert_eq!(header_values("dims", "dims", 0), Some(vec![]));
}

#[test]
fn arg_value_after_first_occurrence() {
    let args = strings(&["prog", "--trials", "5", "--trials", "9"]);
    assert_eq!(get_arg_value(&args, "--trials"), Some("5".to_string()));
    assert_eq!(get_arg_value(&args, "--dataset"), None);
    let args = strings(&["prog", "--trials"]);
    assert_eq!(get_arg_value(&args, "--trials"), None);
    let args = strings(&["prog", "--trials", "--trials", "3"]);
    assert_eq!(get_arg_value(&args, "--trials"), Some("--trials".to_string()));
}

#[test]
fn bench_args_defaults() {
    let args = strings(&["prog"]);
    let parsed = parse_args(&args, "data/2mm_100K.csv");
    assert_eq!(parsed.dataset, "data/2mm_100K.csv");
    assert_eq!(parsed.trials, 50);
}

#[test]
fn bench_args_dataset_precedence() {
    let args = strings(&["prog", "--datasets", "b.csv", "--dataset", "a.csv"]);
    assert_eq!(parse_args(&args, "d.csv").dataset, "a.csv");
    let args = strings(&["prog", "--datasets", "b.csv"]);
    assert_eq!(parse_args(&args, "d.csv").dataset, "b.csv");
}

#[test]
fn bench_args_trials() {
    let args = strings(&["prog", "--trials", "12"]);
    assert_eq!(parse_args(&args, "d.csv").trials, 12);
    let args = strings(&["prog", "--trials", "many"]);
    assert_eq!(parse_args(&args, "d.csv").trials, 50);
    let args = strings(&["prog", "--trials"]);
    assert_eq!(parse_args(&args, "d.csv").trials, 50);
}
