use cairo_proving_server::args::{process_args, FuncArg};
use cairo_vm::Felt252;

fn felt(s: &str) -> Felt252 {
    Felt252::from_dec_str(s).unwrap()
}

fn singles(args: &[FuncArg]) -> Vec<Felt252> {
    args.iter()
        .map(|a| match a {
            FuncArg::Single(f) => *f,
            FuncArg::Array(_) => panic!("expected a single"),
        })
        .collect()
}

fn array_of(a: &FuncArg) -> Vec<Felt252> {
    match a {
        FuncArg::Array(v) => v.clone(),
        FuncArg::Single(_) => panic!("expected an array"),
    }
}

#[test]
fn single_decimal() {
    let args = process_args("1234").unwrap().0;
    assert_eq!(args.len(), 1);
    assert_eq!(singles(&args), vec![felt("1234")]);
}

#[test]
fn several_singles() {
    let args = process_args("1 2 3").unwrap().0;
    assert_eq!(singles(&args), vec![felt("1"), felt("2"), felt("3")]);
}

#[test]
fn empty_input_is_empty() {
    assert_eq!(process_args("").unwrap().0.len(), 0);
    assert_eq!(process_args("  \t\n ").unwrap().0.len(), 0);
}

#[test]
fn array_spaced() {
    let args = process_args("[ 5 6 7 ]").unwrap().0;
    assert_eq!(args.len(), 1);
    assert_eq!(array_of(&args[0]), vec![felt("5"), felt("6"), felt("7")]);
}

#[test]
fn array_glued_brackets() {
    let args = process_args("[5 6 7]").unwrap().0;
    assert_eq!(args.len(), 1);
    assert_eq!(array_of(&args[0]), vec![felt("5"), felt("6"), felt("7")]);
}

#[test]
fn array_one_value_glued() {
    let args = process_args("[9]").unwrap().0;
    assert_eq!(args.len(), 1);
    assert_eq!(array_of(&args[0]), vec![felt("9")]);
}

#[test]
fn empty_array() {
    let args = process_args("[]").unwrap().0;
    assert_eq!(args.len(), 1);
    assert_eq!(array_of(&args[0]), Vec::<Felt252>::new());
}

#[test]
fn mixed_singles_and_arrays() {
    let args = process_args("5 [7 9] 11").unwrap().0;
    assert_eq!(args.len(), 3);
    assert_eq!(singles(&args[0..1]), vec![felt("5")]);
    assert_eq!(array_of(&args[1]), vec![felt("7"), felt("9")]);
    assert_eq!(singles(&args[2..3]), vec![felt("11")]);
}

#[test]
fn unterminated_array_collects_to_end() {
    let args = process_args("[ 1 2").unwrap().0;
    assert_eq!(args.len(), 1);
    assert_eq!(array_of(&args[0]), vec![felt("1"), felt("2")]);
}

#[test]
fn invalid_token_fails_naming_it() {
    let err = process_args("12x").unwrap_err();
    assert_eq!(err.token, b"12x".to_vec());
}

#[test]
fn error_names_the_first_offending_token() {
    let err = process_args("1 2x 3y").unwrap_err();
    assert_eq!(err.token, b"2x".to_vec());
    let err = process_args("[ 1 ] bad [ worse").unwrap_err();
    assert_eq!(err.token, b"bad".to_vec());
}

#[test]
fn stray_close_bracket_fails() {
    let err = process_args("]").unwrap_err();
    assert_eq!(err.token, b"]".to_vec());
}

#[test]
fn second_open_bracket_inside_array_fails() {
    let err = process_args("[ [ 3").unwrap_err();
    assert_eq!(err.token, b"[".to_vec());
}

#[test]
fn negative_value_wraps_in_the_field() {
    let args = process_args("-5").unwrap().0;
    assert_eq!(singles(&args), vec![felt("-5")]);
    assert_eq!(felt("-5") + felt("5"), felt("0"));
}

#[test]
fn oversized_numeral_fails() {
    let tok: String = "9".repeat(78);
    assert!(Felt252::from_dec_str(&tok).is_err());
    let err = process_args(&tok).unwrap_err();
    assert_eq!(err.token, tok.as_bytes().to_vec());
}

#[test]
fn zero_padded_numeral_parses() {
    let tok: String = "0".repeat(78);
    let args = process_args(&tok).unwrap().0;
    assert_eq!(singles(&args), vec![felt("0")]);

    let long_five = format!("{}5", "0".repeat(100));
    let args = process_args(&long_five).unwrap().0;
    assert_eq!(singles(&args), vec![felt("5")]);
}

#[test]
fn seventy_eight_digit_numeral_below_the_window_parses() {
    let tok = format!("1{}", "0".repeat(77));
    let args = process_args(&tok).unwrap().0;
    assert_eq!(singles(&args), vec![felt(&tok)]);
}

#[test]
fn acceptance_boundary_is_two_pow_256() {
    let below = (num_string_two_pow_256_minus_one()).to_string();
    let args = process_args(&below).unwrap().0;
    assert_eq!(singles(&args), vec![felt(&below)]);

    let at = num_string_two_pow_256();
    let err = process_args(&at).unwrap_err();
    assert_eq!(err.token, at.as_bytes().to_vec());
}

fn num_string_two_pow_256() -> String {
    "115792089237316195423570985008687907853269984665640564039457584007913129639936".to_string()
}

fn num_string_two_pow_256_minus_one() -> String {
    "115792089237316195423570985008687907853269984665640564039457584007913129639935".to_string()
}

#[test]
fn seventy_seven_digits_parse() {
    let tok: String = "9".repeat(77);
    let args = process_args(&tok).unwrap().0;
    assert_eq!(singles(&args), vec![felt(&tok)]);
}

#[test]
fn plus_sign_is_not_a_felt() {
    let err = process_args("+5").unwrap_err();
    assert_eq!(err.token, b"+5".to_vec());
}

#[test]
fn lone_minus_is_not_a_felt() {
    let err = process_args("-").unwrap_err();
    assert_eq!(err.token, b"-".to_vec());
}

#[test]
fn glued_close_outside_array_fails() {
    let err = process_args("5]").unwrap_err();
    assert_eq!(err.token, b"]".to_vec());
}

#[test]
fn doubled_open_bracket_fails_as_value() {
    let err = process_args("[[5 6]").unwrap_err();
    assert_eq!(err.token, b"[5".to_vec());
}
