use cssparser::ast::{ComponentValue, NumericValue};
use cssparser::nth::{parse_n_dash_digits, parse_nth};
use cssparser::syntax::tokenize;

fn values(input: &str) -> Vec<ComponentValue> {
    tokenize(input).into_iter().map(|(value, _)| value).collect()
}

fn nth_of(input: &str) -> Result<(i32, i32), ()> {
    parse_nth(&values(input))
}

#[test]
fn nth() {
    assert_eq!(nth_of(""), Err(()));
    assert_eq!(nth_of("  \n"), Err(()));
    assert_eq!(nth_of("odd"), Ok((2, 1)));
    assert_eq!(nth_of("even"), Ok((2, 0)));
    assert_eq!(nth_of("ödd"), Err(()));
    assert_eq!(nth_of("éven"), Err(()));
    assert_eq!(nth_of(" /**/\t OdD /**/\n"), Ok((2, 1)));
    assert_eq!(nth_of(" /**/\t EveN /**/\n"), Ok((2, 0)));
    assert_eq!(nth_of("3"), Ok((0, 3)));
    assert_eq!(nth_of("+2 "), Ok((0, 2)));
    assert_eq!(nth_of(" -14 "), Ok((0, -14)));
    assert_eq!(nth_of("+ 2 "), Err(()));
    assert_eq!(nth_of("- 14 "), Err(()));
    assert_eq!(nth_of("3.1"), Err(()));
    assert_eq!(nth_of("3N"), Ok((3, 0)));
    assert_eq!(nth_of("+2N "), Ok((2, 0)));
    assert_eq!(nth_of(" -14n "), Ok((-14, 0)));
    assert_eq!(nth_of("+ 2N "), Err(()));
    assert_eq!(nth_of("- 14N "), Err(()));
    assert_eq!(nth_of("3.1N"), Err(()));
    assert_eq!(nth_of("3 n"), Err(()));
    assert_eq!(nth_of("  N"), Ok((1, 0)));
    assert_eq!(nth_of(" +n"), Ok((1, 0)));
    assert_eq!(nth_of(" -n"), Ok((-1, 0)));
    assert_eq!(nth_of("+ n"), Err(()));
    assert_eq!(nth_of("- n"), Err(()));
    assert_eq!(nth_of("3N+1"), Ok((3, 1)));
    assert_eq!(nth_of("+2n+1 "), Ok((2, 1)));
    assert_eq!(nth_of(" -14n+1 "), Ok((-14, 1)));
    assert_eq!(nth_of("+ 2N+1 "), Err(()));
    assert_eq!(nth_of("3n + 1"), Ok((3, 1)));
    assert_eq!(nth_of("+2n + 1 "), Ok((2, 1)));
    assert_eq!(nth_of("3n+ 1"), Ok((3, 1)));
    assert_eq!(nth_of("3n +1"), Ok((3, 1)));
    assert_eq!(nth_of("3n + -1"), Err(()));
    assert_eq!(nth_of("3n - 1"), Ok((3, -1)));
    assert_eq!(nth_of("3n-1"), Ok((3, -1)));
    assert_eq!(nth_of("3n- 1"), Ok((3, -1)));
    assert_eq!(nth_of("3n -1"), Ok((3, -1)));
    assert_eq!(nth_of("3n - +1"), Err(()));
    assert_eq!(nth_of("n-1"), Ok((1, -1)));
    assert_eq!(nth_of("-n-1"), Ok((-1, -1)));
    assert_eq!(nth_of("+n-1"), Ok((1, -1)));
    assert_eq!(nth_of("+n - 1"), Ok((1, -1)));
    assert_eq!(nth_of("n+1 2"), Err(()));
    assert_eq!(nth_of("n 1"), Err(()));
    assert_eq!(nth_of("n- 1 2"), Err(()));
}

#[test]
fn nth_of_common_cases() {
    assert_eq!(nth_of("2n+1"), Ok((2, 1)));
    assert_eq!(nth_of("even"), Ok((2, 0)));
    assert_eq!(nth_of("-n-3"), Ok((-1, -3)));
    assert_eq!(nth_of("+ n"), Err(()));
}

#[test]
fn nth_reads_signs_from_the_representation() {
    let unsigned = ComponentValue::Number(NumericValue {
        representation: "5".to_string(),
        int_value: Some(5),
    });
    let signed = ComponentValue::Number(NumericValue {
        representation: "+5".to_string(),
        int_value: Some(5),
    });
    let n = ComponentValue::Ident("n".to_string());
    assert_eq!(parse_nth(&[n.clone(), signed.clone()]), Ok((1, 5)));
    assert_eq!(parse_nth(&[n.clone(), unsigned.clone()]), Err(()));
    let plus = ComponentValue::Delim('+');
    assert_eq!(parse_nth(&[n.clone(), plus.clone(), unsigned]), Ok((1, 5)));
    assert_eq!(parse_nth(&[n, plus, signed]), Err(()));
}

#[test]
fn nth_refuses_integers_beyond_32_bits() {
    let huge = ComponentValue::Number(NumericValue {
        representation: "4294967296".to_string(),
        int_value: Some(4294967296),
    });
    assert_eq!(parse_nth(&[huge]), Err(()));
    assert_eq!(nth_of("n-2147483648"), Ok((1, -2147483648)));
    assert_eq!(nth_of("n-2147483649"), Err(()));
}

#[test]
fn n_dash_digits() {
    assert_eq!(parse_n_dash_digits("n-3"), Some(-3));
    assert_eq!(parse_n_dash_digits("n-042"), Some(-42));
    assert_eq!(parse_n_dash_digits("n-"), None);
    assert_eq!(parse_n_dash_digits("n-3x"), None);
    assert_eq!(parse_n_dash_digits("m-3"), None);
    assert_eq!(parse_n_dash_digits("n-2147483648"), Some(i32::MIN));
    assert_eq!(parse_n_dash_digits("n-2147483649"), None);
    assert_eq!(parse_n_dash_digits("n-99999999999999999999999"), None);
}
