use vecmath_cli::error::VecMathError;
use vecmath_cli::text::{unreadable_vector, vector_token_lists};

fn lists(arg: &str) -> Vec<Vec<String>> {
    vector_token_lists(arg)
}

#[test]
fn bracketed_vector_tokens() {
    let l = lists("[1, 2, 3]");
    assert_eq!(l.len(), 3);
    assert_eq!(l[0], vec!["1", "2", "3"]);
    assert_eq!(l[1], vec!["[1,", "2,", "3]"]);
    assert_eq!(l[2], vec!["[1", "2", "3]"]);
}

#[test]
fn space_separated_tokens() {
    let l = lists("  1.0 2.0\t3.0 \n");
    assert_eq!(l.len(), 2);
    assert_eq!(l[0], vec!["1.0", "2.0", "3.0"]);
    assert_eq!(l[1], vec!["1.0 2.0\t3.0"]);
}

#[test]
fn comma_separated_tokens() {
    let l = lists("1, ,2,,3,");
    assert_eq!(l.len(), 2);
    assert_eq!(l[0], vec!["1,", ",2,,3,"]);
    assert_eq!(l[1], vec!["1", "2", "3"]);
}

#[test]
fn empty_and_blank_text() {
    assert_eq!(lists(""), vec![Vec::<String>::new(), Vec::new()]);
    assert_eq!(lists(" \u{3000} "), vec![Vec::<String>::new(), Vec::new()]);
    assert_eq!(lists("[]"), vec![Vec::<String>::new(), vec!["[]".to_string()], vec!["[]".to_string()]]);
    assert_eq!(lists("[ ]")[0], Vec::<String>::new());
}

#[test]
fn unicode_whitespace_separates() {
    let l = lists("1\u{2003}2\u{A0}3");
    assert_eq!(l[0], vec!["1", "2", "3"]);
}

#[test]
fn unreadable_message() {
    match unreadable_vector("abc") {
        VecMathError::ParseError(m) => {
            assert_eq!(m, "cannot parse vector from 'abc'. Use [1,2,3] or '1 2 3' or '1,2,3'")
        }
        other => panic!("unexpected {:?}", other),
    }
}
