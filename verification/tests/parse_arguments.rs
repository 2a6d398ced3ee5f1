use message_text::parse_arguments;

#[test]
fn test_parse_arguments_basic() {
    let input = "arg1,arg2,arg3";
    let result = parse_arguments(input);
    assert_eq!(result, vec!["arg1", "arg2", "arg3"]);
}

#[test]
fn test_parse_arguments_empty_string() {
    let input = "";
    let result = parse_arguments(input);
    assert_eq!(result, Vec::<&str>::new());
}

#[test]
fn test_parse_arguments_single_argument() {
    let input = "arg1";
    let result = parse_arguments(input);
    assert_eq!(result, vec!["arg1"]);
}

#[test]
fn test_parse_arguments_with_whitespace() {
    let input = " arg1 , arg2 , arg3 ";
    let result = parse_arguments(input);
    assert_eq!(result, vec!["arg1", "arg2", "arg3"]);
}

#[test]
fn test_parse_arguments_empty_arguments() {
    let input = "arg1,,arg3";
    let result = parse_arguments(input);
    assert_eq!(result, vec!["arg1", "arg3"]);
}

#[test]
fn test_parse_arguments_with_braces() {
    let input = "arg1,{inner1,inner2},arg3";
    let result = parse_arguments(input);
    assert_eq!(result, vec!["arg1", "{inner1,inner2}", "arg3"]);
}

#[test]
fn test_parse_arguments_nested_braces() {
    let input = "arg1,{outer{inner1,inner2}outer},arg3";
    let result = parse_arguments(input);
    assert_eq!(result, vec!["arg1", "{outer{inner1,inner2}outer}", "arg3"]);
}

#[test]
fn test_parse_arguments_unbalanced_braces() {
    let input = "arg1,{unbalanced,arg3";
    let result = parse_arguments(input);
    // With an unmatched opening brace, the rest is one argument.
    assert_eq!(result, vec!["arg1", "{unbalanced,arg3"]);
}

#[test]
fn test_parse_arguments_protocol_examples() {
    // TLCP protocol message example arguments
    let input = "CONOK,S8f4aec42c3c14ad0,50000,5000,*";
    let result = parse_arguments(input);
    assert_eq!(
        result,
        vec!["CONOK", "S8f4aec42c3c14ad0", "50000", "5000", "*"]
    );

    let input = "u,1,1,a|b|c";
    let result = parse_arguments(input);
    assert_eq!(result, vec!["u", "1", "1", "a|b|c"]);
}

#[test]
fn parse_arguments_drops_blank_pieces() {
    assert_eq!(parse_arguments(",,,"), Vec::<&str>::new());
    assert_eq!(parse_arguments(" , \t ,\n"), Vec::<&str>::new());
    assert_eq!(parse_arguments("   "), Vec::<&str>::new());
    assert_eq!(parse_arguments(",a,"), vec!["a"]);
}

#[test]
fn parse_arguments_keeps_inner_whitespace_and_case() {
    assert_eq!(parse_arguments("  Two Words ,\tX  y\n"), vec!["Two Words", "X  y"]);
}

#[test]
fn parse_arguments_without_braces_is_naive_split() {
    let input = " a, b ,,c d ,  ,e";
    let naive: Vec<&str> = input
        .split(',')
        .map(|piece| piece.trim())
        .filter(|piece| !piece.is_empty())
        .collect();
    assert_eq!(parse_arguments(input), naive);
    assert_eq!(parse_arguments(input), vec!["a", "b", "c d", "e"]);
}

#[test]
fn parse_arguments_negative_depth_hides_commas() {
    // A stray closing brace takes the depth to -1; it comes back to zero
    // with the next opening brace.
    assert_eq!(parse_arguments("a},b,c"), vec!["a},b,c"]);
    assert_eq!(parse_arguments("a},b{,c"), vec!["a},b{", "c"]);
}

#[test]
fn parse_arguments_comma_after_balanced_braces_separates() {
    assert_eq!(parse_arguments("{a,b},{c},d"), vec!["{a,b}", "{c}", "d"]);
    assert_eq!(parse_arguments("x{1,2}y , z"), vec!["x{1,2}y", "z"]);
}

#[test]
fn parse_arguments_beyond_ascii() {
    assert_eq!(parse_arguments("é, ü ,{ñ,x},日本"), vec!["é", "ü", "{ñ,x}", "日本"]);
    assert_eq!(parse_arguments("\u{a0}a\u{2003},\u{3000}"), vec!["a"]);
}

#[test]
fn parse_arguments_returns_slices_of_the_input() {
    let input = String::from(" first , {second, third} ");
    let result = parse_arguments(&input);
    assert_eq!(result, vec!["first", "{second, third}"]);
    let base = input.as_ptr() as usize;
    assert_eq!(result[0].as_ptr() as usize - base, 1);
    assert_eq!(result[1].as_ptr() as usize - base, 9);
}
