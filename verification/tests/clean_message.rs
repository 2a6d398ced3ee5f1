use message_text::clean_message;

#[test]
fn test_clean_message_basic() {
    let text = "Hello\nWorld";
    let result = clean_message(text);
    assert_eq!(result, "helloworld");
}

#[test]
fn test_clean_message_with_partial_braces() {
    // A run that starts with '{' and does not end with '}'.
    let text = "{partial brace content} followed by text";
    let result = clean_message(text);
    assert_eq!(result, "{partial brace content} followed by text");
}

#[test]
fn test_clean_message_with_ending_brace() {
    // A run that ends with '}' and does not start with '{'.
    let text = "text followed by {partial brace content}";
    let result = clean_message(text);
    assert_eq!(result, "text followed by {partial brace content}");
}

#[test]
fn test_clean_message_with_carriage_return() {
    let text = "Hello\r\nWorld";
    let result = clean_message(text);
    assert_eq!(result, "helloworld");
}

#[test]
fn test_clean_message_lowercase_conversion() {
    let text = "Hello WORLD";
    let result = clean_message(text);
    assert_eq!(result, "hello world");
}

#[test]
fn test_clean_message_empty_string() {
    let text = "";
    let result = clean_message(text);
    assert_eq!(result, "");
}

#[test]
fn test_clean_message_preserve_braces_content() {
    let text = "Message with {Preserved\nContent} and not preserved\nContent";
    let result = clean_message(text);
    assert_eq!(
        result,
        "message with {preservedcontent} and not preservedcontent"
    );
}

#[test]
fn test_clean_message_nested_braces() {
    let text = "Message with {Outer{Inner\nContent}Outer} and regular\nContent";
    let result = clean_message(text);
    assert_eq!(
        result,
        "message with {outer{innercontent}outer} and regularcontent"
    );
}

#[test]
fn test_clean_message_unbalanced_braces() {
    let text = "Message with {Unbalanced and regular\nContent";
    let result = clean_message(text);
    assert_eq!(result, "message with {unbalanced and regularcontent");
}

#[test]
fn test_clean_message_protocol_example() {
    // Typical TLCP message examples
    let text = "CONOK,S8f4aec42c3c14ad0,50000,5000,*\r\n";
    let result = clean_message(text);
    assert_eq!(result, "conok,s8f4aec42c3c14ad0,50000,5000,*");

    let text = "PROBE\r\n";
    let result = clean_message(text);
    assert_eq!(result, "probe");
}

#[test]
fn clean_message_only_line_breaks() {
    assert_eq!(clean_message("\r\n\n\r"), "");
    assert_eq!(clean_message("\n}\r"), "}");
}

#[test]
fn clean_message_payload_at_start_passes_through() {
    assert_eq!(clean_message("{ABC}"), "{ABC}");
    assert_eq!(clean_message("{Line\r\nBreak}Tail\nEnd"), "{Line\r\nBreak}tailend");
}

#[test]
fn clean_message_payload_after_text_is_cleaned() {
    assert_eq!(clean_message("x{ABC}"), "x{abc}");
    assert_eq!(clean_message("X{A\nB}"), "x{ab}");
}

#[test]
fn clean_message_payload_after_closing_brace_passes_through() {
    assert_eq!(clean_message("{A}{B\n}"), "{A}{B\n}");
    assert_eq!(clean_message("Head{Mid}{Kept\r}Tail"), "head{mid}{Kept\r}tail");
    assert_eq!(clean_message("}{Kept"), "}{Kept");
}

#[test]
fn clean_message_pass_through_covers_one_following_run() {
    assert_eq!(clean_message("{One}Two}Three"), "{One}two}three");
    assert_eq!(clean_message("{{A}B}C"), "{{A}b}c");
}

#[test]
fn clean_message_dangling_open_at_start_runs_to_end() {
    assert_eq!(clean_message("{Dangling\nText"), "{Dangling\nText");
    assert_eq!(clean_message("{"), "{");
    assert_eq!(clean_message("done{"), "done{");
}

#[test]
fn clean_message_without_braces_is_strip_then_lowercase() {
    let text = "Mixed\rCASE\n text 123";
    let expected = text.replace(['\n', '\r'], "").to_lowercase();
    assert_eq!(clean_message(text), expected);
    assert_eq!(clean_message(text), "mixedcase text 123");
}

#[test]
fn clean_message_is_idempotent_on_normal_text() {
    let text = "already normal, with 42 and *";
    assert_eq!(clean_message(text), text);
    let once = clean_message("Some\r\nRAW Text");
    assert_eq!(clean_message(&once), once);
}

#[test]
fn clean_message_lowercases_beyond_ascii() {
    assert_eq!(clean_message("ÉCOLE\r\n"), "école");
    assert_eq!(clean_message("ὈΔΥΣΣΕΎΣ"), "ὀδυσσεύς");
    assert_eq!(clean_message("{ÉCOLE}"), "{ÉCOLE}");
}

#[test]
fn clean_message_lowercases_each_run_on_its_own() {
    // A capital sigma ends its word, and so becomes a final sigma, only
    // where the run ends with it.
    assert_eq!(clean_message("ΑΣ"), "ας");
    assert_eq!(clean_message("ΑΣ}Α"), "ας}α");
    assert_eq!(clean_message("ΑΣΑ"), "ασα");
}

#[test]
fn clean_message_can_lengthen_text() {
    // The lowercase form of a capital I with a dot above is two characters.
    assert_eq!(clean_message("\u{130}"), "i\u{307}");
}

#[test]
fn clean_message_runs_are_cut_after_every_brace() {
    assert_eq!(clean_message("A{B}C{D}E"), "a{b}c{d}e");
    assert_eq!(clean_message("}}A"), "}}a");
    assert_eq!(clean_message("{}A\n"), "{}a");
    assert_eq!(clean_message("{}{A\n}B"), "{}{A\n}b");
}
