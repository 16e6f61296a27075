use vapor_diagnostics_server::redact::{
    normalize_newlines, redact_matches, redact_text, swallowed_headers, MatchSpan,
};

#[test]
fn redacts_assignment_values_with_spacing() {
    let result = redact_text("password = \"visible-secret\"\ntoken=abc123\n");
    assert!(result.text.contains("<redacted>"));
    assert!(!result.text.contains("visible-secret"));
    assert!(!result.text.contains("abc123"));
    assert!(result.replacements >= 2);
}

#[test]
fn redacts_headers_and_github_tokens() {
    let result = redact_text(
        "Authorization: Bearer secret-token\nCookie: session=secret\nghp_abcdefghijklmnopqrstuvwxyz\n",
    );
    assert!(!result.text.contains("secret-token"));
    assert!(!result.text.contains("session=secret"));
    assert!(!result.text.contains("ghp_abcdefghijklmnopqrstuvwxyz"));
}

#[test]
fn assignments_keep_key_and_spacing() {
    let result = redact_text("password = \"visible-secret\"\ntoken=abc123\n");
    assert_eq!(result.text, "password = <redacted>\ntoken=<redacted>\n");
    assert_eq!(result.replacements, 2);
}

#[test]
fn headers_keep_their_names() {
    let result = redact_text(
        "Authorization: Bearer secret-token\nCookie: session=secret\nghp_abcdefghijklmnopqrstuvwxyz\n",
    );
    assert_eq!(result.text, "Authorization: <redacted>\nCookie: <redacted>\n<redacted>\n");
    assert_eq!(result.replacements, 3);
}

#[test]
fn a_header_after_an_unfinished_assignment_is_redacted() {
    let result = redact_text("token=\nAuthorization: Bearer abc\n");
    assert!(!result.text.contains("abc"));
    assert_eq!(result.text, "token=\n<redacted> <redacted>\n");
    assert_eq!(result.replacements, 2);
}

#[test]
fn a_cookie_after_an_unfinished_assignment_is_redacted() {
    let result = redact_text("secret =\r\nCookie: session=abc; theme=dark\r\nnext\n");
    assert!(!result.text.contains("abc"));
    assert!(!result.text.contains("theme"));
    assert_eq!(result.text, "secret =\n<redacted> <redacted>\nnext\n");
    assert_eq!(result.replacements, 2);
}

#[test]
fn a_header_whose_value_stands_on_the_next_line_is_redacted() {
    let result = redact_text("Authorization:\n Bearer abc\nCookie: token=xyz\n");
    assert_eq!(result.text, "Authorization:\n <redacted>\nCookie: <redacted>\n");
    assert_eq!(result.replacements, 3);
}

#[test]
fn a_quoted_value_that_holds_a_header_is_redacted_whole() {
    let result = redact_text("password = \"a b\nCookie: c\"");
    assert_eq!(result.text, "password = <redacted>\n");
    assert_eq!(result.replacements, 1);
    let result = redact_text("password=\"x y token=\nAuthorization: abc\"\n");
    assert_eq!(result.text, "password=<redacted>\n");
    assert_eq!(result.replacements, 1);
}

#[test]
fn a_quoted_value_that_begins_in_a_header_is_redacted_whole() {
    let result = redact_text("Cookie: token=\"abc\ndef\"");
    assert_eq!(result.text, "Cookie: <redacted>\n");
    assert_eq!(result.replacements, 2);
}

#[test]
fn a_value_in_a_header_is_counted_in_each_pass_that_finds_it() {
    let result = redact_text("Cookie: token=abc");
    assert_eq!(result.text, "Cookie: <redacted>\n");
    assert_eq!(result.replacements, 2);
}

#[test]
fn a_header_that_is_not_swallowed_is_left_to_its_pattern() {
    let result = redact_text("token=\n token=\nAuthorization: Bearer abc\n");
    assert_eq!(result.text, "token=\n <redacted>\nAuthorization: <redacted>\n");
    assert_eq!(result.replacements, 2);
}

#[test]
fn what_a_quoted_value_leaves_of_a_header_is_redacted() {
    let result = redact_text("password=\"x\nCookie: a=\"b\"; c=d\nnext\n");
    assert_eq!(result.text, "password=<redacted><redacted>\nnext\n");
    assert_eq!(result.replacements, 2);
}

#[test]
fn a_value_that_outlasts_a_swallowed_header_is_redacted_whole() {
    let result = redact_text("token=\nAuthorization: a token=\"x\ny\" z\n");
    assert_eq!(result.text, "token=\n<redacted> <redacted> z\n");
    assert_eq!(result.replacements, 2);
    let result = redact_text("token=\nAuthorization:Bearer abc\n");
    assert_eq!(result.text, "token=\n<redacted>\n");
    assert_eq!(result.replacements, 2);
}

#[test]
fn remainders_of_headers_are_found_from_the_matches() {
    let span = |start: usize, value: usize, end: usize| MatchSpan {
        start,
        end,
        prefix: Some((start, value)),
    };
    let found = |assignments: Vec<MatchSpan>, headers: Vec<MatchSpan>| -> Vec<(usize, usize)> {
        let spans = swallowed_headers(&assignments, &headers);
        assert!(spans.iter().all(|span| span.prefix.is_none()));
        spans.iter().map(|span| (span.start, span.end)).collect()
    };
    assert_eq!(found(vec![span(0, 7, 21)], vec![span(7, 22, 32)]), vec![(22, 32)]);
    assert_eq!(found(vec![span(0, 7, 25)], vec![span(7, 22, 32)]), vec![(25, 32)]);
    assert_eq!(found(vec![span(0, 7, 32)], vec![span(7, 22, 32)]), vec![]);
    assert_eq!(found(vec![span(24, 28, 30)], vec![span(7, 22, 32)]), vec![]);
    assert_eq!(
        found(
            vec![span(0, 2, 3), span(4, 10, 21), span(24, 28, 40)],
            vec![span(8, 22, 32), span(34, 38, 50)]
        ),
        vec![(22, 40), (40, 50)]
    );
    assert_eq!(found(vec![], vec![span(7, 22, 32)]), vec![]);
}

#[test]
fn a_log_too_short_for_any_match_is_kept() {
    for (input, expected) in [("", "\n"), ("\r", "\n"), ("auth=", "auth=\n"), ("a\r\nb", "a\nb\n")] {
        let result = redact_text(input);
        assert_eq!(result.text, expected);
        assert_eq!(result.replacements, 0);
    }
    assert_eq!(redact_text("auth=x").replacements, 1);
}

#[test]
fn fields_given_with_a_colon_are_redacted() {
    let result = redact_text("ticket: 'a b c' rest\n");
    assert_eq!(result.text, "ticket: <redacted> rest\n");
    assert_eq!(result.replacements, 1);
}

#[test]
fn a_query_parameter_is_counted_in_each_pass_that_finds_it() {
    let result = redact_text("GET /x?token=abc&user=me\n");
    assert_eq!(result.text, "GET /x?token=<redacted>&user=me\n");
    assert_eq!(result.replacements, 2);
}

#[test]
fn every_github_token_prefix_is_redacted() {
    for kind in ["p", "o", "u", "s", "r"] {
        let token = format!("gh{}_0123456789abcdef", kind);
        let result = redact_text(&format!("x {} y\n", token));
        assert_eq!(result.text, "x <redacted> y\n");
        assert_eq!(result.replacements, 1);
    }
    let short = redact_text("x ghp_0123456789abcde y\n");
    assert_eq!(short.text, "x ghp_0123456789abcde y\n");
    assert_eq!(short.replacements, 0);
}

#[test]
fn text_around_a_value_may_be_of_any_script() {
    let result = redact_text("пароль é password=sécret ok\n");
    assert_eq!(result.text, "пароль é password=<redacted> ok\n");
    assert_eq!(result.replacements, 1);
}

#[test]
fn a_clean_log_is_only_normalized() {
    let result = redact_text("a\r\nb\rc\r\r\nd");
    assert_eq!(result.text, "a\nb\nc\n\nd\n");
    assert_eq!(result.replacements, 0);
    let ended = redact_text("done\n");
    assert_eq!(ended.text, "done\n");
    let empty = redact_text("");
    assert_eq!(empty.text, "\n");
}

#[test]
fn the_result_never_holds_a_carriage_return() {
    let result = redact_text("token=a\r\nsecret: b\rAuthorization: c\r\n");
    assert!(!result.text.contains('\r'));
    assert!(result.text.ends_with('\n'));
    assert_eq!(result.text, "token=<redacted>\nsecret: <redacted>\nAuthorization: <redacted>\n");
    assert_eq!(result.replacements, 3);
}

#[test]
fn newlines_normalize_like_two_replacements() {
    for input in ["", "\r", "\n", "\r\n", "\n\r", "\r\r\n\n", "a\r\nb\r\r\rc\n\r\n", "\r\n\r\n"] {
        let expected = input.replace("\r\n", "\n").replace('\r', "\n");
        assert_eq!(normalize_newlines(input), expected);
        assert_eq!(normalize_newlines(&expected), expected);
    }
}

#[test]
fn matches_are_cut_down_to_their_prefix() {
    let text = "é key=value, other";
    let spans = vec![MatchSpan { start: 3, end: 12, prefix: Some((3, 7)) }];
    assert_eq!(redact_matches(text, &spans), "é key=<redacted>, other");
    let spans = vec![
        MatchSpan { start: 0, end: 2, prefix: None },
        MatchSpan { start: 14, end: 19, prefix: Some((15, 16)) },
    ];
    assert_eq!(redact_matches(text, &spans), "<redacted> key=value, t<redacted>");
    assert_eq!(redact_matches(text, &vec![]), text);
}
