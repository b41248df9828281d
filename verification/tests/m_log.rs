use nginx_logs::m_log::{get_log, Log};

const LINE: &str =
    "8.8.8.8 - - [28/Oct/2021:00:18:22 +0100] \"GET / HTTP/1.1\" 200 77 \"-\" \"foo bar 1\"";

#[test]
fn test_get_log_for_correct_log() {
    assert_eq!(
        Some(Log {
            remote_addr: "8.8.8.8",
            remote_user: "-",
            time_local: "28/Oct/2021:00:18:22 +0100",
            request: "GET / HTTP/1.1",
            status: "200",
            body_bytes_sent: "77",
            http_referer: "-",
            http_user_agent: "foo bar 1"
        }),
        get_log("8.8.8.8 - - [28/Oct/2021:00:18:22 +0100] \"GET / HTTP/1.1\" 200 77 \"-\" \"foo bar 1\"")
    );
}

#[test]
fn test_get_log_for_incorrect_log() {
    assert_eq!(
        None,
        get_log("8.8.8.8 - - [28/Oct/2021:00:18:22 +0100 \"GET / HTTP/1.1\" 200 77 \"-\" \"foo bar 1\"")
    );
}

#[test]
fn get_log_rejects_the_empty_line() {
    assert_eq!(None, get_log(""));
}

#[test]
fn get_log_rejects_text_without_delimiters() {
    assert_eq!(None, get_log("\u{0}\u{1}\u{fffd}\u{7f}garbage"));
    assert_eq!(None, get_log("[[[[]]]]"));
    assert_eq!(None, get_log("\"\"\"\"\"\"\"\"\"\"\"\""));
}

#[test]
fn get_log_rejects_a_line_cut_short() {
    for end in 0..LINE.len() {
        assert_eq!(None, get_log(&LINE[..end]), "cut at {}", end);
    }
}

#[test]
fn get_log_rejects_a_quote_inside_a_quoted_field() {
    assert_eq!(
        None,
        get_log("8.8.8.8 - - [28/Oct/2021:00:18:22 +0100] \"GET /\"x HTTP/1.1\" 200 77 \"-\" \"foo\"")
    );
    assert_eq!(
        None,
        get_log("8.8.8.8 - - [28/Oct/2021:00:18:22 +0100] \"GET / HTTP/1.1\" 200 77 \"-\" \"foo \" bar\"")
    );
    assert_eq!(
        None,
        get_log("8.8.8.8 - - [28/Oct/2021:00:18:22 +0100] \"GET / HTTP/1.1\" 200 77 \"-\" \"foo\" \"")
    );
}

#[test]
fn get_log_takes_a_dash_as_text() {
    let log = get_log("1.2.3.4 - - [t] \"r\" 200 0 \"-\" \"-\"").unwrap();
    assert_eq!("-", log.remote_user);
    assert_eq!("-", log.http_referer);
    assert_eq!("-", log.http_user_agent);
}

#[test]
fn get_log_keeps_spaces_and_case_in_fields() {
    let log = get_log(
        "::1 - John Doe [ 01/Jan/2000 ] \" GET  /A b \" 404 12 \"http://x/ y\" \" Mozilla  5.0 \"",
    )
    .unwrap();
    assert_eq!(
        Log {
            remote_addr: "::1",
            remote_user: "John Doe",
            time_local: " 01/Jan/2000 ",
            request: " GET  /A b ",
            status: "404",
            body_bytes_sent: "12",
            http_referer: "http://x/ y",
            http_user_agent: " Mozilla  5.0 ",
        },
        log
    );
}

#[test]
fn get_log_takes_empty_fields() {
    let log = get_log(" -  [] \"\"   \"\" \"\"").unwrap();
    assert_eq!(
        Log {
            remote_addr: "",
            remote_user: "",
            time_local: "",
            request: "",
            status: "",
            body_bytes_sent: "",
            http_referer: "",
            http_user_agent: "",
        },
        log
    );
}

#[test]
fn get_log_takes_text_of_more_than_one_byte_a_character() {
    let log = get_log("h\u{f4}te - j\u{fc}rgen [\u{2603}] \"GET /\u{1f600}\" 200 5 \"\u{e9}\" \"\u{4e2d}\u{6587}\"")
        .unwrap();
    assert_eq!("h\u{f4}te", log.remote_addr);
    assert_eq!("j\u{fc}rgen", log.remote_user);
    assert_eq!("\u{2603}", log.time_local);
    assert_eq!("GET /\u{1f600}", log.request);
    assert_eq!("\u{e9}", log.http_referer);
    assert_eq!("\u{4e2d}\u{6587}", log.http_user_agent);
}

#[test]
fn get_log_rejects_a_bracket_right_behind_the_second_space() {
    assert_eq!(None, get_log("1.2.3.4 - [t] \"r\" 200 0 \"-\" \"-\""));
}

#[test]
fn get_log_rejects_a_quote_right_behind_the_size_space() {
    assert_eq!(None, get_log("1.2.3.4 - - [t] \"r\" 200 \"-\" \"-\""));
}

#[test]
fn get_log_rejects_a_character_cut_apart_before_the_bracket() {
    assert_eq!(None, get_log("1.2.3.4 - u\u{e9}[t] \"r\" 200 0 \"-\" \"-\""));
    assert_eq!(None, get_log("1.2.3.4 - u [t] \"r\" 200 0\u{e9}\"-\" \"-\""));
}

#[test]
fn get_log_rejects_a_field_that_no_space_sets_off() {
    assert_eq!(None, get_log("1.2.3.4 - ux[t] \"r\" 200 0 \"-\" \"-\""));
    assert_eq!(None, get_log("1.2.3.4 - u [t] \"r\" 200 0y\"-\" \"-\""));
    assert!(get_log("1.2.3.4 - u [t] \"r\" 200 0 \"-\" \"-\"").is_some());
}

#[test]
fn get_log_rejects_a_quote_between_the_request_and_the_size() {
    assert_eq!(None, get_log("1.2.3.4 - u [t] \"r\"\" 200 0 \"-\" \"-"));
    assert_eq!(None, get_log("1.2.3.4 - u [t] \"r\" 2\"00 0 \"-\" \"-"));
    assert_eq!(None, get_log("1.2.3.4 - u [t] \"GET /\"a\" 200 0 \"-\" \"-\""));
    assert_eq!(None, get_log("1.2.3.4 - u [t] \"GET /\" a\" 200 0 \"-\" \"-\""));
    assert_eq!(None, get_log("1.2.3.4 - u [t] \"GET /\" a b\" 200 0 \"-\" \"-\""));
}

#[test]
fn get_log_ignores_what_follows_the_last_quote() {
    let log = get_log("1.2.3.4 - - [t] \"r\" 200 0 \"-\" \"agent\" rt=0.1 [x]").unwrap();
    assert_eq!("agent", log.http_user_agent);
}

#[test]
fn get_log_passes_over_quotes_in_front_of_the_time() {
    let log = get_log("\"a\" - \"u\" [t] \"r\" 200 0 \"-\" \"-\"").unwrap();
    assert_eq!("\"a\"", log.remote_addr);
    assert_eq!("\"u\"", log.remote_user);
}

#[test]
fn to_text_joins_the_fields_with_commas() {
    let log = get_log(LINE).unwrap();
    assert_eq!(
        "8.8.8.8,-,28/Oct/2021:00:18:22 +0100,GET / HTTP/1.1,200,77,-,foo bar 1",
        log.to_text()
    );
    let log = Log {
        remote_addr: "a,b",
        remote_user: "",
        time_local: "\"",
        request: "\u{e9}",
        status: "",
        body_bytes_sent: "",
        http_referer: "",
        http_user_agent: "z",
    };
    assert_eq!("a,b,,\",\u{e9},,,,z", log.to_text());
}
