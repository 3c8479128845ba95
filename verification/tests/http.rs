use npurag::json::{arg_of, count, first_string, number, string_of, Arg};
use npurag::http::{
    authorized, bind_host, constant_time_eq, guard_exposure, is_localhost,
    not_allowed, not_found, parameters, percent_decode, query_parameters, required, route,
    split_url, unauthorized, HttpOptions, Reply, Route, DEFAULT_BIND,
};

#[test]
fn health_is_open_whatever_the_method() {
    assert_eq!(route("GET", "/health"), Route::Health);
    assert_eq!(route("DELETE", "/health"), Route::Health);
}

#[test]
fn routes_are_named_by_method_and_path() {
    assert_eq!(route("GET", "/status"), Route::Status);
    assert_eq!(route("POST", "/status"), Route::NotFound);
    assert_eq!(route("GET", "/search"), Route::Search);
    assert_eq!(route("POST", "/search"), Route::Search);
    assert_eq!(route("POST", "/ask"), Route::Ask);
    assert_eq!(route("GET", "/nope"), Route::NotFound);
    assert_eq!(route("PUT", "/search"), Route::NotAllowed);
}

#[test]
fn an_unknown_route_says_which_ones_exist() {
    let reply = not_found("/nope");
    assert_eq!(reply.status, 404);
    assert_eq!(
        reply.body,
        r#"{"error":"no route /nope; try /search, /ask, /status or /health"}"#
    );
}

#[test]
fn the_wrong_method_is_refused_rather_than_misread() {
    let reply = not_allowed("PUT", "/search");
    assert_eq!(reply.status, 405);
    assert_eq!(reply.body, r#"{"error":"PUT is not allowed on /search"}"#);
    assert_eq!(unauthorized().status, 401);
}

#[test]
fn error_bodies_are_escaped_json() {
    let reply = Reply::error(400, "bad \"quote\"\n");
    assert_eq!(reply.body, r#"{"error":"bad \"quote\"\n"}"#);
    let ok = Reply::ok("{}".to_string());
    assert_eq!((ok.status, ok.body.as_str()), (200, "{}"));
}

#[test]
fn without_a_token_configured_anything_may_ask() {
    assert!(authorized(&None, None));
    assert!(authorized(&None, Some("Bearer whatever")));
}

#[test]
fn a_configured_token_is_required_and_must_match() {
    let token = Some("s3cret".to_string());
    assert!(!authorized(&token, None));
    assert!(!authorized(&token, Some("Bearer wrong")));
    assert!(!authorized(&token, Some("s3cret")));
    assert!(!authorized(&token, Some("bearer s3cret")));
    assert!(authorized(&token, Some("Bearer s3cret")));
    assert!(authorized(&token, Some("Bearer  s3cret  ")));
}

#[test]
fn the_index_is_never_exposed_to_the_network_without_a_token() {
    let open = HttpOptions { bind: "0.0.0.0:8787".to_string(), token: None };
    let err = guard_exposure(&open, false).unwrap_err();
    assert!(err.contains("0.0.0.0:8787"), "got {err}");
    assert!(err.contains("NPURAG_TOKEN"), "got {err}");
    assert!(guard_exposure(&open, true).is_ok());
    let guarded = HttpOptions { bind: "0.0.0.0:8787".to_string(), token: Some("t".to_string()) };
    assert!(guard_exposure(&guarded, false).is_ok());
    assert_eq!(HttpOptions::default().bind, DEFAULT_BIND);
}

#[test]
fn the_host_of_a_bind_address_is_found() {
    assert_eq!(bind_host("127.0.0.1:8787"), "127.0.0.1");
    assert_eq!(bind_host("[::1]:80"), "::1");
    assert_eq!(bind_host("localhost"), "localhost");
    assert!(is_localhost("LocalHost"));
    assert!(!is_localhost("localhost.example"));
}

#[test]
fn percent_escapes_and_plus_signs_are_decoded() {
    assert_eq!(percent_decode("nightly+backup%3F"), "nightly backup?");
    assert_eq!(percent_decode("caf%C3%A9"), "café");
    assert_eq!(percent_decode("100%"), "100%");
    assert_eq!(percent_decode("%zz"), "%zz");
    assert_eq!(percent_decode("%+5"), "% 5");
    assert_eq!(percent_decode("% 5x"), "% 5x");
    assert_eq!(percent_decode("plain"), "plain");
    assert_eq!(percent_decode("%ff"), "\u{fffd}");
}

#[test]
fn query_parameters_are_split_and_decoded_in_order() {
    let pairs = query_parameters("q=nightly+backup&&k=3&flag&mode=");
    assert_eq!(
        pairs,
        vec![
            ("q".to_string(), "nightly backup".to_string()),
            ("k".to_string(), "3".to_string()),
            ("flag".to_string(), String::new()),
            ("mode".to_string(), String::new()),
        ]
    );
    assert!(query_parameters("").is_empty());
}

#[test]
fn escapes_next_to_multibyte_characters_never_panic() {
    assert_eq!(percent_decode("a%41b"), "aAb");
    assert_eq!(percent_decode("%é"), "%é");
    assert_eq!(percent_decode("%a\u{e9}"), "%a\u{e9}");
    assert_eq!(percent_decode("%\u{20ac}"), "%\u{20ac}");
    let pairs = query_parameters("q=%a\u{e9}&k=%41");
    assert_eq!(
        pairs,
        vec![
            ("q".to_string(), "%a\u{e9}".to_string()),
            ("k".to_string(), "A".to_string()),
        ]
    );
}

#[test]
fn urls_split_at_the_first_question_mark() {
    assert_eq!(split_url("/search?q=a?b"), ("/search".to_string(), "q=a?b".to_string()));
    assert_eq!(split_url("/status"), ("/status".to_string(), String::new()));
}

#[test]
fn token_comparison_is_exact() {
    assert!(constant_time_eq("abc", "abc"));
    assert!(!constant_time_eq("abc", "abd"));
    assert!(!constant_time_eq("abc", "abcd"));
    assert!(constant_time_eq("", ""));
}

fn text(s: &str) -> Arg {
    Arg::Text(s.to_string())
}

#[test]
fn a_get_takes_its_arguments_from_the_query_string() {
    let args = parameters("GET", "q=nightly+backup&k=3", r#"{"k":9}"#).expect("ok");
    assert_eq!(
        args,
        vec![
            ("q".to_string(), text("nightly backup")),
            ("k".to_string(), text("3")),
        ]
    );
    assert_eq!(parameters("POST", "q=a", "  \n").expect("ok"), vec![("q".to_string(), text("a"))]);
}

#[test]
fn the_body_wins_over_the_query_string_for_the_keys_it_names() {
    let args = parameters("POST", "q=query+text&k=3&mode=vector", r#"{"q":"body text","k":5}"#)
        .expect("ok");
    assert_eq!(string_of(&args, "q").as_deref(), Some("body text"));
    assert_eq!(arg_of(&args, "k"), Some(&Arg::Number("5".to_string())));
    assert_eq!(arg_of(&args, "k").and_then(count), Some(5));
    assert_eq!(string_of(&args, "mode").as_deref(), Some("vector"));
}

#[test]
fn a_body_that_is_not_a_json_object_is_refused() {
    assert_eq!(
        parameters("POST", "", "{not json"),
        Err("the request body is not JSON".to_string())
    );
    assert_eq!(
        parameters("POST", "q=a", "[1, 2]"),
        Err("the request body must be a JSON object".to_string())
    );
}

#[test]
fn the_first_non_blank_of_several_names_is_taken() {
    let args = parameters("POST", "q=++", r#"{"query":"  backups  "}"#).expect("ok");
    assert_eq!(first_string(&args, &["q", "query"]).as_deref(), Some("backups"));
    assert_eq!(required(&args, &["q", "query"]), Ok("backups".to_string()));
    assert_eq!(required(&args, &["q", "question"]), Err("`q` is required".to_string()));
}

#[test]
fn whole_numbers_arrive_as_numbers_or_as_strings() {
    assert_eq!(count(&text(" 7 ")), Some(7));
    assert_eq!(count(&Arg::Number("12".to_string())), Some(12));
    assert_eq!(count(&Arg::Number("2.5".to_string())), None);
    assert_eq!(count(&Arg::Number("-1".to_string())), None);
    assert_eq!(count(&Arg::Other), None);
    assert_eq!(number(&text("3")), None);
    assert_eq!(number(&Arg::Number("3".to_string())), Some(3));
}
