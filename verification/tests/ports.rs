use localcodepilot::ports::{extract_local_urls, parse_local_url, strip_terminal_sequences, Port};

#[test]
fn extracts_local_urls_from_server_output() {
    let urls = extract_local_urls(
        "Local: http://localhost:5173/\nServer running on [http://127.0.0.1:8000].",
    );

    assert_eq!(urls.len(), 2);
    assert_eq!(urls[0].address(), "http://localhost:5173/");
    assert_eq!(urls[0].port().value(), 5173);
    assert_eq!(urls[1].address(), "http://127.0.0.1:8000");
}

#[test]
fn converts_wildcard_hosts_to_localhost() {
    let urls = extract_local_urls("Listening at http://0.0.0.0:3000");

    assert_eq!(urls[0].address(), "http://localhost:3000");
}

#[test]
fn removes_terminal_colors_before_reading_the_port() {
    let urls =
        extract_local_urls("\u{1b}[36mhttp://localhost:\u{1b}[1m5173\u{1b}[22m/\u{1b}[39m");

    assert_eq!(urls.len(), 1);
    assert_eq!(urls[0].address(), "http://localhost:5173/");
    assert_eq!(urls[0].port().value(), 5173);
}

#[test]
fn ignores_external_urls() {
    assert!(extract_local_urls("Docs: https://example.com:443/help").is_empty());
}

#[test]
fn port_zero_is_rejected() {
    assert!(Port::new(0).is_none());
    assert_eq!(Port::new(8080).unwrap().value(), 8080);
}

#[test]
fn default_ports_follow_the_scheme() {
    let urls = extract_local_urls("see http://localhost/app and https://127.0.0.1?x=1");
    assert_eq!(urls.len(), 2);
    assert_eq!(urls[0].address(), "http://localhost:80/app");
    assert_eq!(urls[0].port().value(), 80);
    assert_eq!(urls[1].address(), "https://127.0.0.1:443?x=1");
    assert_eq!(urls[1].port().value(), 443);
}

#[test]
fn ipv6_hosts_keep_or_gain_brackets() {
    let urls = extract_local_urls("a http://[::1]:4000/x b http://[::]:4001 c http://::1:4002");
    let addresses: Vec<&str> = urls.iter().map(|url| url.address()).collect();
    assert_eq!(
        addresses,
        ["http://[::1]:4000/x", "http://localhost:4001", "http://[::1]:4002"]
    );
}

#[test]
fn repeated_addresses_are_listed_once() {
    let urls = extract_local_urls("http://localhost:3000 http://localhost:3000, http://localhost:3001");
    assert_eq!(urls.len(), 2);
    assert_eq!(urls[0].address(), "http://localhost:3000");
    assert_eq!(urls[1].address(), "http://localhost:3001");
}

#[test]
fn malformed_ports_are_skipped() {
    assert!(extract_local_urls("http://localhost:0/ http://localhost:70000 http://localhost:x").is_empty());
    assert!(extract_local_urls("http://[::1 http://[::1]x").is_empty());
    let urls = extract_local_urls("http://localhost:+8080");
    assert_eq!(urls[0].port().value(), 8080);
    assert_eq!(urls[0].address(), "http://localhost:8080");
}

#[test]
fn trailing_punctuation_and_quotes_end_an_address() {
    let urls = extract_local_urls("(\"http://localhost:5000/path).\" 'http://127.0.0.1:9000/a'");
    let addresses: Vec<&str> = urls.iter().map(|url| url.address()).collect();
    assert_eq!(addresses, ["http://localhost:5000/path", "http://127.0.0.1:9000/a"]);
}

#[test]
fn operating_system_commands_are_removed() {
    let urls = extract_local_urls(
        "\u{1b}]8;;http://example.com\u{7}http://localhost:1234\u{1b}]8;;\u{1b}\\ end",
    );
    assert_eq!(urls.len(), 1);
    assert_eq!(urls[0].address(), "http://localhost:1234");
}

#[test]
fn a_port_is_rebuilt_from_its_number() {
    let port = Port::new(5173).unwrap();
    assert_eq!(Port::new(port.value()), Some(port));
}

#[test]
fn found_addresses_are_found_again_unchanged() {
    let urls = extract_local_urls("\u{1b}[32mready\u{1b}[0m on http://0.0.0.0:3000/app?x=1 and https://[::1]:8443");
    assert_eq!(urls.len(), 2);
    for url in &urls {
        let again = extract_local_urls(url.address());
        assert_eq!(again, vec![url.clone()]);
    }
    assert_eq!(urls[0].address(), "http://localhost:3000/app?x=1");
    assert_eq!(urls[1].address(), "https://[::1]:8443");
}

fn chars(text: &str) -> Vec<char> {
    text.chars().collect()
}

#[test]
fn stripping_keeps_plain_text_and_is_stable() {
    let clean = strip_terminal_sequences(&chars("\u{1b}[1;32mok\u{1b}[0m \u{1b}]0;t\u{7}done"));
    assert_eq!(clean.iter().collect::<String>(), "ok done");
    assert_eq!(strip_terminal_sequences(&clean), clean);
    assert_eq!(strip_terminal_sequences(&chars("plain")), chars("plain"));
}

#[test]
fn a_parsed_address_parses_back_to_itself() {
    let url = parse_local_url(&chars("https://0.0.0.0:5173/docs")).unwrap();
    assert_eq!(url.address(), "https://localhost:5173/docs");
    assert_eq!(parse_local_url(&chars(url.address())), Some(url.clone()));
    assert_eq!(parse_local_url(&chars("http://example.com:80")), None);
}
