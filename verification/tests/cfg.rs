use web_bench::cfg::{parse_count, Config};
use web_bench::task::request_line;

#[test]
fn config_keeps_its_fields() {
    let cfg = Config::new(
        String::from("localhost:80"),
        String::from("HEAD"),
        String::from("/index.html"),
        8,
        1000,
    );
    assert_eq!(cfg.addr, "localhost:80");
    assert_eq!(cfg.method, "HEAD");
    assert_eq!(cfg.path, "/index.html");
    assert_eq!(cfg.worker, 8);
    assert_eq!(cfg.counts, 1000);
}

#[test]
fn parse_count_reads_decimal_digits() {
    assert_eq!(parse_count("0"), Some(0));
    assert_eq!(parse_count("123"), Some(123));
    assert_eq!(parse_count("007"), Some(7));
    assert_eq!(parse_count("18446744073709551615"), Some(usize::MAX));
}

#[test]
fn parse_count_rejects_what_is_not_a_count() {
    assert_eq!(parse_count(""), None);
    assert_eq!(parse_count("12a"), None);
    assert_eq!(parse_count("-3"), None);
    assert_eq!(parse_count(" 4"), None);
    assert_eq!(parse_count("18446744073709551616"), None);
    assert_eq!(parse_count("99999999999999999999999999"), None);
}

#[test]
fn request_line_is_method_path_and_protocol() {
    assert_eq!(request_line("GET", "/"), "GET / HTTP/1.1\r\n\r\n");
    assert_eq!(request_line("POST", "/submit"), "POST /submit HTTP/1.1\r\n\r\n");
}
