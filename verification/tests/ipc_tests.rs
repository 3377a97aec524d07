use ghost_core::ipc_client::{fetch_history_url, search_history_url, urlencoding_simple};

#[test]
fn url_encoding_of_plain_text() {
    assert_eq!(urlencoding_simple("abc-XYZ_0.9~"), "abc-XYZ_0.9~");
    assert_eq!(urlencoding_simple("npm install"), "npm%20install");
}

#[test]
fn url_encoding_of_reserved_and_unicode() {
    assert_eq!(urlencoding_simple("a&b=c"), "a%26b%3Dc");
    assert_eq!(urlencoding_simple("\n"), "%0A");
    assert_eq!(urlencoding_simple("\u{1}"), "%01");
    assert_eq!(urlencoding_simple("é"), "%E9");
    assert_eq!(urlencoding_simple("€"), "%20AC");
    assert_eq!(urlencoding_simple("/home/me"), "%2Fhome%2Fme");
}

#[test]
fn history_urls() {
    assert_eq!(fetch_history_url(5, None), "http://127.0.0.1:8000/history?limit=5");
    assert_eq!(
        fetch_history_url(100, Some("/home/me proj")),
        "http://127.0.0.1:8000/history?limit=100&workspace=%2Fhome%2Fme%20proj"
    );
}

#[test]
fn search_urls() {
    assert_eq!(
        search_history_url("git push", 10),
        "http://127.0.0.1:8000/search?q=git%20push&limit=10"
    );
    assert_eq!(search_history_url("", 0), "http://127.0.0.1:8000/search?q=&limit=0");
}

fn percent_decode(e: &str) -> String {
    let cs: Vec<char> = e.chars().collect();
    let mut out = String::new();
    let mut i = 0;
    while i < cs.len() {
        if cs[i] == '%' && i + 2 < cs.len() + 0 && cs[i + 1].is_ascii_hexdigit() && cs[i + 2].is_ascii_hexdigit() {
            let v = u32::from_str_radix(&format!("{}{}", cs[i + 1], cs[i + 2]), 16).unwrap();
            out.push(char::from_u32(v).unwrap());
            i += 3;
        } else {
            out.push(cs[i]);
            i += 1;
        }
    }
    out
}

#[test]
fn url_encoding_round_trips_on_ascii() {
    for s in ["npm install", "a&b=c#d?e", "100% done", "~/x_y.z-1", "tab\there", ""] {
        let e = urlencoding_simple(s);
        assert!(e.chars().all(|c| c.is_ascii_alphanumeric() || "-_.~%".contains(c)));
        assert_eq!(percent_decode(&e), s);
    }
}
