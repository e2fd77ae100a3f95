use so::scrape::{make_query_arg, question_url_to_id, DuckDuckGo, Google, ScrapedData};
use so::error::Error;
use so::storage::SiteMap;

fn two_sites() -> SiteMap {
    SiteMap {
        inner: vec![
            ("stackoverflow".to_string(), "stackoverflow.com".to_string()),
            ("askubuntu".to_string(), "askubuntu.com".to_string()),
        ],
    }
}

fn ddg_anchor(target: &str) -> String {
    format!(
        "<a class=\"result__a\" href=\"/l/?kh=-1&amp;uddg={}\">link</a>",
        target
    )
}

/// A result page in the shape DuckDuckGo serves, with percent-encoded
/// redirect targets for ids 11828270 (stackoverflow), 24406 (askubuntu)
/// and 9171356 (stackoverflow), in that order.
fn ddg_page() -> String {
    let mut html = String::from("<html><body><div class=\"results\">");
    html.push_str(&ddg_anchor(
        "https%3A%2F%2Fstackoverflow.com%2Fquestions%2F11828270%2Fhow-do-i-exit-the-vim-editor",
    ));
    html.push_str(&ddg_anchor(
        "https%3A%2F%2Faskubuntu.com%2Fquestions%2F24406%2Fhow-to-close-vim-from-the-command-line",
    ));
    html.push_str(&ddg_anchor(
        "https%3A%2F%2Fstackoverflow.com%2Fquestions%2F9171356%2Fclosing-vim",
    ));
    html.push_str("</div></body></html>");
    html
}

#[test]
fn test_duckduckgo_parser() {
    let html = ddg_page();
    let sites = two_sites();
    let expected = ScrapedData {
        question_ids: vec![
            (
                "stackoverflow".to_string(),
                vec!["11828270".to_string(), "9171356".to_string()],
            ),
            ("askubuntu".to_string(), vec!["24406".to_string()]),
        ],
        ordering: vec![
            ("11828270".to_string(), 0),
            ("24406".to_string(), 1),
            ("9171356".to_string(), 2),
        ],
    };
    let sd = DuckDuckGo.parse(&html, &sites, 3).unwrap();
    assert_eq!(sd.question_ids, expected.question_ids);
    assert_eq!(sd.ordering, expected.ordering);
}

#[test]
fn test_google_parser() {
    let mut html = String::from("<html><body>");
    for url in [
        "https://stackoverflow.com/questions/11828270/how-do-i-exit-the-vim-editor",
        "https://stackoverflow.com/questions/25919461/vim-how-do-i-quit",
        "https://askubuntu.com/questions/24406/how-to-close-vim-from-the-command-line",
    ] {
        html.push_str(&format!("<div class=\"r\"><a href=\"{}\">x</a></div>", url));
    }
    html.push_str("</body></html>");
    let sites = two_sites();
    let sd = Google.parse(&html, &sites, 3).unwrap();
    assert_eq!(
        sd.question_ids,
        vec![
            (
                "stackoverflow".to_string(),
                vec!["11828270".to_string(), "25919461".to_string()],
            ),
            ("askubuntu".to_string(), vec!["24406".to_string()]),
        ]
    );
    assert_eq!(
        sd.ordering,
        vec![
            ("11828270".to_string(), 0),
            ("25919461".to_string(), 1),
            ("24406".to_string(), 2),
        ]
    );
}

#[test]
fn test_question_url_to_id() {
    let site_url = "stackoverflow.com";
    let input = "/l/?kh=-1&uddg=https://stackoverflow.com/questions/11828270/how-do-i-exit-the-vim-editor";
    assert_eq!(question_url_to_id(site_url, input).unwrap(), "11828270");

    let site_url = "stackoverflow.com";
    let input = "/l/?kh=-1&uddg=https://askubuntu.com/questions/24406/how-to-close-vim-from-the-command-line";
    assert_eq!(question_url_to_id(site_url, input), None);
}

#[test]
fn test_question_url_to_id_q_shape() {
    assert_eq!(
        question_url_to_id("unix.stackexchange.com", "https://unix.stackexchange.com/q/28259"),
        Some("28259".to_string())
    );
    // A trailing slash on the configured URL does not matter.
    assert_eq!(
        question_url_to_id("unix.stackexchange.com/", "https://unix.stackexchange.com/q/28259/2"),
        Some("28259".to_string())
    );
}

#[test]
fn test_duckduckgo_url() {
    let q = "how do I exit vim?";
    let sites = vec![
        String::from("stackoverflow.com"),
        String::from("unix.stackexchange.com"),
    ];
    assert_eq!(
        DuckDuckGo.get_url(q, &sites),
        String::from(
            "https://duckduckgo.com/\
            ?q=%28site%3Astackoverflow.com+OR+site%3Aunix.stackexchange.com%29\
            +how+do+I+exit+vim&kz=-1&kh=-1"
        )
    );
}

#[test]
fn test_duckduckgo_blocker() {
    // Zero matching anchors from the provider that never returns an empty
    // page is a blocked request, not an empty result.
    let html = "<html><body><p>Please confirm you are human.</p></body></html>";
    let sites = two_sites();
    match DuckDuckGo.parse(html, &sites, 2) {
        Err(Error::Scraping(s)) if s == "DuckDuckGo blocked this request" => {}
        other => panic!("expected the blocked-request error, got {:?}", other),
    }
}

#[test]
fn test_google_empty_is_ok() {
    // The same zero-match page from the other provider is an ordinary
    // empty result.
    let html = "<html><body><p>No results.</p></body></html>";
    let sites = two_sites();
    let sd = Google.parse(html, &sites, 2).unwrap();
    assert!(sd.question_ids.is_empty());
    assert!(sd.ordering.is_empty());
}

#[test]
fn test_anchor_without_href() {
    let html = "<html><body><a class=\"result__a\">no target</a></body></html>";
    let sites = two_sites();
    match DuckDuckGo.parse(html, &sites, 2) {
        Err(Error::Scraping(s)) if s == "Anchor with no href" => {}
        other => panic!("expected the missing-href error, got {:?}", other),
    }
}

#[test]
fn test_scrape_limit_stops_early() {
    let html = ddg_page();
    let sites = two_sites();
    let sd = DuckDuckGo.parse(&html, &sites, 2).unwrap();
    assert_eq!(sd.ordering.len(), 2);
    assert_eq!(
        sd.question_ids,
        vec![
            ("stackoverflow".to_string(), vec!["11828270".to_string()]),
            ("askubuntu".to_string(), vec!["24406".to_string()]),
        ]
    );
}

#[test]
fn test_off_topic_links_are_skipped() {
    let mut html = String::from("<html><body>");
    html.push_str("<a class=\"result__a\" href=\"https://example.com/blog/vim\">off topic</a>");
    html.push_str(&ddg_anchor(
        "https%3A%2F%2Fstackoverflow.com%2Fquestions%2F11828270%2Fexit-vim",
    ));
    html.push_str("</body></html>");
    let sites = two_sites();
    let sd = DuckDuckGo.parse(&html, &sites, 5).unwrap();
    assert_eq!(sd.ordering, vec![("11828270".to_string(), 0)]);
}

#[test]
fn test_google_q_parser() {
    // A result page whose links use the short `/q/<id>` shape.
    let mut html = String::from("<html><body>");
    for url in [
        "https://stackoverflow.com/q/3940128",
        "https://stackoverflow.com/q/4647368",
        "https://stackoverflow.com/q/12336105",
    ] {
        html.push_str(&format!("<div class=\"r\"><a href=\"{}\">x</a></div>", url));
    }
    html.push_str("</body></html>");
    let sites = SiteMap {
        inner: vec![("stackoverflow".to_string(), "stackoverflow.com".to_string())],
    };
    let sd = Google.parse(&html, &sites, 3).unwrap();
    assert_eq!(
        sd.question_ids,
        vec![(
            "stackoverflow".to_string(),
            vec![
                "3940128".to_string(),
                "4647368".to_string(),
                "12336105".to_string(),
            ],
        )]
    );
    assert_eq!(
        sd.ordering,
        vec![
            ("3940128".to_string(), 0),
            ("4647368".to_string(), 1),
            ("12336105".to_string(), 2),
        ]
    );
}

#[test]
fn test_limit_zero_is_blocked_for_ddg() {
    // With a zero limit nothing is collected, and the never-empty
    // provider reports that as a blocked request.
    let html = ddg_page();
    let sites = two_sites();
    match DuckDuckGo.parse(&html, &sites, 0) {
        Err(Error::Scraping(s)) => assert_eq!(s, "DuckDuckGo blocked this request"),
        other => panic!("expected the blocked-request error, got {:?}", other),
    }
}

#[test]
fn test_query_arg_collapses_whitespace() {
    assert_eq!(
        make_query_arg("  how \t do  I   exit vim??", &vec!["stackoverflow.com".to_string()]),
        "(site:stackoverflow.com) how do I exit vim".to_string()
    );
}

#[test]
fn test_duplicate_links_counted_once() {
    let mut html = String::from("<html><body>");
    for url in [
        "https://stackoverflow.com/questions/11828270/exit-vim",
        "https://stackoverflow.com/questions/11828270/exit-vim",
        "https://askubuntu.com/questions/24406/close-vim",
    ] {
        html.push_str(&format!("<a class=\"result__a\" href=\"{}\">x</a>", url));
    }
    html.push_str("</body></html>");
    let sites = two_sites();
    let sd = DuckDuckGo.parse(&html, &sites, 5).unwrap();
    assert_eq!(
        sd.ordering,
        vec![("11828270".to_string(), 0), ("24406".to_string(), 1)]
    );
    assert_eq!(
        sd.question_ids,
        vec![
            ("stackoverflow".to_string(), vec!["11828270".to_string()]),
            ("askubuntu".to_string(), vec!["24406".to_string()]),
        ]
    );
}
