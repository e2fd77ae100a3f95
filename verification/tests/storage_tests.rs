use so::api::{Answer, Question, Site};
use so::error::Error;
use so::storage::{parse_sites, serialize_sites, LocalStorage, SiteMap};

fn site(code: &str, url: &str) -> Site {
    Site { api_site_parameter: code.to_string(), site_url: url.to_string() }
}

fn directory() -> Vec<Site> {
    vec![
        site("stackoverflow", "stackoverflow.com"),
        site("askubuntu", "askubuntu.com"),
        site("unix", "unix.stackexchange.com"),
    ]
}

#[test]
fn test_cache_round_trip() {
    // A directory written to the cache format and reloaded is identical.
    let sites = directory();
    let text = serialize_sites(&sites);
    let back = parse_sites(&text).unwrap();
    assert_eq!(back.len(), sites.len());
    for (a, b) in back.iter().zip(sites.iter()) {
        assert_eq!(a.api_site_parameter, b.api_site_parameter);
        assert_eq!(a.site_url, b.site_url);
    }
}

#[test]
fn test_cache_round_trip_escapes() {
    let sites = vec![site("we\"ird", "a\\b.example"), site("plain", "plain.example")];
    let text = serialize_sites(&sites);
    let back = parse_sites(&text).unwrap();
    assert_eq!(back[0].api_site_parameter, "we\"ird".to_string());
    assert_eq!(back[0].site_url, "a\\b.example".to_string());
    assert_eq!(back[1].api_site_parameter, "plain".to_string());
}

#[test]
fn test_cache_round_trip_empty() {
    let sites: Vec<Site> = vec![];
    assert_eq!(serialize_sites(&sites), "[]".to_string());
    assert!(parse_sites("[]").unwrap().is_empty());
}

#[test]
fn test_cache_format_is_plain_json() {
    // The cache file parses with an ordinary JSON reader.
    let text = serialize_sites(&directory());
    let v: serde_json::Value = serde_json::from_str(&text).unwrap();
    assert_eq!(v[0]["api_site_parameter"].as_str(), Some("stackoverflow"));
    assert_eq!(v[2]["site_url"].as_str(), Some("unix.stackexchange.com"));
}

#[test]
fn test_cache_reads_foreign_json() {
    // A file written by an ordinary JSON writer parses here.
    let sites = directory();
    let mut s = String::from("[");
    for (i, x) in sites.iter().enumerate() {
        if i > 0 {
            s.push(',');
        }
        s.push_str(&format!(
            "{{\"api_site_parameter\":\"{}\",\"site_url\":\"{}\"}}",
            x.api_site_parameter, x.site_url
        ));
    }
    s.push(']');
    let back = parse_sites(&s).unwrap();
    assert_eq!(back.len(), 3);
    assert_eq!(back[1].api_site_parameter, "askubuntu".to_string());
}

#[test]
fn test_load_cached_missing_file() {
    assert!(matches!(LocalStorage::load_cached(None, "/tmp/sites.json"), Ok(None)));
}

#[test]
fn test_load_cached_malformed() {
    match LocalStorage::load_cached(Some("{not json"), "/tmp/sites.json") {
        Err(Error::MalformedFile(p)) => assert_eq!(p, "/tmp/sites.json".to_string()),
        other => panic!("expected the malformed-file error, got {:?}", other),
    }
}

#[test]
fn test_load_cached_empty_directory() {
    assert!(matches!(
        LocalStorage::load_cached(Some("[]"), "/tmp/sites.json"),
        Err(Error::EmptySites)
    ));
}

#[test]
fn test_load_cached_ok() {
    let text = serialize_sites(&directory());
    let ls = LocalStorage::load_cached(Some(&text), "/tmp/sites.json")
        .unwrap()
        .unwrap();
    assert_eq!(ls.sites.len(), 3);
    assert_eq!(ls.sites[0].api_site_parameter, "stackoverflow".to_string());
}

#[test]
fn test_find_invalid_site() {
    let ls = LocalStorage { sites: directory() };
    assert_eq!(ls.find_invalid_site(&vec!["stackoverflow".to_string()]), None);
    assert_eq!(
        ls.find_invalid_site(&vec![
            "askubuntu".to_string(),
            "notasite".to_string(),
            "alsonot".to_string(),
        ]),
        Some("notasite".to_string())
    );
}

#[test]
fn test_get_site_map_restricts_and_orders() {
    let ls = LocalStorage { sites: directory() };
    let map = ls.get_site_map(&vec!["unix".to_string(), "stackoverflow".to_string()]);
    // Directory order is kept for exactly the requested codes.
    assert_eq!(
        map.inner,
        vec![
            ("stackoverflow".to_string(), "stackoverflow.com".to_string()),
            ("unix".to_string(), "unix.stackexchange.com".to_string()),
        ]
    );
}

#[test]
fn test_permalinks() {
    let map = SiteMap {
        inner: vec![("stackoverflow".to_string(), "stackoverflow.com".to_string())],
    };
    let q: Question<String> = Question {
        id: 11828270,
        score: 5,
        answers: vec![Answer {
            id: 100306,
            score: 9,
            body: "press escape".to_string(),
            is_accepted: true,
        }],
        title: "t".to_string(),
        body: "b".to_string(),
        site: Some("stackoverflow".to_string()),
    };
    assert_eq!(map.question_url(&q), "https://stackoverflow.com/q/11828270".to_string());
    assert_eq!(map.answer_url(&q, 100306), "https://stackoverflow.com/a/100306".to_string());
}
