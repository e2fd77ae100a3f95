use so::api::{process_search, Answer, Question};
use so::config::{Config, SearchEngine};
use so::error::Error;
use so::scrape::DuckDuckGo;
use so::search::Search;
use so::storage::SiteMap;

fn answer(id: u32, score: i32) -> Answer<String> {
    Answer { id, score, body: format!("answer {}", id), is_accepted: false }
}

fn question(id: u32, score: i32, answers: Vec<Answer<String>>) -> Question<String> {
    Question {
        id,
        score,
        answers,
        title: format!("question {}", id),
        body: "body".to_string(),
        site: None,
    }
}

fn config(engine: SearchEngine, sites: Vec<&str>, limit: u16) -> Config {
    Config {
        api_key: None,
        limit,
        lucky: false,
        sites: sites.into_iter().map(|s| s.to_string()).collect(),
        search_engine: engine,
        copy_cmd: None,
    }
}

fn so_map() -> SiteMap {
    SiteMap {
        inner: vec![("stackoverflow".to_string(), "stackoverflow.com".to_string())],
    }
}

#[test]
fn test_direct_search_single_site() {
    // query="how do I exit vim", sites=[stackoverflow], limit=10,
    // engine=direct-search: at most 10 questions come back, each with at
    // least one answer, answers sorted descending by score.
    let cfg = config(SearchEngine::StackExchange, vec!["stackoverflow"], 10);
    let search = Search::new(cfg, so_map(), "how do I exit vim".to_string());

    let reqs = search.advanced_requests();
    assert_eq!(reqs.len(), 1);
    assert_eq!(reqs[0].0, "stackoverflow".to_string());

    // The platform's (simulated) response for the one site.
    let items = vec![
        question(1, 50, vec![answer(10, 3), answer(11, 9)]),
        question(2, 40, vec![answer(20, 5)]),
        question(3, 30, vec![answer(30, 2), answer(31, 8), answer(32, 4)]),
    ];
    let processed = process_search(&reqs[0].0, items);
    let merged = search.merge_advanced(vec![processed]);
    let out = Search::finalize(merged).unwrap();

    assert!(out.len() <= 10);
    for q in &out {
        assert!(!q.answers.is_empty());
        for w in q.answers.windows(2) {
            assert!(w[0].score >= w[1].score);
        }
    }
    // A single site keeps the server-provided order unchanged.
    let ids: Vec<u32> = out.iter().map(|q| q.id).collect();
    assert_eq!(ids, vec![1, 2, 3]);
}

#[test]
fn test_multi_site_sorts_by_score() {
    let cfg = config(
        SearchEngine::StackExchange,
        vec!["stackoverflow", "askubuntu"],
        10,
    );
    let search = Search::new(cfg, so_map(), "q".to_string());
    let a = vec![
        question(1, 5, vec![answer(10, 1)]),
        question(2, 50, vec![answer(11, 1)]),
    ];
    let b = vec![question(3, 20, vec![answer(12, 1)])];
    let merged = search.merge_advanced(vec![a, b]);
    let scores: Vec<i32> = merged.iter().map(|q| q.score).collect();
    assert_eq!(scores, vec![50, 20, 5]);
}

#[test]
fn test_discovery_merge_restores_page_order() {
    // The fixture page holds anchors for ids 11828270 (stackoverflow),
    // 24406 (askubuntu), 9171356 (stackoverflow) in that order; after
    // per-site fetching, the merged list is ordered
    // [11828270, 24406, 9171356] again.
    let mut html = String::from("<html><body>");
    for url in [
        "https://stackoverflow.com/questions/11828270/exit-vim",
        "https://askubuntu.com/questions/24406/close-vim",
        "https://stackoverflow.com/questions/9171356/closing-vim",
    ] {
        html.push_str(&format!("<a class=\"result__a\" href=\"{}\">x</a>", url));
    }
    html.push_str("</body></html>");
    let sites = SiteMap {
        inner: vec![
            ("stackoverflow".to_string(), "stackoverflow.com".to_string()),
            ("askubuntu".to_string(), "askubuntu.com".to_string()),
        ],
    };
    let sd = DuckDuckGo.parse(&html, &sites, 3).unwrap();
    assert_eq!(
        sd.question_ids,
        vec![
            (
                "stackoverflow".to_string(),
                vec!["11828270".to_string(), "9171356".to_string()],
            ),
            ("askubuntu".to_string(), vec!["24406".to_string()]),
        ]
    );
    assert_eq!(
        sd.ordering,
        vec![
            ("11828270".to_string(), 0),
            ("24406".to_string(), 1),
            ("9171356".to_string(), 2),
        ]
    );

    // Per-site batches come back in arbitrary order; the merge restores
    // the page order by ordinal.
    let so_batch = vec![
        question(9171356, 7, vec![answer(1, 1)]),
        question(11828270, 3, vec![answer(2, 1)]),
    ];
    let au_batch = vec![question(24406, 9, vec![answer(3, 1)])];
    let merged = Search::merge_scraped(vec![so_batch, au_batch], &sd.ordering);
    let ids: Vec<u32> = merged.iter().map(|q| q.id).collect();
    assert_eq!(ids, vec![11828270, 24406, 9171356]);
}

#[test]
fn test_lucky_issues_one_request() {
    // search_lucky() with engine=direct-search and sites=[A, B] issues
    // exactly one upstream request, to site A only.
    let cfg = config(
        SearchEngine::StackExchange,
        vec!["stackoverflow", "askubuntu"],
        20,
    );
    let lucky = Search::lucky_config(&cfg);
    assert_eq!(lucky.limit, 1);
    assert_eq!(lucky.sites, vec!["stackoverflow".to_string()]);
    let search = Search::new(lucky, so_map(), "q".to_string());
    let reqs = search.advanced_requests();
    assert_eq!(reqs.len(), 1);
    assert_eq!(reqs[0].0, "stackoverflow".to_string());
}

#[test]
fn test_lucky_keeps_sites_for_scrapers() {
    let cfg = config(SearchEngine::DuckDuckGo, vec!["a", "b"], 20);
    let lucky = Search::lucky_config(&cfg);
    assert_eq!(lucky.limit, 1);
    assert_eq!(lucky.sites, vec!["a".to_string(), "b".to_string()]);
}

#[test]
fn test_finalize_empty_is_no_results() {
    assert!(matches!(Search::finalize(vec![]), Err(Error::NoResults)));
}

#[test]
fn test_lucky_extract() {
    assert_eq!(Search::lucky_extract(vec![]).map(|_| ()), Err(Error::NoResults));

    match Search::lucky_extract(vec![question(1, 5, vec![])]) {
        Err(Error::StackExchange(m)) => {
            assert_eq!(m, "Received question with no answers".to_string())
        }
        other => panic!("expected the no-answers error, got {:?}", other),
    }

    let (q, a) = Search::lucky_extract(vec![
        question(1, 5, vec![answer(10, 9), answer(11, 2)]),
        question(2, 4, vec![answer(20, 1)]),
    ])
    .unwrap();
    assert_eq!(q.id, 1);
    assert_eq!(a.id, 10);
    assert_eq!(a.body, "answer 10".to_string());
}

#[test]
fn test_discovery_url_dispatch() {
    let cfg = config(SearchEngine::DuckDuckGo, vec!["stackoverflow"], 5);
    let search = Search::new(cfg, so_map(), "exit vim".to_string());
    let url = search.discovery_url();
    assert_eq!(
        url,
        "https://duckduckgo.com/?q=%28site%3Astackoverflow.com%29+exit+vim&kz=-1&kh=-1"
            .to_string()
    );

    let cfg = config(SearchEngine::Google, vec!["stackoverflow"], 5);
    let search = Search::new(cfg, so_map(), "exit vim".to_string());
    assert_eq!(
        search.discovery_url(),
        "https://google.com/search?q=%28site%3Astackoverflow.com%29+exit+vim".to_string()
    );
}

#[test]
fn test_collect_groups_all_or_nothing() {
    // One failed sub-fetch fails the whole search with that first error.
    let ok_a = vec![question(1, 5, vec![answer(10, 1)])];
    let ok_b = vec![question(2, 4, vec![answer(20, 1)])];

    let groups =
        Search::collect_groups(vec![Ok(ok_a.clone()), Ok(ok_b.clone())]).unwrap();
    assert_eq!(groups.len(), 2);
    assert_eq!(groups[0][0].id, 1);
    assert_eq!(groups[1][0].id, 2);

    match Search::collect_groups(vec![
        Ok(ok_a),
        Err(Error::Transport("connection reset".to_string())),
        Err(Error::NoResults),
        Ok(ok_b),
    ]) {
        Err(Error::Transport(m)) => assert_eq!(m, "connection reset".to_string()),
        other => panic!("expected the first failure, got {:?}", other),
    }
}
