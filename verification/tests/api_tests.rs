use so::api::{process_questions, process_search, process_sites, Answer, Api, Question, Site};
use so::markdown::preprocess;

fn answer(id: u32, score: i32, body: &str) -> Answer<String> {
    Answer { id, score, body: body.to_string(), is_accepted: false }
}

fn question(id: u32, score: i32, answers: Vec<Answer<String>>) -> Question<String> {
    Question {
        id,
        score,
        answers,
        title: format!("question {}", id),
        body: "body".to_string(),
        site: None,
    }
}

#[test]
fn test_answers_sorted_descending() {
    let qs = vec![question(
        1,
        5,
        vec![answer(10, 1, "a"), answer(11, 7, "b"), answer(12, 3, "c")],
    )];
    let out = process_questions("stackoverflow", qs);
    assert_eq!(out.len(), 1);
    let scores: Vec<i32> = out[0].answers.iter().map(|a| a.score).collect();
    assert_eq!(scores, vec![7, 3, 1]);
    assert_eq!(out[0].site, Some("stackoverflow".to_string()));
}

#[test]
fn test_zero_answer_questions_are_dropped() {
    let qs = vec![
        question(1, 5, vec![]),
        question(2, 4, vec![answer(20, 2, "x")]),
        question(3, 3, vec![]),
    ];
    let out = process_questions("stackoverflow", qs);
    assert_eq!(out.len(), 1);
    assert_eq!(out[0].id, 2);
    assert!(out.iter().all(|q| !q.answers.is_empty()));
}

#[test]
fn test_search_items_keep_server_count() {
    let qs = vec![
        question(1, 5, vec![answer(10, 1, "a")]),
        question(2, 9, vec![answer(11, 2, "b")]),
    ];
    let out = process_search("askubuntu", qs);
    assert_eq!(out.len(), 2);
    assert_eq!(out[0].id, 1);
    assert_eq!(out[1].id, 2);
    assert_eq!(out[0].site, Some("askubuntu".to_string()));
}

#[test]
fn test_preprocess_rewrites_kbd() {
    assert_eq!(
        preprocess("  Press <kbd>Esc</kbd> then <kbd>:q</kbd>  ".to_string()),
        "Press **[Esc]** then **[:q]**".to_string()
    );
}

#[test]
fn test_preprocess_applies_to_bodies() {
    let qs = vec![question(7, 1, vec![answer(70, 4, " <kbd>x</kbd> ")])];
    let out = process_questions("stackoverflow", qs);
    assert_eq!(out[0].answers[0].body, "**[x]**".to_string());
}

#[test]
fn test_questions_request_shape() {
    let api = Api::new(Some("SECRET-REDACTED".to_string()));
    let req = api.questions_request(
        "stackoverflow",
        &vec!["11828270".to_string(), "9171356".to_string()],
    );
    assert_eq!(
        req.url,
        "https://api.stackexchange.com/2.2/questions/11828270;9171356".to_string()
    );
    assert_eq!(
        req.params,
        vec![
            ("filter".to_string(), ".DND5X2VHHUH8HyJzpjo)5NvdHI3w6auG".to_string()),
            ("page".to_string(), "1".to_string()),
            ("key".to_string(), "SECRET-REDACTED".to_string()),
            ("site".to_string(), "stackoverflow".to_string()),
            ("pagesize".to_string(), "2".to_string()),
        ]
    );
}

#[test]
fn test_search_advanced_request_shape() {
    let api = Api::new(None);
    let req = api.search_advanced_request("exit vim", "stackoverflow", 10);
    assert_eq!(req.url, "https://api.stackexchange.com/2.2/search/advanced".to_string());
    assert_eq!(
        req.params,
        vec![
            ("filter".to_string(), ".DND5X2VHHUH8HyJzpjo)5NvdHI3w6auG".to_string()),
            ("page".to_string(), "1".to_string()),
            ("q".to_string(), "exit vim".to_string()),
            ("pagesize".to_string(), "10".to_string()),
            ("site".to_string(), "stackoverflow".to_string()),
            ("answers".to_string(), "1".to_string()),
            ("order".to_string(), "desc".to_string()),
            ("sort".to_string(), "relevance".to_string()),
        ]
    );
}

#[test]
fn test_sites_request_shape() {
    let api = Api::new(None);
    let req = api.sites_request();
    assert_eq!(req.url, "https://api.stackexchange.com/2.2/sites".to_string());
    assert_eq!(req.params, vec![("pagesize".to_string(), "10000".to_string())]);
}

#[test]
fn test_sites_scheme_stripped() {
    let sites = vec![
        Site {
            api_site_parameter: "stackoverflow".to_string(),
            site_url: "https://stackoverflow.com".to_string(),
        },
        Site {
            api_site_parameter: "askubuntu".to_string(),
            site_url: "askubuntu.com".to_string(),
        },
    ];
    let out = process_sites(sites);
    assert_eq!(out[0].site_url, "stackoverflow.com".to_string());
    assert_eq!(out[1].site_url, "askubuntu.com".to_string());
}
