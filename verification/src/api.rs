//! The platform API client: the wire data model, the request descriptions
//! for the three endpoints the pipeline uses, and the post-processing every
//! response goes through before it leaves this component — answers sorted by
//! descending score, bodies normalized, each question tagged with the site
//! it came from, and (for the id-batch endpoint) questions without answers
//! dropped.
//!
//! The HTTP transfer itself happens outside the crate: a caller sends the
//! described request, decodes the response items, and hands them back to the
//! processing functions here.

use vstd::prelude::*;

verus! {

use vstd::seq_lib::group_to_multiset_ensures;
use vstd::string::StringExecFns;

use crate::markdown::{preprocess, preprocessed};
use crate::seqs::{lemma_map_multiset, sort_by_key};
use crate::text::{
    chars_of,
    dec_rep,
    dec_string,
    join_chars,
    joined,
    push_chars,
    pairs_view,
    push_str_chars,
    string_of,
    strings_to_charvecs,
    strings_view,
    strip_prefix_all,
    strip_prefix_chars,
};

/// A question or answer id on the platform.
pub type Id = u32;

/// One answer, with the body in whatever pipeline stage `S` stands for.
#[derive(Clone, Debug)]
pub struct Answer<S> {
    pub id: Id,
    pub score: i32,
    pub body: S,
    pub is_accepted: bool,
}

/// One question with its answers. `site` is not part of the wire format;
/// the client fills it in so the id can later be turned back into a link.
#[derive(Clone, Debug)]
pub struct Question<S> {
    pub id: Id,
    pub score: i32,
    pub answers: Vec<Answer<S>>,
    pub title: String,
    pub body: S,
    pub site: Option<String>,
}

/// One platform site: its short code and its display URL.
#[derive(Clone, Debug)]
pub struct Site {
    pub api_site_parameter: String,
    pub site_url: String,
}

/// The API client state: only the optional key. The HTTP handle lives with
/// the transport layer outside the crate.
#[derive(Clone, Debug)]
pub struct Api {
    pub api_key: Option<String>,
}

/// A fully described GET request: the URL and its query parameters.
#[derive(Clone, Debug)]
pub struct ApiRequest {
    pub url: String,
    pub params: Vec<(String, String)>,
}

/// An API URL: the fixed base and version, then the endpoint path.
pub open spec fn se_api_url(path: Seq<char>) -> Seq<char> {
    "https://api.stackexchange.com/2.2/"@ + path
}

/// The parameters every site-scoped call carries: the response-shaping
/// filter, the page, and the key when one is configured.
pub open spec fn default_params_s(key: Option<String>) -> Seq<(Seq<char>, Seq<char>)> {
    let base = seq![
        ("filter"@, ".DND5X2VHHUH8HyJzpjo)5NvdHI3w6auG"@),
        ("page"@, "1"@),
    ];
    match key {
        Option::None => base,
        Option::Some(k) => base.push(("key"@, k@)),
    }
}

/// The part of an answer that post-processing may not change, with the body
/// as it is.
pub open spec fn answer_key(a: Answer<String>) -> (Id, i32, Seq<char>, bool) {
    (a.id, a.score, a.body@, a.is_accepted)
}

/// The same, with the body in its normalized form.
pub open spec fn answer_pre_key(a: Answer<String>) -> (Id, i32, Seq<char>, bool) {
    (a.id, a.score, preprocessed(a.body@), a.is_accepted)
}

pub open spec fn answers_keys(s: Seq<Answer<String>>) -> Seq<(Id, i32, Seq<char>, bool)> {
    s.map_values(|a: Answer<String>| answer_key(a))
}

pub open spec fn answers_pre_keys(s: Seq<Answer<String>>) -> Seq<(Id, i32, Seq<char>, bool)> {
    s.map_values(|a: Answer<String>| answer_pre_key(a))
}

/// An answer paired with its negated score, the ascending sort key that
/// yields a descending order.
pub open spec fn score_pair(a: Answer<String>) -> (i64, Answer<String>) {
    ((-(a.score as int)) as i64, a)
}

pub open spec fn score_pairs(s: Seq<Answer<String>>) -> Seq<(i64, Answer<String>)> {
    s.map_values(|a: Answer<String>| score_pair(a))
}

pub open spec fn pair_pre_keys(s: Seq<(i64, Answer<String>)>) -> Seq<(Id, i32, Seq<char>, bool)> {
    s.map_values(|p: (i64, Answer<String>)| answer_pre_key(p.1))
}

/// Reordering pairs reorders their essentials.
proof fn lemma_pair_pre_keys_multiset(s: Seq<(i64, Answer<String>)>, t: Seq<(i64, Answer<String>)>)
    requires
        s.to_multiset() == t.to_multiset(),
    ensures
        pair_pre_keys(s).to_multiset() == pair_pre_keys(t).to_multiset(),
{
    let f = |p: (i64, Answer<String>)| answer_pre_key(p.1);
    lemma_map_multiset(s, t, f);
    assert(pair_pre_keys(s) =~= s.map_values(f));
    assert(pair_pre_keys(t) =~= t.map_values(f));
}

/// Answers ordered by non-increasing score.
pub open spec fn answers_sorted_desc<S>(s: Seq<Answer<S>>) -> bool {
    forall|i: int, j: int| 0 <= i < j < s.len() ==> s[i].score >= s[j].score
}

/// How one processed question relates to the question as received: ids,
/// scores and title kept, bodies normalized, the site tag set, and the
/// answers a score-sorted rearrangement of the normalized originals.
pub open spec fn question_processed(
    q: Question<String>,
    r: Question<String>,
    site: Seq<char>,
) -> bool {
    &&& r.id == q.id
    &&& r.score == q.score
    &&& r.title@ == q.title@
    &&& r.body@ == preprocessed(q.body@)
    &&& r.site matches Some(s) && s@ == site
    &&& r.answers@.len() == q.answers@.len()
    &&& answers_sorted_desc(r.answers@)
    &&& answers_keys(r.answers@).to_multiset() == answers_pre_keys(q.answers@).to_multiset()
}

/// Keeps the questions that have at least one answer, in order.
pub open spec fn with_answers(qs: Seq<Question<String>>) -> Seq<Question<String>>
    decreases qs.len(),
{
    if qs.len() == 0 {
        Seq::empty()
    } else {
        let rest = with_answers(qs.drop_first());
        if qs[0].answers.len() > 0 {
            seq![qs[0]] + rest
        } else {
            rest
        }
    }
}

/// Everything kept by `with_answers` has at least one answer.
pub proof fn lemma_with_answers_kept(qs: Seq<Question<String>>)
    ensures
        forall|i: int|
            0 <= i < with_answers(qs).len() ==> #[trigger] with_answers(
                qs,
            )[i].answers.len() > 0,
    decreases qs.len(),
{
    if qs.len() > 0 {
        lemma_with_answers_kept(qs.drop_first());
    }
}

impl Api {
    pub fn new(api_key: Option<String>) -> (r: Api)
        ensures
            r.api_key == api_key,
    {
        Api { api_key }
    }

    /// The shared default query parameters of this client.
    fn default_params(&self) -> (r: Vec<(String, String)>)
        ensures
            pairs_view(r@) == default_params_s(self.api_key),
    {
        let mut r: Vec<(String, String)> = Vec::new();
        r.push(
            (
                String::from_str("filter"),
                String::from_str(".DND5X2VHHUH8HyJzpjo)5NvdHI3w6auG"),
            ),
        );
        r.push((String::from_str("page"), String::from_str("1")));
        match &self.api_key {
            Option::None => {},
            Option::Some(k) => {
                r.push((String::from_str("key"), k.clone()));
            },
        }
        proof {
            assert(pairs_view(r@) =~= default_params_s(self.api_key));
        }
        r
    }

    /// The batched id lookup: one request for every id of one site, with the
    /// ids joined into a single path segment.
    pub fn questions_request(&self, site: &str, ids: &Vec<String>) -> (r: ApiRequest)
        ensures
            r.url@ == se_api_url("questions/"@ + joined(strings_view(ids@), ";"@)),
            pairs_view(r.params@) == default_params_s(self.api_key) + seq![
                ("site"@, site@),
                ("pagesize"@, dec_rep(ids@.len() as int)),
            ],
    {
        let idsv = strings_to_charvecs(ids);
        let sep = chars_of(";");
        let joined_ids = join_chars(&idsv, &sep);
        let mut url: Vec<char> = Vec::new();
        push_str_chars(&mut url, "https://api.stackexchange.com/2.2/");
        push_str_chars(&mut url, "questions/");
        push_chars(&mut url, &joined_ids);
        let mut params = self.default_params();
        params.push((String::from_str("site"), site.to_owned()));
        params.push((String::from_str("pagesize"), dec_string(ids.len() as u64)));
        proof {
            assert(url@ =~= se_api_url("questions/"@ + joined(strings_view(ids@), ";"@)));
            assert(pairs_view(params@) =~= default_params_s(self.api_key) + seq![
                ("site"@, site@),
                ("pagesize"@, dec_rep(ids@.len() as int)),
            ]);
        }
        ApiRequest { url: string_of(&url), params }
    }

    /// The platform's own relevance search on one site, restricted to
    /// answered questions, newest relevance first.
    pub fn search_advanced_request(&self, query: &str, site: &str, limit: u16) -> (r: ApiRequest)
        ensures
            r.url@ == se_api_url("search/advanced"@),
            pairs_view(r.params@) == default_params_s(self.api_key) + seq![
                ("q"@, query@),
                ("pagesize"@, dec_rep(limit as int)),
                ("site"@, site@),
                ("answers"@, "1"@),
                ("order"@, "desc"@),
                ("sort"@, "relevance"@),
            ],
    {
        let mut url: Vec<char> = Vec::new();
        push_str_chars(&mut url, "https://api.stackexchange.com/2.2/");
        push_str_chars(&mut url, "search/advanced");
        let mut params = self.default_params();
        params.push((String::from_str("q"), query.to_owned()));
        params.push((String::from_str("pagesize"), dec_string(limit as u64)));
        params.push((String::from_str("site"), site.to_owned()));
        params.push((String::from_str("answers"), String::from_str("1")));
        params.push((String::from_str("order"), String::from_str("desc")));
        params.push((String::from_str("sort"), String::from_str("relevance")));
        proof {
            assert(url@ =~= se_api_url("search/advanced"@));
            assert(pairs_view(params@) =~= default_params_s(self.api_key) + seq![
                ("q"@, query@),
                ("pagesize"@, dec_rep(limit as int)),
                ("site"@, site@),
                ("answers"@, "1"@),
                ("order"@, "desc"@),
                ("sort"@, "relevance"@),
            ]);
        }
        ApiRequest { url: string_of(&url), params }
    }

    /// The full site directory listing, with a page size that covers every
    /// site the platform has.
    pub fn sites_request(&self) -> (r: ApiRequest)
        ensures
            r.url@ == se_api_url("sites"@),
            pairs_view(r.params@) == seq![("pagesize"@, "10000"@)],
    {
        let mut url: Vec<char> = Vec::new();
        push_str_chars(&mut url, "https://api.stackexchange.com/2.2/");
        push_str_chars(&mut url, "sites");
        let mut params: Vec<(String, String)> = Vec::new();
        params.push((String::from_str("pagesize"), String::from_str("10000")));
        proof {
            assert(url@ =~= se_api_url("sites"@));
            assert(pairs_view(params@) =~= seq![("pagesize"@, "10000"@)]);
        }
        ApiRequest { url: string_of(&url), params }
    }
}

/// Post-processes one question: answers sorted by descending score, all
/// bodies normalized, the site tag attached.
pub fn process_question(site: &str, q: Question<String>) -> (r: Question<String>)
    ensures
        question_processed(q, r, site@),
{
    let Question { id, score, answers, title, body, site: _ } = q;
    let ghost orig = answers@;

    let mut pairs: Vec<(i64, Answer<String>)> = Vec::new();
    let mut rest = answers;
    proof {
        assert(pairs@ =~= score_pairs(orig.subrange(0, 0)));
        assert(rest@ =~= orig.subrange(0, orig.len() as int));
    }
    while rest.len() > 0
        invariant
            rest@.len() <= orig.len(),
            pairs@ == score_pairs(orig.subrange(0, orig.len() - rest@.len())),
            rest@ == orig.subrange(orig.len() - rest@.len(), orig.len() as int),
        decreases rest@.len(),
    {
        let ghost k = orig.len() - rest@.len();
        let a = rest.remove(0);
        proof {
            assert(a == orig[k as int]);
            assert(rest@ =~= orig.subrange(k + 1, orig.len() as int));
        }
        let neg: i64 = -(a.score as i64);
        let ghost prevp = pairs@;
        pairs.push((neg, a));
        proof {
            assert((neg, a) == score_pair(orig[k as int]));
            let m = score_pairs(orig.subrange(0, k + 1));
            assert(m.len() == k + 1);
            assert forall|j: int| 0 <= j < k + 1 implies pairs@[j] == m[j] by {
                assert(m[j] == score_pair(orig.subrange(0, k + 1)[j]));
                if j < k {
                    assert(pairs@[j] == prevp[j]);
                    assert(prevp[j] == score_pairs(orig.subrange(0, k as int))[j]);
                    assert(prevp[j] == score_pair(orig.subrange(0, k as int)[j]));
                }
            }
            assert(pairs@ =~= m);
        }
    }
    proof {
        assert(orig.subrange(0, orig.len() as int) =~= orig);
    }
    let ghost pairsg = pairs@;
    let sorted = sort_by_key(pairs);
    let ghost sortedg = sorted@;

    let mut res: Vec<Answer<String>> = Vec::new();
    let mut rest2 = sorted;
    proof {
        assert(rest2@ =~= sortedg.subrange(0, sortedg.len() as int));
    }
    while rest2.len() > 0
        invariant
            rest2@.len() <= sortedg.len(),
            res@.len() == sortedg.len() - rest2@.len(),
            rest2@ == sortedg.subrange(sortedg.len() - rest2@.len(), sortedg.len() as int),
            forall|j: int|
                0 <= j < res@.len() ==> {
                    &&& #[trigger] res@[j].id == sortedg[j].1.id
                    &&& res@[j].score == sortedg[j].1.score
                    &&& res@[j].is_accepted == sortedg[j].1.is_accepted
                    &&& res@[j].body@ == preprocessed(sortedg[j].1.body@)
                },
        decreases rest2@.len(),
    {
        let ghost k = sortedg.len() - rest2@.len();
        let p = rest2.remove(0);
        proof {
            assert(p == sortedg[k as int]);
            assert(rest2@ =~= sortedg.subrange(k + 1, sortedg.len() as int));
        }
        let a = p.1;
        let b = Answer {
            id: a.id,
            score: a.score,
            body: preprocess(a.body),
            is_accepted: a.is_accepted,
        };
        res.push(b);
    }

    proof {
        broadcast use group_to_multiset_ensures;

        // Every sorted pair came from the pairing of the original answers,
        // so its key is its payload's negated score.
        assert forall|i: int| 0 <= i < sortedg.len() implies #[trigger] sortedg[i].0 == -(
        sortedg[i].1.score as i64) by {
            assert(sortedg.contains(sortedg[i]));
            assert(sortedg.to_multiset().count(sortedg[i]) > 0);
            assert(pairsg.to_multiset().count(sortedg[i]) > 0);
            assert(pairsg.contains(sortedg[i]));
            let j = choose|j: int| 0 <= j < pairsg.len() && pairsg[j] == sortedg[i];
            assert(pairsg[j] == score_pair(orig[j]));
        }
        // The new answer list is sorted: ascending pair keys are negated scores.
        assert forall|i: int, j: int| 0 <= i < j < res@.len() implies res@[i].score >= res@[
        j].score by {
            assert(res@[i].id == sortedg[i].1.id);
            assert(res@[j].id == sortedg[j].1.id);
            assert(sortedg[i].0 <= sortedg[j].0);
            assert(sortedg[i].0 == -(sortedg[i].1.score as i64));
            assert(sortedg[j].0 == -(sortedg[j].1.score as i64));
        }
        // Its multiset of essentials is the normalized original.
        assert forall|j: int| 0 <= j < res@.len() implies answers_keys(res@)[j] == pair_pre_keys(
        sortedg)[j] by {
            assert(answers_keys(res@)[j] == answer_key(res@[j]));
            assert(pair_pre_keys(sortedg)[j] == answer_pre_key(sortedg[j].1));
        }
        assert(answers_keys(res@) =~= pair_pre_keys(sortedg));
        lemma_pair_pre_keys_multiset(sortedg, pairsg);
        assert forall|j: int| 0 <= j < pairsg.len() implies pair_pre_keys(pairsg)[j]
            == answers_pre_keys(orig)[j] by {
            assert(pairsg[j] == score_pair(orig[j]));
            assert(pair_pre_keys(pairsg)[j] == answer_pre_key(pairsg[j].1));
            assert(answers_pre_keys(orig)[j] == answer_pre_key(orig[j]));
        }
        assert(pair_pre_keys(pairsg) =~= answers_pre_keys(orig));
        assert(answers_keys(res@).to_multiset() == answers_pre_keys(orig).to_multiset());
    }

    Question {
        id,
        score,
        answers: res,
        title,
        body: preprocess(body),
        site: Some(site.to_owned()),
    }
}

/// Post-processes a batch fetched by id: drops questions without answers,
/// then normalizes and tags what is left. A question with zero answers
/// never reaches the output.
pub fn process_questions(site: &str, qs: Vec<Question<String>>) -> (r: Vec<Question<String>>)
    ensures
        r@.len() == with_answers(qs@).len(),
        forall|i: int|
            0 <= i < r@.len() ==> question_processed(with_answers(qs@)[i], #[trigger] r@[i], site@),
        forall|i: int| 0 <= i < r@.len() ==> #[trigger] r@[i].answers@.len() > 0,
{
    let ghost orig = qs@;
    let mut out: Vec<Question<String>> = Vec::new();
    let ghost mut done: Seq<Question<String>> = Seq::empty();
    let mut rest = qs;
    proof {
        assert(with_answers(orig) =~= done + with_answers(rest@));
    }
    while rest.len() > 0
        invariant
            with_answers(orig) == done + with_answers(rest@),
            done.len() == out@.len(),
            forall|i: int|
                0 <= i < out@.len() ==> question_processed(done[i], #[trigger] out@[i], site@),
        decreases rest@.len(),
    {
        let ghost prev_rest = rest@;
        let q = rest.remove(0);
        proof {
            assert(q == prev_rest[0]);
            assert(rest@ =~= prev_rest.drop_first());
        }
        let keep = q.answers.len() > 0;
        if keep {
            proof {
                assert(with_answers(prev_rest) =~= seq![q] + with_answers(rest@));
                assert(done + with_answers(prev_rest) =~= done.push(q) + with_answers(rest@));
            }
            let p = process_question(site, q);
            out.push(p);
            proof {
                done = done.push(q);
            }
        } else {
            proof {
                assert(with_answers(prev_rest) =~= with_answers(rest@));
            }
        }
    }
    proof {
        assert(with_answers(rest@) =~= Seq::<Question<String>>::empty());
        assert(with_answers(orig) =~= done);
        lemma_with_answers_kept(orig);
        assert forall|i: int| 0 <= i < out@.len() implies #[trigger] out@[i].answers@.len() > 0 by {
            assert(question_processed(with_answers(orig)[i], out@[i], site@));
            assert(with_answers(orig)[i].answers.len() > 0);
        }
    }
    out
}

/// Post-processes an advanced-search response: every item is normalized and
/// tagged; the server already restricted the search to answered questions.
pub fn process_search(site: &str, qs: Vec<Question<String>>) -> (r: Vec<Question<String>>)
    ensures
        r@.len() == qs@.len(),
        forall|i: int|
            0 <= i < r@.len() ==> question_processed(qs@[i], #[trigger] r@[i], site@),
{
    let ghost orig = qs@;
    let mut out: Vec<Question<String>> = Vec::new();
    let mut rest = qs;
    proof {
        assert(rest@ =~= orig.subrange(0, orig.len() as int));
    }
    while rest.len() > 0
        invariant
            rest@.len() <= orig.len(),
            rest@ == orig.subrange(orig.len() - rest@.len(), orig.len() as int),
            out@.len() == orig.len() - rest@.len(),
            forall|i: int|
                0 <= i < out@.len() ==> question_processed(orig[i], #[trigger] out@[i], site@),
        decreases rest@.len(),
    {
        let ghost k = orig.len() - rest@.len();
        let q = rest.remove(0);
        proof {
            assert(q == orig[k as int]);
            assert(rest@ =~= orig.subrange(k + 1, orig.len() as int));
        }
        let p = process_question(site, q);
        out.push(p);
    }
    out
}

/// Post-processes the site directory: strips the URL scheme prefix from
/// every display URL for consistent downstream formatting.
pub fn process_sites(sites: Vec<Site>) -> (r: Vec<Site>)
    ensures
        r@.len() == sites@.len(),
        forall|i: int|
            0 <= i < r@.len() ==> {
                &&& #[trigger] r@[i].api_site_parameter@ == sites@[i].api_site_parameter@
                &&& r@[i].site_url@ == strip_prefix_all(sites@[i].site_url@, "https://"@)
            },
{
    proof {
        reveal_strlit("https://");
    }
    let scheme = chars_of("https://");
    let ghost orig = sites@;
    let mut out: Vec<Site> = Vec::new();
    let mut rest = sites;
    proof {
        assert(rest@ =~= orig.subrange(0, orig.len() as int));
    }
    while rest.len() > 0
        invariant
            rest@.len() <= orig.len(),
            rest@ == orig.subrange(orig.len() - rest@.len(), orig.len() as int),
            out@.len() == orig.len() - rest@.len(),
            scheme@ == "https://"@,
            "https://"@.len() > 0,
            forall|i: int|
                0 <= i < out@.len() ==> {
                    &&& #[trigger] out@[i].api_site_parameter@ == orig[i].api_site_parameter@
                    &&& out@[i].site_url@ == strip_prefix_all(orig[i].site_url@, "https://"@)
                },
        decreases rest@.len(),
    {
        let ghost k = orig.len() - rest@.len();
        let s = rest.remove(0);
        proof {
            assert(s == orig[k as int]);
            assert(rest@ =~= orig.subrange(k + 1, orig.len() as int));
        }
        let url_chars = chars_of(s.site_url.as_str());
        let stripped = strip_prefix_chars(&url_chars, &scheme);
        out.push(Site { api_site_parameter: s.api_site_parameter, site_url: string_of(&stripped) });
    }
    out
}

} // verus!
