//! The search orchestrator's decisions: which discovery URL to fetch,
//! how to parse what came back, which platform requests to issue for the
//! discovered ids or the configured sites, and how to merge the per-site
//! responses into one ranked list. The caller performs the network
//! transfers; every choice and every merge is made here and verified.
//!
//! Ordering guarantee: per-site batching destroys the engine-assigned
//! ranking, so the merge step sorts by the ordinals recorded during
//! discovery; the direct-search path sorts by score instead, and only when
//! more than one site was queried.

use vstd::prelude::*;

verus! {

use vstd::seq_lib::group_to_multiset_ensures;
use vstd::string::StringExecFns;

use crate::api::{
    Answer,
    answers_sorted_desc,
    Api,
    ApiRequest,
    default_params_s,
    Question,
    se_api_url,
};
use crate::config::{Config, SearchEngine};
use crate::error::Error;
use crate::scrape::{
    anchor_hrefs_of,
    lemma_scrape_result_wf,
    ord_keys,
    ScrapeState,
    ddg_url_s,
    DuckDuckGo,
    Google,
    google_url_s,
    groups_view,
    ord_view,
    ScrapedData,
    scrape_result,
};
use crate::seqs::sort_by_key;
use crate::storage::SiteMap;
use crate::text::{dec_rep, dec_string, joined, pairs_view, strings_view};

/// The per-query orchestrator state: the API client, the configuration,
/// the query, and the read-only site map shared by all fetches.
#[derive(Debug)]
pub struct Search {
    pub api: Api,
    pub config: Config,
    pub query: String,
    pub sites: SiteMap,
}

/// The first ordinal recorded for an id, scanning in recording order.
pub open spec fn lookup_ord(ord: Seq<(Seq<char>, int)>, k: Seq<char>) -> Option<int>
    decreases ord.len(),
{
    if ord.len() == 0 {
        None
    } else if ord[0].0 == k {
        Some(ord[0].1)
    } else {
        lookup_ord(ord.drop_first(), k)
    }
}

/// A found ordinal is one of the recorded ones.
pub proof fn lemma_lookup_ord_in(ord: Seq<(Seq<char>, int)>, k: Seq<char>)
    ensures
        lookup_ord(ord, k) matches Some(v) ==> exists|j: int|
            0 <= j < ord.len() && ord[j].0 == k && #[trigger] ord[j].1 == v,
    decreases ord.len(),
{
    if ord.len() > 0 && ord[0].0 != k {
        lemma_lookup_ord_in(ord.drop_first(), k);
        let r = lookup_ord(ord, k);
        if r is Some {
            let v = r->Some_0;
            let j = choose|j: int|
                0 <= j < ord.drop_first().len() && ord.drop_first()[j].0 == k
                    && #[trigger] ord.drop_first()[j].1 == v;
            assert(ord[j + 1].0 == k && ord[j + 1].1 == v);
        }
    }
}

/// The decimal id string under which a question is recorded.
pub open spec fn qid_str(q: Question<String>) -> Seq<char> {
    dec_rep(q.id as int)
}

/// All fetched questions, group by group, in group order.
pub open spec fn flat_qs(vss: Seq<Vec<Question<String>>>) -> Seq<Question<String>>
    decreases vss.len(),
{
    if vss.len() == 0 {
        Seq::empty()
    } else {
        vss[0]@ + flat_qs(vss.drop_first())
    }
}

/// The position of the first failed sub-operation, if any failed.
pub open spec fn first_failure(rs: Seq<Result<Vec<Question<String>>, Error>>) -> Option<int>
    decreases rs.len(),
{
    if rs.len() == 0 {
        None
    } else if rs[0] is Err {
        Some(0)
    } else {
        match first_failure(rs.drop_first()) {
            None => None,
            Some(i) => Some(i + 1),
        }
    }
}

/// Questions ordered by non-increasing score.
pub open spec fn questions_sorted_desc(s: Seq<Question<String>>) -> bool {
    forall|i: int, j: int| 0 <= i < j < s.len() ==> s[i].score >= s[j].score
}

/// Questions ordered by non-decreasing discovery ordinal.
pub open spec fn questions_sorted_by_ord(
    s: Seq<Question<String>>,
    ord: Seq<(Seq<char>, int)>,
) -> bool {
    forall|i: int, j: int|
        0 <= i < j < s.len() ==> lookup_ord(ord, qid_str(s[i]))->Some_0 <= lookup_ord(
            ord,
            qid_str(s[j]),
        )->Some_0
}

/// Copies a list of strings, value for value.
fn clone_strings(v: &Vec<String>) -> (r: Vec<String>)
    ensures
        r@ == v@,
{
    let mut r: Vec<String> = Vec::new();
    let mut i: usize = 0;
    while i < v.len()
        invariant
            0 <= i <= v@.len(),
            r@ == v@.subrange(0, i as int),
        decreases v@.len() - i,
    {
        r.push(v[i].clone());
        proof {
            assert(v@.subrange(0, i + 1 as int) =~= v@.subrange(0, i as int).push(v@[i as int]));
        }
        i += 1;
    }
    proof {
        assert(r@ =~= v@);
    }
    r
}

/// Copies an optional string, value for value.
fn clone_key(v: &Option<String>) -> (r: Option<String>)
    ensures
        r == v,
{
    match v {
        Some(k) => Some(k.clone()),
        None => None,
    }
}

/// Flattens the per-site responses into one list, keeping group order.
fn flatten_qs_exec(fetched: Vec<Vec<Question<String>>>) -> (r: Vec<Question<String>>)
    ensures
        r@ == flat_qs(fetched@),
{
    let ghost orig = fetched@;
    let mut flat: Vec<Question<String>> = Vec::new();
    let mut rest = fetched;
    proof {
        assert(flat_qs(orig) =~= flat@ + flat_qs(rest@));
    }
    while rest.len() > 0
        invariant
            flat_qs(orig) == flat@ + flat_qs(rest@),
        decreases rest@.len(),
    {
        let ghost prev_rest = rest@;
        let ghost prev_flat = flat@;
        let mut v = rest.remove(0);
        proof {
            assert(v == prev_rest[0]);
            assert(rest@ =~= prev_rest.drop_first());
        }
        flat.append(&mut v);
        proof {
            assert(flat@ + flat_qs(rest@) =~= prev_flat + flat_qs(prev_rest));
        }
    }
    proof {
        assert(flat_qs(rest@) =~= Seq::<Question<String>>::empty());
        assert(flat@ =~= flat@ + flat_qs(rest@));
    }
    flat
}

impl Search {
    /// Binds a configuration, the query's site map and the query itself.
    pub fn new(config: Config, site_map: SiteMap, query: String) -> (r: Search)
        ensures
            r.api.api_key == config.api_key,
            r.config == config,
            r.query == query,
            r.sites == site_map,
    {
        let api = Api::new(clone_key(&config.api_key));
        Search { api, config, query, sites: site_map }
    }

    /// The discovery URL for the configured scrape engine.
    pub fn discovery_url(&self) -> (r: String)
        requires
            self.config.search_engine != SearchEngine::StackExchange,
        ensures
            self.config.search_engine is DuckDuckGo ==> r@ == ddg_url_s(
                self.query@,
                self.sites.pairs().map_values(|p: (Seq<char>, Seq<char>)| p.1),
            ),
            self.config.search_engine is Google ==> r@ == google_url_s(
                self.query@,
                self.sites.pairs().map_values(|p: (Seq<char>, Seq<char>)| p.1),
            ),
    {
        let urls = self.sites.urls();
        match self.config.search_engine {
            SearchEngine::DuckDuckGo => DuckDuckGo.get_url(self.query.as_str(), &urls),
            SearchEngine::Google => Google.get_url(self.query.as_str(), &urls),
            SearchEngine::StackExchange => unreached(),
        }
    }

    /// Parses a discovery result page with the configured engine's parser
    /// and failure policy: the result is exactly the fold of the page's
    /// anchors under the engine's selector, with the never-empty rule
    /// applied for the provider that has it.
    pub fn parse_discovery(&self, html: &str) -> (r: Result<ScrapedData, Error>)
        requires
            self.config.search_engine != SearchEngine::StackExchange,
        ensures
            self.config.search_engine is DuckDuckGo ==> (match scrape_result(
                self.sites.pairs(),
                anchor_hrefs_of(html@, "a.result__a"@),
                self.config.limit as int,
            ) {
                Some(st) => {
                    if st.groups.len() == 0 {
                        r matches Err(e) && e matches Error::Scraping(m) && m@
                            == "DuckDuckGo blocked this request"@
                    } else {
                        r matches Ok(sd) && sd.state() == st
                    }
                },
                None => r matches Err(e) && e matches Error::Scraping(m) && m@
                    == "Anchor with no href"@,
            }),
            self.config.search_engine is Google ==> (match scrape_result(
                self.sites.pairs(),
                anchor_hrefs_of(html@, "div.r > a"@),
                self.config.limit as int,
            ) {
                Some(st) => r matches Ok(sd) && sd.state() == st,
                None => r matches Err(e) && e matches Error::Scraping(m) && m@
                    == "Anchor with no href"@,
            }),
    {
        match self.config.search_engine {
            SearchEngine::DuckDuckGo => DuckDuckGo.parse(html, &self.sites, self.config.limit),
            SearchEngine::Google => Google.parse(html, &self.sites, self.config.limit),
            SearchEngine::StackExchange => unreached(),
        }
    }

    /// One id-batch request per discovered site group, in group order.
    pub fn question_requests(&self, data: &ScrapedData) -> (r: Vec<(String, ApiRequest)>)
        ensures
            r@.len() == data.question_ids@.len(),
            forall|i: int|
                0 <= i < r@.len() ==> {
                    &&& (#[trigger] r@[i]).0@ == groups_view(data.question_ids@)[i].0
                    &&& r@[i].1.url@ == se_api_url(
                        "questions/"@ + joined(groups_view(data.question_ids@)[i].1, ";"@),
                    )
                    &&& pairs_view(r@[i].1.params@) == default_params_s(self.api.api_key) + seq![
                        ("site"@, groups_view(data.question_ids@)[i].0),
                        ("pagesize"@, dec_rep(groups_view(data.question_ids@)[i].1.len() as int)),
                    ]
                },
    {
        let mut r: Vec<(String, ApiRequest)> = Vec::new();
        let mut i: usize = 0;
        while i < data.question_ids.len()
            invariant
                0 <= i <= data.question_ids@.len(),
                r@.len() == i,
                forall|k: int|
                    0 <= k < i ==> {
                        &&& (#[trigger] r@[k]).0@ == groups_view(data.question_ids@)[k].0
                        &&& r@[k].1.url@ == se_api_url(
                            "questions/"@ + joined(groups_view(data.question_ids@)[k].1, ";"@),
                        )
                        &&& pairs_view(r@[k].1.params@) == default_params_s(self.api.api_key)
                            + seq![
                            ("site"@, groups_view(data.question_ids@)[k].0),
                            (
                                "pagesize"@,
                                dec_rep(groups_view(data.question_ids@)[k].1.len() as int),
                            ),
                        ]
                    },
            decreases data.question_ids@.len() - i,
        {
            let group = &data.question_ids[i];
            let req = self.api.questions_request(group.0.as_str(), &group.1);
            r.push((group.0.clone(), req));
            proof {
                assert(groups_view(data.question_ids@)[i as int] == (
                    data.question_ids@[i as int].0@,
                    strings_view(data.question_ids@[i as int].1@),
                ));
            }
            i += 1;
        }
        r
    }

    /// One advanced-search request per configured site, in configuration
    /// order: exactly as many upstream requests as there are sites.
    pub fn advanced_requests(&self) -> (r: Vec<(String, ApiRequest)>)
        ensures
            r@.len() == self.config.sites@.len(),
            forall|i: int|
                0 <= i < r@.len() ==> {
                    &&& (#[trigger] r@[i]).0 == self.config.sites@[i]
                    &&& r@[i].1.url@ == se_api_url("search/advanced"@)
                    &&& pairs_view(r@[i].1.params@) == default_params_s(self.api.api_key) + seq![
                        ("q"@, self.query@),
                        ("pagesize"@, dec_rep(self.config.limit as int)),
                        ("site"@, self.config.sites@[i]@),
                        ("answers"@, "1"@),
                        ("order"@, "desc"@),
                        ("sort"@, "relevance"@),
                    ]
                },
    {
        let mut r: Vec<(String, ApiRequest)> = Vec::new();
        let mut i: usize = 0;
        while i < self.config.sites.len()
            invariant
                0 <= i <= self.config.sites@.len(),
                r@.len() == i,
                forall|k: int|
                    0 <= k < i ==> {
                        &&& (#[trigger] r@[k]).0 == self.config.sites@[k]
                        &&& r@[k].1.url@ == se_api_url("search/advanced"@)
                        &&& pairs_view(r@[k].1.params@) == default_params_s(self.api.api_key)
                            + seq![
                            ("q"@, self.query@),
                            ("pagesize"@, dec_rep(self.config.limit as int)),
                            ("site"@, self.config.sites@[k]@),
                            ("answers"@, "1"@),
                            ("order"@, "desc"@),
                            ("sort"@, "relevance"@),
                        ]
                    },
            decreases self.config.sites@.len() - i,
        {
            let site = &self.config.sites[i];
            let req = self.api.search_advanced_request(
                self.query.as_str(),
                site.as_str(),
                self.config.limit,
            );
            r.push((site.clone(), req));
            i += 1;
        }
        r
    }

    /// Merges the per-group responses of a discovery run: flattens them and
    /// sorts by the ordinal recorded during discovery, restoring the
    /// engine's cross-site ranking. Every question must carry an id that
    /// discovery recorded, and ordinals never exceed the result limit's
    /// range.
    pub fn merge_scraped(
        fetched: Vec<Vec<Question<String>>>,
        ordering: &Vec<(String, usize)>,
    ) -> (r: Vec<Question<String>>)
        requires
            forall|i: int|
                0 <= i < flat_qs(fetched@).len() ==> lookup_ord(
                    ord_view(ordering@),
                    qid_str(#[trigger] flat_qs(fetched@)[i]),
                ) is Some,
            forall|k: int| 0 <= k < ordering@.len() ==> (#[trigger] ordering@[k]).1 <= 0xffff,
        ensures
            r@.to_multiset() == flat_qs(fetched@).to_multiset(),
            r@.len() == flat_qs(fetched@).len(),
            questions_sorted_by_ord(r@, ord_view(ordering@)),
    {
        broadcast use group_to_multiset_ensures;

        let ghost ordv = ord_view(ordering@);
        let flat = flatten_qs_exec(fetched);
        let ghost flatg = flat@;

        let mut pairs: Vec<(i64, Question<String>)> = Vec::new();
        let mut rest = flat;
        while rest.len() > 0
            invariant
                rest@.len() <= flatg.len(),
                ordv == ord_view(ordering@),
                forall|i: int|
                    0 <= i < flatg.len() ==> lookup_ord(ordv, qid_str(#[trigger] flatg[i]))
                        is Some,
                forall|k: int| 0 <= k < ordering@.len() ==> (#[trigger] ordering@[k]).1 <= 0xffff,
                pairs@.len() == flatg.len() - rest@.len(),
                rest@ == flatg.subrange(flatg.len() - rest@.len(), flatg.len() as int),
                forall|j: int|
                    0 <= j < pairs@.len() ==> (#[trigger] pairs@[j]).1 == flatg[j] && pairs@[j].0
                        as int == lookup_ord(ordv, qid_str(flatg[j]))->Some_0,
            decreases rest@.len(),
        {
            let ghost k = flatg.len() - rest@.len();
            let q = rest.remove(0);
            proof {
                assert(q == flatg[k as int]);
                assert(rest@ =~= flatg.subrange(k + 1, flatg.len() as int));
            }
            let o = match ord_of_exec(ordering, q.id) {
                Some(o) => o,
                None => unreached(),
            };
            proof {
                lemma_lookup_ord_in(ordv, qid_str(q));
                let j = choose|j: int|
                    0 <= j < ordv.len() && ordv[j].0 == qid_str(q) && #[trigger] ordv[j].1 == o
                        as int;
                assert(ordv[j] == (ordering@[j].0@, ordering@[j].1 as int));
                assert(o <= 0xffff);
            }
            pairs.push((o as i64, q));
        }
        proof {
            assert(flatg.subrange(flatg.len() as int, flatg.len() as int) =~= Seq::<
                Question<String>,
            >::empty());
        }
        let ghost pairsg = pairs@;
        let sorted = sort_by_key(pairs);
        let ghost sortedg = sorted@;

        let mut out: Vec<Question<String>> = Vec::new();
        let mut rest2 = sorted;
        while rest2.len() > 0
            invariant
                rest2@.len() <= sortedg.len(),
                out@.len() == sortedg.len() - rest2@.len(),
                rest2@ == sortedg.subrange(sortedg.len() - rest2@.len(), sortedg.len() as int),
                forall|j: int| 0 <= j < out@.len() ==> #[trigger] out@[j] == sortedg[j].1,
            decreases rest2@.len(),
        {
            let ghost k = sortedg.len() - rest2@.len();
            let p = rest2.remove(0);
            proof {
                assert(p == sortedg[k as int]);
                assert(rest2@ =~= sortedg.subrange(k + 1, sortedg.len() as int));
            }
            out.push(p.1);
        }

        proof {
            // Every sorted pair is one of the built pairs, so its key is
            // its payload's recorded ordinal.
            assert forall|i: int| 0 <= i < sortedg.len() implies #[trigger] sortedg[i].0 as int
                == lookup_ord(ordv, qid_str(sortedg[i].1))->Some_0 by {
                assert(sortedg.contains(sortedg[i]));
                assert(sortedg.to_multiset().count(sortedg[i]) > 0);
                assert(pairsg.to_multiset().count(sortedg[i]) > 0);
                assert(pairsg.contains(sortedg[i]));
                let j = choose|j: int| 0 <= j < pairsg.len() && pairsg[j] == sortedg[i];
                assert(pairsg[j].1 == flatg[j]);
            }
            assert forall|i: int, j: int| 0 <= i < j < out@.len() implies lookup_ord(
                ordv,
                qid_str(out@[i]),
            )->Some_0 <= lookup_ord(ordv, qid_str(out@[j]))->Some_0 by {
                assert(out@[i] == sortedg[i].1);
                assert(out@[j] == sortedg[j].1);
                assert(sortedg[i].0 <= sortedg[j].0);
            }
            // The output is a rearrangement of the flattened input.
            let second = |p: (i64, Question<String>)| p.1;
            assert(out@ =~= sortedg.map_values(second));
            crate::seqs::lemma_map_multiset(sortedg, pairsg, second);
            assert(pairsg.map_values(second) =~= flatg);
        }
        out
    }

    /// Merges the per-site responses of a direct platform search: flattens
    /// them and, only when more than one site was queried, sorts by
    /// descending score; a single site's server-provided order is kept
    /// unchanged.
    pub fn merge_advanced(&self, fetched: Vec<Vec<Question<String>>>) -> (r: Vec<
        Question<String>,
    >)
        ensures
            r@.to_multiset() == flat_qs(fetched@).to_multiset(),
            r@.len() == flat_qs(fetched@).len(),
            self.config.sites@.len() <= 1 ==> r@ == flat_qs(fetched@),
            self.config.sites@.len() > 1 ==> questions_sorted_desc(r@),
    {
        broadcast use group_to_multiset_ensures;

        let flat = flatten_qs_exec(fetched);
        let ghost flatg = flat@;
        if self.config.sites.len() <= 1 {
            return flat;
        }

        let mut pairs: Vec<(i64, Question<String>)> = Vec::new();
        let mut rest = flat;
        while rest.len() > 0
            invariant
                rest@.len() <= flatg.len(),
                pairs@.len() == flatg.len() - rest@.len(),
                rest@ == flatg.subrange(flatg.len() - rest@.len(), flatg.len() as int),
                forall|j: int|
                    0 <= j < pairs@.len() ==> (#[trigger] pairs@[j]).1 == flatg[j] && pairs@[j].0
                        as int == -(flatg[j].score as int),
            decreases rest@.len(),
        {
            let ghost k = flatg.len() - rest@.len();
            let q = rest.remove(0);
            proof {
                assert(q == flatg[k as int]);
                assert(rest@ =~= flatg.subrange(k + 1, flatg.len() as int));
            }
            let neg: i64 = -(q.score as i64);
            pairs.push((neg, q));
        }
        proof {
            assert(flatg.subrange(flatg.len() as int, flatg.len() as int) =~= Seq::<
                Question<String>,
            >::empty());
        }
        let ghost pairsg = pairs@;
        let sorted = sort_by_key(pairs);
        let ghost sortedg = sorted@;

        let mut out: Vec<Question<String>> = Vec::new();
        let mut rest2 = sorted;
        while rest2.len() > 0
            invariant
                rest2@.len() <= sortedg.len(),
                out@.len() == sortedg.len() - rest2@.len(),
                rest2@ == sortedg.subrange(sortedg.len() - rest2@.len(), sortedg.len() as int),
                forall|j: int| 0 <= j < out@.len() ==> #[trigger] out@[j] == sortedg[j].1,
            decreases rest2@.len(),
        {
            let ghost k = sortedg.len() - rest2@.len();
            let p = rest2.remove(0);
            proof {
                assert(p == sortedg[k as int]);
                assert(rest2@ =~= sortedg.subrange(k + 1, sortedg.len() as int));
            }
            out.push(p.1);
        }

        proof {
            assert forall|i: int| 0 <= i < sortedg.len() implies #[trigger] sortedg[i].0 as int
                == -(sortedg[i].1.score as int) by {
                assert(sortedg.contains(sortedg[i]));
                assert(sortedg.to_multiset().count(sortedg[i]) > 0);
                assert(pairsg.to_multiset().count(sortedg[i]) > 0);
                assert(pairsg.contains(sortedg[i]));
                let j = choose|j: int| 0 <= j < pairsg.len() && pairsg[j] == sortedg[i];
                assert(pairsg[j].1 == flatg[j]);
            }
            assert forall|i: int, j: int| 0 <= i < j < out@.len() implies out@[i].score >= out@[
            j].score by {
                assert(out@[i] == sortedg[i].1);
                assert(out@[j] == sortedg[j].1);
                assert(sortedg[i].0 <= sortedg[j].0);
            }
            let second = |p: (i64, Question<String>)| p.1;
            assert(out@ =~= sortedg.map_values(second));
            crate::seqs::lemma_map_multiset(sortedg, pairsg, second);
            assert(pairsg.map_values(second) =~= flatg);
        }
        out
    }

    /// The all-or-nothing policy over the per-site fetches: one failed
    /// sub-operation fails the whole search with that first failure — a
    /// partial ranked list missing an unknown number of sites would be
    /// worse than a clear error. Otherwise the groups pass through
    /// unchanged, in request order.
    pub fn collect_groups(results: Vec<Result<Vec<Question<String>>, Error>>) -> (r: Result<
        Vec<Vec<Question<String>>>,
        Error,
    >)
        ensures
            match first_failure(results@) {
                None => r matches Ok(groups) && groups@.len() == results@.len() && forall|i: int|
                    0 <= i < groups@.len() ==> #[trigger] groups@[i]
                        == (#[trigger] results@[i])->Ok_0,
                Some(k) => r matches Err(e) && Err::<Vec<Question<String>>, Error>(e)
                    == results@[k],
            },
    {
        let ghost orig = results@;
        let mut groups: Vec<Vec<Question<String>>> = Vec::new();
        let mut rest = results;
        proof {
            assert(orig.skip(0) =~= orig);
        }
        while rest.len() > 0
            invariant
                orig == results@,
                groups@.len() + rest@.len() == orig.len(),
                rest@ == orig.skip(groups@.len() as int),
                forall|k: int| 0 <= k < groups@.len() ==> orig[k] is Ok,
                forall|k: int|
                    0 <= k < groups@.len() ==> #[trigger] groups@[k] == (#[trigger] orig[k])->Ok_0,
                first_failure(orig.skip(groups@.len() as int)) matches Some(m) ==> first_failure(
                    orig,
                ) == Some(m + groups@.len()),
                first_failure(orig.skip(groups@.len() as int)) is None ==> first_failure(orig)
                    is None,
            decreases rest@.len(),
        {
            let ghost k = groups@.len() as int;
            let ghost tail = orig.skip(k);
            proof {
                assert(tail[0] == orig[k]);
                assert(tail.drop_first() =~= orig.skip(k + 1));
            }
            match rest.remove(0) {
                Ok(g) => {
                    groups.push(g);
                    proof {
                        assert(rest@ =~= orig.skip(k + 1));
                    }
                },
                Err(e) => {
                    proof {
                        assert(first_failure(tail) == Some(0int));
                        assert(first_failure(orig) == Some(k));
                        assert(Err::<Vec<Question<String>>, Error>(e) == orig[k]);
                    }
                    return Err(e);
                },
            }
        }
        proof {
            assert(orig.skip(groups@.len() as int) =~= Seq::<
                Result<Vec<Question<String>>, Error>,
            >::empty());
        }
        Ok(groups)
    }

    /// The shared empty-result policy of both dispatch paths: an empty
    /// merged list is the no-results error, whatever made it empty.
    pub fn finalize(qs: Vec<Question<String>>) -> (r: Result<Vec<Question<String>>, Error>)
        ensures
            qs@.len() == 0 ==> r == Err::<Vec<Question<String>>, Error>(Error::NoResults),
            qs@.len() > 0 ==> r == Ok::<Vec<Question<String>>, Error>(qs),
    {
        if qs.len() == 0 {
            Err(Error::NoResults)
        } else {
            Ok(qs)
        }
    }

    /// The configuration the lucky path runs under: the limit drops to one
    /// and, only for the direct platform engine, the site list is cut to
    /// its first entry — thin sites answer fastest, so racing one site
    /// beats racing all of them.
    pub fn lucky_config(config: &Config) -> (r: Config)
        ensures
            r.limit == 1,
            r.api_key == config.api_key,
            r.lucky == config.lucky,
            r.search_engine == config.search_engine,
            r.copy_cmd == config.copy_cmd,
            config.search_engine is StackExchange ==> r.sites@ == config.sites@.take(
                if config.sites@.len() >= 1 {
                    1int
                } else {
                    0int
                },
            ),
            !(config.search_engine is StackExchange) ==> r.sites@ == config.sites@,
    {
        let mut sites = clone_strings(&config.sites);
        if let SearchEngine::StackExchange = config.search_engine {
            sites.truncate(1);
        }
        Config {
            api_key: clone_key(&config.api_key),
            limit: 1,
            lucky: config.lucky,
            sites,
            search_engine: match config.search_engine {
                SearchEngine::DuckDuckGo => SearchEngine::DuckDuckGo,
                SearchEngine::Google => SearchEngine::Google,
                SearchEngine::StackExchange => SearchEngine::StackExchange,
            },
            copy_cmd: clone_key(&config.copy_cmd),
        }
    }

    /// The lucky path's extraction: the first question and its first
    /// answer, or the exact error owed — no results at all, or upstream
    /// data that broke the every-question-has-answers invariant.
    pub fn lucky_extract(qs: Vec<Question<String>>) -> (r: Result<
        (Question<String>, Answer<String>),
        Error,
    >)
        ensures
            qs@.len() == 0 ==> r == Err::<(Question<String>, Answer<String>), Error>(
                Error::NoResults,
            ),
            qs@.len() > 0 && qs@[0].answers@.len() == 0 ==> (r matches Err(e) && e matches Error::StackExchange(m)
                && m@ == "Received question with no answers"@),
            qs@.len() > 0 && qs@[0].answers@.len() > 0 ==> (r matches Ok(p) && p.0.id == qs@[0].id
                && p.0.score == qs@[0].score && p.0.title == qs@[0].title && p.0.body == qs@[0].body
                && p.0.site == qs@[0].site && p.0.answers@ == qs@[0].answers@
                && p.1 == qs@[0].answers@[0]),
    {
        let mut qs = qs;
        if qs.len() == 0 {
            return Err(Error::NoResults);
        }
        let mut q = qs.remove(0);
        if q.answers.len() == 0 {
            return Err(
                Error::StackExchange(String::from_str("Received question with no answers")),
            );
        }
        let ghost q0 = q;
        let a = q.answers.remove(0);
        let copy = Answer {
            id: a.id,
            score: a.score,
            body: a.body.clone(),
            is_accepted: a.is_accepted,
        };
        proof {
            assert(copy == q0.answers@[0]);
        }
        q.answers.insert(0, a);
        proof {
            assert(q.answers@ =~= q0.answers@);
        }
        Ok((q, copy))
    }
}

/// Looks up the ordinal recorded for a question id.
fn ord_of_exec(ordering: &Vec<(String, usize)>, id: u32) -> (r: Option<usize>)
    ensures
        match r {
            Some(o) => lookup_ord(ord_view(ordering@), dec_rep(id as int)) == Some(o as int),
            None => lookup_ord(ord_view(ordering@), dec_rep(id as int)) is None,
        },
{
    let key = dec_string(id as u64);
    let mut i: usize = 0;
    proof {
        assert(ord_view(ordering@).skip(0) =~= ord_view(ordering@));
    }
    while i < ordering.len()
        invariant
            0 <= i <= ordering@.len(),
            key@ == dec_rep(id as int),
            lookup_ord(ord_view(ordering@), dec_rep(id as int)) == lookup_ord(
                ord_view(ordering@).skip(i as int),
                dec_rep(id as int),
            ),
        decreases ordering@.len() - i,
    {
        proof {
            let ov = ord_view(ordering@);
            assert(ov.skip(i as int).len() == ov.len() - i);
            assert(ov.skip(i as int)[0] == ov[i as int]);
            assert(ov[i as int] == (ordering@[i as int].0@, ordering@[i as int].1 as int));
            assert(ov.skip(i as int).drop_first() =~= ov.skip(i + 1));
        }
        if ordering[i].0.eq(&key) {
            return Some(ordering[i].1);
        }
        i += 1;
    }
    proof {
        assert(ord_view(ordering@).skip(i as int) =~= Seq::<(Seq<char>, int)>::empty());
    }
    None
}

/// The id strings of a list of questions, in order.
pub open spec fn qids_of(s: Seq<Question<String>>) -> Seq<Seq<char>> {
    s.map_values(|q: Question<String>| qid_str(q))
}

/// A recorded key can be looked up.
proof fn lemma_lookup_ord_some(ord: Seq<(Seq<char>, int)>, q: Seq<char>)
    ensures
        (exists|j: int| 0 <= j < ord.len() && (#[trigger] ord[j]).0 == q) ==> lookup_ord(ord, q)
            is Some,
    decreases ord.len(),
{
    if ord.len() > 0 && ord[0].0 != q {
        lemma_lookup_ord_some(ord.drop_first(), q);
        if exists|j: int| 0 <= j < ord.len() && (#[trigger] ord[j]).0 == q {
            let j = choose|j: int| 0 <= j < ord.len() && (#[trigger] ord[j]).0 == q;
            assert(j > 0);
            assert(ord.drop_first()[j - 1].0 == q);
        }
    }
}

/// With position ordinals, a successful lookup names the position of the
/// key.
proof fn lemma_lookup_ord_wf(ord: Seq<(Seq<char>, int)>, q: Seq<char>)
    requires
        forall|k: int| 0 <= k < ord.len() ==> (#[trigger] ord[k]).1 == k,
    ensures
        lookup_ord(ord, q) matches Some(v) ==> 0 <= v < ord.len() && ord[v].0 == q,
{
    lemma_lookup_ord_in(ord, q);
    let r = lookup_ord(ord, q);
    if r is Some {
        let v = r->Some_0;
        let j = choose|j: int|
            0 <= j < ord.len() && ord[j].0 == q && #[trigger] ord[j].1 == v;
        assert(ord[j].1 == j);
    }
}

/// A strictly ordinal-increasing list keeps each question at or above its
/// own position.
proof fn lemma_ord_pos_lower(merged: Seq<Question<String>>, ord: Seq<(Seq<char>, int)>, i: int)
    requires
        0 <= i < merged.len(),
        forall|k: int|
            0 <= k < merged.len() ==> 0 <= (#[trigger] lookup_ord(
                ord,
                qid_str(merged[k]),
            ))->Some_0 < merged.len(),
        forall|k: int, l: int|
            0 <= k < l < merged.len() ==> lookup_ord(ord, qid_str(merged[k]))->Some_0
                < lookup_ord(ord, qid_str(merged[l]))->Some_0,
    ensures
        lookup_ord(ord, qid_str(merged[i]))->Some_0 >= i,
    decreases i,
{
    if i > 0 {
        lemma_ord_pos_lower(merged, ord, i - 1);
    }
}

/// ... and at or below it.
proof fn lemma_ord_pos_upper(merged: Seq<Question<String>>, ord: Seq<(Seq<char>, int)>, i: int)
    requires
        0 <= i < merged.len(),
        forall|k: int|
            0 <= k < merged.len() ==> 0 <= (#[trigger] lookup_ord(
                ord,
                qid_str(merged[k]),
            ))->Some_0 < merged.len(),
        forall|k: int, l: int|
            0 <= k < l < merged.len() ==> lookup_ord(ord, qid_str(merged[k]))->Some_0
                < lookup_ord(ord, qid_str(merged[l]))->Some_0,
    ensures
        lookup_ord(ord, qid_str(merged[i]))->Some_0 <= i,
    decreases merged.len() - i,
{
    if i < merged.len() - 1 {
        lemma_ord_pos_upper(merged, ord, i + 1);
    }
}

/// For a single-site discovery run with N matching links in the page,
/// any merged output that is a rearrangement of one fetched question per
/// discovered id and is sorted by the recorded ordinals lists exactly
/// those ids — N of them, or the limit, whichever the fold reached — in
/// the order of their first appearance in the page.
pub proof fn lemma_single_site_order(
    sites: Seq<(Seq<char>, Seq<char>)>,
    links: Seq<Option<Seq<char>>>,
    limit: int,
    st: ScrapeState,
    merged: Seq<Question<String>>,
)
    requires
        sites.len() == 1,
        scrape_result(sites, links, limit) == Some(st),
        qids_of(merged).to_multiset() == ord_keys(st.ord).to_multiset(),
        questions_sorted_by_ord(merged, st.ord),
    ensures
        merged.len() == st.ord.len(),
        forall|i: int|
            0 <= i < merged.len() ==> qid_str(#[trigger] merged[i]) == ord_keys(st.ord)[i],
        st.ord.len() > 0 ==> st.groups.len() == 1 && st.groups[0].0 == sites[0].0
            && st.groups[0].1 == ord_keys(st.ord),
{
    broadcast use group_to_multiset_ensures;

    lemma_scrape_result_wf(sites, links, limit);
    let ord = st.ord;
    let keys = ord_keys(ord);
    let qids = qids_of(merged);
    assert(qids.to_multiset().len() == qids.len());
    assert(keys.to_multiset().len() == keys.len());
    assert(merged.len() == ord.len());

    // No id is recorded twice, so no id occurs twice in the merge either.
    keys.lemma_multiset_has_no_duplicates();
    qids.lemma_multiset_has_no_duplicates_conv();

    // Every merged question's id is recorded, at its key's position.
    assert forall|k: int| 0 <= k < merged.len() implies 0 <= (#[trigger] lookup_ord(
        ord,
        qid_str(merged[k]),
    ))->Some_0 < merged.len() && ord[lookup_ord(ord, qid_str(merged[k]))->Some_0].0 == qid_str(
        merged[k],
    ) by {
        assert(qids[k] == qid_str(merged[k]));
        assert(qids.contains(qids[k]));
        assert(qids.to_multiset().count(qids[k]) > 0);
        assert(keys.to_multiset().count(qids[k]) > 0);
        assert(keys.contains(qids[k]));
        let j = choose|j: int| 0 <= j < keys.len() && keys[j] == qids[k];
        assert(ord[j].0 == qids[k]);
        lemma_lookup_ord_some(ord, qid_str(merged[k]));
        lemma_lookup_ord_wf(ord, qid_str(merged[k]));
    }

    // Sorted and duplicate-free means strictly increasing ordinals.
    assert forall|k: int, l: int| 0 <= k < l < merged.len() implies lookup_ord(
        ord,
        qid_str(merged[k]),
    )->Some_0 < lookup_ord(ord, qid_str(merged[l]))->Some_0 by {
        assert(lookup_ord(ord, qid_str(merged[k]))->Some_0 <= lookup_ord(
            ord,
            qid_str(merged[l]),
        )->Some_0);
        if lookup_ord(ord, qid_str(merged[k]))->Some_0 == lookup_ord(
            ord,
            qid_str(merged[l]),
        )->Some_0 {
            let v = lookup_ord(ord, qid_str(merged[k]))->Some_0;
            assert(ord[v].0 == qid_str(merged[k]));
            assert(ord[v].0 == qid_str(merged[l]));
            assert(qids[k] == qids[l]);
        }
    }

    // A strictly increasing map of n positions into n positions is the
    // identity: each question sits exactly at its recorded ordinal.
    assert forall|i: int| 0 <= i < merged.len() implies qid_str(#[trigger] merged[i]) == ord_keys(
        st.ord,
    )[i] by {
        lemma_ord_pos_lower(merged, ord, i);
        lemma_ord_pos_upper(merged, ord, i);
        assert(lookup_ord(ord, qid_str(merged[i]))->Some_0 == i);
        assert(ord[i].0 == qid_str(merged[i]));
        assert(keys[i] == ord[i].0);
    }
}

/// A merge only rearranges whole questions, so what post-processing
/// guarantees of every fetched question — its answers sorted by
/// non-increasing score — holds of every question a merge returns.
pub proof fn lemma_merged_answers_sorted(
    merged: Seq<Question<String>>,
    fetched: Seq<Question<String>>,
)
    requires
        merged.to_multiset() == fetched.to_multiset(),
        forall|i: int|
            0 <= i < fetched.len() ==> answers_sorted_desc(#[trigger] fetched[i].answers@),
    ensures
        forall|i: int|
            0 <= i < merged.len() ==> answers_sorted_desc(#[trigger] merged[i].answers@),
{
    broadcast use group_to_multiset_ensures;

    assert forall|i: int| 0 <= i < merged.len() implies answers_sorted_desc(
        #[trigger] merged[i].answers@,
    ) by {
        assert(merged.contains(merged[i]));
        assert(merged.to_multiset().count(merged[i]) > 0);
        assert(fetched.to_multiset().count(merged[i]) > 0);
        assert(fetched.contains(merged[i]));
        let j = choose|j: int| 0 <= j < fetched.len() && fetched[j] == merged[i];
        assert(answers_sorted_desc(fetched[j].answers@));
    }
}

/// A single group flattens to itself.
pub proof fn lemma_flat_qs_singleton(v: Vec<Question<String>>)
    ensures
        flat_qs(seq![v]) == v@,
{
    assert(seq![v].drop_first() =~= Seq::<Vec<Question<String>>>::empty());
    assert(flat_qs(seq![v].drop_first()) =~= Seq::<Question<String>>::empty());
    assert(flat_qs(seq![v]) == seq![v][0]@ + flat_qs(seq![v].drop_first()));
    assert(flat_qs(seq![v]) =~= v@);
}

/// The single-site direct-search path end to end. When the platform keeps
/// its side — the one advanced-search response holds between one and
/// `limit` items, each already restricted to answered questions — the
/// pipeline returns every item: a non-empty list of at most `limit`
/// questions in the server's order, each with at least one answer and its
/// answers sorted by non-increasing score. `processed` is what the
/// response processing guarantees, and a single-site merge returns it
/// unchanged, so the conclusion holds of the final list.
pub proof fn lemma_direct_search_single_site(
    site: Seq<char>,
    limit: int,
    items: Seq<Question<String>>,
    processed: Seq<Question<String>>,
)
    requires
        1 <= items.len() <= limit,
        forall|i: int| 0 <= i < items.len() ==> (#[trigger] items[i]).answers@.len() >= 1,
        processed.len() == items.len(),
        forall|i: int|
            0 <= i < processed.len() ==> crate::api::question_processed(
                items[i],
                #[trigger] processed[i],
                site,
            ),
    ensures
        1 <= processed.len() <= limit,
        forall|i: int| 0 <= i < processed.len() ==> (#[trigger] processed[i]).answers@.len() >= 1,
        forall|i: int|
            0 <= i < processed.len() ==> answers_sorted_desc(#[trigger] processed[i].answers@),
        forall|i: int|
            0 <= i < processed.len() ==> (#[trigger] processed[i]).id == items[i].id
                && processed[i].score == items[i].score && processed[i].title@ == items[i].title@,
{
    assert forall|i: int| 0 <= i < processed.len() implies (#[trigger] processed[
    i]).answers@.len() >= 1 by {
        assert(crate::api::question_processed(items[i], processed[i], site));
        assert(items[i].answers@.len() >= 1);
    }
}

} // verus!
