//! Result discovery: mining a web search provider's result page for
//! platform question ids. Each engine builds a provider-specific query URL
//! and turns the returned page into `ScrapedData`: per-site id groups for
//! batched fetching, plus the ordinal position of each id in the original
//! cross-site ranking, which the merge step later restores.
//!
//! The HTML selector engine and the percent-decoder are outside crates; the
//! link-matching and accumulation logic around them is verified against the
//! fold `scrape_rec` below.

use vstd::prelude::*;

verus! {

use vstd::string::StringExecFns;

use crate::error::Error;
use crate::storage::{contains_str, SiteMap};
use crate::text::{
    chars_of,
    copy_range,
    find_from,
    first_match_from,
    form_encoded,
    joined,
    join_chars,
    push_chars,
    push_form_encoded,
    push_str_chars,
    split_words,
    string_of,
    strings_view,
    strip_suffix_char,
    strip_suffix_char_all,
    vecs_view,
    words_from,
};
use vstd::utf8::encode_utf8;

/// What one discovery run yields: for each site its ids in page order, and
/// for each id its ordinal position in the original cross-site ranking.
#[derive(Debug)]
pub struct ScrapedData {
    pub question_ids: Vec<(String, Vec<String>)>,
    pub ordering: Vec<(String, usize)>,
}

/// The views of the per-site id groups.
pub open spec fn groups_view(v: Seq<(String, Vec<String>)>) -> Seq<(Seq<char>, Seq<Seq<char>>)> {
    v.map_values(|p: (String, Vec<String>)| (p.0@, strings_view(p.1@)))
}

/// The views of the ordinal list.
pub open spec fn ord_view(v: Seq<(String, usize)>) -> Seq<(Seq<char>, int)> {
    v.map_values(|p: (String, usize)| (p.0@, p.1 as int))
}

/// The abstract accumulation state of one discovery run.
pub struct ScrapeState {
    pub groups: Seq<(Seq<char>, Seq<Seq<char>>)>,
    pub ord: Seq<(Seq<char>, int)>,
}

impl ScrapedData {
    pub open spec fn state(&self) -> ScrapeState {
        ScrapeState { groups: groups_view(self.question_ids@), ord: ord_view(self.ordering@) }
    }
}

/// What the percent-decoder returns for a given string; the result depends
/// on the characters alone.
pub uninterp spec fn percent_decoded_of(s: Seq<char>) -> Seq<char>;

/// Relies on `percent_encoding::percent_decode_str` and its lossy UTF-8
/// decoding: the result is a function of the input alone, and an input
/// without `%` comes back unchanged.
#[verifier::external_body]
fn decode_href(href: &str) -> (r: String)
    ensures
        r@ == percent_decoded_of(href@),
        !href@.contains('%') ==> r@ == href@,
{
    percent_encoding::percent_decode_str(href).decode_utf8_lossy().into_owned()
}

/// What the HTML selector engine finds: for each element matching the
/// selector, in document order, its `href` attribute if it has one.
pub uninterp spec fn anchor_hrefs_of(html: Seq<char>, selector: Seq<char>) -> Seq<
    Option<Seq<char>>,
>;

/// The views of a list of optional strings.
pub open spec fn opt_strings_view(v: Seq<Option<String>>) -> Seq<Option<Seq<char>>> {
    v.map_values(
        |o: Option<String>|
            match o {
                Some(s) => Some(s@),
                None => None,
            },
    )
}

/// Relies on `scraper::Selector::parse`, `scraper::Html::parse_document`,
/// `scraper::Html::select` and `scraper::ElementRef::attr`: collects the
/// `href` attribute of every element matching the DuckDuckGo anchor
/// selector, in document order. The fixed selector is valid under
/// scraper's grammar, so selection cannot fail.
#[verifier::external_body]
fn select_ddg_hrefs(html: &str) -> (r: Vec<Option<String>>)
    ensures
        opt_strings_view(r@) == anchor_hrefs_of(html@, "a.result__a"@),
{
    let sel = scraper::Selector::parse("a.result__a").unwrap();
    let doc = scraper::Html::parse_document(html);
    doc.select(&sel).map(|a| a.value().attr("href").map(|h| h.to_string())).collect()
}

/// Relies on the same four scraper functions, for the Google anchor
/// selector; that fixed selector is valid under scraper's grammar too.
#[verifier::external_body]
fn select_google_hrefs(html: &str) -> (r: Vec<Option<String>>)
    ensures
        opt_strings_view(r@) == anchor_hrefs_of(html@, "div.r > a"@),
{
    let sel = scraper::Selector::parse("div.r > a").unwrap();
    let doc = scraper::Html::parse_document(html);
    doc.select(&sel).map(|a| a.value().attr("href").map(|h| h.to_string())).collect()
}

/// A display URL with its trailing slashes removed.
pub open spec fn rstrip_slash(u: Seq<char>) -> Seq<char> {
    strip_suffix_char_all(u, '/')
}

/// The id that follows `frag` in `url`: the characters between the first
/// occurrence of `frag` and the next `/`, or the rest of the URL.
pub open spec fn id_after(url: Seq<char>, frag: Seq<char>) -> Option<Seq<char>> {
    match first_match_from(url, frag, 0) {
        None => None,
        Some(i) => {
            let rest = url.skip(i + frag.len() as int);
            match first_match_from(rest, "/"@, 0) {
                None => Some(rest),
                Some(e) => Some(rest.subrange(0, e)),
            }
        },
    }
}

/// The question id a link points to on the given site, if any: the site's
/// URL followed by one of the two accepted path shapes.
pub open spec fn url_to_id(site_url: Seq<char>, url: Seq<char>) -> Option<Seq<char>> {
    match id_after(url, rstrip_slash(site_url) + "/questions/"@) {
        Some(id) => Some(id),
        None => id_after(url, rstrip_slash(site_url) + "/q/"@),
    }
}

/// Extracts the question id from a link on the given site, trying the
/// `/questions/<id>` shape and then `/q/<id>`.
pub fn question_url_to_id(site_url: &str, input: &str) -> (r: Option<String>)
    ensures
        match r {
            Some(id) => url_to_id(site_url@, input@) == Some(id@),
            None => url_to_id(site_url@, input@) is None,
        },
{
    proof {
        reveal_strlit("/questions/");
        reveal_strlit("/q/");
        reveal_strlit("/");
    }
    let site = chars_of(site_url);
    let stripped = strip_suffix_char(&site, '/');
    let text = chars_of(input);
    let slash = chars_of("/");

    let mut frag = copy_range(&stripped, 0, stripped.len());
    proof {
        assert(stripped@.subrange(0, stripped@.len() as int) =~= stripped@);
    }
    push_str_chars(&mut frag, "/questions/");
    if let Some(id) = id_after_exec(&text, &frag, &slash) {
        return Some(id);
    }
    let mut frag2 = copy_range(&stripped, 0, stripped.len());
    proof {
        assert(stripped@.subrange(0, stripped@.len() as int) =~= stripped@);
    }
    push_str_chars(&mut frag2, "/q/");
    id_after_exec(&text, &frag2, &slash)
}

/// The characters between the first occurrence of `frag` and the next `/`.
fn id_after_exec(text: &Vec<char>, frag: &Vec<char>, slash: &Vec<char>) -> (r: Option<String>)
    requires
        frag@.len() > 0,
        slash@ == "/"@,
        "/"@.len() == 1,
    ensures
        match r {
            Some(id) => id_after(text@, frag@) == Some(id@),
            None => id_after(text@, frag@) is None,
        },
{
    match find_from(text, frag, 0) {
        None => None,
        Some(i) => {
            proof {
                crate::text::lemma_first_match_from(text@, frag@, 0);
            }
            let n = text.len();
            let rest = copy_range(text, i + frag.len(), n);
            proof {
                assert(rest@ =~= text@.skip(i + frag@.len() as int));
            }
            match find_from(&rest, slash, 0) {
                None => Some(string_of(&rest)),
                Some(e) => {
                    proof {
                        crate::text::lemma_first_match_from(rest@, slash@, 0);
                    }
                    let id = copy_range(&rest, 0, e);
                    Some(string_of(&id))
                },
            }
        },
    }
}

/// The first configured site a decoded link belongs to, with the id it
/// carries there.
pub open spec fn match_link(sites: Seq<(Seq<char>, Seq<char>)>, url: Seq<char>) -> Option<
    (Seq<char>, Seq<char>),
>
    decreases sites.len(),
{
    if sites.len() == 0 {
        None
    } else {
        match url_to_id(sites[0].1, url) {
            Some(id) => Some((sites[0].0, id)),
            None => match_link(sites.drop_first(), url),
        }
    }
}

/// Finds the first site of the map whose URL matches the link.
fn match_link_exec(sites: &SiteMap, url: &String) -> (r: Option<(String, String)>)
    ensures
        match r {
            Some(p) => match_link(sites.pairs(), url@) == Some((p.0@, p.1@)),
            None => match_link(sites.pairs(), url@) is None,
        },
{
    let mut i: usize = 0;
    proof {
        assert(sites.pairs().skip(0) =~= sites.pairs());
    }
    while i < sites.inner.len()
        invariant
            0 <= i <= sites.inner@.len(),
            match_link(sites.pairs(), url@) == match_link(sites.pairs().skip(i as int), url@),
        decreases sites.inner@.len() - i,
    {
        proof {
            assert(sites.pairs().skip(i as int).len() == sites.pairs().len() - i);
            assert(sites.pairs().skip(i as int)[0] == sites.pairs()[i as int]);
            assert(sites.pairs().skip(i as int).drop_first() =~= sites.pairs().skip(i + 1));
        }
        let pair = &sites.inner[i];
        if let Some(id) = question_url_to_id(pair.1.as_str(), url.as_str()) {
            return Some((pair.0.clone(), id));
        }
        i += 1;
    }
    proof {
        assert(sites.pairs().skip(i as int) =~= Seq::<(Seq<char>, Seq<char>)>::empty());
    }
    None
}

/// The id keys of the ordinal list, in first-appearance order.
pub open spec fn ord_keys(ord: Seq<(Seq<char>, int)>) -> Seq<Seq<char>> {
    ord.map_values(|p: (Seq<char>, int)| p.0)
}

/// Whether an id was already recorded.
pub open spec fn has_id(ord: Seq<(Seq<char>, int)>, id: Seq<char>) -> bool {
    contains_str(ord_keys(ord), id)
}

/// Appends the id to its site's group, or opens a new group at the end.
pub open spec fn add_to_group(
    groups: Seq<(Seq<char>, Seq<Seq<char>>)>,
    site: Seq<char>,
    id: Seq<char>,
) -> Seq<(Seq<char>, Seq<Seq<char>>)>
    decreases groups.len(),
{
    if groups.len() == 0 {
        seq![(site, seq![id])]
    } else if groups[0].0 == site {
        seq![(groups[0].0, groups[0].1.push(id))] + groups.drop_first()
    } else {
        seq![groups[0]] + add_to_group(groups.drop_first(), site, id)
    }
}

/// One decoded link's effect on the accumulation state: links that match
/// no configured site and ids already recorded change nothing; a new id
/// joins its site's group and receives the next ordinal.
pub open spec fn scrape_step(
    st: ScrapeState,
    sites: Seq<(Seq<char>, Seq<char>)>,
    url: Seq<char>,
) -> ScrapeState {
    match match_link(sites, url) {
        None => st,
        Some(p) => {
            if has_id(st.ord, p.1) {
                st
            } else {
                ScrapeState {
                    groups: add_to_group(st.groups, p.0, p.1),
                    ord: st.ord.push((p.1, st.ord.len() as int)),
                }
            }
        },
    }
}

/// The whole accumulation: decoded links are folded in page order until
/// `limit` distinct ids are found; an anchor without an `href` fails the
/// run (`None`).
pub open spec fn scrape_rec(
    sites: Seq<(Seq<char>, Seq<char>)>,
    links: Seq<Option<Seq<char>>>,
    limit: int,
    st: ScrapeState,
) -> Option<ScrapeState>
    decreases links.len(),
{
    if st.ord.len() >= limit || links.len() == 0 {
        Some(st)
    } else {
        match links[0] {
            None => None,
            Some(href) => scrape_rec(
                sites,
                links.drop_first(),
                limit,
                scrape_step(st, sites, percent_decoded_of(href)),
            ),
        }
    }
}

/// What one discovery page yields under a site map and a limit.
pub open spec fn scrape_result(
    sites: Seq<(Seq<char>, Seq<char>)>,
    links: Seq<Option<Seq<char>>>,
    limit: int,
) -> Option<ScrapeState> {
    scrape_rec(sites, links, limit, ScrapeState { groups: Seq::empty(), ord: Seq::empty() })
}

/// Appending to the group at the first position whose site matches is what
/// `add_to_group` does.
proof fn lemma_add_to_group_at(
    groups: Seq<(Seq<char>, Seq<Seq<char>>)>,
    site: Seq<char>,
    id: Seq<char>,
    idx: int,
)
    requires
        0 <= idx < groups.len(),
        groups[idx].0 == site,
        forall|k: int| 0 <= k < idx ==> groups[k].0 != site,
    ensures
        add_to_group(groups, site, id) == groups.update(idx, (site, groups[idx].1.push(id))),
    decreases idx,
{
    if idx == 0 {
        assert(add_to_group(groups, site, id) =~= groups.update(
            0,
            (site, groups[0].1.push(id)),
        ));
    } else {
        assert(groups.drop_first()[idx - 1].0 == site);
        assert(forall|k: int| 0 <= k < idx - 1 ==> groups.drop_first()[k].0 != site);
        lemma_add_to_group_at(groups.drop_first(), site, id, idx - 1);
        assert(add_to_group(groups, site, id) =~= groups.update(
            idx,
            (site, groups[idx].1.push(id)),
        ));
    }
}

/// When no group carries the site, `add_to_group` opens a new one at the
/// end.
proof fn lemma_add_to_group_missing(
    groups: Seq<(Seq<char>, Seq<Seq<char>>)>,
    site: Seq<char>,
    id: Seq<char>,
)
    requires
        forall|k: int| 0 <= k < groups.len() ==> groups[k].0 != site,
    ensures
        add_to_group(groups, site, id) == groups.push((site, seq![id])),
    decreases groups.len(),
{
    if groups.len() == 0 {
        assert(add_to_group(groups, site, id) =~= groups.push((site, seq![id])));
    } else {
        assert(forall|k: int|
            0 <= k < groups.drop_first().len() ==> groups.drop_first()[k].0 != site);
        lemma_add_to_group_missing(groups.drop_first(), site, id);
        assert(add_to_group(groups, site, id) =~= groups.push((site, seq![id])));
    }
}

/// Whether the ordinal list already has the id, by character comparison.
fn has_id_exec(ordering: &Vec<(String, usize)>, id: &String) -> (r: bool)
    ensures
        r == has_id(ord_view(ordering@), id@),
{
    let mut i: usize = 0;
    while i < ordering.len()
        invariant
            0 <= i <= ordering@.len(),
            forall|k: int| 0 <= k < i ==> ord_keys(ord_view(ordering@))[k] != id@,
        decreases ordering@.len() - i,
    {
        if ordering[i].0.eq(id) {
            proof {
                assert(ord_keys(ord_view(ordering@))[i as int] == id@);
            }
            return true;
        }
        i += 1;
    }
    proof {
        assert(!has_id(ord_view(ordering@), id@));
    }
    false
}

/// Appends the id to its site's group, or opens a new group.
fn add_to_group_exec(question_ids: &mut Vec<(String, Vec<String>)>, site: String, id: String)
    ensures
        groups_view(final(question_ids)@) == add_to_group(
            groups_view(old(question_ids)@),
            site@,
            id@,
        ),
{
    let ghost sitev = site@;
    let ghost idv = id@;
    let ghost groups = groups_view(question_ids@);
    let mut i: usize = 0;
    while i < question_ids.len()
        invariant
            0 <= i <= question_ids@.len(),
            question_ids@ == old(question_ids)@,
            groups == groups_view(question_ids@),
            sitev == site@,
            idv == id@,
            forall|k: int| 0 <= k < i ==> groups[k].0 != site@,
        decreases question_ids@.len() - i,
    {
        if question_ids[i].0.eq(&site) {
            proof {
                assert(groups_view(question_ids@)[i as int] == (
                    question_ids@[i as int].0@,
                    strings_view(question_ids@[i as int].1@),
                ));
                assert(groups[i as int].0 == sitev);
            }
            let mut pair = question_ids.remove(i);
            pair.1.push(id);
            let ghost pr = pair;
            question_ids.insert(i, pair);
            proof {
                lemma_add_to_group_at(groups, sitev, idv, i as int);
                let target = groups.update(i as int, (sitev, groups[i as int].1.push(idv)));
                let m = groups_view(question_ids@);
                assert(pr.0 == old(question_ids)@[i as int].0);
                assert(m.len() == target.len());
                assert forall|k: int| 0 <= k < m.len() implies m[k] == target[k] by {
                    assert(groups_view(question_ids@)[k] == (
                        question_ids@[k].0@,
                        strings_view(question_ids@[k].1@),
                    ));
                    assert(groups_view(old(question_ids)@)[k] == (
                        old(question_ids)@[k].0@,
                        strings_view(old(question_ids)@[k].1@),
                    ));
                    if k == i as int {
                        assert(question_ids@[k] == pr);
                        assert(strings_view(pr.1@) =~= strings_view(
                            old(question_ids)@[i as int].1@,
                        ).push(idv));
                    } else if k < i as int {
                        assert(question_ids@[k] == old(question_ids)@[k]);
                    } else {
                        assert(question_ids@[k] == old(question_ids)@[k]);
                    }
                }
                assert(m =~= target);
            }
            return ;
        }
        proof {
            assert(groups_view(question_ids@)[i as int] == (
                question_ids@[i as int].0@,
                strings_view(question_ids@[i as int].1@),
            ));
        }
        i += 1;
    }
    let mut ids: Vec<String> = Vec::new();
    ids.push(id);
    proof {
        assert(strings_view(ids@) =~= seq![idv]);
    }
    question_ids.push((site, ids));
    proof {
        lemma_add_to_group_missing(groups, sitev, idv);
        let m = groups_view(question_ids@);
        let target = groups.push((sitev, seq![idv]));
        assert(m.len() == target.len());
        assert forall|k: int| 0 <= k < m.len() implies m[k] == target[k] by {
            assert(groups_view(question_ids@)[k] == (
                question_ids@[k].0@,
                strings_view(question_ids@[k].1@),
            ));
            if k < groups.len() {
                assert(question_ids@[k] == old(question_ids)@[k]);
                assert(groups_view(old(question_ids)@)[k] == (
                    old(question_ids)@[k].0@,
                    strings_view(old(question_ids)@[k].1@),
                ));
            }
        }
        assert(m =~= target);
    }
}

/// Folds the decoded links into `ScrapedData`, exactly as `scrape_rec`
/// says: document order, first matching site wins, one ordinal per
/// distinct id, stopping once `limit` ids are found. An anchor without an
/// `href` fails the whole parse.
pub fn scrape_links(links: &Vec<Option<String>>, sites: &SiteMap, limit: u16) -> (r: Result<
    ScrapedData,
    Error,
>)
    ensures
        match scrape_result(sites.pairs(), opt_strings_view(links@), limit as int) {
            Some(st) => r matches Ok(sd) && sd.state() == st,
            None => r matches Err(e) && e matches Error::Scraping(m) && m@
                == "Anchor with no href"@,
        },
{
    let ghost lv = opt_strings_view(links@);
    let ghost sp = sites.pairs();
    let mut question_ids: Vec<(String, Vec<String>)> = Vec::new();
    let mut ordering: Vec<(String, usize)> = Vec::new();
    let mut count: usize = 0;
    let mut k: usize = 0;
    proof {
        assert(groups_view(question_ids@) =~= Seq::<(Seq<char>, Seq<Seq<char>>)>::empty());
        assert(ord_view(ordering@) =~= Seq::<(Seq<char>, int)>::empty());
        assert(lv.skip(0) =~= lv);
    }
    while k < links.len() && count < limit as usize
        invariant
            0 <= k <= links@.len(),
            lv == opt_strings_view(links@),
            sp == sites.pairs(),
            count == ordering@.len(),
            count <= limit as usize,
            scrape_result(sp, lv, limit as int) == scrape_rec(
                sp,
                lv.skip(k as int),
                limit as int,
                ScrapeState { groups: groups_view(question_ids@), ord: ord_view(ordering@) },
            ),
        decreases links@.len() - k,
    {
        let ghost cur = ScrapeState {
            groups: groups_view(question_ids@),
            ord: ord_view(ordering@),
        };
        proof {
            assert(lv.skip(k as int).len() == lv.len() - k);
            assert(lv.skip(k as int)[0] == lv[k as int]);
            assert(lv.skip(k as int).drop_first() =~= lv.skip(k + 1));
        }
        let href = match &links[k] {
            Some(h) => h,
            None => {
                proof {
                    assert(lv[k as int] is None);
                    assert(scrape_rec(sp, lv.skip(k as int), limit as int, cur) is None);
                }
                return Err(Error::Scraping(String::from_str("Anchor with no href")));
            },
        };
        proof {
            assert(lv[k as int] == Some(href@));
        }
        let url = decode_href(href.as_str());
        let ghost next = scrape_step(cur, sp, percent_decoded_of(href@));
        match match_link_exec(sites, &url) {
            None => {
                proof {
                    assert(next == cur);
                }
            },
            Some(p) => {
                let (site, id) = p;
                let ghost idv = id@;
                if !has_id_exec(&ordering, &id) {
                    add_to_group_exec(&mut question_ids, site, id.clone());
                    let ghost prev_ord = ord_view(ordering@);
                    ordering.push((id, count));
                    count += 1;
                    proof {
                        assert(ord_view(ordering@) =~= prev_ord.push((idv, prev_ord.len() as int)));
                        assert(ScrapeState {
                            groups: groups_view(question_ids@),
                            ord: ord_view(ordering@),
                        } == next);
                    }
                } else {
                    proof {
                        assert(next == cur);
                    }
                }
            },
        }
        k += 1;
        proof {
            assert(scrape_rec(sp, lv.skip(k - 1), limit as int, cur) == scrape_rec(
                sp,
                lv.skip(k as int),
                limit as int,
                ScrapeState { groups: groups_view(question_ids@), ord: ord_view(ordering@) },
            ));
        }
    }
    proof {
        let fin = ScrapeState { groups: groups_view(question_ids@), ord: ord_view(ordering@) };
        if k == links@.len() {
            assert(lv.skip(k as int) =~= Seq::<Option<Seq<char>>>::empty());
        }
        assert(scrape_rec(sp, lv.skip(k as int), limit as int, fin) == Some(fin));
    }
    Ok(ScrapedData { question_ids, ordering })
}

/// The combined query argument: an OR of `site:` restrictions over every
/// target site, then the query with a trailing `?` stripped and its white
/// space collapsed.
pub open spec fn query_arg_s(query: Seq<char>, urls: Seq<Seq<char>>) -> Seq<char> {
    "("@ + joined(urls.map_values(|u: Seq<char>| "site:"@ + u), " OR "@) + ") "@ + joined(
        words_from(strip_suffix_char_all(query, '?'), 0),
        " "@,
    )
}

/// Builds the provider query argument from the user query and the target
/// site URLs.
pub fn make_query_arg(query: &str, sites: &Vec<String>) -> (r: String)
    ensures
        r@ == query_arg_s(query@, strings_view(sites@)),
{
    let mut parts: Vec<Vec<char>> = Vec::new();
    let mut i: usize = 0;
    proof {
        assert(vecs_view(parts@) =~= strings_view(sites@).subrange(0, 0).map_values(
            |u: Seq<char>| "site:"@ + u,
        ));
    }
    while i < sites.len()
        invariant
            0 <= i <= sites@.len(),
            vecs_view(parts@) == strings_view(sites@).subrange(0, i as int).map_values(
                |u: Seq<char>| "site:"@ + u,
            ),
        decreases sites@.len() - i,
    {
        let mut part: Vec<char> = Vec::new();
        push_str_chars(&mut part, "site:");
        push_str_chars(&mut part, sites[i].as_str());
        let ghost prev = parts@;
        parts.push(part);
        proof {
            let m = vecs_view(parts@);
            let n = strings_view(sites@).subrange(0, i + 1).map_values(
                |u: Seq<char>| "site:"@ + u,
            );
            assert(parts@ == prev.push(part));
            assert(part@ =~= "site:"@ + sites@[i as int]@);
            assert(vecs_view(prev).len() == prev.len());
            assert(m.len() == n.len());
            assert forall|k: int| 0 <= k < m.len() implies m[k] == n[k] by {
                assert(m[k] == parts@[k]@);
                assert(n[k] == "site:"@ + strings_view(sites@).subrange(0, i + 1)[k]);
                if k < i {
                    assert(parts@[k] == prev[k]);
                    assert(vecs_view(prev)[k] == prev[k]@);
                    assert(vecs_view(prev)[k] == strings_view(sites@).subrange(0, i as int)
                        .map_values(|u: Seq<char>| "site:"@ + u)[k]);
                }
            }
            assert(m =~= n);
        }
        i += 1;
    }
    proof {
        assert(strings_view(sites@).subrange(0, strings_view(sites@).len() as int) =~= strings_view(
            sites@,
        ));
    }
    let or_sep = chars_of(" OR ");
    let sites_part = join_chars(&parts, &or_sep);

    let qchars = chars_of(query);
    let qstripped = strip_suffix_char(&qchars, '?');
    let qwords = split_words(&qstripped);
    let space = chars_of(" ");
    let qpart = join_chars(&qwords, &space);

    let mut out: Vec<char> = Vec::new();
    push_str_chars(&mut out, "(");
    push_chars(&mut out, &sites_part);
    push_str_chars(&mut out, ") ");
    push_chars(&mut out, &qpart);
    proof {
        assert(out@ =~= query_arg_s(query@, strings_view(sites@)));
    }
    string_of(&out)
}

/// The DuckDuckGo search URL for a query over the given sites.
pub open spec fn ddg_url_s(query: Seq<char>, urls: Seq<Seq<char>>) -> Seq<char> {
    "https://duckduckgo.com/?q="@ + form_encoded(encode_utf8(query_arg_s(query, urls)))
        + "&kz=-1&kh=-1"@
}

/// The Google search URL for a query over the given sites.
pub open spec fn google_url_s(query: Seq<char>, urls: Seq<Seq<char>>) -> Seq<char> {
    "https://google.com/search?q="@ + form_encoded(encode_utf8(query_arg_s(query, urls)))
}

/// The engine that scrapes DuckDuckGo result pages. The provider never
/// legitimately returns zero matches, so an empty scrape is reported as a
/// blocked request rather than an empty result.
pub struct DuckDuckGo;

/// The engine that scrapes Google result pages. Zero matches passes
/// through as an ordinary empty result.
pub struct Google;

impl DuckDuckGo {
    /// Applies this provider's failure policy to a finished scrape: the
    /// provider never returns a result page without matches, so zero
    /// groups means the request was blocked, not that there are no
    /// results.
    pub fn parse_links(&self, links: &Vec<Option<String>>, sites: &SiteMap, limit: u16) -> (r:
        Result<ScrapedData, Error>)
        ensures
            match scrape_result(sites.pairs(), opt_strings_view(links@), limit as int) {
                Some(st) => {
                    if st.groups.len() == 0 {
                        r matches Err(e) && e matches Error::Scraping(m) && m@
                            == "DuckDuckGo blocked this request"@
                    } else {
                        r matches Ok(sd) && sd.state() == st
                    }
                },
                None => r matches Err(e) && e matches Error::Scraping(m) && m@
                    == "Anchor with no href"@,
            },
    {
        match scrape_links(links, sites, limit) {
            Err(e) => Err(e),
            Ok(sd) => {
                if sd.question_ids.len() == 0 {
                    Err(Error::Scraping(String::from_str("DuckDuckGo blocked this request")))
                } else {
                    Ok(sd)
                }
            },
        }
    }

    /// Parses a result page: selects this provider's anchors, folds the
    /// links, and applies the never-empty policy. The result is exactly
    /// the fold of the page's anchors: the data when it is non-empty, the
    /// blocked-request error when it is empty, the missing-href error when
    /// a matched anchor has no target.
    pub fn parse(&self, html: &str, sites: &SiteMap, limit: u16) -> (r: Result<ScrapedData, Error>)
        ensures
            match scrape_result(
                sites.pairs(),
                anchor_hrefs_of(html@, "a.result__a"@),
                limit as int,
            ) {
                Some(st) => {
                    if st.groups.len() == 0 {
                        r matches Err(e) && e matches Error::Scraping(m) && m@
                            == "DuckDuckGo blocked this request"@
                    } else {
                        r matches Ok(sd) && sd.state() == st
                    }
                },
                None => r matches Err(e) && e matches Error::Scraping(m) && m@
                    == "Anchor with no href"@,
            },
    {
        let links = select_ddg_hrefs(html);
        self.parse_links(&links, sites, limit)
    }

    /// The search URL, with the provider flags that disable redirects.
    pub fn get_url(&self, query: &str, sites: &Vec<String>) -> (r: String)
        ensures
            r@ == ddg_url_s(query@, strings_view(sites@)),
    {
        let q = make_query_arg(query, sites);
        let mut out: Vec<char> = Vec::new();
        push_str_chars(&mut out, "https://duckduckgo.com/?q=");
        push_form_encoded(&mut out, q.as_str());
        push_str_chars(&mut out, "&kz=-1&kh=-1");
        proof {
            assert(out@ =~= ddg_url_s(query@, strings_view(sites@)));
        }
        string_of(&out)
    }
}

impl Google {
    /// Parses a result page: selects this provider's anchors and folds the
    /// links. This provider has no never-empty guarantee, so the result is
    /// exactly the fold of the page's anchors, an empty fold included;
    /// only a matched anchor without a target is an error.
    pub fn parse(&self, html: &str, sites: &SiteMap, limit: u16) -> (r: Result<ScrapedData, Error>)
        ensures
            match scrape_result(
                sites.pairs(),
                anchor_hrefs_of(html@, "div.r > a"@),
                limit as int,
            ) {
                Some(st) => r matches Ok(sd) && sd.state() == st,
                None => r matches Err(e) && e matches Error::Scraping(m) && m@
                    == "Anchor with no href"@,
            },
    {
        let links = select_google_hrefs(html);
        scrape_links(&links, sites, limit)
    }

    /// The search URL.
    pub fn get_url(&self, query: &str, sites: &Vec<String>) -> (r: String)
        ensures
            r@ == google_url_s(query@, strings_view(sites@)),
    {
        let q = make_query_arg(query, sites);
        let mut out: Vec<char> = Vec::new();
        push_str_chars(&mut out, "https://google.com/search?q=");
        push_form_encoded(&mut out, q.as_str());
        proof {
            assert(out@ =~= google_url_s(query@, strings_view(sites@)));
        }
        string_of(&out)
    }
}

/// Well-formed accumulation: the recorded ordinals are exactly the
/// positions 0, 1, 2, ... in first-appearance order.
pub open spec fn wf_state(st: ScrapeState) -> bool {
    forall|k: int| 0 <= k < st.ord.len() ==> (#[trigger] st.ord[k]).1 == k
}

/// The single-site shape: at most one group, carrying exactly the
/// recorded ids in recording order.
pub open spec fn single_site_state(st: ScrapeState, site: Seq<char>) -> bool {
    if st.ord.len() == 0 {
        st.groups.len() == 0
    } else {
        st.groups.len() == 1 && st.groups[0].0 == site && st.groups[0].1 == ord_keys(st.ord)
    }
}

proof fn lemma_scrape_step_wf(st: ScrapeState, sites: Seq<(Seq<char>, Seq<char>)>, url: Seq<char>)
    requires
        wf_state(st),
        ord_keys(st.ord).no_duplicates(),
    ensures
        wf_state(scrape_step(st, sites, url)),
        ord_keys(scrape_step(st, sites, url).ord).no_duplicates(),
{
    match match_link(sites, url) {
        None => {},
        Some(p) => {
            if !has_id(st.ord, p.1) {
                let next = scrape_step(st, sites, url);
                assert(next.ord == st.ord.push((p.1, st.ord.len() as int)));
                assert(ord_keys(next.ord) =~= ord_keys(st.ord).push(p.1));
                assert(forall|k: int|
                    0 <= k < ord_keys(st.ord).len() ==> #[trigger] ord_keys(st.ord)[k] != p.1);
            }
        },
    }
}

proof fn lemma_scrape_step_single(
    st: ScrapeState,
    sites: Seq<(Seq<char>, Seq<char>)>,
    url: Seq<char>,
)
    requires
        sites.len() == 1,
        single_site_state(st, sites[0].0),
    ensures
        single_site_state(scrape_step(st, sites, url), sites[0].0),
{
    match match_link(sites, url) {
        None => {},
        Some(p) => {
            assert(match_link(sites.drop_first(), url) is None);
            assert(p.0 == sites[0].0);
            if !has_id(st.ord, p.1) {
                let next = scrape_step(st, sites, url);
                assert(ord_keys(next.ord) =~= ord_keys(st.ord).push(p.1));
                if st.ord.len() == 0 {
                    assert(st.groups.len() == 0);
                    assert(next.groups =~= seq![(p.0, seq![p.1])]);
                    assert(ord_keys(st.ord) =~= Seq::<Seq<char>>::empty());
                    assert(next.groups[0].1 =~= ord_keys(next.ord));
                } else {
                    assert(st.groups[0].0 == p.0);
                    assert(next.groups =~= seq![(st.groups[0].0, st.groups[0].1.push(p.1))]
                        + st.groups.drop_first());
                    assert(st.groups.drop_first() =~= Seq::<(Seq<char>, Seq<Seq<char>>)>::empty());
                    assert(next.groups.len() == 1);
                    assert(next.groups[0].1 =~= ord_keys(next.ord));
                }
            }
        },
    }
}

proof fn lemma_scrape_rec_wf(
    sites: Seq<(Seq<char>, Seq<char>)>,
    links: Seq<Option<Seq<char>>>,
    limit: int,
    st: ScrapeState,
)
    requires
        wf_state(st),
        ord_keys(st.ord).no_duplicates(),
    ensures
        scrape_rec(sites, links, limit, st) matches Some(f) ==> wf_state(f) && ord_keys(
            f.ord,
        ).no_duplicates(),
    decreases links.len(),
{
    if st.ord.len() >= limit || links.len() == 0 {
    } else {
        match links[0] {
            None => {},
            Some(href) => {
                lemma_scrape_step_wf(st, sites, percent_decoded_of(href));
                lemma_scrape_rec_wf(
                    sites,
                    links.drop_first(),
                    limit,
                    scrape_step(st, sites, percent_decoded_of(href)),
                );
            },
        }
    }
}

proof fn lemma_scrape_rec_single(
    sites: Seq<(Seq<char>, Seq<char>)>,
    links: Seq<Option<Seq<char>>>,
    limit: int,
    st: ScrapeState,
)
    requires
        sites.len() == 1,
        single_site_state(st, sites[0].0),
    ensures
        scrape_rec(sites, links, limit, st) matches Some(f) ==> single_site_state(f, sites[0].0),
    decreases links.len(),
{
    if st.ord.len() >= limit || links.len() == 0 {
    } else {
        match links[0] {
            None => {},
            Some(href) => {
                lemma_scrape_step_single(st, sites, percent_decoded_of(href));
                lemma_scrape_rec_single(
                    sites,
                    links.drop_first(),
                    limit,
                    scrape_step(st, sites, percent_decoded_of(href)),
                );
            },
        }
    }
}

/// Every finished discovery run is well formed: ordinals are positions in
/// first-appearance order and no id is recorded twice; under a single
/// target site, the one group lists exactly the recorded ids in order.
pub proof fn lemma_scrape_result_wf(
    sites: Seq<(Seq<char>, Seq<char>)>,
    links: Seq<Option<Seq<char>>>,
    limit: int,
)
    ensures
        scrape_result(sites, links, limit) matches Some(st) ==> wf_state(st) && ord_keys(
            st.ord,
        ).no_duplicates(),
        sites.len() == 1 ==> (scrape_result(sites, links, limit) matches Some(st)
            ==> single_site_state(st, sites[0].0)),
{
    let init = ScrapeState { groups: Seq::empty(), ord: Seq::empty() };
    assert(ord_keys(init.ord) =~= Seq::<Seq<char>>::empty());
    lemma_scrape_rec_wf(sites, links, limit, init);
    if sites.len() == 1 {
        lemma_scrape_rec_single(sites, links, limit, init);
    }
}

/// A fold only appends to the ordinal list: what was recorded stays, in
/// place.
proof fn lemma_scrape_rec_extends(
    sites: Seq<(Seq<char>, Seq<char>)>,
    links: Seq<Option<Seq<char>>>,
    limit: int,
    st: ScrapeState,
)
    ensures
        scrape_rec(sites, links, limit, st) matches Some(f) ==> st.ord.len() <= f.ord.len()
            && f.ord.take(st.ord.len() as int) == st.ord,
    decreases links.len(),
{
    if st.ord.len() >= limit || links.len() == 0 {
        assert(st.ord.take(st.ord.len() as int) =~= st.ord);
    } else {
        match links[0] {
            None => {},
            Some(href) => {
                let st2 = scrape_step(st, sites, percent_decoded_of(href));
                match match_link(sites, percent_decoded_of(href)) {
                    None => {
                        assert(st2 == st);
                    },
                    Some(p) => {
                        if has_id(st.ord, p.1) {
                            assert(st2 == st);
                        } else {
                            assert(st2.ord == st.ord.push((p.1, st.ord.len() as int)));
                        }
                    },
                }
                assert(st2.ord.take(st.ord.len() as int) =~= st.ord);
                lemma_scrape_rec_extends(sites, links.drop_first(), limit, st2);
                let r = scrape_rec(sites, links, limit, st);
                if r is Some {
                    let f = r->Some_0;
                    assert(f.ord.take(st2.ord.len() as int) == st2.ord);
                    assert(f.ord.take(st.ord.len() as int) =~= st2.ord.take(
                        st.ord.len() as int,
                    ));
                }
            },
        }
    }
}

/// A fold that starts within the limit stays within it.
proof fn lemma_scrape_rec_bound(
    sites: Seq<(Seq<char>, Seq<char>)>,
    links: Seq<Option<Seq<char>>>,
    limit: int,
    st: ScrapeState,
)
    requires
        st.ord.len() <= limit,
    ensures
        scrape_rec(sites, links, limit, st) matches Some(f) ==> f.ord.len() <= limit,
    decreases links.len(),
{
    if st.ord.len() >= limit || links.len() == 0 {
    } else {
        match links[0] {
            None => {},
            Some(href) => {
                let st2 = scrape_step(st, sites, percent_decoded_of(href));
                assert(st2.ord.len() <= st.ord.len() + 1);
                lemma_scrape_rec_bound(sites, links.drop_first(), limit, st2);
            },
        }
    }
}

/// Two runs over the same links with nested limits agree until the lower
/// limit cuts the shorter one off.
proof fn lemma_scrape_rec_two_limits(
    sites: Seq<(Seq<char>, Seq<char>)>,
    links: Seq<Option<Seq<char>>>,
    l1: int,
    l2: int,
    st: ScrapeState,
)
    requires
        l1 <= l2,
    ensures
        scrape_rec(sites, links, l2, st) matches Some(f2) ==> (scrape_rec(sites, links, l1, st)
            matches Some(f1) && f1.ord.len() <= f2.ord.len() && f2.ord.take(
            f1.ord.len() as int,
        ) == f1.ord && (f1.ord.len() == f2.ord.len() || f1.ord.len() >= l1)),
    decreases links.len(),
{
    if st.ord.len() >= l1 {
        assert(scrape_rec(sites, links, l1, st) == Some(st));
        lemma_scrape_rec_extends(sites, links, l2, st);
    } else if links.len() == 0 {
        assert(st.ord.take(st.ord.len() as int) =~= st.ord);
    } else {
        match links[0] {
            None => {},
            Some(href) => {
                let st2 = scrape_step(st, sites, percent_decoded_of(href));
                lemma_scrape_rec_two_limits(sites, links.drop_first(), l1, l2, st2);
            },
        }
    }
}

/// The count a discovery run returns: a limited run collects exactly the
/// first `limit` of the ids an unrestricted run over the same page finds —
/// all N matches, or the limit, whichever is smaller.
pub proof fn lemma_scrape_limit_prefix(
    sites: Seq<(Seq<char>, Seq<char>)>,
    links: Seq<Option<Seq<char>>>,
    limit: int,
    full_limit: int,
)
    requires
        0 <= limit <= full_limit,
    ensures
        scrape_result(sites, links, full_limit) matches Some(full) ==> (scrape_result(
            sites,
            links,
            limit,
        ) matches Some(st) && st.ord.len() == (if full.ord.len() <= limit {
            full.ord.len() as int
        } else {
            limit
        }) && st.ord == full.ord.take(st.ord.len() as int)),
{
    let init = ScrapeState { groups: Seq::empty(), ord: Seq::empty() };
    lemma_scrape_rec_two_limits(sites, links, limit, full_limit, init);
    lemma_scrape_rec_bound(sites, links, limit, init);
}

} // verus!
