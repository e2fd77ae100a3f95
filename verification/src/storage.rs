//! The site directory and its uses: the request-scoped `SiteMap` shared by
//! the concurrent fetches of one query, validation of requested site codes
//! against the cached directory, permalink construction, and the cache
//! file's serialization format.
//!
//! Reading and writing the cache file itself is the caller's business; this
//! module turns directory values into file text and back, and says exactly
//! when a file counts as malformed.

use vstd::prelude::*;

verus! {

use vstd::string::StringExecFns;

use crate::api::{Question, Site};
use crate::error::Error;
use crate::text::{
    chars_of,
    dec_rep,
    is_match_at,
    join_chars,
    joined,
    joined_tail,
    match_at,
    pairs_view,
    push_chars,
    push_dec,
    push_str_chars,
    string_of,
    strings_view,
    vecs_view,
};

/// The first value bound to `k`, scanning pairs in order.
pub open spec fn lookup_pair(ps: Seq<(Seq<char>, Seq<char>)>, k: Seq<char>) -> Option<Seq<char>>
    decreases ps.len(),
{
    if ps.len() == 0 {
        None
    } else if ps[0].0 == k {
        Some(ps[0].1)
    } else {
        lookup_pair(ps.drop_first(), k)
    }
}

/// Whether some element of `cs` is the string `c`.
pub open spec fn contains_str(cs: Seq<Seq<char>>, c: Seq<char>) -> bool {
    exists|i: int| 0 <= i < cs.len() && cs[i] == c
}

/// The codes of a site directory, in order.
pub open spec fn site_codes_view(sites: Seq<Site>) -> Seq<Seq<char>> {
    sites.map_values(|s: Site| s.api_site_parameter@)
}

/// The (code, display URL) pairs of a site directory, in order.
pub open spec fn sites_pairs(sites: Seq<Site>) -> Seq<(Seq<char>, Seq<char>)> {
    sites.map_values(|s: Site| (s.api_site_parameter@, s.site_url@))
}

/// The directory restricted to the requested codes, keeping directory order.
pub open spec fn restricted(
    sites: Seq<(Seq<char>, Seq<char>)>,
    codes: Seq<Seq<char>>,
) -> Seq<(Seq<char>, Seq<char>)>
    decreases sites.len(),
{
    if sites.len() == 0 {
        Seq::empty()
    } else {
        let rest = restricted(sites.drop_first(), codes);
        if contains_str(codes, sites[0].0) {
            seq![sites[0]] + rest
        } else {
            rest
        }
    }
}

/// The position of the first requested code missing from the directory.
pub open spec fn first_invalid(dir: Seq<Seq<char>>, codes: Seq<Seq<char>>) -> Option<int>
    decreases codes.len(),
{
    if codes.len() == 0 {
        None
    } else if !contains_str(dir, codes[0]) {
        Some(0)
    } else {
        match first_invalid(dir, codes.drop_first()) {
            None => None,
            Some(i) => Some(i + 1),
        }
    }
}

/// Whether `c` occurs among the given strings, by character comparison.
fn contains_code(codes: &Vec<String>, c: &String) -> (r: bool)
    ensures
        r == contains_str(strings_view(codes@), c@),
{
    let mut i: usize = 0;
    while i < codes.len()
        invariant
            0 <= i <= codes@.len(),
            forall|k: int| 0 <= k < i ==> strings_view(codes@)[k] != c@,
        decreases codes@.len() - i,
    {
        if codes[i].eq(c) {
            proof {
                assert(strings_view(codes@)[i as int] == c@);
            }
            return true;
        }
        i += 1;
    }
    proof {
        assert(!contains_str(strings_view(codes@), c@));
    }
    false
}

/// Whether the directory has a site with the given code.
fn sites_contain(sites: &Vec<Site>, c: &String) -> (r: bool)
    ensures
        r == contains_str(site_codes_view(sites@), c@),
{
    let mut j: usize = 0;
    while j < sites.len()
        invariant
            0 <= j <= sites@.len(),
            forall|k: int| 0 <= k < j ==> site_codes_view(sites@)[k] != c@,
        decreases sites@.len() - j,
    {
        if sites[j].api_site_parameter.eq(c) {
            proof {
                assert(site_codes_view(sites@)[j as int] == c@);
            }
            return true;
        }
        j += 1;
    }
    proof {
        assert(!contains_str(site_codes_view(sites@), c@));
    }
    false
}

/// The map from site code to display URL for exactly the sites one query
/// targets, derived once and then shared read-only by every concurrent
/// fetch of that query.
#[derive(Clone, Debug)]
pub struct SiteMap {
    pub inner: Vec<(String, String)>,
}

impl SiteMap {
    /// The (code, URL) pairs as sequences of characters.
    pub open spec fn pairs(&self) -> Seq<(Seq<char>, Seq<char>)> {
        pairs_view(self.inner@)
    }

    /// The display URL recorded for a site code.
    pub fn get_url(&self, code: &String) -> (r: Option<String>)
        ensures
            match r {
                Some(u) => lookup_pair(self.pairs(), code@) == Some(u@),
                None => lookup_pair(self.pairs(), code@) is None,
            },
    {
        let mut i: usize = 0;
        proof {
            assert(self.pairs().skip(0) =~= self.pairs());
        }
        while i < self.inner.len()
            invariant
                0 <= i <= self.inner@.len(),
                lookup_pair(self.pairs(), code@) == lookup_pair(
                    self.pairs().skip(i as int),
                    code@,
                ),
            decreases self.inner@.len() - i,
        {
            proof {
                assert(self.pairs().skip(i as int).len() == self.pairs().len() - i);
                assert(self.pairs().skip(i as int)[0] == self.pairs()[i as int]);
                assert(self.pairs().skip(i as int).drop_first() =~= self.pairs().skip(i + 1));
            }
            if self.inner[i].0.eq(code) {
                return Some(self.inner[i].1.clone());
            }
            i += 1;
        }
        proof {
            assert(self.pairs().skip(i as int) =~= Seq::<(Seq<char>, Seq<char>)>::empty());
        }
        None
    }

    /// The display URLs, in map order, for building a discovery query.
    pub fn urls(&self) -> (r: Vec<String>)
        ensures
            strings_view(r@) == self.pairs().map_values(|p: (Seq<char>, Seq<char>)| p.1),
    {
        let mut r: Vec<String> = Vec::new();
        let mut i: usize = 0;
        proof {
            assert(strings_view(r@) =~= self.pairs().subrange(0, 0).map_values(
                |p: (Seq<char>, Seq<char>)| p.1,
            ));
        }
        while i < self.inner.len()
            invariant
                0 <= i <= self.inner@.len(),
                strings_view(r@) == self.pairs().subrange(0, i as int).map_values(
                    |p: (Seq<char>, Seq<char>)| p.1,
                ),
            decreases self.inner@.len() - i,
        {
            let ghost prev = r@;
            r.push(self.inner[i].1.clone());
            proof {
                let m = strings_view(r@);
                let n = self.pairs().subrange(0, i + 1).map_values(
                    |p: (Seq<char>, Seq<char>)| p.1,
                );
                assert(r@ == prev.push(self.inner@[i as int].1));
                assert(strings_view(prev).len() == prev.len());
                assert(m.len() == n.len());
                assert forall|k: int| 0 <= k < m.len() implies m[k] == n[k] by {
                    assert(m[k] == r@[k]@);
                    assert(n[k] == self.pairs().subrange(0, i + 1)[k].1);
                    if k < i {
                        assert(r@[k] == prev[k]);
                        assert(strings_view(prev)[k] == prev[k]@);
                        assert(strings_view(prev)[k] == self.pairs().subrange(0, i as int)
                            .map_values(|p: (Seq<char>, Seq<char>)| p.1)[k]);
                    }
                }
                assert(m =~= n);
            }
            i += 1;
        }
        proof {
            assert(self.pairs().subrange(0, self.pairs().len() as int) =~= self.pairs());
        }
        r
    }

    /// The permalink of an answer. The question must carry its site tag and
    /// the site must be in this map.
    pub fn answer_url<S>(&self, question: &Question<S>, answer_id: u32) -> (r: String)
        requires
            question.site matches Some(c) && lookup_pair(self.pairs(), c@) is Some,
        ensures
            r@ == "https://"@ + lookup_pair(
                self.pairs(),
                question.site->Some_0@,
            )->Some_0 + "/a/"@ + dec_rep(answer_id as int),
    {
        let url = self.site_url(question);
        let mut out: Vec<char> = Vec::new();
        push_str_chars(&mut out, "https://");
        push_str_chars(&mut out, url.as_str());
        push_str_chars(&mut out, "/a/");
        push_dec(&mut out, answer_id as u64);
        proof {
            assert(out@ =~= "https://"@ + url@ + "/a/"@ + dec_rep(answer_id as int));
        }
        string_of(&out)
    }

    /// The permalink of a question, under the same conditions.
    pub fn question_url<S>(&self, question: &Question<S>) -> (r: String)
        requires
            question.site matches Some(c) && lookup_pair(self.pairs(), c@) is Some,
        ensures
            r@ == "https://"@ + lookup_pair(
                self.pairs(),
                question.site->Some_0@,
            )->Some_0 + "/q/"@ + dec_rep(question.id as int),
    {
        let url = self.site_url(question);
        let mut out: Vec<char> = Vec::new();
        push_str_chars(&mut out, "https://");
        push_str_chars(&mut out, url.as_str());
        push_str_chars(&mut out, "/q/");
        push_dec(&mut out, question.id as u64);
        proof {
            assert(out@ =~= "https://"@ + url@ + "/q/"@ + dec_rep(question.id as int));
        }
        string_of(&out)
    }

    /// The display URL of the site a question is tagged with.
    fn site_url<S>(&self, question: &Question<S>) -> (r: String)
        requires
            question.site matches Some(c) && lookup_pair(self.pairs(), c@) is Some,
        ensures
            Some(r@) == lookup_pair(self.pairs(), question.site->Some_0@),
    {
        let code = match &question.site {
            Some(c) => c,
            None => unreached(),
        };
        match self.get_url(code) {
            Some(u) => u,
            None => unreached(),
        }
    }
}

/// The locally cached site directory.
#[derive(Clone, Debug)]
pub struct LocalStorage {
    pub sites: Vec<Site>,
}

impl LocalStorage {
    /// Wraps a freshly fetched directory. An empty directory is its own
    /// error kind: it is not "no results" and not a missing file.
    pub fn from_sites(sites: Vec<Site>) -> (r: Result<LocalStorage, Error>)
        ensures
            match r {
                Ok(ls) => ls.sites == sites && sites@.len() > 0,
                Err(e) => e == Error::EmptySites && sites@.len() == 0,
            },
    {
        if sites.len() == 0 {
            Err(Error::EmptySites)
        } else {
            Ok(LocalStorage { sites })
        }
    }

    /// The first requested code that is not in the directory, if any.
    pub fn find_invalid_site(&self, site_codes: &Vec<String>) -> (r: Option<String>)
        ensures
            match r {
                Some(c) => {
                    &&& first_invalid(site_codes_view(self.sites@), strings_view(site_codes@))
                        matches Some(i)
                    &&& 0 <= i < site_codes@.len()
                    &&& c@ == strings_view(site_codes@)[first_invalid(
                        site_codes_view(self.sites@),
                        strings_view(site_codes@),
                    )->Some_0]
                },
                None => first_invalid(site_codes_view(self.sites@), strings_view(site_codes@))
                    is None,
            },
    {
        let ghost dir = site_codes_view(self.sites@);
        let ghost codes = strings_view(site_codes@);
        let mut i: usize = 0;
        proof {
            assert(codes.skip(0) =~= codes);
        }
        while i < site_codes.len()
            invariant
                0 <= i <= site_codes@.len(),
                dir == site_codes_view(self.sites@),
                codes == strings_view(site_codes@),
                forall|k: int| 0 <= k < i ==> contains_str(dir, codes[k]),
                first_invalid(dir, codes.skip(i as int)) matches Some(m) ==> first_invalid(
                    dir,
                    codes,
                ) == Some(m + i),
                first_invalid(dir, codes.skip(i as int)) is None ==> first_invalid(dir, codes)
                    is None,
            decreases site_codes@.len() - i,
        {
            let code = &site_codes[i];
            let found = sites_contain(&self.sites, code);
            proof {
                assert(codes.skip(i as int)[0] == codes[i as int]);
                assert(codes.skip(i as int).drop_first() =~= codes.skip(i + 1));
            }
            if !found {
                proof {
                    assert(!contains_str(dir, code@));
                    assert(first_invalid(dir, codes.skip(i as int)) == Some(0int));
                    assert(first_invalid(dir, codes) == Some(i as int));
                }
                return Some(code.clone());
            }
            proof {
                assert(contains_str(dir, codes[i as int]));
            }
            i += 1;
        }
        proof {
            assert(codes.skip(i as int) =~= Seq::<Seq<char>>::empty());
        }
        None
    }

    /// Derives the request-scoped site map: the directory restricted to the
    /// requested codes, in directory order.
    pub fn get_site_map(&self, site_codes: &Vec<String>) -> (r: SiteMap)
        ensures
            r.pairs() == restricted(sites_pairs(self.sites@), strings_view(site_codes@)),
    {
        let ghost all = sites_pairs(self.sites@);
        let ghost codes = strings_view(site_codes@);
        let mut inner: Vec<(String, String)> = Vec::new();
        let mut i: usize = 0;
        proof {
            assert(all.skip(0) =~= all);
            assert(restricted(all, codes) =~= pairs_view(inner@) + restricted(all.skip(0), codes));
        }
        while i < self.sites.len()
            invariant
                0 <= i <= self.sites@.len(),
                all == sites_pairs(self.sites@),
                codes == strings_view(site_codes@),
                restricted(all, codes) == pairs_view(inner@) + restricted(
                    all.skip(i as int),
                    codes,
                ),
            decreases self.sites@.len() - i,
        {
            let ghost tail = all.skip(i as int);
            proof {
                assert(tail.len() == all.len() - i);
                assert(tail[0] == all[i as int]);
                assert(tail.drop_first() =~= all.skip(i + 1));
            }
            let site = &self.sites[i];
            let ghost prev = inner@;
            if contains_code(site_codes, &site.api_site_parameter) {
                inner.push((site.api_site_parameter.clone(), site.site_url.clone()));
                proof {
                    assert(pairs_view(inner@) =~= pairs_view(prev).push(
                        (site.api_site_parameter@, site.site_url@),
                    ));
                    assert(pairs_view(prev) + restricted(tail, codes) =~= pairs_view(inner@)
                        + restricted(all.skip(i + 1), codes));
                }
            } else {
                proof {
                    assert(restricted(tail, codes) == restricted(all.skip(i + 1), codes));
                }
            }
            i += 1;
        }
        proof {
            assert(all.skip(i as int) =~= Seq::<(Seq<char>, Seq<char>)>::empty());
            assert(restricted(all.skip(i as int), codes) =~= Seq::<(Seq<char>, Seq<char>)>::empty());
            assert(pairs_view(inner@) =~= pairs_view(inner@) + restricted(all.skip(i as int), codes));
        }
        SiteMap { inner }
    }
}

/// One character of a cache-file string: quote and backslash are escaped
/// with a backslash, everything else stands for itself.
pub open spec fn esc_char(c: char) -> Seq<char> {
    if c == '"' || c == '\\' {
        seq!['\\', c]
    } else {
        seq![c]
    }
}

/// A string's characters under the cache-file escaping.
pub open spec fn esc(s: Seq<char>) -> Seq<char>
    decreases s.len(),
{
    if s.len() == 0 {
        Seq::empty()
    } else {
        esc_char(s[0]) + esc(s.drop_first())
    }
}

pub proof fn lemma_esc_snoc(s: Seq<char>, c: char)
    ensures
        esc(s.push(c)) == esc(s) + esc_char(c),
    decreases s.len(),
{
    if s.len() == 0 {
        assert(s.push(c).drop_first() =~= Seq::<char>::empty());
        assert(esc(s.push(c)) == esc_char(c) + esc(Seq::<char>::empty()));
        assert(esc(s.push(c)) =~= esc(s) + esc_char(c));
    } else {
        let t = s.drop_first();
        assert(s.push(c).drop_first() =~= t.push(c));
        assert(esc(s.push(c)) == esc_char(s[0]) + esc(t.push(c)));
        lemma_esc_snoc(t, c);
        assert(esc(s) == esc_char(s[0]) + esc(t));
        assert(esc(s.push(c)) =~= esc(s) + esc_char(c));
    }
}

/// One directory entry in the cache file.
pub open spec fn site_json(code: Seq<char>, url: Seq<char>) -> Seq<char> {
    "{\"api_site_parameter\":\""@ + esc(code) + "\",\"site_url\":\""@ + esc(url) + "\"}"@
}

/// The whole cache file: the directory as an array of entries.
pub open spec fn sites_json(sites: Seq<(Seq<char>, Seq<char>)>) -> Seq<char> {
    "["@ + joined(
        sites.map_values(|p: (Seq<char>, Seq<char>)| site_json(p.0, p.1)),
        ","@,
    ) + "]"@
}

/// Appends the escaped characters of `s`.
fn push_escaped(out: &mut Vec<char>, s: &str)
    ensures
        final(out)@ == old(out)@ + esc(s@),
{
    let v = chars_of(s);
    let mut i: usize = 0;
    proof {
        assert(v@.subrange(0, 0) =~= Seq::<char>::empty());
        assert(old(out)@ + esc(v@.subrange(0, 0)) =~= old(out)@);
    }
    while i < v.len()
        invariant
            0 <= i <= v@.len(),
            v@ == s@,
            out@ == old(out)@ + esc(v@.subrange(0, i as int)),
        decreases v@.len() - i,
    {
        let c = v[i];
        if c == '"' || c == '\\' {
            out.push('\\');
            out.push(c);
        } else {
            out.push(c);
        }
        proof {
            lemma_esc_snoc(v@.subrange(0, i as int), v@[i as int]);
            assert(v@.subrange(0, i + 1 as int) =~= v@.subrange(0, i as int).push(v@[i as int]));
            assert(out@ =~= old(out)@ + esc(v@.subrange(0, i + 1 as int)));
        }
        i += 1;
    }
    proof {
        assert(v@.subrange(0, v@.len() as int) =~= v@);
    }
}

/// Writes the directory in the cache-file format.
pub fn serialize_sites(sites: &Vec<Site>) -> (r: String)
    ensures
        r@ == sites_json(sites_pairs(sites@)),
{
    let ghost all = sites_pairs(sites@);
    let mut items: Vec<Vec<char>> = Vec::new();
    let mut i: usize = 0;
    proof {
        assert(vecs_view(items@) =~= all.subrange(0, 0).map_values(
            |p: (Seq<char>, Seq<char>)| site_json(p.0, p.1),
        ));
    }
    while i < sites.len()
        invariant
            0 <= i <= sites@.len(),
            all == sites_pairs(sites@),
            vecs_view(items@) == all.subrange(0, i as int).map_values(
                |p: (Seq<char>, Seq<char>)| site_json(p.0, p.1),
            ),
        decreases sites@.len() - i,
    {
        let site = &sites[i];
        let mut item: Vec<char> = Vec::new();
        push_str_chars(&mut item, "{\"api_site_parameter\":\"");
        push_escaped(&mut item, site.api_site_parameter.as_str());
        push_str_chars(&mut item, "\",\"site_url\":\"");
        push_escaped(&mut item, site.site_url.as_str());
        push_str_chars(&mut item, "\"}");
        let ghost prev = items@;
        items.push(item);
        proof {
            let m = vecs_view(items@);
            let n = all.subrange(0, i + 1).map_values(
                |p: (Seq<char>, Seq<char>)| site_json(p.0, p.1),
            );
            assert(all[i as int] == (sites@[i as int].api_site_parameter@,
                sites@[i as int].site_url@));
            assert(item@ =~= site_json(all[i as int].0, all[i as int].1));
            assert(items@ == prev.push(item));
            assert(vecs_view(prev).len() == prev.len());
            assert(m.len() == n.len());
            assert forall|k: int| 0 <= k < m.len() implies m[k] == n[k] by {
                assert(m[k] == items@[k]@);
                assert(n[k] == site_json(all.subrange(0, i + 1)[k].0, all.subrange(0, i + 1)[k].1));
                if k < i {
                    assert(items@[k] == prev[k]);
                    assert(vecs_view(prev)[k] == prev[k]@);
                    assert(vecs_view(prev)[k] == all.subrange(0, i as int).map_values(
                        |p: (Seq<char>, Seq<char>)| site_json(p.0, p.1),
                    )[k]);
                }
            }
            assert(m =~= n);
        }
        i += 1;
    }
    proof {
        assert(all.subrange(0, all.len() as int) =~= all);
    }
    let comma = chars_of(",");
    let body = join_chars(&items, &comma);
    let mut out: Vec<char> = Vec::new();
    push_str_chars(&mut out, "[");
    push_chars(&mut out, &body);
    push_str_chars(&mut out, "]");
    proof {
        assert(out@ =~= sites_json(all));
    }
    string_of(&out)
}

/// A string body read from position `i` (just inside the opening quote):
/// its unescaped characters and the position after the closing quote.
pub open spec fn str_body_at(s: Seq<char>, i: int) -> Option<(Seq<char>, int)>
    decreases s.len() - i,
{
    if i < 0 || i >= s.len() {
        None
    } else if s[i] == '"' {
        Some((Seq::empty(), i + 1))
    } else if s[i] == '\\' {
        if i + 1 < s.len() && (s[i + 1] == '"' || s[i + 1] == '\\') {
            match str_body_at(s, i + 2) {
                None => None,
                Some(p) => Some((seq![s[i + 1]] + p.0, p.1)),
            }
        } else {
            None
        }
    } else {
        match str_body_at(s, i + 1) {
            None => None,
            Some(p) => Some((seq![s[i]] + p.0, p.1)),
        }
    }
}

pub proof fn lemma_str_body_bounds(s: Seq<char>, i: int)
    ensures
        str_body_at(s, i) matches Some(p) ==> i < p.1 <= s.len(),
    decreases s.len() - i,
{
    if 0 <= i < s.len() {
        if s[i] == '"' {
        } else if s[i] == '\\' {
            if i + 1 < s.len() && (s[i + 1] == '"' || s[i + 1] == '\\') {
                lemma_str_body_bounds(s, i + 2);
            }
        } else {
            lemma_str_body_bounds(s, i + 1);
        }
    }
}

/// The position after an expected literal, when it is there.
pub open spec fn lit_at(s: Seq<char>, i: int, lit: Seq<char>) -> Option<int> {
    if is_match_at(s, lit, i) {
        Some(i + lit.len() as int)
    } else {
        None
    }
}

/// One directory entry read from position `i`: the code and URL it holds
/// and the position after its closing brace.
pub open spec fn site_at(s: Seq<char>, i: int) -> Option<((Seq<char>, Seq<char>), int)> {
    match lit_at(s, i, "{\"api_site_parameter\":\""@) {
        None => None,
        Some(n1) => match str_body_at(s, n1) {
            None => None,
            Some(code) => match lit_at(s, code.1, ",\"site_url\":\""@) {
                None => None,
                Some(n2) => match str_body_at(s, n2) {
                    None => None,
                    Some(url) => match lit_at(s, url.1, "}"@) {
                        None => None,
                        Some(n3) => Some(((code.0, url.0), n3)),
                    },
                },
            },
        },
    }
}

pub proof fn lemma_site_at_bounds(s: Seq<char>, i: int)
    requires
        0 <= i,
    ensures
        site_at(s, i) matches Some(p) ==> i < p.1 <= s.len(),
{
    if site_at(s, i) matches Some(p) {
        let n1 = i + "{\"api_site_parameter\":\""@.len() as int;
        lemma_str_body_bounds(s, n1);
        let code = str_body_at(s, n1)->Some_0;
        let n2 = code.1 + ",\"site_url\":\""@.len() as int;
        lemma_str_body_bounds(s, n2);
    }
}

/// One or more comma-separated entries read from position `i`.
pub open spec fn items_at(s: Seq<char>, i: int) -> Option<(Seq<(Seq<char>, Seq<char>)>, int)>
    decreases s.len() - i,
    via items_at_dec
{
    if i < 0 {
        None
    } else {
        match site_at(s, i) {
            None => None,
            Some(p) => {
                if p.1 < s.len() && s[p.1] == ',' {
                    match items_at(s, p.1 + 1) {
                        None => None,
                        Some(q) => Some((seq![p.0] + q.0, q.1)),
                    }
                } else {
                    Some((seq![p.0], p.1))
                }
            },
        }
    }
}

#[via_fn]
proof fn items_at_dec(s: Seq<char>, i: int) {
    if i >= 0 {
        lemma_site_at_bounds(s, i);
    }
}

/// The whole cache file: an array of entries, or nothing else at all.
pub open spec fn spec_parse_sites(s: Seq<char>) -> Option<Seq<(Seq<char>, Seq<char>)>> {
    if s.len() == 2 && s[0] == '[' && s[1] == ']' {
        Some(Seq::empty())
    } else if s.len() >= 2 && s[0] == '[' {
        match items_at(s, 1) {
            None => None,
            Some(p) => {
                if p.1 == s.len() - 1 && s[p.1] == ']' {
                    Some(p.0)
                } else {
                    None
                }
            },
        }
    } else {
        None
    }
}

/// Reads one string body, unescaping as `str_body_at` says.
fn parse_str_body(v: &Vec<char>, i: usize) -> (r: Option<(String, usize)>)
    requires
        i <= v@.len(),
    ensures
        match r {
            Some(p) => str_body_at(v@, i as int) == Some((p.0@, p.1 as int)),
            None => str_body_at(v@, i as int) is None,
        },
    decreases v@.len() - i,
{
    if i >= v.len() {
        return None;
    }
    let c = v[i];
    if c == '"' {
        return Some((String::new(), i + 1));
    }
    if c == '\\' {
        if i + 1 < v.len() && (v[i + 1] == '"' || v[i + 1] == '\\') {
            match parse_str_body(v, i + 2) {
                None => None,
                Some(p) => {
                    let mut head = String::new();
                    head.push(v[i + 1]);
                    let whole = head.concat(p.0.as_str());
                    proof {
                        assert(whole@ =~= seq![v@[i + 1]] + p.0@);
                    }
                    Some((whole, p.1))
                },
            }
        } else {
            None
        }
    } else {
        match parse_str_body(v, i + 1) {
            None => None,
            Some(p) => {
                let mut head = String::new();
                head.push(c);
                let whole = head.concat(p.0.as_str());
                proof {
                    assert(whole@ =~= seq![v@[i as int]] + p.0@);
                }
                Some((whole, p.1))
            },
        }
    }
}

/// Reads one directory entry.
fn parse_site_at(v: &Vec<char>, i: usize) -> (r: Option<((String, String), usize)>)
    ensures
        match r {
            Some(p) => site_at(v@, i as int) == Some(((p.0.0@, p.0.1@), p.1 as int)),
            None => site_at(v@, i as int) is None,
        },
{
    let nv = v.len();
    proof {
        assert(v@.len() == nv);
    }
    let lit1 = chars_of("{\"api_site_parameter\":\"");
    let lit2 = chars_of(",\"site_url\":\"");
    let lit3 = chars_of("}");
    if !match_at(v, &lit1, i) {
        return None;
    }
    let n1 = i + lit1.len();
    proof {
        lemma_str_body_bounds(v@, n1 as int);
    }
    let code = match parse_str_body(v, n1) {
        None => {
            return None;
        },
        Some(p) => p,
    };
    if !match_at(v, &lit2, code.1) {
        return None;
    }
    let n2 = code.1 + lit2.len();
    proof {
        lemma_str_body_bounds(v@, n2 as int);
    }
    let url = match parse_str_body(v, n2) {
        None => {
            return None;
        },
        Some(p) => p,
    };
    if !match_at(v, &lit3, url.1) {
        return None;
    }
    let n3 = url.1 + lit3.len();
    Some(((code.0, url.0), n3))
}

/// Reads the comma-separated entries.
fn parse_items_at(v: &Vec<char>, i: usize) -> (r: Option<(Vec<(String, String)>, usize)>)
    ensures
        match r {
            Some(p) => items_at(v@, i as int) == Some((pairs_view(p.0@), p.1 as int)),
            None => items_at(v@, i as int) is None,
        },
    decreases v@.len() - i,
{
    let pair = match parse_site_at(v, i) {
        None => {
            return None;
        },
        Some(p) => p,
    };
    let n = pair.1;
    proof {
        lemma_site_at_bounds(v@, i as int);
    }
    if n < v.len() && v[n] == ',' {
        match parse_items_at(v, n + 1) {
            None => None,
            Some(q) => {
                let mut ps = q.0;
                let ghost tail = pairs_view(ps@);
                ps.insert(0, pair.0);
                proof {
                    assert(pairs_view(ps@) =~= seq![(pair.0.0@, pair.0.1@)] + tail);
                }
                Some((ps, q.1))
            },
        }
    } else {
        let mut ps: Vec<(String, String)> = Vec::new();
        ps.push(pair.0);
        proof {
            assert(pairs_view(ps@) =~= seq![(pair.0.0@, pair.0.1@)]);
        }
        Some((ps, n))
    }
}

/// Reads a whole cache file back into a directory, or nothing if the text
/// is not exactly a well-formed directory file.
pub fn parse_sites(text: &str) -> (r: Option<Vec<Site>>)
    ensures
        match r {
            Some(sites) => spec_parse_sites(text@) == Some(sites_pairs(sites@)),
            None => spec_parse_sites(text@) is None,
        },
{
    let v = chars_of(text);
    if v.len() == 2 && v[0] == '[' && v[1] == ']' {
        let sites: Vec<Site> = Vec::new();
        proof {
            assert(sites_pairs(sites@) =~= Seq::<(Seq<char>, Seq<char>)>::empty());
        }
        return Some(sites);
    }
    if v.len() < 2 || v[0] != '[' {
        return None;
    }
    let parsed = match parse_items_at(&v, 1) {
        None => {
            return None;
        },
        Some(p) => p,
    };
    if !(parsed.1 == v.len() - 1) {
        return None;
    }
    if v[parsed.1] != ']' {
        return None;
    }
    let mut sites: Vec<Site> = Vec::new();
    let mut rest = parsed.0;
    let ghost ps = pairs_view(parsed.0@);
    proof {
        assert(rest@ =~= parsed.0@.subrange(0, parsed.0@.len() as int));
    }
    while rest.len() > 0
        invariant
            rest@.len() <= ps.len(),
            ps == pairs_view(parsed.0@),
            ps.len() == parsed.0@.len(),
            sites@.len() == ps.len() - rest@.len(),
            rest@ == parsed.0@.subrange(
                parsed.0@.len() - rest@.len(),
                parsed.0@.len() as int,
            ),
            forall|k: int|
                0 <= k < sites@.len() ==> sites_pairs(sites@)[k] == ps[k],
        decreases rest@.len(),
    {
        let ghost k = ps.len() - rest@.len();
        let p = rest.remove(0);
        proof {
            assert(p == parsed.0@[k as int]);
            assert(rest@ =~= parsed.0@.subrange(k + 1, parsed.0@.len() as int));
            assert(ps[k as int] == (parsed.0@[k as int].0@, parsed.0@[k as int].1@));
        }
        sites.push(Site { api_site_parameter: p.0, site_url: p.1 });
        proof {
            assert(sites_pairs(sites@)[k as int] == (
                sites@[k as int].api_site_parameter@,
                sites@[k as int].site_url@,
            ));
        }
    }
    proof {
        assert(sites_pairs(sites@) =~= ps);
    }
    Some(sites)
}

impl LocalStorage {
    /// Opens the directory from the cache file's text, when one was there:
    /// no file means a refresh is needed, a file that does not parse is
    /// malformed (the user should remove it), and a parsed but empty
    /// directory is its own error kind.
    pub fn load_cached(contents: Option<&str>, path: &str) -> (r: Result<
        Option<LocalStorage>,
        Error,
    >)
        ensures
            contents is None ==> r == Ok::<Option<LocalStorage>, Error>(None),
            contents matches Some(text) ==> match spec_parse_sites(text@) {
                None => r matches Err(e) && e matches Error::MalformedFile(p) && p@ == path@,
                Some(ps) => {
                    if ps.len() == 0 {
                        r == Err::<Option<LocalStorage>, Error>(Error::EmptySites)
                    } else {
                        r matches Ok(o) && o matches Some(ls) && sites_pairs(ls.sites@) == ps
                    }
                },
            },
    {
        let text = match contents {
            None => {
                return Ok(None);
            },
            Some(t) => t,
        };
        match parse_sites(text) {
            None => Err(Error::MalformedFile(path.to_owned())),
            Some(sites) => {
                if sites.len() == 0 {
                    Err(Error::EmptySites)
                } else {
                    Ok(Some(LocalStorage { sites }))
                }
            },
        }
    }
}

/// Reading an escaped string body back yields the original characters and
/// stops exactly at the closing quote.
proof fn lemma_str_body_esc(s: Seq<char>, i: int, x: Seq<char>)
    requires
        0 <= i,
        i + esc(x).len() + 1 <= s.len(),
        s.subrange(i, i + esc(x).len() as int) == esc(x),
        s[i + esc(x).len() as int] == '"',
    ensures
        str_body_at(s, i) == Some((x, i + esc(x).len() + 1)),
    decreases x.len(),
{
    assert forall|k: int| 0 <= k < esc(x).len() implies s[i + k] == esc(x)[k] by {
        assert(s.subrange(i, i + esc(x).len() as int)[k] == s[i + k]);
    }
    if x.len() == 0 {
        assert(s[i] == '"');
    } else {
        let c = x[0];
        let x1 = x.drop_first();
        assert(esc(x) == esc_char(c) + esc(x1));
        if c == '"' || c == '\\' {
            assert(esc_char(c) == seq!['\\', c]);
            assert(esc(x)[0] == '\\' && esc(x)[1] == c);
            assert(s[i] == '\\');
            assert(s[i + 1] == c);
            assert(s.subrange(i + 2, i + 2 + esc(x1).len() as int) =~= esc(x1)) by {
                assert forall|k: int| 0 <= k < esc(x1).len() implies s.subrange(
                    i + 2,
                    i + 2 + esc(x1).len() as int,
                )[k] == esc(x1)[k] by {
                    assert(s.subrange(i + 2, i + 2 + esc(x1).len() as int)[k] == s[i + 2 + k]);
                    assert(esc(x)[2 + k] == esc(x1)[k]);
                }
            }
            lemma_str_body_esc(s, i + 2, x1);
            assert(seq![c] + x1 =~= x);
        } else {
            assert(esc_char(c) == seq![c]);
            assert(esc(x).len() == 1 + esc(x1).len());
            assert(esc(x)[0] == c);
            assert(s[i] == c);
            assert(s.subrange(i + 1, i + 1 + esc(x1).len() as int) =~= esc(x1)) by {
                assert forall|k: int| 0 <= k < esc(x1).len() implies s.subrange(
                    i + 1,
                    i + 1 + esc(x1).len() as int,
                )[k] == esc(x1)[k] by {
                    assert(s.subrange(i + 1, i + 1 + esc(x1).len() as int)[k] == s[i + 1 + k]);
                    assert(esc(x)[1 + k] == esc(x1)[k]);
                }
            }
            lemma_str_body_esc(s, i + 1, x1);
            assert(seq![c] + x1 =~= x);
        }
    }
}

/// Reading a written directory entry back yields its code and URL and
/// stops exactly after its closing brace.
proof fn lemma_site_at_json(s: Seq<char>, i: int, code: Seq<char>, url: Seq<char>)
    requires
        0 <= i,
        i + site_json(code, url).len() <= s.len(),
        s.subrange(i, i + site_json(code, url).len() as int) == site_json(code, url),
    ensures
        site_at(s, i) == Some(((code, url), i + site_json(code, url).len())),
{
    reveal_strlit("{\"api_site_parameter\":\"");
    reveal_strlit("\",\"site_url\":\"");
    reveal_strlit(",\"site_url\":\"");
    reveal_strlit("\"}");
    reveal_strlit("}");
    let l1 = "{\"api_site_parameter\":\""@;
    let l2full = "\",\"site_url\":\""@;
    let l2 = ",\"site_url\":\""@;
    let l3full = "\"}"@;
    let l3 = "}"@;
    let sj = site_json(code, url);
    assert(l2full =~= seq!['"'] + l2);
    assert(l3full =~= seq!['"'] + l3);
    assert forall|k: int| 0 <= k < sj.len() implies s[i + k] == sj[k] by {
        assert(s.subrange(i, i + sj.len() as int)[k] == s[i + k]);
    }
    // The opening literal.
    let n1 = i + l1.len() as int;
    assert(s.subrange(i, n1) =~= l1) by {
        assert forall|k: int| 0 <= k < l1.len() implies s.subrange(i, n1)[k] == l1[k] by {
            assert(s.subrange(i, n1)[k] == s[i + k]);
            assert(sj[k] == l1[k]);
        }
    }
    assert(is_match_at(s, l1, i));
    // The code string, terminated by the quote that opens `l2full`.
    let e1 = esc(code).len() as int;
    assert(s.subrange(n1, n1 + e1) =~= esc(code)) by {
        assert forall|k: int| 0 <= k < e1 implies s.subrange(n1, n1 + e1)[k] == esc(code)[k] by {
            assert(s.subrange(n1, n1 + e1)[k] == s[n1 + k]);
            assert(sj[l1.len() + k] == esc(code)[k]);
        }
    }
    assert(s[n1 + e1] == '"') by {
        assert(sj[l1.len() + e1] == l2full[0]);
    }
    lemma_str_body_esc(s, n1, code);
    let p1 = n1 + e1 + 1;
    // The middle literal, minus the quote the string read consumed.
    let n2 = p1 + l2.len() as int;
    assert(s.subrange(p1, n2) =~= l2) by {
        assert forall|k: int| 0 <= k < l2.len() implies s.subrange(p1, n2)[k] == l2[k] by {
            assert(s.subrange(p1, n2)[k] == s[p1 + k]);
            assert(sj[l1.len() + e1 + 1 + k] == l2full[1 + k]);
        }
    }
    assert(is_match_at(s, l2, p1));
    // The URL string, terminated by the quote that opens `l3full`.
    let e2 = esc(url).len() as int;
    assert(s.subrange(n2, n2 + e2) =~= esc(url)) by {
        assert forall|k: int| 0 <= k < e2 implies s.subrange(n2, n2 + e2)[k] == esc(url)[k] by {
            assert(s.subrange(n2, n2 + e2)[k] == s[n2 + k]);
            assert(sj[l1.len() + e1 + l2full.len() + k] == esc(url)[k]);
        }
    }
    assert(s[n2 + e2] == '"') by {
        assert(sj[l1.len() + e1 + l2full.len() + e2] == l3full[0]);
    }
    lemma_str_body_esc(s, n2, url);
    let p2 = n2 + e2 + 1;
    // The closing brace.
    assert(s.subrange(p2, p2 + 1) =~= l3) by {
        assert(s.subrange(p2, p2 + 1)[0] == s[p2]);
        assert(sj[l1.len() + e1 + l2full.len() + e2 + 1] == l3full[1]);
    }
    assert(is_match_at(s, l3, p2));
    assert(p2 + 1 == i + sj.len());
}

/// Reading a written sequence of entries back, up to a closing bracket,
/// yields exactly those entries.
proof fn lemma_items_json(s: Seq<char>, i: int, sites: Seq<(Seq<char>, Seq<char>)>)
    requires
        sites.len() >= 1,
        0 <= i,
        i + joined(
            sites.map_values(|p: (Seq<char>, Seq<char>)| site_json(p.0, p.1)),
            ","@,
        ).len() + 1 <= s.len(),
        s.subrange(
            i,
            i + joined(
                sites.map_values(|p: (Seq<char>, Seq<char>)| site_json(p.0, p.1)),
                ","@,
            ).len() as int,
        ) == joined(sites.map_values(|p: (Seq<char>, Seq<char>)| site_json(p.0, p.1)), ","@),
        s[i + joined(
            sites.map_values(|p: (Seq<char>, Seq<char>)| site_json(p.0, p.1)),
            ","@,
        ).len() as int] == ']',
    ensures
        items_at(s, i) == Some(
            (
                sites,
                i + joined(
                    sites.map_values(|p: (Seq<char>, Seq<char>)| site_json(p.0, p.1)),
                    ","@,
                ).len() as int,
            ),
        ),
    decreases sites.len(),
{
    reveal_strlit(",");
    let items = sites.map_values(|p: (Seq<char>, Seq<char>)| site_json(p.0, p.1));
    let body = joined(items, ","@);
    let sj0 = site_json(sites[0].0, sites[0].1);
    assert(items[0] == sj0);
    assert forall|k: int| 0 <= k < body.len() implies s[i + k] == body[k] by {
        assert(s.subrange(i, i + body.len() as int)[k] == s[i + k]);
    }
    if sites.len() == 1 {
        assert(items.drop_first() =~= Seq::<Seq<char>>::empty());
        assert(body =~= sj0);
        assert(s.subrange(i, i + sj0.len() as int) =~= sj0);
        lemma_site_at_json(s, i, sites[0].0, sites[0].1);
        let n = i + sj0.len() as int;
        assert(s[n] == ']');
        assert(']' != ',');
        assert(seq![sites[0]] =~= sites);
    } else {
        let rest_items = items.drop_first();
        let rest_body = joined(sites.drop_first().map_values(
            |p: (Seq<char>, Seq<char>)| site_json(p.0, p.1),
        ), ","@);
        assert(rest_items =~= sites.drop_first().map_values(
            |p: (Seq<char>, Seq<char>)| site_json(p.0, p.1),
        ));
        assert(rest_items.len() >= 1);
        assert(joined_tail(rest_items, ","@) == ","@ + rest_items[0] + joined_tail(
            rest_items.drop_first(),
            ","@,
        ));
        assert(rest_body == rest_items[0] + joined_tail(rest_items.drop_first(), ","@));
        assert(body == sj0 + joined_tail(rest_items, ","@));
        assert(body =~= sj0 + ","@ + rest_body);
        assert(s.subrange(i, i + sj0.len() as int) =~= sj0) by {
            assert forall|k: int| 0 <= k < sj0.len() implies s.subrange(
                i,
                i + sj0.len() as int,
            )[k] == sj0[k] by {
                assert(s.subrange(i, i + sj0.len() as int)[k] == s[i + k]);
                assert(body[k] == sj0[k]);
            }
        }
        lemma_site_at_json(s, i, sites[0].0, sites[0].1);
        let n0 = i + sj0.len() as int;
        assert(s[n0] == ',') by {
            assert(body[sj0.len() as int] == ","@[0]);
        }
        assert(n0 < s.len());
        assert(s.subrange(n0 + 1, n0 + 1 + rest_body.len() as int) =~= rest_body) by {
            assert forall|k: int| 0 <= k < rest_body.len() implies s.subrange(
                n0 + 1,
                n0 + 1 + rest_body.len() as int,
            )[k] == rest_body[k] by {
                assert(s.subrange(n0 + 1, n0 + 1 + rest_body.len() as int)[k] == s[n0 + 1 + k]);
                assert(body[sj0.len() + 1 + k] == rest_body[k]);
            }
        }
        assert(s[n0 + 1 + rest_body.len() as int] == ']') by {
            assert(i + body.len() == n0 + 1 + rest_body.len());
        }
        lemma_items_json(s, n0 + 1, sites.drop_first());
        assert(seq![sites[0]] + sites.drop_first() =~= sites);
        assert(i + body.len() == n0 + 1 + rest_body.len());
    }
}

/// A directory written to the cache format and read back is the same
/// directory: the codec loses nothing and invents nothing.
pub proof fn lemma_cache_round_trip(sites: Seq<(Seq<char>, Seq<char>)>)
    ensures
        spec_parse_sites(sites_json(sites)) == Some(sites),
{
    reveal_strlit("[");
    reveal_strlit("]");
    reveal_strlit("{\"api_site_parameter\":\"");
    let s = sites_json(sites);
    let items = sites.map_values(|p: (Seq<char>, Seq<char>)| site_json(p.0, p.1));
    let body = joined(items, ","@);
    assert(s == "["@ + body + "]"@);
    assert(s.len() == body.len() + 2);
    assert(s[0] == '[');
    assert(s[s.len() - 1] == ']');
    if sites.len() == 0 {
        assert(body =~= Seq::<char>::empty());
        assert(s.len() == 2 && s[1] == ']');
        assert(spec_parse_sites(s) == Some(Seq::<(Seq<char>, Seq<char>)>::empty()));
        assert(Seq::<(Seq<char>, Seq<char>)>::empty() =~= sites);
    } else {
        let sj0 = site_json(sites[0].0, sites[0].1);
        assert(sj0.len() > 0) by {
            assert(sj0 == "{\"api_site_parameter\":\""@ + esc(sites[0].0) + "\",\"site_url\":\""@
                + esc(sites[0].1) + "\"}"@);
            assert("{\"api_site_parameter\":\""@.len() > 0);
        }
        assert(items[0] == sj0);
        assert(body.len() >= sj0.len()) by {
            assert(body == items[0] + joined_tail(items.drop_first(), ","@));
        }
        assert(s.len() > 2);
        assert(s.subrange(1, 1 + body.len() as int) =~= body) by {
            assert forall|k: int| 0 <= k < body.len() implies s.subrange(
                1,
                1 + body.len() as int,
            )[k] == body[k] by {
                assert(s[1 + k] == body[k]);
            }
        }
        assert(s[1 + body.len() as int] == ']');
        lemma_items_json(s, 1, sites);
        assert(1 + body.len() == s.len() - 1);
    }
}

} // verus!
