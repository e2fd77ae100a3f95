//! Character-level utilities shared by the whole pipeline: conversions
//! between `String` and `Vec<char>`, substring search, white-space handling,
//! pattern replacement, decimal formatting, and the
//! `application/x-www-form-urlencoded` byte serializer used for search URLs.

use vstd::prelude::*;

verus! {

use vstd::string::StrSliceExecFns;
use vstd::string::StringExecFns;

/// Relies on `String::push`: appends exactly the given character.
pub assume_specification[ String::push ](s: &mut String, c: char)
    ensures
        final(s)@ == old(s)@.push(c),
;

/// The Unicode white-space characters, the set `str::trim` and
/// `str::split_whitespace` go by.
pub open spec fn is_space_c(c: char) -> bool {
    let u = c as u32;
    (9 <= u && u <= 13) || u == 32 || u == 0x85 || u == 0xa0 || u == 0x1680 || (0x2000 <= u
        && u <= 0x200a) || u == 0x2028 || u == 0x2029 || u == 0x202f || u == 0x205f || u == 0x3000
}

#[verifier::when_used_as_spec(is_space_c)]
pub fn is_space(c: char) -> (r: bool)
    ensures
        r == is_space_c(c),
{
    let u = c as u32;
    (9 <= u && u <= 13) || u == 32 || u == 0x85 || u == 0xa0 || u == 0x1680 || (0x2000 <= u
        && u <= 0x200a) || u == 0x2028 || u == 0x2029 || u == 0x202f || u == 0x205f || u == 0x3000
}

/// The characters of a string slice, in order.
pub fn chars_of(s: &str) -> (r: Vec<char>)
    ensures
        r@ == s@,
{
    let n = s.unicode_len();
    let mut r: Vec<char> = Vec::new();
    let mut i: usize = 0;
    while i < n
        invariant
            i <= n,
            n == s@.len(),
            r@ == s@.subrange(0, i as int),
        decreases n - i,
    {
        r.push(s.get_char(i));
        proof {
            assert(s@.subrange(0, i + 1 as int) =~= s@.subrange(0, i as int).push(s@[i as int]));
        }
        i += 1;
    }
    proof {
        assert(r@ =~= s@);
    }
    r
}

/// A string holding exactly the given characters.
pub fn string_of(v: &Vec<char>) -> (r: String)
    ensures
        r@ == v@,
{
    let mut r = String::new();
    let mut i: usize = 0;
    while i < v.len()
        invariant
            i <= v.len(),
            r@ == v@.subrange(0, i as int),
        decreases v.len() - i,
    {
        r.push(v[i]);
        proof {
            assert(v@.subrange(0, i + 1 as int) =~= v@.subrange(0, i as int).push(v@[i as int]));
        }
        i += 1;
    }
    proof {
        assert(r@ =~= v@);
    }
    r
}

/// Appends the characters of `v` to `out`.
pub fn push_chars(out: &mut Vec<char>, v: &Vec<char>)
    ensures
        final(out)@ == old(out)@ + v@,
{
    let mut i: usize = 0;
    while i < v.len()
        invariant
            i <= v.len(),
            out@ == old(out)@ + v@.subrange(0, i as int),
        decreases v.len() - i,
    {
        out.push(v[i]);
        proof {
            assert(old(out)@ + v@.subrange(0, i + 1 as int) =~= (old(out)@ + v@.subrange(
                0,
                i as int,
            )).push(v@[i as int]));
        }
        i += 1;
    }
    proof {
        assert(old(out)@ + v@.subrange(0, v@.len() as int) =~= old(out)@ + v@);
    }
}

/// Appends the characters of the string slice `s` to `out`.
pub fn push_str_chars(out: &mut Vec<char>, s: &str)
    ensures
        final(out)@ == old(out)@ + s@,
{
    let n = s.unicode_len();
    let mut i: usize = 0;
    while i < n
        invariant
            i <= n,
            n == s@.len(),
            out@ == old(out)@ + s@.subrange(0, i as int),
        decreases n - i,
    {
        out.push(s.get_char(i));
        proof {
            assert(old(out)@ + s@.subrange(0, i + 1 as int) =~= (old(out)@ + s@.subrange(
                0,
                i as int,
            )).push(s@[i as int]));
        }
        i += 1;
    }
    proof {
        assert(old(out)@ + s@.subrange(0, s@.len() as int) =~= old(out)@ + s@);
    }
}

/// Whether the characters of `a` and `b` agree.
pub fn chars_eq(a: &Vec<char>, b: &Vec<char>) -> (r: bool)
    ensures
        r == (a@ == b@),
{
    if a.len() != b.len() {
        proof {
            assert(a@.len() != b@.len());
        }
        return false;
    }
    let mut i: usize = 0;
    while i < a.len()
        invariant
            i <= a.len(),
            a@.len() == b@.len(),
            forall|k: int| 0 <= k < i ==> a@[k] == b@[k],
        decreases a.len() - i,
    {
        if a[i] != b[i] {
            return false;
        }
        i += 1;
    }
    proof {
        assert(a@ =~= b@);
    }
    true
}

/// Whether `p` occurs in `t` starting at position `i`.
pub open spec fn is_match_at(t: Seq<char>, p: Seq<char>, i: int) -> bool {
    0 <= i && i + p.len() <= t.len() && t.subrange(i, i + p.len() as int) == p
}

/// The first position at or after `i` where `p` occurs in `t`, if any.
pub open spec fn first_match_from(t: Seq<char>, p: Seq<char>, i: int) -> Option<int>
    decreases t.len() + 1 - i,
{
    if i < 0 || i + p.len() > t.len() {
        None
    } else if t.subrange(i, i + p.len() as int) == p {
        Some(i)
    } else {
        first_match_from(t, p, i + 1)
    }
}

/// A found match lies in range, matches, and is the first one at or after `i`.
pub proof fn lemma_first_match_from(t: Seq<char>, p: Seq<char>, i: int)
    requires
        0 <= i,
    ensures
        match first_match_from(t, p, i) {
            Some(j) => is_match_at(t, p, j) && i <= j && forall|k: int|
                i <= k < j ==> !is_match_at(t, p, k),
            None => forall|k: int| i <= k ==> !is_match_at(t, p, k),
        },
    decreases t.len() + 1 - i,
{
    if i < 0 || i + p.len() > t.len() {
    } else if t.subrange(i, i + p.len() as int) == p {
    } else {
        lemma_first_match_from(t, p, i + 1);
    }
}

/// Whether `p` occurs at position `i` of `t`, decided by comparing characters.
pub fn match_at(t: &Vec<char>, p: &Vec<char>, i: usize) -> (r: bool)
    ensures
        r == is_match_at(t@, p@, i as int),
{
    if p.len() > t.len() || i > t.len() - p.len() {
        return false;
    }
    let mut k: usize = 0;
    while k < p.len()
        invariant
            k <= p.len(),
            i + p.len() <= t.len(),
            forall|m: int| 0 <= m < k ==> t@[i + m] == p@[m],
        decreases p.len() - k,
    {
        if t[i + k] != p[k] {
            proof {
                assert(t@.subrange(i as int, i + p@.len() as int)[k as int] == t@[i + k]);
            }
            return false;
        }
        k += 1;
    }
    proof {
        assert(t@.subrange(i as int, i + p@.len() as int) =~= p@);
    }
    true
}

/// The first occurrence of `p` in `t` at or after `from`.
pub fn find_from(t: &Vec<char>, p: &Vec<char>, from: usize) -> (r: Option<usize>)
    requires
        p@.len() > 0,
    ensures
        match r {
            Some(j) => first_match_from(t@, p@, from as int) == Some(j as int),
            None => first_match_from(t@, p@, from as int) is None,
        },
{
    let mut i: usize = from;
    if p.len() > t.len() {
        return None;
    }
    while i <= t.len() - p.len()
        invariant
            from <= i,
            0 < p@.len() <= t@.len(),
            first_match_from(t@, p@, from as int) == first_match_from(t@, p@, i as int),
        decreases t.len() - i,
    {
        if match_at(t, p, i) {
            return Some(i);
        }
        i += 1;
    }
    None
}

/// The characters of `v` between `a` and `b`.
pub fn copy_range(v: &Vec<char>, a: usize, b: usize) -> (r: Vec<char>)
    requires
        a <= b <= v@.len(),
    ensures
        r@ == v@.subrange(a as int, b as int),
{
    let mut r: Vec<char> = Vec::new();
    let mut i: usize = a;
    while i < b
        invariant
            a <= i <= b <= v@.len(),
            r@ == v@.subrange(a as int, i as int),
        decreases b - i,
    {
        r.push(v[i]);
        proof {
            assert(v@.subrange(a as int, i + 1 as int) =~= v@.subrange(a as int, i as int).push(
                v@[i as int],
            ));
        }
        i += 1;
    }
    r
}

/// The first position at or after `i` whose character is not white space.
pub open spec fn skip_spaces(s: Seq<char>, i: int) -> int
    decreases s.len() - i,
{
    if 0 <= i < s.len() && is_space_c(s[i]) {
        skip_spaces(s, i + 1)
    } else {
        i
    }
}

/// The first position at or after `i` whose character is white space.
pub open spec fn skip_word(s: Seq<char>, i: int) -> int
    decreases s.len() - i,
{
    if 0 <= i < s.len() && !is_space_c(s[i]) {
        skip_word(s, i + 1)
    } else {
        i
    }
}

pub proof fn lemma_skip_spaces(s: Seq<char>, i: int)
    requires
        0 <= i <= s.len(),
    ensures
        i <= skip_spaces(s, i) <= s.len(),
        forall|k: int| i <= k < skip_spaces(s, i) ==> is_space_c(s[k]),
        skip_spaces(s, i) < s.len() ==> !is_space_c(s[skip_spaces(s, i)]),
    decreases s.len() - i,
{
    if 0 <= i < s.len() && is_space_c(s[i]) {
        lemma_skip_spaces(s, i + 1);
    }
}

pub proof fn lemma_skip_word(s: Seq<char>, i: int)
    requires
        0 <= i <= s.len(),
    ensures
        i <= skip_word(s, i) <= s.len(),
        forall|k: int| i <= k < skip_word(s, i) ==> !is_space_c(s[k]),
        skip_word(s, i) < s.len() ==> is_space_c(s[skip_word(s, i)]),
    decreases s.len() - i,
{
    if 0 <= i < s.len() && !is_space_c(s[i]) {
        lemma_skip_word(s, i + 1);
    }
}

/// The last position at or before `j` with only white space after it.
pub open spec fn rskip_spaces(s: Seq<char>, j: int) -> int
    decreases j,
{
    if 0 < j <= s.len() && is_space_c(s[j - 1]) {
        rskip_spaces(s, j - 1)
    } else {
        j
    }
}

pub proof fn lemma_rskip_spaces(s: Seq<char>, j: int)
    requires
        0 <= j <= s.len(),
    ensures
        0 <= rskip_spaces(s, j) <= j,
        forall|k: int| rskip_spaces(s, j) <= k < j ==> is_space_c(s[k]),
        rskip_spaces(s, j) > 0 ==> !is_space_c(s[rskip_spaces(s, j) - 1]),
    decreases j,
{
    if 0 < j <= s.len() && is_space_c(s[j - 1]) {
        lemma_rskip_spaces(s, j - 1);
    }
}

/// `s` with leading and trailing white space removed.
pub open spec fn trimmed(s: Seq<char>) -> Seq<char> {
    let a = skip_spaces(s, 0);
    if a == s.len() {
        Seq::empty()
    } else {
        s.subrange(a, rskip_spaces(s, s.len() as int))
    }
}

/// Removes leading and trailing white space, as `str::trim` does.
pub fn trim_chars(v: &Vec<char>) -> (r: Vec<char>)
    ensures
        r@ == trimmed(v@),
{
    let mut a: usize = 0;
    while a < v.len() && is_space(v[a])
        invariant
            0 <= a <= v@.len(),
            skip_spaces(v@, 0) == skip_spaces(v@, a as int),
        decreases v@.len() - a,
    {
        a += 1;
    }
    proof {
        assert(skip_spaces(v@, a as int) == a as int);
    }
    if a == v.len() {
        let r: Vec<char> = Vec::new();
        proof {
            assert(r@ =~= trimmed(v@));
        }
        return r;
    }
    let mut b: usize = v.len();
    while is_space(v[b - 1])
        invariant
            a < b <= v@.len(),
            a < v@.len(),
            !is_space_c(v@[a as int]),
            rskip_spaces(v@, v@.len() as int) == rskip_spaces(v@, b as int),
        decreases b,
    {
        b -= 1;
    }
    proof {
        assert(rskip_spaces(v@, b as int) == b as int);
    }
    copy_range(v, a, b)
}

/// The white-space separated words of `s`, in order, from position `i` on.
pub open spec fn words_from(s: Seq<char>, i: int) -> Seq<Seq<char>>
    decreases s.len() - i,
    via words_from_dec
{
    if !(0 <= i <= s.len()) {
        Seq::empty()
    } else {
        let a = skip_spaces(s, i);
        if a >= s.len() {
            Seq::empty()
        } else {
            seq![s.subrange(a, skip_word(s, a))] + words_from(s, skip_word(s, a))
        }
    }
}

#[via_fn]
proof fn words_from_dec(s: Seq<char>, i: int) {
    if 0 <= i <= s.len() {
        lemma_skip_spaces(s, i);
        let a = skip_spaces(s, i);
        if a < s.len() {
            lemma_skip_word(s, a);
        }
    }
}

/// The view of a list of character vectors.
pub open spec fn vecs_view(r: Seq<Vec<char>>) -> Seq<Seq<char>> {
    r.map_values(|w: Vec<char>| w@)
}

/// Splits on white space, as `str::split_whitespace` does.
pub fn split_words(v: &Vec<char>) -> (r: Vec<Vec<char>>)
    ensures
        vecs_view(r@) == words_from(v@, 0),
{
    let mut out: Vec<Vec<char>> = Vec::new();
    let mut i: usize = 0;
    proof {
        assert(vecs_view(out@) =~= Seq::<Seq<char>>::empty());
    }
    while i < v.len()
        invariant
            0 <= i <= v@.len(),
            words_from(v@, 0) == vecs_view(out@) + words_from(v@, i as int),
        decreases v@.len() - i,
    {
        if is_space(v[i]) {
            proof {
                assert(skip_spaces(v@, i as int) == skip_spaces(v@, i + 1 as int));
            }
            i += 1;
        } else {
            let ghost i0 = i as int;
            let a = i;
            let mut j: usize = i;
            while j < v.len() && !is_space(v[j])
                invariant
                    a <= j <= v@.len(),
                    skip_word(v@, a as int) == skip_word(v@, j as int),
                decreases v@.len() - j,
            {
                j += 1;
            }
            proof {
                assert(skip_word(v@, j as int) == j as int);
                assert(skip_spaces(v@, a as int) == a as int);
            }
            let w = copy_range(v, a, j);
            out.push(w);
            proof {
                assert(words_from(v@, a as int) =~= seq![v@.subrange(a as int, j as int)]
                    + words_from(v@, j as int));
                assert(vecs_view(out@) =~= vecs_view(out@.drop_last()).push(w@));
                assert(vecs_view(out@) + words_from(v@, j as int) =~= (vecs_view(out@.drop_last())
                    + words_from(v@, a as int)));
            }
            i = j;
        }
    }
    proof {
        assert(words_from(v@, i as int) =~= Seq::<Seq<char>>::empty());
        assert(vecs_view(out@) =~= vecs_view(out@) + words_from(v@, i as int));
    }
    out
}

/// The views of a list of string pairs.
pub open spec fn pairs_view(v: Seq<(String, String)>) -> Seq<(Seq<char>, Seq<char>)> {
    v.map_values(|p: (String, String)| (p.0@, p.1@))
}

/// The views of a list of strings.
pub open spec fn strings_view(v: Seq<String>) -> Seq<Seq<char>> {
    v.map_values(|s: String| s@)
}

/// The strings of `v` as character vectors.
pub fn strings_to_charvecs(v: &Vec<String>) -> (r: Vec<Vec<char>>)
    ensures
        vecs_view(r@) == strings_view(v@),
{
    let mut r: Vec<Vec<char>> = Vec::new();
    let mut i: usize = 0;
    while i < v.len()
        invariant
            0 <= i <= v@.len(),
            vecs_view(r@) == strings_view(v@.subrange(0, i as int)),
        decreases v@.len() - i,
    {
        let w = chars_of(v[i].as_str());
        let ghost prev = r@;
        r.push(w);
        proof {
            let m = vecs_view(r@);
            let n = strings_view(v@.subrange(0, i + 1));
            assert(r@ == prev.push(w));
            assert(r@.len() == prev.len() + 1);
            assert(vecs_view(prev).len() == prev.len());
            assert(vecs_view(prev) == strings_view(v@.subrange(0, i as int)));
            assert(strings_view(v@.subrange(0, i as int)).len() == i as int);
            assert(m.len() == r@.len());
            assert(n.len() == i + 1);
            assert(m.len() == n.len());
            assert forall|k: int| 0 <= k < m.len() implies m[k] == n[k] by {
                assert(m[k] == r@[k]@);
                assert(n[k] == v@.subrange(0, i + 1)[k]@);
                if k < i {
                    assert(r@[k] == prev[k]);
                    assert(vecs_view(prev)[k] == prev[k]@);
                    assert(vecs_view(prev)[k] == strings_view(v@.subrange(0, i as int))[k]);
                    assert(strings_view(v@.subrange(0, i as int))[k] == v@.subrange(
                        0,
                        i as int,
                    )[k]@);
                } else {
                    assert(r@[k] == w);
                }
            }
            assert(m =~= n);
        }
        i += 1;
    }
    proof {
        assert(v@.subrange(0, v@.len() as int) =~= v@);
    }
    r
}

/// What follows the first part when parts are joined with `sep`.
pub open spec fn joined_tail(ws: Seq<Seq<char>>, sep: Seq<char>) -> Seq<char>
    decreases ws.len(),
{
    if ws.len() == 0 {
        Seq::empty()
    } else {
        sep + ws[0] + joined_tail(ws.drop_first(), sep)
    }
}

/// The parts joined with `sep` between them, as `[T]::join` does.
pub open spec fn joined(ws: Seq<Seq<char>>, sep: Seq<char>) -> Seq<char> {
    if ws.len() == 0 {
        Seq::empty()
    } else {
        ws[0] + joined_tail(ws.drop_first(), sep)
    }
}

/// Joins the parts with the separator between them.
pub fn join_chars(parts: &Vec<Vec<char>>, sep: &Vec<char>) -> (r: Vec<char>)
    ensures
        r@ == joined(vecs_view(parts@), sep@),
{
    let ghost ws = vecs_view(parts@);
    if parts.len() == 0 {
        let r: Vec<char> = Vec::new();
        proof {
            assert(r@ =~= joined(ws, sep@));
        }
        return r;
    }
    let mut out = copy_range(&parts[0], 0, parts[0].len());
    proof {
        assert(out@ =~= ws[0]);
    }
    let mut i: usize = 1;
    while i < parts.len()
        invariant
            1 <= i <= parts@.len(),
            ws == vecs_view(parts@),
            ws.len() == parts@.len(),
            joined(ws, sep@) == out@ + joined_tail(ws.skip(i as int), sep@),
        decreases parts@.len() - i,
    {
        push_chars(&mut out, sep);
        let p = &parts[i];
        push_chars(&mut out, p);
        proof {
            let rest = ws.skip(i as int);
            assert(rest.len() > 0);
            assert(rest[0] == ws[i as int]);
            assert(rest.drop_first() =~= ws.skip(i + 1));
            assert(joined_tail(rest, sep@) == sep@ + ws[i as int] + joined_tail(
                ws.skip(i + 1),
                sep@,
            ));
        }
        i += 1;
    }
    proof {
        assert(ws.skip(i as int) =~= Seq::<Seq<char>>::empty());
        assert(ws.drop_first() =~= ws.skip(1));
        assert(out@ =~= joined(ws, sep@));
    }
    out
}

/// `s` with every occurrence of `pat` rewritten to `rep`, scanning left to
/// right without overlap, as `str::replace` does.
pub open spec fn replaced(s: Seq<char>, pat: Seq<char>, rep: Seq<char>) -> Seq<char>
    decreases s.len(),
    via replaced_dec
{
    if pat.len() == 0 {
        s
    } else {
        match first_match_from(s, pat, 0) {
            None => s,
            Some(i) => s.subrange(0, i) + rep + replaced(
                s.subrange(i + pat.len() as int, s.len() as int),
                pat,
                rep,
            ),
        }
    }
}

#[via_fn]
proof fn replaced_dec(s: Seq<char>, pat: Seq<char>, rep: Seq<char>) {
    if pat.len() > 0 {
        lemma_first_match_from(s, pat, 0);
    }
}

/// Rewrites every occurrence of `pat` to `rep`, left to right.
pub fn replace_chars(v: &Vec<char>, pat: &Vec<char>, rep: &Vec<char>) -> (r: Vec<char>)
    requires
        pat@.len() > 0,
    ensures
        r@ == replaced(v@, pat@, rep@),
    decreases v@.len(),
{
    match find_from(v, pat, 0) {
        None => copy_range(v, 0, v.len()),
        Some(i) => {
            proof {
                lemma_first_match_from(v@, pat@, 0);
                assert(is_match_at(v@, pat@, i as int));
                assert(i + pat@.len() <= v@.len());
            }
            let mut out = copy_range(v, 0, i);
            push_chars(&mut out, rep);
            let n = v.len();
            let rest = copy_range(v, i + pat.len(), n);
            let tail = replace_chars(&rest, pat, rep);
            push_chars(&mut out, &tail);
            out
        },
    }
}

/// `s` with every copy of the prefix `p` removed from the front, as
/// `str::trim_start_matches` does.
pub open spec fn strip_prefix_all(s: Seq<char>, p: Seq<char>) -> Seq<char>
    decreases s.len(),
{
    if p.len() > 0 && s.len() >= p.len() && s.subrange(0, p.len() as int) == p {
        strip_prefix_all(s.skip(p.len() as int), p)
    } else {
        s
    }
}

/// Removes every copy of the prefix `p` from the front.
pub fn strip_prefix_chars(v: &Vec<char>, p: &Vec<char>) -> (r: Vec<char>)
    requires
        p@.len() > 0,
    ensures
        r@ == strip_prefix_all(v@, p@),
{
    let mut pos: usize = 0;
    proof {
        assert(v@.skip(0) =~= v@);
    }
    while p.len() <= v.len() - pos && match_at(v, p, pos)
        invariant
            0 <= pos <= v@.len(),
            p@.len() > 0,
            strip_prefix_all(v@, p@) == strip_prefix_all(v@.skip(pos as int), p@),
        decreases v@.len() - pos,
    {
        proof {
            let s = v@.skip(pos as int);
            assert(s.subrange(0, p@.len() as int) =~= v@.subrange(
                pos as int,
                pos + p@.len() as int,
            ));
            assert(s.skip(p@.len() as int) =~= v@.skip(pos + p@.len() as int));
        }
        pos += p.len();
    }
    proof {
        let s = v@.skip(pos as int);
        if p@.len() <= s.len() {
            assert(s.subrange(0, p@.len() as int) =~= v@.subrange(
                pos as int,
                pos + p@.len() as int,
            ));
        }
        assert(strip_prefix_all(s, p@) == s);
    }
    copy_range(v, pos, v.len())
}

/// `s` with every trailing `c` removed, as `str::trim_end_matches` does
/// with a single-character pattern.
pub open spec fn strip_suffix_char_all(s: Seq<char>, c: char) -> Seq<char>
    decreases s.len(),
{
    if s.len() > 0 && s[s.len() - 1] == c {
        strip_suffix_char_all(s.drop_last(), c)
    } else {
        s
    }
}

/// Removes every trailing copy of the character `c`.
pub fn strip_suffix_char(v: &Vec<char>, c: char) -> (r: Vec<char>)
    ensures
        r@ == strip_suffix_char_all(v@, c),
{
    let mut b: usize = v.len();
    proof {
        assert(v@.subrange(0, v@.len() as int) =~= v@);
    }
    while b > 0 && v[b - 1] == c
        invariant
            0 <= b <= v@.len(),
            strip_suffix_char_all(v@, c) == strip_suffix_char_all(v@.subrange(0, b as int), c),
        decreases b,
    {
        proof {
            let s = v@.subrange(0, b as int);
            assert(s.drop_last() =~= v@.subrange(0, b - 1));
        }
        b -= 1;
    }
    proof {
        let s = v@.subrange(0, b as int);
        assert(strip_suffix_char_all(s, c) == s);
    }
    copy_range(v, 0, b)
}

/// The decimal digit character for `d`.
pub open spec fn digit_char(d: int) -> char
    recommends
        0 <= d < 10,
{
    ((48 + d) as u8) as char
}

/// The decimal representation of `n`, most significant digit first.
pub open spec fn dec_rep(n: int) -> Seq<char>
    recommends
        n >= 0,
    decreases n,
{
    if n < 10 {
        seq![digit_char(n)]
    } else {
        dec_rep(n / 10).push(digit_char(n % 10))
    }
}

/// Appends the decimal representation of `n`.
pub fn push_dec(out: &mut Vec<char>, n: u64)
    ensures
        final(out)@ == old(out)@ + dec_rep(n as int),
    decreases n,
{
    if n < 10 {
        out.push((48 + n as u8) as char);
        proof {
            assert(old(out)@ + dec_rep(n as int) =~= old(out)@.push(digit_char(n as int)));
        }
    } else {
        push_dec(out, n / 10);
        out.push((48 + (n % 10) as u8) as char);
        proof {
            assert(old(out)@ + dec_rep(n as int) =~= (old(out)@ + dec_rep(n as int / 10)).push(
                digit_char(n as int % 10),
            ));
        }
    }
}

/// The decimal representation of `n` as a string.
pub fn dec_string(n: u64) -> (r: String)
    ensures
        r@ == dec_rep(n as int),
{
    let mut v: Vec<char> = Vec::new();
    push_dec(&mut v, n);
    string_of(&v)
}

/// The bytes the `application/x-www-form-urlencoded` serializer passes
/// through unchanged.
pub open spec fn form_unreserved(b: u8) -> bool {
    b == 42 || b == 45 || b == 46 || b == 95 || (48 <= b && b <= 57) || (65 <= b && b <= 90) || (97
        <= b && b <= 122)
}

/// The upper-case hexadecimal digit character for `d`.
pub open spec fn hex_upper(d: int) -> char
    recommends
        0 <= d < 16,
{
    if d < 10 {
        digit_char(d)
    } else {
        ((55 + d) as u8) as char
    }
}

/// One byte under the `application/x-www-form-urlencoded` serializer:
/// space becomes `+`, unreserved bytes pass through, the rest become
/// `%` and two upper-case hexadecimal digits.
pub open spec fn form_encoded_byte(b: u8) -> Seq<char> {
    if b == 32 {
        seq!['+']
    } else if form_unreserved(b) {
        seq![b as char]
    } else {
        seq!['%', hex_upper(b as int / 16), hex_upper(b as int % 16)]
    }
}

/// A byte string under the `application/x-www-form-urlencoded` serializer.
pub open spec fn form_encoded(bs: Seq<u8>) -> Seq<char>
    decreases bs.len(),
{
    if bs.len() == 0 {
        Seq::empty()
    } else {
        form_encoded_byte(bs[0]) + form_encoded(bs.drop_first())
    }
}

pub proof fn lemma_form_encoded_snoc(bs: Seq<u8>, b: u8)
    ensures
        form_encoded(bs.push(b)) == form_encoded(bs) + form_encoded_byte(b),
    decreases bs.len(),
{
    if bs.len() == 0 {
        assert(bs.push(b).drop_first() =~= Seq::<u8>::empty());
        assert(form_encoded(bs.push(b)) == form_encoded_byte(b) + form_encoded(
            Seq::<u8>::empty(),
        ));
        assert(form_encoded(bs.push(b)) =~= form_encoded(bs) + form_encoded_byte(b));
    } else {
        let t = bs.drop_first();
        assert(bs.push(b).drop_first() =~= t.push(b));
        assert(form_encoded(bs.push(b)) == form_encoded_byte(bs[0]) + form_encoded(t.push(b)));
        lemma_form_encoded_snoc(t, b);
        assert(form_encoded(bs) == form_encoded_byte(bs[0]) + form_encoded(t));
        assert(form_encoded(bs.push(b)) =~= form_encoded(bs) + form_encoded_byte(b));
    }
}

/// Appends the form-urlencoded serialization of the UTF-8 bytes of `s`.
pub fn push_form_encoded(out: &mut Vec<char>, s: &str)
    ensures
        final(out)@ == old(out)@ + form_encoded(vstd::utf8::encode_utf8(s@)),
{
    let bytes = s.as_bytes_vec();
    let mut i: usize = 0;
    proof {
        assert(bytes@.subrange(0, 0) =~= Seq::<u8>::empty());
    }
    while i < bytes.len()
        invariant
            0 <= i <= bytes@.len(),
            out@ == old(out)@ + form_encoded(bytes@.subrange(0, i as int)),
        decreases bytes@.len() - i,
    {
        let b = bytes[i];
        if b == 32 {
            out.push('+');
        } else if b == 42 || b == 45 || b == 46 || b == 95 || (48 <= b && b <= 57) || (65 <= b && b
            <= 90) || (97 <= b && b <= 122) {
            out.push(b as char);
        } else {
            out.push('%');
            let hi = b / 16;
            let lo = b % 16;
            out.push(if hi < 10 { (48 + hi) as char } else { (55 + hi) as char });
            out.push(if lo < 10 { (48 + lo) as char } else { (55 + lo) as char });
        }
        proof {
            lemma_form_encoded_snoc(bytes@.subrange(0, i as int), bytes@[i as int]);
            assert(bytes@.subrange(0, i + 1 as int) =~= bytes@.subrange(0, i as int).push(
                bytes@[i as int],
            ));
            assert(out@ =~= old(out)@ + form_encoded(bytes@.subrange(0, i + 1 as int)));
        }
        i += 1;
    }
    proof {
        assert(bytes@.subrange(0, bytes@.len() as int) =~= bytes@);
    }
}

} // verus!
