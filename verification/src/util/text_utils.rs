//! Keyword highlighting: match positions, tag wrapping and snippets.

use vstd::prelude::*;

verus! {

broadcast use vstd::seq_lib::group_to_multiset_ensures, vstd::multiset::group_multiset_axioms;

/// Relies on String::push: appends exactly the one character.
#[verifier::external_body]
pub(crate) fn push_char(s: &mut String, c: char)
    ensures
        final(s)@ == old(s)@.push(c),
{
    s.push(c)
}

/// Character-by-character string equality.
pub fn str_eq(a: &str, b: &str) -> (r: bool)
    ensures
        r == (a@ == b@),
{
    let n = a.unicode_len();
    let m = b.unicode_len();
    if n != m {
        return false;
    }
    let mut i: usize = 0;
    while i < n
        invariant
            n == a@.len(),
            n == b@.len(),
            i <= n,
            forall|k: int| 0 <= k < i ==> a@[k] == b@[k],
        decreases n - i,
    {
        if a.get_char(i) != b.get_char(i) {
            return false;
        }
        i = i + 1;
    }
    proof {
        assert(a@ =~= b@);
    }
    true
}

/// The pattern occurs in `text` at character position `i`.
pub open spec fn matches_at(text: Seq<char>, pat: Seq<char>, i: int) -> bool {
    &&& 0 <= i
    &&& i + pat.len() <= text.len()
    &&& text.subrange(i, i + pat.len() as int) == pat
}

/// The first occurrence of `pat` at or after `from`, if any.
pub open spec fn first_occ(text: Seq<char>, pat: Seq<char>, from: int) -> Option<int>
    decreases text.len() - from + 1,
{
    if from < 0 || from + pat.len() > text.len() {
        None
    } else if matches_at(text, pat, from) {
        Some(from)
    } else {
        first_occ(text, pat, from + 1)
    }
}

/// The first occurrence of `pat` in `text` at or after character
/// position `from`.
pub fn find_from(text: &str, pat: &str, from: usize) -> (r: Option<usize>)
    ensures
        match r {
            Some(p) => first_occ(text@, pat@, from as int) == Some(p as int) && from <= p
                && matches_at(text@, pat@, p as int),
            None => first_occ(text@, pat@, from as int) is None,
        },
{
    let n = text.unicode_len();
    let m = pat.unicode_len();
    if m > n || from > n - m {
        proof {
            lemma_first_occ_none(text@, pat@, from as int);
        }
        return None;
    }
    if m == 0 {
        proof {
            assert(text@.subrange(from as int, from as int) =~= pat@);
        }
        return Some(from);
    }
    let mut i: usize = from;
    while i <= n - m
        invariant
            n == text@.len(),
            m == pat@.len(),
            1 <= m <= n,
            from <= i,
            i <= n - m + 1,
            first_occ(text@, pat@, from as int) == first_occ(text@, pat@, i as int),
        decreases n - i,
    {
        if match_at(text, pat, i) {
            return Some(i);
        }
        proof {
            assert(first_occ(text@, pat@, i as int) == first_occ(text@, pat@, i + 1));
        }
        i = i + 1;
    }
    proof {
        lemma_first_occ_none(text@, pat@, i as int);
    }
    None
}

/// Compares the pattern against `text` at position `i`.
fn match_at(text: &str, pat: &str, i: usize) -> (r: bool)
    requires
        i + pat@.len() <= text@.len(),
    ensures
        r == matches_at(text@, pat@, i as int),
{
    let n = text.unicode_len();
    let m = pat.unicode_len();
    let mut j: usize = 0;
    while j < m
        invariant
            n == text@.len(),
            m == pat@.len(),
            i + m <= n,
            j <= m,
            forall|k: int| 0 <= k < j ==> text@[i + k] == pat@[k],
        decreases m - j,
    {
        if text.get_char(i + j) != pat.get_char(j) {
            proof {
                if matches_at(text@, pat@, i as int) {
                    assert(text@.subrange(i as int, i + m)[j as int] == text@[i + j]);
                }
            }
            return false;
        }
        j = j + 1;
    }
    proof {
        assert(text@.subrange(i as int, i + m) =~= pat@);
    }
    true
}

proof fn lemma_first_occ_none(text: Seq<char>, pat: Seq<char>, from: int)
    requires
        from + pat.len() > text.len() || from > text.len(),
    ensures
        first_occ(text, pat, from) is None,
{
}

/// Either endpoint of the candidate span lies inside an already
/// accepted span.
pub open spec fn conflicts(start: int, end: int, tags: Seq<(usize, usize)>) -> bool {
    exists|t: int|
        0 <= t < tags.len() && ((tags[t].0 <= start && start <= tags[t].1) || (tags[t].0 <= end
            && end <= tags[t].1))
}

/// Whether the candidate span from `pos` to `pos_end` (both inclusive)
/// touches a span already claimed.
pub fn in_tags(pos: usize, pos_end: usize, tags: &Vec<(usize, usize)>) -> (r: bool)
    ensures
        r == conflicts(pos as int, pos_end as int, tags@),
{
    let mut t: usize = 0;
    while t < tags.len()
        invariant
            t <= tags@.len(),
            !conflicts(pos as int, pos_end as int, tags@.subrange(0, t as int)),
        decreases tags@.len() - t,
    {
        let (s, e) = tags[t];
        if (s <= pos && pos <= e) || (s <= pos_end && pos_end <= e) {
            return true;
        }
        proof {
            let pre = tags@.subrange(0, t + 1);
            assert forall|u: int| 0 <= u < pre.len() implies !((pre[u].0 <= pos && pos
                <= pre[u].1) || (pre[u].0 <= pos_end && pos_end <= pre[u].1)) by {
                if u < t {
                    assert(tags@.subrange(0, t as int)[u] == pre[u]);
                    assert(!conflicts(pos as int, pos_end as int, tags@.subrange(0, t as int)));
                }
            }
        }
        t = t + 1;
    }
    proof {
        assert(tags@.subrange(0, tags@.len() as int) =~= tags@);
    }
    false
}

/// Scanning one keyword left to right from `from`: each occurrence is
/// claimed unless it touches an earlier claim, and the scan resumes
/// right after the occurrence.
pub open spec fn scan_keyword(
    text: Seq<char>,
    kw: Seq<char>,
    from: int,
    tags: Seq<(usize, usize)>,
) -> Seq<(usize, usize)>
    decreases text.len() - from + 1,
{
    if kw.len() == 0 {
        tags
    } else {
        match first_occ(text, kw, from) {
            None => tags,
            Some(p) => {
                if from <= p && p + kw.len() <= text.len() {
                    let e = p + kw.len() - 1;
                    let tags2 = if conflicts(p, e, tags) {
                        tags
                    } else {
                        tags.push((p as usize, e as usize))
                    };
                    scan_keyword(text, kw, p + kw.len(), tags2)
                } else {
                    tags
                }
            },
        }
    }
}

/// All keywords scanned in order, starting from the claims in `tags`.
pub open spec fn all_keyword_tags(
    text: Seq<char>,
    kws: Seq<Seq<char>>,
    k: int,
    tags: Seq<(usize, usize)>,
) -> Seq<(usize, usize)>
    decreases kws.len() - k,
{
    if k < 0 || k >= kws.len() {
        tags
    } else {
        all_keyword_tags(text, kws, k + 1, scan_keyword(text, kws[k], 0, tags))
    }
}

/// The spans the highlighter claims, in the order they are claimed.
pub open spec fn keyword_tags(text: Seq<char>, kws: Seq<Seq<char>>) -> Seq<(usize, usize)> {
    all_keyword_tags(text, kws, 0, Seq::empty())
}

/// Sorted by span start.
pub open spec fn sorted_by_start(tags: Seq<(usize, usize)>) -> bool {
    forall|i: int, j: int| 0 <= i < j < tags.len() ==> (#[trigger] tags[i]).0 <= (#[trigger] tags[j]).0
}

fn sort_tags(tags: Vec<(usize, usize)>) -> (r: Vec<(usize, usize)>)
    ensures
        sorted_by_start(r@),
        r@.to_multiset() == tags@.to_multiset(),
{
    broadcast use vstd::seq_lib::group_to_multiset_ensures;

    let mut out: Vec<(usize, usize)> = Vec::new();
    let mut i: usize = 0;
    proof {
        assert(tags@.subrange(0, 0) =~= Seq::<(usize, usize)>::empty());
    }
    while i < tags.len()
        invariant
            i <= tags@.len(),
            sorted_by_start(out@),
            out@.to_multiset() == tags@.subrange(0, i as int).to_multiset(),
        decreases tags@.len() - i,
    {
        let elem = tags[i];
        let mut pos: usize = 0;
        while pos < out.len() && out[pos].0 <= elem.0
            invariant
                pos <= out@.len(),
                forall|u: int| 0 <= u < pos ==> (#[trigger] out@[u]).0 <= elem.0,
            decreases out@.len() - pos,
        {
            pos = pos + 1;
        }
        let ghost out0 = out@;
        out.insert(pos, elem);
        proof {
            assert(out@ =~= out0.subrange(0, pos as int) + seq![elem] + out0.subrange(
                pos as int,
                out0.len() as int,
            ));
            assert(out@.remove(pos as int) =~= out0);
            assert(out@[pos as int] == elem);
            assert(out@.remove(pos as int).to_multiset() =~= out@.to_multiset().remove(elem));
            assert(out@.contains(elem));
            assert(out@.to_multiset().count(elem) > 0);
            assert forall|x: (usize, usize)| out@.to_multiset().count(x)
                == out0.to_multiset().insert(elem).count(x) by {
                if x == elem {
                    assert(out0.to_multiset().count(x) == out@.to_multiset().remove(elem).count(
                        x,
                    ));
                } else {
                    assert(out0.to_multiset().count(x) == out@.to_multiset().remove(elem).count(
                        x,
                    ));
                }
            }
            assert(out@.to_multiset() =~= out0.to_multiset().insert(elem));
            assert(tags@.subrange(0, i + 1) =~= tags@.subrange(0, i as int).push(elem));
            assert forall|u: int, v: int| 0 <= u < v < out@.len() implies (#[trigger] out@[u]).0
                <= (#[trigger] out@[v]).0 by {
                if v < pos {
                    assert(out@[u] == out0[u] && out@[v] == out0[v]);
                } else if u < pos && v == pos {
                    assert(out@[u] == out0[u]);
                } else if u < pos && v > pos {
                    assert(out@[u] == out0[u] && out@[v] == out0[v - 1]);
                } else if u == pos {
                    assert(out@[v] == out0[v - 1]);
                    assert(pos < out0.len());
                    assert(!(out0[pos as int].0 <= elem.0));
                } else {
                    assert(out@[u] == out0[u - 1] && out@[v] == out0[v - 1]);
                }
            }
        }
        i = i + 1;
    }
    proof {
        assert(tags@.subrange(0, tags@.len() as int) =~= tags@);
    }
    out
}

/// The character positions at which the keywords occur, scanned in
/// caller order with earlier claims winning, sorted by start position.
pub fn keywords_pos(text: &str, keywords: &Vec<String>) -> (r: Vec<(usize, usize)>)
    ensures
        sorted_by_start(r@),
        r@.to_multiset() == keyword_tags(text@, keywords.deep_view()).to_multiset(),
{
    let ghost kws = keywords.deep_view();
    let mut tags: Vec<(usize, usize)> = Vec::new();
    let n = text.unicode_len();
    let mut k: usize = 0;
    proof {
        assert(keyword_tags(text@, kws) == all_keyword_tags(text@, kws, 0, tags@));
    }
    while k < keywords.len()
        invariant
            n == text@.len(),
            k <= keywords@.len(),
            kws == keywords.deep_view(),
            kws.len() == keywords@.len(),
            keyword_tags(text@, kws) == all_keyword_tags(text@, kws, k as int, tags@),
        decreases keywords@.len() - k,
    {
        let keyword = &keywords[k];
        proof {
            assert(kws[k as int] == keyword@);
        }
        let len = keyword.unicode_len();
        if len == 0 {
            proof {
                assert(scan_keyword(text@, kws[k as int], 0, tags@) == tags@);
            }
            k = k + 1;
            continue ;
        }
        let mut start_index: usize = 0;
        loop
            invariant_except_break
                n == text@.len(),
                len == keyword@.len(),
                len >= 1,
                kws == keywords.deep_view(),
                kws.len() == keywords@.len(),
                k < keywords@.len(),
                kws[k as int] == keyword@,
                keyword_tags(text@, kws) == all_keyword_tags(
                    text@,
                    kws,
                    k + 1,
                    scan_keyword(text@, keyword@, start_index as int, tags@),
                ),
            ensures
                keyword_tags(text@, kws) == all_keyword_tags(text@, kws, k + 1, tags@),
                n == text@.len(),
                kws == keywords.deep_view(),
                kws.len() == keywords@.len(),
            decreases n - start_index,
        {
            let found = find_from(text, keyword.as_str(), start_index);
            match found {
                Some(pos) => {
                    let ghost tags0 = tags@;
                    let end = pos + len - 1;
                    if !in_tags(pos, end, &tags) {
                        tags.push((pos, end));
                    }
                    proof {
                        assert(first_occ(text@, keyword@, start_index as int) == Some(
                            pos as int,
                        ));
                        assert(pos + len <= text@.len());
                        assert(scan_keyword(text@, keyword@, start_index as int, tags0)
                            == scan_keyword(text@, keyword@, pos + len, tags@));
                    }
                    start_index = pos + len;
                    if start_index >= n {
                        proof {
                            assert(scan_keyword(text@, keyword@, start_index as int, tags@)
                                == tags@);
                        }
                        break ;
                    }
                },
                None => {
                    proof {
                        assert(scan_keyword(text@, keyword@, start_index as int, tags@) == tags@);
                    }
                    break ;
                },
            }
        }
        k = k + 1;
    }
    sort_tags(tags)
}

/// The first claimed span starting exactly at `pos`, scanning from
/// index `t`.
pub open spec fn first_tag_at(pos: int, tags: Seq<(usize, usize)>, t: int) -> Option<
    (usize, usize),
>
    decreases tags.len() - t,
{
    if t < 0 || t >= tags.len() {
        None
    } else if tags[t].0 == pos {
        Some(tags[t])
    } else {
        first_tag_at(pos, tags, t + 1)
    }
}

pub open spec fn tag_at(pos: int, tags: Seq<(usize, usize)>) -> Option<(usize, usize)> {
    first_tag_at(pos, tags, 0)
}

/// The first claimed span that starts at `pos`, if any.
pub fn in_which_tag(pos: usize, tags: &Vec<(usize, usize)>) -> (r: Option<(usize, usize)>)
    ensures
        r == tag_at(pos as int, tags@),
{
    let mut t: usize = 0;
    while t < tags.len()
        invariant
            t <= tags@.len(),
            tag_at(pos as int, tags@) == first_tag_at(pos as int, tags@, t as int),
        decreases tags@.len() - t,
    {
        let (s, e) = tags[t];
        if s == pos {
            return Some((s, e));
        }
        t = t + 1;
    }
    None
}

/// The text rebuilt from position `i` on, wrapping each claimed span
/// in the opening and closing tags and leaving all else untouched.
pub open spec fn wrap_from(
    text: Seq<char>,
    open_tag: Seq<char>,
    close_tag: Seq<char>,
    tags: Seq<(usize, usize)>,
    i: int,
) -> Seq<char>
    decreases text.len() - i,
{
    if i < 0 || i >= text.len() {
        Seq::empty()
    } else {
        match tag_at(i, tags) {
            Some(t) => {
                if i <= t.1 && t.1 < text.len() {
                    open_tag + text.subrange(i, t.1 + 1) + close_tag + wrap_from(
                        text,
                        open_tag,
                        close_tag,
                        tags,
                        t.1 + 1,
                    )
                } else {
                    text.subrange(i, text.len() as int)
                }
            },
            None => seq![text[i]] + wrap_from(text, open_tag, close_tag, tags, i + 1),
        }
    }
}

/// Rebuilds the text, wrapping every claimed span in the two tags.
pub fn wrap_tags(
    text: &str,
    open_tag: &str,
    close_tag: &str,
    tags: Vec<(usize, usize)>,
) -> (r: String)
    requires
        forall|u: int|
            0 <= u < tags@.len() ==> (#[trigger] tags@[u]).0 <= tags@[u].1 && tags@[u].1
                < text@.len(),
    ensures
        r@ == wrap_from(text@, open_tag@, close_tag@, tags@, 0),
{
    let n = text.unicode_len();
    let mut out = String::new();
    let mut i: usize = 0;
    while i < n
        invariant
            n == text@.len(),
            i <= n,
            forall|u: int|
                0 <= u < tags@.len() ==> (#[trigger] tags@[u]).0 <= tags@[u].1 && tags@[u].1
                    < text@.len(),
            wrap_from(text@, open_tag@, close_tag@, tags@, 0) == out@ + wrap_from(
                text@,
                open_tag@,
                close_tag@,
                tags@,
                i as int,
            ),
        decreases n - i,
    {
        let found = in_which_tag(i, &tags);
        match found {
            Some(t) => {
                proof {
                    lemma_first_tag_at_found(i as int, tags@, 0, t);
                }
                let ghost out0 = out@;
                out.append(open_tag);
                out.append(text.substring_char(i, t.1 + 1));
                out.append(close_tag);
                proof {
                    assert(out@ =~= out0 + open_tag@ + text@.subrange(i as int, t.1 + 1)
                        + close_tag@);
                    assert(out0 + (open_tag@ + text@.subrange(i as int, t.1 + 1) + close_tag@
                        + wrap_from(text@, open_tag@, close_tag@, tags@, t.1 + 1)) =~= out@
                        + wrap_from(text@, open_tag@, close_tag@, tags@, t.1 + 1));
                }
                i = t.1 + 1;
            },
            None => {
                let ghost out0 = out@;
                out.append(text.substring_char(i, i + 1));
                proof {
                    assert(text@.subrange(i as int, i + 1) =~= seq![text@[i as int]]);
                    assert(out@ =~= out0.push(text@[i as int]));
                    assert(out0 + (seq![text@[i as int]] + wrap_from(
                        text@,
                        open_tag@,
                        close_tag@,
                        tags@,
                        i + 1,
                    )) =~= out@ + wrap_from(text@, open_tag@, close_tag@, tags@, i + 1));
                }
                i = i + 1;
            },
        }
    }
    proof {
        assert(out@ + Seq::<char>::empty() =~= out@);
    }
    out
}

proof fn lemma_first_tag_at_found(pos: int, tags: Seq<(usize, usize)>, t: int, found: (
    usize,
    usize,
))
    requires
        first_tag_at(pos, tags, t) == Some(found),
    ensures
        found.0 == pos,
        exists|u: int| 0 <= u < tags.len() && tags[u] == found,
    decreases tags.len() - t,
{
    if 0 <= t < tags.len() {
        if tags[t].0 == pos {
        } else {
            lemma_first_tag_at_found(pos, tags, t + 1, found);
        }
    }
}

/// Neither endpoint of span `b` lies inside span `a`.
pub open spec fn span_outside(b: (usize, usize), a: (usize, usize)) -> bool {
    &&& !(a.0 <= b.0 && b.0 <= a.1)
    &&& !(a.0 <= b.1 && b.1 <= a.1)
}

/// The span is an occurrence of one of the non-empty keywords.
pub open spec fn is_occurrence(t: (usize, usize), text: Seq<char>, kws: Seq<Seq<char>>) -> bool {
    exists|k: int|
        0 <= k < kws.len() && kws[k].len() >= 1 && matches_at(text, kws[k], t.0 as int) && t.1
            == t.0 + kws[k].len() - 1
}

/// Everything the claiming scan guarantees of its spans: each lies
/// within the text, each is a keyword occurrence, and each keeps both
/// endpoints outside every span claimed before it.
pub open spec fn claims_wf(tags: Seq<(usize, usize)>, text: Seq<char>, kws: Seq<Seq<char>>) -> bool {
    &&& forall|i: int|
        0 <= i < tags.len() ==> (#[trigger] tags[i]).0 <= tags[i].1 && tags[i].1 < text.len()
    &&& forall|i: int| 0 <= i < tags.len() ==> is_occurrence(#[trigger] tags[i], text, kws)
    &&& forall|i: int, j: int|
        0 <= i < j < tags.len() ==> span_outside(#[trigger] tags[j], #[trigger] tags[i])
}

proof fn lemma_first_occ_props(text: Seq<char>, pat: Seq<char>, from: int, p: int)
    requires
        first_occ(text, pat, from) == Some(p),
    ensures
        from <= p,
        matches_at(text, pat, p),
    decreases text.len() - from + 1,
{
    if from < 0 || from + pat.len() > text.len() {
    } else if matches_at(text, pat, from) {
    } else {
        lemma_first_occ_props(text, pat, from + 1, p);
    }
}

proof fn lemma_scan_keyword_wf(
    text: Seq<char>,
    kw: Seq<char>,
    from: int,
    tags: Seq<(usize, usize)>,
    kws: Seq<Seq<char>>,
)
    requires
        text.len() <= usize::MAX,
        claims_wf(tags, text, kws),
        kws.contains(kw),
    ensures
        claims_wf(scan_keyword(text, kw, from, tags), text, kws),
    decreases text.len() - from + 1,
{
    if kw.len() == 0 {
    } else {
        match first_occ(text, kw, from) {
            None => {},
            Some(p) => {
                lemma_first_occ_props(text, kw, from, p);
                if from <= p && p + kw.len() <= text.len() {
                    let e = p + kw.len() - 1;
                    if conflicts(p, e, tags) {
                        lemma_scan_keyword_wf(text, kw, p + kw.len(), tags, kws);
                    } else {
                        let nt = ((p as usize), (e as usize));
                        let tags2 = tags.push(nt);
                        assert(0 <= p && p <= e && e < text.len());
                        assert(nt.0 == p && nt.1 == e);
                        assert(claims_wf(tags2, text, kws)) by {
                            let ki = choose|k: int| 0 <= k < kws.len() && kws[k] == kw;
                            assert(is_occurrence(nt, text, kws)) by {
                                assert(kws[ki].len() >= 1 && matches_at(text, kws[ki], nt.0 as int)
                                    && nt.1 == nt.0 + kws[ki].len() - 1);
                            }
                            assert forall|i: int, j: int| 0 <= i < j < tags2.len() implies
                                span_outside(#[trigger] tags2[j], #[trigger] tags2[i]) by {
                                if j < tags.len() {
                                    assert(tags2[j] == tags[j] && tags2[i] == tags[i]);
                                } else {
                                    assert(tags2[j] == nt && tags2[i] == tags[i]);
                                    assert(!conflicts(p, e, tags));
                                    assert(!((tags[i].0 <= p && p <= tags[i].1) || (tags[i].0 <= e
                                        && e <= tags[i].1)));
                                }
                            }
                        }
                        lemma_scan_keyword_wf(text, kw, p + kw.len(), tags2, kws);
                    }
                }
            },
        }
    }
}

proof fn lemma_all_keyword_tags_wf(
    text: Seq<char>,
    kws: Seq<Seq<char>>,
    k: int,
    tags: Seq<(usize, usize)>,
)
    requires
        text.len() <= usize::MAX,
        claims_wf(tags, text, kws),
    ensures
        claims_wf(all_keyword_tags(text, kws, k, tags), text, kws),
    decreases kws.len() - k,
{
    if k < 0 || k >= kws.len() {
    } else {
        assert(kws.contains(kws[k]));
        lemma_scan_keyword_wf(text, kws[k], 0, tags, kws);
        lemma_all_keyword_tags_wf(text, kws, k + 1, scan_keyword(text, kws[k], 0, tags));
    }
}

/// The spans the highlighter claims are in bounds, are occurrences of
/// the keywords, and keep later claims' endpoints outside earlier ones.
pub proof fn lemma_keyword_tags_wf(text: Seq<char>, kws: Seq<Seq<char>>)
    requires
        text.len() <= usize::MAX,
    ensures
        claims_wf(keyword_tags(text, kws), text, kws),
{
    lemma_all_keyword_tags_wf(text, kws, 0, Seq::empty());
}

/// Transfers the scan's guarantees to any sequence holding the same
/// spans, such as the sorted result of `keywords_pos`.
pub proof fn lemma_spans_wf(text: Seq<char>, kws: Seq<Seq<char>>, spans: Seq<(usize, usize)>)
    requires
        text.len() <= usize::MAX,
        spans.to_multiset() == keyword_tags(text, kws).to_multiset(),
    ensures
        forall|i: int|
            0 <= i < spans.len() ==> (#[trigger] spans[i]).0 <= spans[i].1 && spans[i].1
                < text.len(),
        forall|i: int| 0 <= i < spans.len() ==> is_occurrence(#[trigger] spans[i], text, kws),
{
    lemma_keyword_tags_wf(text, kws);
    let kt = keyword_tags(text, kws);
    assert forall|i: int| 0 <= i < spans.len() implies (#[trigger] spans[i]).0 <= spans[i].1
        && spans[i].1 < text.len() && is_occurrence(spans[i], text, kws) by {
        assert(spans.contains(spans[i]));
        assert(spans.to_multiset().count(spans[i]) > 0);
        assert(kt.to_multiset().count(spans[i]) > 0);
        assert(kt.contains(spans[i]));
        let u = choose|u: int| 0 <= u < kt.len() && kt[u] == spans[i];
        assert(kt[u].0 <= kt[u].1 && kt[u].1 < text.len() && is_occurrence(kt[u], text, kws));
    }
}

/// The highlighter's non-overlap law: when every keyword has the same
/// length, the claimed spans — in any order that holds exactly them,
/// sorted by start — are pairwise disjoint, each ending strictly
/// before the next begins.
pub proof fn lemma_match_positions_nonoverlap(
    text: Seq<char>,
    kws: Seq<Seq<char>>,
    spans: Seq<(usize, usize)>,
)
    requires
        text.len() <= usize::MAX,
        spans.to_multiset() == keyword_tags(text, kws).to_multiset(),
        sorted_by_start(spans),
        forall|a: int, b: int|
            0 <= a < kws.len() && 0 <= b < kws.len() ==> kws[a].len() == kws[b].len(),
    ensures
        forall|i: int, j: int| 0 <= i < j < spans.len() ==> (#[trigger] spans[i]).1 < (
        #[trigger] spans[j]).0,
{
    broadcast use vstd::seq_lib::group_to_multiset_ensures;

    lemma_keyword_tags_wf(text, kws);
    lemma_spans_wf(text, kws, spans);
    let kt = keyword_tags(text, kws);
    assert(kt.no_duplicates()) by {
        assert forall|a: int, b: int| 0 <= a < kt.len() && 0 <= b < kt.len() && a != b implies
            kt[a] != kt[b] by {
            if a < b {
                assert(span_outside(kt[b], kt[a]));
            } else {
                assert(span_outside(kt[a], kt[b]));
            }
        }
    }
    kt.lemma_multiset_has_no_duplicates();
    spans.lemma_multiset_has_no_duplicates_conv();
    assert forall|i: int, j: int| 0 <= i < j < spans.len() implies (#[trigger] spans[i]).1 < (
    #[trigger] spans[j]).0 by {
        let s1 = spans[i];
        let s2 = spans[j];
        assert(spans.contains(s1) && spans.contains(s2));
        assert(spans.to_multiset().count(s1) > 0 && spans.to_multiset().count(s2) > 0);
        assert(kt.to_multiset().count(s1) > 0 && kt.to_multiset().count(s2) > 0);
        assert(kt.contains(s1) && kt.contains(s2));
        let a = choose|a: int| 0 <= a < kt.len() && kt[a] == s1;
        let b = choose|b: int| 0 <= b < kt.len() && kt[b] == s2;
        assert(s1 != s2) by {
            assert(spans.no_duplicates());
        }
        assert(a != b);
        let ka = choose|k: int|
            0 <= k < kws.len() && kws[k].len() >= 1 && matches_at(text, kws[k], s1.0 as int)
                && s1.1 == s1.0 + kws[k].len() - 1;
        let kb = choose|k: int|
            0 <= k < kws.len() && kws[k].len() >= 1 && matches_at(text, kws[k], s2.0 as int)
                && s2.1 == s2.0 + kws[k].len() - 1;
        assert(kws[ka].len() == kws[kb].len());
        assert(s1.1 - s1.0 == s2.1 - s2.0);
        assert(s1.0 <= s2.0);
        if s2.0 <= s1.1 {
            if a < b {
                assert(span_outside(kt[b], kt[a]));
                assert(false);
            } else {
                assert(span_outside(kt[a], kt[b]));
                assert(s1.0 < s2.0 || s1.0 > s2.1);
                assert(false);
            }
        }
    }
}

/// The context window around an occurrence at `pos`: up to `size`
/// characters before the match, the match itself, and up to `size`
/// characters after it.
pub open spec fn snippet_at(text: Seq<char>, klen: nat, pos: int, size: nat) -> Seq<char> {
    let skip = if pos > size { pos - size } else { 0 };
    let next = text.len() - (pos + klen);
    let take_next: int = if next > size { size as int } else { next };
    text.subrange(skip, pos + klen + take_next)
}

/// The snippets for one keyword: occurrences are taken left to right,
/// at most `remaining` of them.
pub open spec fn snips_for(
    text: Seq<char>,
    kw: Seq<char>,
    from: int,
    remaining: nat,
    size: nat,
) -> Seq<Seq<char>>
    decreases remaining,
{
    if remaining == 0 {
        Seq::empty()
    } else {
        match first_occ(text, kw, from) {
            None => Seq::empty(),
            Some(p) => seq![snippet_at(text, kw.len(), p, size)] + snips_for(
                text,
                kw,
                p + kw.len(),
                (remaining - 1) as nat,
                size,
            ),
        }
    }
}

/// The snippets of every keyword in caller order, each keyword scanned
/// independently.
pub open spec fn all_snips(
    text: Seq<char>,
    kws: Seq<Seq<char>>,
    k: int,
    size: nat,
    cap: nat,
) -> Seq<Seq<char>>
    decreases kws.len() - k,
{
    if k < 0 || k >= kws.len() {
        Seq::empty()
    } else {
        snips_for(text, kws[k], 0, cap, size) + all_snips(text, kws, k + 1, size, cap)
    }
}

/// For each keyword, the context snippets of its first occurrences: up
/// to `snippet_size` characters on both sides of each match, and at
/// most `per_key_snippet_max_count + 1` snippets per keyword.
pub fn find_text_snippets(
    text: &str,
    keywords: &Vec<String>,
    snippet_size: usize,
    per_key_snippet_max_count: usize,
) -> (r: Vec<String>)
    requires
        per_key_snippet_max_count < usize::MAX,
    ensures
        r.deep_view() == all_snips(
            text@,
            keywords.deep_view(),
            0,
            snippet_size as nat,
            (per_key_snippet_max_count + 1) as nat,
        ),
{
    let ghost kws = keywords.deep_view();
    let ghost cap = (per_key_snippet_max_count + 1) as nat;
    let ghost size = snippet_size as nat;
    let n = text.unicode_len();
    let mut snippets: Vec<String> = Vec::new();
    let mut k: usize = 0;
    proof {
        assert(snippets.deep_view() =~= Seq::<Seq<char>>::empty());
        assert(Seq::<Seq<char>>::empty() + all_snips(text@, kws, 0, size, cap) =~= all_snips(
            text@,
            kws,
            0,
            size,
            cap,
        ));
    }
    while k < keywords.len()
        invariant
            n == text@.len(),
            k <= keywords@.len(),
            kws == keywords.deep_view(),
            kws.len() == keywords@.len(),
            cap == (per_key_snippet_max_count + 1) as nat,
            per_key_snippet_max_count < usize::MAX,
            size == snippet_size as nat,
            all_snips(text@, kws, 0, size, cap) == snippets.deep_view() + all_snips(
                text@,
                kws,
                k as int,
                size,
                cap,
            ),
        decreases keywords@.len() - k,
    {
        let keyword = &keywords[k];
        proof {
            assert(kws[k as int] == keyword@);
        }
        let klen = keyword.unicode_len();
        let mut start: usize = 0;
        let mut find_count: usize = 0;
        loop
            invariant_except_break
                n == text@.len(),
                klen == keyword@.len(),
                kws == keywords.deep_view(),
                kws.len() == keywords@.len(),
                k < keywords@.len(),
                kws[k as int] == keyword@,
                cap == (per_key_snippet_max_count + 1) as nat,
                per_key_snippet_max_count < usize::MAX,
                size == snippet_size as nat,
                find_count <= per_key_snippet_max_count,
                all_snips(text@, kws, 0, size, cap) == snippets.deep_view() + snips_for(
                    text@,
                    keyword@,
                    start as int,
                    (cap - find_count) as nat,
                    size,
                ) + all_snips(text@, kws, k + 1, size, cap),
            ensures
                n == text@.len(),
                kws == keywords.deep_view(),
                kws.len() == keywords@.len(),
                cap == (per_key_snippet_max_count + 1) as nat,
                per_key_snippet_max_count < usize::MAX,
                size == snippet_size as nat,
                all_snips(text@, kws, 0, size, cap) == snippets.deep_view() + all_snips(
                    text@,
                    kws,
                    k + 1,
                    size,
                    cap,
                ),
            decreases per_key_snippet_max_count - find_count,
        {
            let found = find_from(text, keyword.as_str(), start);
            match found {
                Some(pos) => {
                    let skip = if pos > snippet_size {
                        pos - snippet_size
                    } else {
                        0
                    };
                    let next = n - (pos + klen);
                    let take_next = if next > snippet_size {
                        snippet_size
                    } else {
                        next
                    };
                    let snippet = text.substring_char(skip, pos + klen + take_next);
                    let ghost snips0 = snippets.deep_view();
                    snippets.push(String::from_str(snippet));
                    proof {
                        assert(snippet@ == snippet_at(text@, klen as nat, pos as int, size));
                        assert(snippets.deep_view() =~= snips0.push(snippet@));
                        let rest = snips_for(
                            text@,
                            keyword@,
                            pos + klen,
                            (cap - find_count - 1) as nat,
                            size,
                        );
                        assert(snips_for(text@, keyword@, start as int, (cap - find_count) as nat, size)
                            =~= seq![snippet@] + rest);
                        assert(snips0 + (seq![snippet@] + rest) =~= snips0.push(snippet@) + rest);
                    }
                    find_count = find_count + 1;
                    if find_count > per_key_snippet_max_count {
                        proof {
                            assert((cap - find_count) as nat == 0);
                            assert(snips_for(text@, keyword@, pos + klen, 0, size)
                                =~= Seq::<Seq<char>>::empty());
                            assert(snippets.deep_view() + Seq::<Seq<char>>::empty()
                                + all_snips(text@, kws, k + 1, size, cap) =~= snippets.deep_view()
                                + all_snips(text@, kws, k + 1, size, cap));
                        }
                        break ;
                    }
                    start = pos + klen;
                },
                None => {
                    proof {
                        assert(snips_for(
                            text@,
                            keyword@,
                            start as int,
                            (cap - find_count) as nat,
                            size,
                        ) =~= Seq::<Seq<char>>::empty());
                        assert(snippets.deep_view() + Seq::<Seq<char>>::empty() + all_snips(
                            text@,
                            kws,
                            k + 1,
                            size,
                            cap,
                        ) =~= snippets.deep_view() + all_snips(text@, kws, k + 1, size, cap));
                    }
                    break ;
                },
            }
        }
        k = k + 1;
    }
    proof {
        assert(all_snips(text@, kws, kws.len() as int, size, cap) =~= Seq::<Seq<char>>::empty());
        assert(snippets.deep_view() + Seq::<Seq<char>>::empty() =~= snippets.deep_view());
    }
    snippets
}

/// Wraps every claimed keyword occurrence in the two tags; an empty
/// text yields an empty result.
pub fn wrap_keywords(
    text: &str,
    keywords: &Vec<String>,
    open_tag: &str,
    close_tag: &str,
) -> (r: String)
    ensures
        text@.len() == 0 ==> r@ == Seq::<char>::empty(),
        text@.len() > 0 ==> exists|spans: Seq<(usize, usize)>|
            spans.to_multiset() == keyword_tags(text@, keywords.deep_view()).to_multiset()
                && sorted_by_start(spans) && r@ == wrap_from(
                text@,
                open_tag@,
                close_tag@,
                spans,
                0,
            ),
{
    if text.is_empty() {
        return String::new();
    }
    let _n = text.unicode_len();
    let tags = keywords_pos(text, keywords);
    proof {
        lemma_spans_wf(text@, keywords.deep_view(), tags@);
    }
    let r = wrap_tags(text, open_tag, close_tag, tags);
    proof {
        let ghost spans = tags@;
        assert(spans.to_multiset() == keyword_tags(text@, keywords.deep_view()).to_multiset()
            && sorted_by_start(spans) && r@ == wrap_from(text@, open_tag@, close_tag@, spans, 0));
    }
    r
}

} // verus!
