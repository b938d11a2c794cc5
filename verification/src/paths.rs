//! Path sanitization, request-path normalization and the pretty-URL
//! candidate chain.
//!
//! A raw request path is split on `/`; empty and `.` segments are dropped,
//! `..` pops the last accepted segment and rejects the whole path when there
//! is nothing left to pop, and every other segment is kept verbatim.  The
//! surviving segments joined with `/` form a root-relative path that can
//! never escape the asset root.

use vstd::prelude::*;

verus! {

/// The segments of `s`, split on `/`.  Splitting never yields an empty
/// list: the empty string has the single empty segment.
pub open spec fn split_path(s: Seq<char>) -> Seq<Seq<char>>
    decreases s.len(),
{
    if s.len() == 0 {
        seq![Seq::<char>::empty()]
    } else if s[0] == '/' {
        seq![Seq::<char>::empty()] + split_path(s.drop_first())
    } else {
        let rest = split_path(s.drop_first());
        seq![seq![s[0]] + rest[0]] + rest.drop_first()
    }
}

/// A segment that is dropped without effect: empty or the current directory.
pub open spec fn seg_skippable(s: Seq<char>) -> bool {
    s.len() == 0 || s == seq!['.']
}

/// A parent-directory segment, which pops the last accepted segment.
pub open spec fn seg_parent(s: Seq<char>) -> bool {
    s == seq!['.', '.']
}

/// Folds the segments `segs` over the accumulator `acc` of already accepted
/// segments; `None` means a parent segment tried to pop an empty
/// accumulator, i.e. the path attempted to escape the root.
pub open spec fn clean_from(acc: Seq<Seq<char>>, segs: Seq<Seq<char>>) -> Option<Seq<Seq<char>>>
    decreases segs.len(),
{
    if segs.len() == 0 {
        Some(acc)
    } else if seg_skippable(segs[0]) {
        clean_from(acc, segs.drop_first())
    } else if seg_parent(segs[0]) {
        if acc.len() == 0 {
            None
        } else {
            clean_from(acc.drop_last(), segs.drop_first())
        }
    } else {
        clean_from(acc.push(segs[0]), segs.drop_first())
    }
}

/// The segments joined back together with `/`.
pub open spec fn join_path(segs: Seq<Seq<char>>) -> Seq<char>
    decreases segs.len(),
{
    if segs.len() == 0 {
        Seq::<char>::empty()
    } else if segs.len() == 1 {
        segs[0]
    } else {
        join_path(segs.drop_last()) + seq!['/'] + segs.last()
    }
}

/// What sanitization returns: the accepted segments joined with `/`, or
/// `None` for a traversal attempt.
pub open spec fn sanitize_spec(raw: Seq<char>) -> Option<Seq<char>> {
    match clean_from(Seq::<Seq<char>>::empty(), split_path(raw)) {
        Some(segs) => Some(join_path(segs)),
        None => None,
    }
}

/// The views of a sequence of strings.
pub open spec fn strs_view(v: Seq<String>) -> Seq<Seq<char>> {
    v.map_values(|s: String| s@)
}

/// The Unicode white-space characters, as trimming removes them.
pub open spec fn is_space_char(c: char) -> bool {
    c == ' ' || c == '\t' || c == '\n' || c == '\r' || c == '\u{b}' || c == '\u{c}'
        || c == '\u{85}' || c == '\u{a0}' || c == '\u{1680}'
        || ('\u{2000}' <= c && c <= '\u{200a}')
        || c == '\u{2028}' || c == '\u{2029}' || c == '\u{202f}' || c == '\u{205f}'
        || c == '\u{3000}'
}

/// `s` with leading white space removed.
pub open spec fn trim_start_spec(s: Seq<char>) -> Seq<char>
    decreases s.len(),
{
    if s.len() > 0 && is_space_char(s[0]) {
        trim_start_spec(s.drop_first())
    } else {
        s
    }
}

/// `s` with trailing white space removed.
pub open spec fn trim_end_spec(s: Seq<char>) -> Seq<char>
    decreases s.len(),
{
    if s.len() > 0 && is_space_char(s.last()) {
        trim_end_spec(s.drop_last())
    } else {
        s
    }
}

/// `s` with white space removed on both ends.
pub open spec fn trim_spec(s: Seq<char>) -> Seq<char> {
    trim_end_spec(trim_start_spec(s))
}

/// The path that the empty request and the bare `/` normalize to.
pub open spec fn index_html() -> Seq<char> {
    "index.html"@
}

/// What request-path normalization returns: white space is trimmed, the
/// empty path and `/` become `index.html`, a single leading `/` is stripped
/// and the remainder is sanitized; an empty sanitized result also becomes
/// `index.html`.
pub open spec fn normalize_spec(raw: Seq<char>) -> Option<Seq<char>> {
    let t = trim_spec(raw);
    if t.len() == 0 || t == seq!['/'] {
        Some(index_html())
    } else {
        let stripped = if t[0] == '/' {
            t.drop_first()
        } else {
            t
        };
        match sanitize_spec(stripped) {
            Some(p) => Some(if p.len() == 0 { index_html() } else { p }),
            None => None,
        }
    }
}

/// The final segment of `p`: everything after the last `/`.
pub open spec fn basename_spec(p: Seq<char>) -> Seq<char>
    decreases p.len(),
{
    if p.len() == 0 {
        p
    } else if p.last() == '/' {
        Seq::<char>::empty()
    } else {
        basename_spec(p.drop_last()).push(p.last())
    }
}

/// The ordered fallback chain for a normalized path: the path itself always
/// comes first; an extensionless final segment adds `.html` and
/// `/index.html` variants, in that order.
pub open spec fn candidates_spec(p: Seq<char>) -> Seq<Seq<char>> {
    if basename_spec(p).contains('.') {
        seq![p]
    } else {
        seq![p, p + ".html"@, p + "/index.html"@]
    }
}

/// The accumulator movement a single segment causes: nothing for a dropped
/// segment, one pop for `..`, one push for anything else.
pub open spec fn seg_delta(s: Seq<char>) -> int {
    if seg_skippable(s) {
        0int
    } else if seg_parent(s) {
        -1int
    } else {
        1int
    }
}

/// The net accumulator depth after the first `k` segments.
pub open spec fn depth_after(segs: Seq<Seq<char>>, k: int) -> int
    decreases k,
{
    if k <= 0 {
        0int
    } else {
        depth_after(segs, k - 1) + seg_delta(segs[k - 1])
    }
}

proof fn lemma_split_path_nonempty(s: Seq<char>)
    ensures
        split_path(s).len() >= 1,
    decreases s.len(),
{
    if s.len() != 0 {
        lemma_split_path_nonempty(s.drop_first());
    }
}

/// If `s[start..end)` holds no separator and `end` sits on a separator or at
/// the end of the string, that range is exactly the first segment of the
/// remainder of the split starting at `start`.
pub(crate) proof fn lemma_split_at_boundary(s: Seq<char>, start: int, end: int)
    requires
        0 <= start <= end <= s.len(),
        forall|k: int| start <= k < end ==> s[k] != '/',
        end == s.len() || s[end] == '/',
    ensures
        end == s.len() ==> split_path(s.skip(start)) =~~= seq![s.subrange(start, end)],
        end < s.len() ==> split_path(s.skip(start)) =~~= seq![s.subrange(start, end)]
            + split_path(s.skip(end + 1)),
    decreases end - start,
{
    if start == end {
        if end == s.len() {
            assert(s.skip(start) =~= Seq::<char>::empty());
        } else {
            assert(s.skip(start)[0] == s[end]);
            assert(s.skip(start).drop_first() =~= s.skip(end + 1));
            assert(s.subrange(start, end) =~= Seq::<char>::empty());
        }
    } else {
        assert(s.skip(start)[0] == s[start]);
        assert(s[start] != '/');
        assert(s.skip(start).drop_first() =~= s.skip(start + 1));
        lemma_split_at_boundary(s, start + 1, end);
        lemma_split_path_nonempty(s.skip(start + 1));
        let rest = split_path(s.skip(start + 1));
        assert(rest[0] =~= s.subrange(start + 1, end));
        assert(seq![s[start]] + rest[0] =~= s.subrange(start, end));
    }
}

/// Turns an arbitrary relative path into a safe root-relative path, or
/// returns `None` when a `..` segment would climb above the root.
pub fn sanitize_relative_path(raw: &str) -> (r: Option<String>)
    ensures
        r.deep_view() == sanitize_spec(raw@),
{
    let ghost s = raw@;
    let n = raw.unicode_len();
    let mut segs: Vec<String> = Vec::new();
    let mut start: usize = 0;
    let mut done = false;
    proof {
        assert(s.skip(0) =~= s);
        assert(strs_view(segs@) =~~= Seq::<Seq<char>>::empty());
    }
    while !done
        invariant
            n == s.len(),
            raw@ == s,
            start <= n,
            !done ==> clean_from(Seq::<Seq<char>>::empty(), split_path(s))
                == clean_from(strs_view(segs@), split_path(s.skip(start as int))),
            done ==> clean_from(Seq::<Seq<char>>::empty(), split_path(s))
                == Some(strs_view(segs@)),
        decreases n - start + (if done { 0int } else { 1int }),
    {
        let mut end = start;
        while end < n && raw.get_char(end) != '/'
            invariant
                n == s.len(),
                raw@ == s,
                start <= end <= n,
                forall|k: int| start <= k < end ==> s[k] != '/',
            decreases n - end,
        {
            end = end + 1;
        }
        let ghost sub = s.subrange(start as int, end as int);
        proof {
            lemma_split_at_boundary(s, start as int, end as int);
        }
        let seg_len = end - start;
        let skippable = seg_len == 0 || (seg_len == 1 && raw.get_char(start) == '.');
        let parent =
            seg_len == 2 && raw.get_char(start) == '.' && raw.get_char(start + 1) == '.';
        proof {
            if seg_len == 1 && s[start as int] == '.' {
                assert(sub =~= seq!['.']);
            }
            if seg_len == 2 && s[start as int] == '.' && s[start as int + 1] == '.' {
                assert(sub =~= seq!['.', '.']);
            }
            assert(sub.len() == seg_len);
        }
        let ghost acc = strs_view(segs@);
        let ghost tail = if end < n {
            split_path(s.skip(end as int + 1))
        } else {
            Seq::<Seq<char>>::empty()
        };
        proof {
            assert(split_path(s.skip(start as int)) =~~= seq![sub] + tail);
            assert((seq![sub] + tail)[0] == sub);
            assert((seq![sub] + tail).drop_first() =~~= tail);
        }
        if skippable {
            proof {
                assert(clean_from(acc, seq![sub] + tail) == clean_from(acc, tail));
            }
        } else if parent {
            if segs.len() == 0 {
                proof {
                    assert(acc.len() == 0);
                    assert(clean_from(acc, seq![sub] + tail) is None);
                }
                return None;
            }
            let _ = segs.pop();
            proof {
                assert(strs_view(segs@) =~~= acc.drop_last());
                assert(clean_from(acc, seq![sub] + tail)
                    == clean_from(acc.drop_last(), tail));
            }
        } else {
            let seg = raw.substring_char(start, end);
            segs.push(seg.to_owned());
            proof {
                assert(strs_view(segs@) =~~= acc.push(sub));
                assert(clean_from(acc, seq![sub] + tail) == clean_from(acc.push(sub), tail));
            }
        }
        if end == n {
            done = true;
            proof {
                assert(clean_from(strs_view(segs@), Seq::<Seq<char>>::empty())
                    == Some(strs_view(segs@)));
            }
        } else {
            start = end + 1;
        }
    }
    let mut out = String::new();
    let mut i: usize = 0;
    while i < segs.len()
        invariant
            clean_from(Seq::<Seq<char>>::empty(), split_path(s)) == Some(strs_view(segs@)),
            i <= segs.len(),
            out@ == join_path(strs_view(segs@).take(i as int)),
        decreases segs.len() - i,
    {
        if i > 0 {
            out.append("/");
        }
        out.append(segs[i].as_str());
        proof {
            let v = strs_view(segs@);
            assert(v.take(i as int + 1).drop_last() =~~= v.take(i as int));
            assert(v.take(i as int + 1).last() == v[i as int]);
            if i > 0 {
                reveal_strlit("/");
                assert("/"@ =~= seq!['/']);
            }
        }
        i = i + 1;
    }
    proof {
        assert(strs_view(segs@).take(segs@.len() as int) =~~= strs_view(segs@));
    }
    Some(out)
}

pub(crate) fn is_space(c: char) -> (b: bool)
    ensures
        b == is_space_char(c),
{
    c == ' ' || c == '\t' || c == '\n' || c == '\r' || c == '\u{b}' || c == '\u{c}'
        || c == '\u{85}' || c == '\u{a0}' || c == '\u{1680}'
        || ('\u{2000}' <= c && c <= '\u{200a}')
        || c == '\u{2028}' || c == '\u{2029}' || c == '\u{202f}' || c == '\u{205f}'
        || c == '\u{3000}'
}

/// Normalizes an untrusted request path into a root-relative asset path, or
/// `None` for a traversal attempt.
pub fn normalize_request_path(request_path: &str) -> (r: Option<String>)
    ensures
        r.deep_view() == normalize_spec(request_path@),
{
    let ghost s = request_path@;
    let n = request_path.unicode_len();
    let mut a: usize = 0;
    proof {
        assert(s.skip(0) =~= s);
    }
    while a < n && is_space(request_path.get_char(a))
        invariant
            n == s.len(),
            request_path@ == s,
            a <= n,
            trim_start_spec(s) == trim_start_spec(s.skip(a as int)),
        decreases n - a,
    {
        proof {
            assert(s.skip(a as int)[0] == s[a as int]);
            assert(s.skip(a as int).drop_first() =~= s.skip(a as int + 1));
        }
        a = a + 1;
    }
    proof {
        if a == n {
            assert(s.skip(a as int) =~= Seq::<char>::empty());
        }
        assert(trim_start_spec(s) =~= s.skip(a as int));
        assert(s.skip(a as int) =~= s.subrange(a as int, n as int));
    }
    let mut b = n;
    while b > a && is_space(request_path.get_char(b - 1))
        invariant
            n == s.len(),
            request_path@ == s,
            a <= b <= n,
            trim_start_spec(s) =~= s.subrange(a as int, n as int),
            trim_spec(s) == trim_end_spec(s.subrange(a as int, b as int)),
        decreases b,
    {
        proof {
            assert(s.subrange(a as int, b as int).last() == s[b as int - 1]);
            assert(s.subrange(a as int, b as int).drop_last()
                =~= s.subrange(a as int, b as int - 1));
        }
        b = b - 1;
    }
    let ghost t = trim_spec(s);
    proof {
        assert(t =~= s.subrange(a as int, b as int));
    }
    let trimmed = request_path.substring_char(a, b);
    let tn = b - a;
    if tn == 0 {
        return Some("index.html".to_owned());
    }
    if tn == 1 && trimmed.get_char(0) == '/' {
        proof {
            assert(t =~= seq!['/']);
        }
        return Some("index.html".to_owned());
    }
    proof {
        if t == seq!['/'] {
            assert(t.len() == 1 && t[0] == '/');
        }
    }
    let stripped = if trimmed.get_char(0) == '/' {
        proof {
            assert(trimmed@.subrange(1, tn as int) =~= t.drop_first());
        }
        trimmed.substring_char(1, tn)
    } else {
        trimmed
    };
    match sanitize_relative_path(stripped) {
        None => None,
        Some(cleaned) => {
            if cleaned.as_str().unicode_len() == 0 {
                Some("index.html".to_owned())
            } else {
                Some(cleaned)
            }
        },
    }
}

/// If nothing in `s[j..]` is a separator and `j` begins right after one (or
/// at the start), then `s[j..]` is exactly the final segment.
pub(crate) proof fn lemma_basename_range(s: Seq<char>, j: int)
    requires
        0 <= j <= s.len(),
        forall|k: int| j <= k < s.len() ==> s[k] != '/',
        j == 0 || s[j - 1] == '/',
    ensures
        basename_spec(s) =~= s.subrange(j, s.len() as int),
    decreases s.len(),
{
    if j == s.len() {
        if s.len() > 0 {
            assert(s.last() == s[j - 1]);
        }
    } else {
        assert(s.last() != '/');
        lemma_basename_range(s.drop_last(), j);
        assert(basename_spec(s) =~= s.drop_last().subrange(j, s.len() - 1).push(s.last()));
    }
}

/// The candidate chain for a normalized path, in resolution order.
pub fn candidate_paths(normalized_path: &str) -> (r: Vec<String>)
    ensures
        r.deep_view() == candidates_spec(normalized_path@),
{
    let ghost s = normalized_path@;
    let n = normalized_path.unicode_len();
    let mut i = n;
    let mut has_dot = false;
    let mut stop = false;
    while i > 0 && !stop
        invariant
            n == s.len(),
            normalized_path@ == s,
            i <= n,
            forall|k: int| i <= k < n ==> s[k] != '/',
            has_dot == (exists|k: int| i <= k < n && s[k] == '.'),
            stop ==> i > 0 && s[i as int - 1] == '/',
        decreases i + (if stop { 0int } else { 1int }),
    {
        let c = normalized_path.get_char(i - 1);
        if c == '/' {
            stop = true;
        } else {
            proof {
                if c == '.' {
                    assert(s[i as int - 1] == '.');
                }
                if !(exists|k: int| i as int <= k < n && s[k] == '.') && c != '.' {
                    assert forall|k: int| i as int - 1 <= k < n implies s[k] != '.' by {
                        if k == i as int - 1 {
                        } else {
                            assert(!(i as int <= k < n && s[k] == '.'));
                        }
                    }
                }
            }
            if c == '.' {
                has_dot = true;
            }
            i = i - 1;
        }
    }
    proof {
        lemma_basename_range(s, i as int);
        let bn = s.subrange(i as int, n as int);
        if has_dot {
            let k = choose|k: int| i as int <= k < n && s[k] == '.';
            assert(bn[k - i as int] == '.');
            assert(bn.contains('.'));
        } else {
            assert(!bn.contains('.')) by {
                if bn.contains('.') {
                    let idx = choose|idx: int| 0 <= idx < bn.len() && bn[idx] == '.';
                    assert(s[i as int + idx] == '.');
                }
            }
        }
    }
    let mut out: Vec<String> = Vec::new();
    out.push(normalized_path.to_owned());
    if !has_dot {
        let mut with_html = normalized_path.to_owned();
        with_html.append(".html");
        out.push(with_html);
        let mut with_index = normalized_path.to_owned();
        with_index.append("/index.html");
        out.push(with_index);
        proof {
            assert(out.deep_view() =~~= candidates_spec(s));
        }
        out
    } else {
        proof {
            assert(out.deep_view() =~~= candidates_spec(s));
        }
        out
    }
}

proof fn lemma_depth_shift(segs: Seq<Seq<char>>, k: int)
    requires
        1 <= k <= segs.len(),
    ensures
        depth_after(segs, k) == seg_delta(segs[0]) + depth_after(segs.drop_first(), k - 1),
    decreases k,
{
    if k == 1 {
        assert(depth_after(segs, 1) == depth_after(segs, 0) + seg_delta(segs[0]));
        assert(depth_after(segs.drop_first(), 0) == 0);
    } else {
        lemma_depth_shift(segs, k - 1);
        assert(segs.drop_first()[k - 2] == segs[k - 1]);
        assert(depth_after(segs, k) == depth_after(segs, k - 1) + seg_delta(segs[k - 1]));
        assert(depth_after(segs.drop_first(), k - 1) == depth_after(segs.drop_first(), k - 2)
            + seg_delta(segs.drop_first()[k - 2]));
    }
}

proof fn lemma_clean_from_depth(acc: Seq<Seq<char>>, segs: Seq<Seq<char>>)
    ensures
        (clean_from(acc, segs) is None) <==> (exists|k: int|
            0 <= k <= segs.len() && acc.len() + depth_after(segs, k) < 0),
    decreases segs.len(),
{
    if segs.len() == 0 {
        assert(forall|k: int| 0 <= k <= 0 ==> depth_after(segs, k) == 0);
    } else {
        let rest = segs.drop_first();
        let d = seg_delta(segs[0]);
        let acc2 = if seg_skippable(segs[0]) {
            acc
        } else if seg_parent(segs[0]) {
            acc.drop_last()
        } else {
            acc.push(segs[0])
        };
        if seg_parent(segs[0]) && acc.len() == 0 {
            assert(depth_after(segs, 1) == depth_after(segs, 0) + seg_delta(segs[0]));
            assert(acc.len() + depth_after(segs, 1) < 0);
        } else {
            lemma_clean_from_depth(acc2, rest);
            assert(acc2.len() == acc.len() + d);
            assert(clean_from(acc, segs) == clean_from(acc2, rest));
            if exists|k: int| 0 <= k <= rest.len() && acc2.len() + depth_after(rest, k) < 0 {
                let k = choose|k: int| 0 <= k <= rest.len() && acc2.len() + depth_after(
                    rest,
                    k,
                ) < 0;
                lemma_depth_shift(segs, k + 1);
                assert(acc.len() + depth_after(segs, k + 1) < 0);
            }
            if exists|k: int| 0 <= k <= segs.len() && acc.len() + depth_after(segs, k) < 0 {
                let k = choose|k: int|
                    0 <= k <= segs.len() && acc.len() + depth_after(segs, k) < 0;
                if k == 0 {
                    assert(acc.len() + depth_after(segs, 0) < 0);
                    assert(false);
                } else {
                    lemma_depth_shift(segs, k);
                    assert(acc2.len() + depth_after(rest, k - 1) < 0);
                }
            }
        }
    }
}

/// A raw path is rejected by sanitization exactly when, at some point while
/// reading its segments left to right, the `..` segments seen so far have
/// popped more segments than were pushed; in particular any path that climbs
/// above the root is absent.
pub proof fn lemma_traversal_rejection(raw: Seq<char>)
    ensures
        (sanitize_spec(raw) is None) <==> (exists|k: int|
            0 <= k <= split_path(raw).len() && depth_after(split_path(raw), k) < 0),
{
    lemma_clean_from_depth(Seq::<Seq<char>>::empty(), split_path(raw));
}

/// A segment with no separator in it.
pub open spec fn seg_slash_free(seg: Seq<char>) -> bool {
    forall|j: int| 0 <= j < seg.len() ==> seg[j] != '/'
}

/// A well-formed root-relative path, as sanitization produces it: non-empty,
/// no leading separator, and no empty, current-directory or
/// parent-directory segments.
pub open spec fn normalized_path_wf(p: Seq<char>) -> bool {
    p.len() > 0 && p[0] != '/' && forall|i: int|
        0 <= i < split_path(p).len() ==> !seg_skippable(#[trigger] split_path(p)[i])
            && !seg_parent(split_path(p)[i])
}

proof fn lemma_split_slash_free(s: Seq<char>)
    ensures
        forall|i: int|
            0 <= i < split_path(s).len() ==> seg_slash_free(#[trigger] split_path(s)[i]),
    decreases s.len(),
{
    if s.len() == 0 {
    } else {
        lemma_split_slash_free(s.drop_first());
        let rest = split_path(s.drop_first());
        if s[0] == '/' {
            assert forall|i: int| 0 <= i < split_path(s).len() implies seg_slash_free(
                #[trigger] split_path(s)[i],
            ) by {
                if i > 0 {
                    assert(split_path(s)[i] == rest[i - 1]);
                }
            }
        } else {
            lemma_split_path_nonempty(s.drop_first());
            assert forall|i: int| 0 <= i < split_path(s).len() implies seg_slash_free(
                #[trigger] split_path(s)[i],
            ) by {
                if i == 0 {
                    assert(split_path(s)[0] == seq![s[0]] + rest[0]);
                    assert(seg_slash_free(rest[0]));
                    assert(forall|j: int|
                        0 <= j < (seq![s[0]] + rest[0]).len() ==> (seq![s[0]] + rest[0])[j]
                            != '/');
                } else {
                    assert(split_path(s)[i] == rest.drop_first()[i - 1]);
                    assert(rest.drop_first()[i - 1] == rest[i]);
                }
            }
        }
    }
}

proof fn lemma_clean_from_good(acc: Seq<Seq<char>>, segs: Seq<Seq<char>>)
    requires
        forall|i: int|
            0 <= i < acc.len() ==> !seg_skippable(#[trigger] acc[i]) && !seg_parent(acc[i])
                && seg_slash_free(acc[i]),
        forall|i: int| 0 <= i < segs.len() ==> seg_slash_free(#[trigger] segs[i]),
        clean_from(acc, segs) is Some,
    ensures
        forall|i: int|
            0 <= i < clean_from(acc, segs).unwrap().len() ==> !seg_skippable(
                #[trigger] clean_from(acc, segs).unwrap()[i],
            ) && !seg_parent(clean_from(acc, segs).unwrap()[i]) && seg_slash_free(
                clean_from(acc, segs).unwrap()[i],
            ),
    decreases segs.len(),
{
    if segs.len() == 0 {
    } else {
        let rest = segs.drop_first();
        assert(forall|i: int| 0 <= i < rest.len() ==> rest[i] == segs[i + 1]);
        if seg_skippable(segs[0]) {
            lemma_clean_from_good(acc, rest);
        } else if seg_parent(segs[0]) {
            assert(forall|i: int|
                0 <= i < acc.drop_last().len() ==> acc.drop_last()[i] == acc[i]);
            lemma_clean_from_good(acc.drop_last(), rest);
        } else {
            assert(seg_slash_free(segs[0]));
            assert(forall|i: int|
                0 <= i < acc.push(segs[0]).len() ==> acc.push(segs[0])[i] == (if i < acc.len() {
                    acc[i]
                } else {
                    segs[0]
                }));
            lemma_clean_from_good(acc.push(segs[0]), rest);
        }
    }
}

proof fn lemma_split_of_slash_free(seg: Seq<char>)
    requires
        seg_slash_free(seg),
    ensures
        split_path(seg) =~~= seq![seg],
    decreases seg.len(),
{
    if seg.len() > 0 {
        assert(seg[0] != '/');
        assert(seg_slash_free(seg.drop_first()));
        lemma_split_of_slash_free(seg.drop_first());
        let rest = split_path(seg.drop_first());
        assert(rest[0] == seg.drop_first());
        assert(seq![seg[0]] + seg.drop_first() =~= seg);
        assert(rest.drop_first() =~~= Seq::<Seq<char>>::empty());
    }
}

proof fn lemma_split_append(a: Seq<char>, b: Seq<char>)
    requires
        seg_slash_free(b),
    ensures
        split_path(a + seq!['/'] + b) =~~= split_path(a) + seq![b],
    decreases a.len(),
{
    let t = a + seq!['/'] + b;
    if a.len() == 0 {
        assert(t =~= seq!['/'] + b);
        assert(t[0] == '/');
        assert(t.drop_first() =~= b);
        lemma_split_of_slash_free(b);
        assert(split_path(a) =~~= seq![Seq::<char>::empty()]);
    } else {
        assert(t[0] == a[0]);
        assert(t.drop_first() =~= a.drop_first() + seq!['/'] + b);
        lemma_split_append(a.drop_first(), b);
        lemma_split_path_nonempty(a.drop_first());
        let ra = split_path(a.drop_first());
        let r = split_path(t.drop_first());
        assert(r =~~= ra + seq![b]);
        if a[0] == '/' {
            assert(t.len() > 0);
            assert(split_path(t) =~~= seq![Seq::<char>::empty()] + r);
            assert(split_path(a) =~~= seq![Seq::<char>::empty()] + ra);
        } else {
            assert(r[0] == ra[0]);
            assert(r.drop_first() =~~= ra.drop_first() + seq![b]);
            assert(split_path(t) =~~= seq![seq![t[0]] + r[0]] + r.drop_first());
            assert(split_path(a) =~~= seq![seq![a[0]] + ra[0]] + ra.drop_first());
        }
    }
}

proof fn lemma_join_round_trip(segs: Seq<Seq<char>>)
    requires
        segs.len() >= 1,
        forall|i: int| 0 <= i < segs.len() ==> seg_slash_free(#[trigger] segs[i]),
    ensures
        split_path(join_path(segs)) =~~= segs,
    decreases segs.len(),
{
    if segs.len() == 1 {
        lemma_split_of_slash_free(segs[0]);
    } else {
        assert(forall|i: int|
            0 <= i < segs.drop_last().len() ==> segs.drop_last()[i] == segs[i]);
        lemma_join_round_trip(segs.drop_last());
        lemma_split_append(join_path(segs.drop_last()), segs.last());
        assert(segs.drop_last() + seq![segs.last()] =~~= segs);
    }
}

proof fn lemma_join_first_char(segs: Seq<Seq<char>>)
    requires
        segs.len() >= 1,
        segs[0].len() > 0,
    ensures
        join_path(segs).len() > 0,
        join_path(segs)[0] == segs[0][0],
    decreases segs.len(),
{
    if segs.len() > 1 {
        assert(segs.drop_last()[0] == segs[0]);
        lemma_join_first_char(segs.drop_last());
    }
}

/// Whatever sanitization accepts is, unless empty, a well-formed
/// root-relative path: non-empty, no leading separator, and when split on
/// `/` again it shows no empty, current-directory or parent-directory
/// segments.  This is the shape the backends rely on.
pub proof fn lemma_sanitize_well_formed(raw: Seq<char>)
    requires
        sanitize_spec(raw) is Some,
        sanitize_spec(raw).unwrap().len() > 0,
    ensures
        normalized_path_wf(sanitize_spec(raw).unwrap()),
{
    let segs = clean_from(Seq::<Seq<char>>::empty(), split_path(raw)).unwrap();
    let p = join_path(segs);
    lemma_split_slash_free(raw);
    lemma_clean_from_good(Seq::<Seq<char>>::empty(), split_path(raw));
    if segs.len() == 0 {
        assert(p.len() == 0);
    } else {
        assert(!seg_skippable(segs[0]));
        lemma_join_first_char(segs);
        lemma_join_round_trip(segs);
    }
}

/// Everything normalization hands out is a well-formed root-relative path.
pub proof fn lemma_normalize_well_formed(raw: Seq<char>)
    requires
        normalize_spec(raw) is Some,
    ensures
        normalized_path_wf(normalize_spec(raw).unwrap()),
{
    lemma_index_html_wf();
    let t = trim_spec(raw);
    if t.len() == 0 || t == seq!['/'] {
    } else {
        let stripped = if t[0] == '/' {
            t.drop_first()
        } else {
            t
        };
        let p = sanitize_spec(stripped).unwrap();
        if p.len() > 0 {
            lemma_sanitize_well_formed(stripped);
        }
    }
}

proof fn lemma_join_prepend(x: Seq<char>, rest: Seq<Seq<char>>)
    requires
        rest.len() >= 1,
    ensures
        join_path(seq![x] + rest) =~= x + seq!['/'] + join_path(rest),
    decreases rest.len(),
{
    let whole = seq![x] + rest;
    assert(whole.len() == rest.len() + 1);
    assert(join_path(whole) == join_path(whole.drop_last()) + seq!['/'] + whole.last());
    if rest.len() == 1 {
        assert(whole.drop_last() =~~= seq![x]);
        assert(join_path(seq![x]) == x);
        assert(whole.last() == rest[0]);
        assert(join_path(rest) == rest[0]);
    } else {
        assert(whole.drop_last() =~~= seq![x] + rest.drop_last());
        lemma_join_prepend(x, rest.drop_last());
        assert(whole.last() == rest.last());
        assert(join_path(rest) == join_path(rest.drop_last()) + seq!['/'] + rest.last());
    }
}

proof fn lemma_split_join_identity(s: Seq<char>)
    ensures
        join_path(split_path(s)) =~= s,
    decreases s.len(),
{
    if s.len() == 0 {
    } else {
        lemma_split_join_identity(s.drop_first());
        let r = split_path(s.drop_first());
        lemma_split_path_nonempty(s.drop_first());
        if s[0] == '/' {
            lemma_join_prepend(Seq::<char>::empty(), r);
            assert(seq![Seq::<char>::empty()] + r =~~= split_path(s));
            assert(join_path(split_path(s)) =~= Seq::<char>::empty() + seq!['/'] + join_path(
                r,
            ));
        } else {
            if r.len() == 1 {
                assert(split_path(s) =~~= seq![seq![s[0]] + r[0]]);
                assert(join_path(split_path(s)) =~= seq![s[0]] + r[0]);
                assert(join_path(r) == r[0]);
            } else {
                assert(split_path(s) =~~= seq![seq![s[0]] + r[0]] + r.drop_first());
                lemma_join_prepend(seq![s[0]] + r[0], r.drop_first());
                assert(r =~~= seq![r[0]] + r.drop_first());
                lemma_join_prepend(r[0], r.drop_first());
                assert(join_path(split_path(s)) =~= (seq![s[0]] + r[0]) + seq!['/']
                    + join_path(r.drop_first()));
                assert(join_path(r) =~= r[0] + seq!['/'] + join_path(r.drop_first()));
            }
            assert(join_path(split_path(s)) =~= seq![s[0]] + join_path(r));
        }
    }
}

proof fn lemma_clean_no_op(acc: Seq<Seq<char>>, segs: Seq<Seq<char>>)
    requires
        forall|i: int|
            0 <= i < segs.len() ==> !seg_skippable(#[trigger] segs[i]) && !seg_parent(segs[i]),
    ensures
        clean_from(acc, segs) == Some(acc + segs),
    decreases segs.len(),
{
    if segs.len() == 0 {
        assert(acc + segs =~~= acc);
    } else {
        assert(forall|i: int|
            0 <= i < segs.drop_first().len() ==> segs.drop_first()[i] == segs[i + 1]);
        lemma_clean_no_op(acc.push(segs[0]), segs.drop_first());
        assert(acc.push(segs[0]) + segs.drop_first() =~~= acc + segs);
    }
}

/// Sanitization is a projection: a path that is already well formed passes
/// through unchanged.  In particular the per-candidate re-sanitization in
/// the backends never alters a path that normalization produced.
pub proof fn lemma_sanitize_idempotent(p: Seq<char>)
    requires
        normalized_path_wf(p),
    ensures
        sanitize_spec(p) == Some(p),
{
    lemma_clean_no_op(Seq::<Seq<char>>::empty(), split_path(p));
    assert(Seq::<Seq<char>>::empty() + split_path(p) =~~= split_path(p));
    lemma_split_join_identity(p);
}

proof fn lemma_index_html_wf()
    ensures
        normalized_path_wf(index_html()),
{
    reveal_strlit("index.html");
    assert(seg_slash_free(index_html()));
    lemma_split_of_slash_free(index_html());
    assert(split_path(index_html())[0] == index_html());
    assert(!seg_skippable(index_html()));
    assert(!seg_parent(index_html()));
    assert(forall|i: int|
        0 <= i < split_path(index_html()).len() ==> !seg_skippable(
            #[trigger] split_path(index_html())[i],
        ) && !seg_parent(split_path(index_html())[i]));
}

} // verus!
