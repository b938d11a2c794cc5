//! The asset backend: an in-memory table for assets bundled into the
//! binary, plus the pure decision steps of the disk variant (target
//! computation and root-containment checking).  Actual disk probing is
//! input/output and happens outside the library; every byte that comes back
//! flows through the verified payload construction here.

use vstd::prelude::*;

use crate::paths::basename_spec;
use crate::paths::candidate_paths;
use crate::paths::candidates_spec;
use crate::paths::normalize_request_path;
use crate::paths::normalize_spec;
use crate::paths::sanitize_relative_path;
use crate::paths::sanitize_spec;
use crate::paths::split_path;
use crate::paths::strs_view;

verus! {

/// One asset bundled into the binary: a root-relative path and its bytes.
pub struct AssetEntry {
    pub path: String,
    pub body: Vec<u8>,
}

/// What a successful lookup hands to the HTTP layer.
pub struct AssetPayload {
    pub body: Vec<u8>,
    pub content_type: String,
    pub cache_control: Option<String>,
}

/// The mathematical content of a payload.
pub struct PayloadModel {
    pub content_type: Seq<char>,
    pub cache_control: Option<Seq<char>>,
    pub body: Seq<u8>,
}

impl View for AssetPayload {
    type V = PayloadModel;

    open spec fn view(&self) -> PayloadModel {
        PayloadModel {
            content_type: self.content_type@,
            cache_control: opt_string_view(self.cache_control),
            body: self.body@,
        }
    }
}

/// Where assets come from, chosen once at startup.  The embedded variant
/// carries its whole read-only table; the disk variant carries the
/// configured root and, when startup canonicalization succeeded, its
/// canonical form.
pub enum AssetBackend {
    Embedded { entries: Vec<AssetEntry> },
    Disk { root: String, canonical_root: Option<String> },
}

impl AssetBackend {
    /// A disk backend whose root could not be canonicalized at startup
    /// answers every lookup with absent.
    pub open spec fn degraded(&self) -> bool {
        self matches AssetBackend::Disk { canonical_root: None, .. }
    }

    /// Whether this backend is a disk backend that lost its root at
    /// startup and therefore treats every path as absent.
    pub fn is_degraded(&self) -> (b: bool)
        ensures
            b == self.degraded(),
    {
        match self {
            AssetBackend::Disk { canonical_root: None, .. } => true,
            _ => false,
        }
    }
}

/// The MIME essence string that the extension-table lookup produces for a
/// path; a pure function of the path.
pub uninterp spec fn mime_essence_of(path: Seq<char>) -> Seq<char>;

/// Relies on mime_guess::from_path, MimeGuess::first_or_octet_stream and
/// Mime::essence_str: the guess is a lookup of the path's extension in a
/// fixed compiled-in table (application/octet-stream when absent), so the
/// essence string depends on the path alone.
#[verifier::external_body]
fn content_type_for(path: &str) -> (r: String)
    ensures
        r@ == mime_essence_of(path@),
{
    mime_guess::from_path(path).first_or_octet_stream().essence_str().to_string()
}

/// ASCII lower-casing of one character.
pub open spec fn lower_char(c: char) -> char {
    if 'A' <= c && c <= 'Z' {
        (((c as u8) + 32) as u8) as char
    } else {
        c
    }
}

/// ASCII lower-casing of a character sequence.
pub open spec fn lower_seq(s: Seq<char>) -> Seq<char> {
    s.map_values(|c: char| lower_char(c))
}

pub(crate) fn lower_char_exec(c: char) -> (r: char)
    ensures
        r == lower_char(c),
{
    match c {
        'A' => 'a',
        'B' => 'b',
        'C' => 'c',
        'D' => 'd',
        'E' => 'e',
        'F' => 'f',
        'G' => 'g',
        'H' => 'h',
        'I' => 'i',
        'J' => 'j',
        'K' => 'k',
        'L' => 'l',
        'M' => 'm',
        'N' => 'n',
        'O' => 'o',
        'P' => 'p',
        'Q' => 'q',
        'R' => 'r',
        'S' => 's',
        'T' => 't',
        'U' => 'u',
        'V' => 'v',
        'W' => 'w',
        'X' => 'x',
        'Y' => 'y',
        'Z' => 'z',
        _ => c,
    }
}

/// Case-insensitive (ASCII) string equality.
fn eq_ignore_ascii(a: &str, b: &str) -> (r: bool)
    ensures
        r == (lower_seq(a@) == lower_seq(b@)),
{
    let n = a.unicode_len();
    if n != b.unicode_len() {
        proof {
            assert(lower_seq(a@).len() == a@.len());
            assert(lower_seq(b@).len() == b@.len());
        }
        return false;
    }
    let mut i: usize = 0;
    while i < n
        invariant
            n == a@.len(),
            n == b@.len(),
            i <= n,
            forall|k: int| 0 <= k < i ==> lower_char(a@[k]) == lower_char(b@[k]),
        decreases n - i,
    {
        if lower_char_exec(a.get_char(i)) != lower_char_exec(b.get_char(i)) {
            proof {
                assert(lower_seq(a@)[i as int] != lower_seq(b@)[i as int]);
            }
            return false;
        }
        i = i + 1;
    }
    proof {
        assert(lower_seq(a@) =~= lower_seq(b@));
    }
    true
}

/// Exact string equality.
fn str_eq(a: &str, b: &str) -> (r: bool)
    ensures
        r == (a@ == b@),
{
    let n = a.unicode_len();
    if n != b.unicode_len() {
        return false;
    }
    let mut i: usize = 0;
    while i < n
        invariant
            n == a@.len(),
            n == b@.len(),
            i <= n,
            forall|k: int| 0 <= k < i ==> a@[k] == b@[k],
        decreases n - i,
    {
        if a.get_char(i) != b.get_char(i) {
            return false;
        }
        i = i + 1;
    }
    proof {
        assert(a@ =~= b@);
    }
    true
}

/// The index of the last `.` in `b`, or -1 when there is none.
pub open spec fn last_dot(b: Seq<char>) -> int
    decreases b.len(),
{
    if b.len() == 0 {
        -1int
    } else if b.last() == '.' {
        b.len() - 1
    } else {
        last_dot(b.drop_last())
    }
}

/// The extension of `p`'s final segment: what follows the last `.`, absent
/// when the segment has no `.` or only a leading one.
pub open spec fn extension_spec(p: Seq<char>) -> Option<Seq<char>> {
    let b = basename_spec(p);
    let k = last_dot(b);
    if k >= 1 {
        Some(b.subrange(k + 1, b.len() as int))
    } else {
        None
    }
}

/// The cache-control directive served with an asset, fixed by its
/// extension: long-lived immutable caching for fonts, images and style
/// sheets, short caching for scripts, must-revalidate for HTML pages, and
/// nothing for anything else.
pub open spec fn cache_control_spec(p: Seq<char>) -> Option<Seq<char>> {
    match extension_spec(p) {
        None => None,
        Some(e) => {
            let x = lower_seq(e);
            if x == "woff"@ || x == "woff2"@ || x == "png"@ || x == "jpg"@ || x == "jpeg"@
                || x == "gif"@ || x == "svg"@ || x == "webp"@ || x == "css"@ {
                Some("public, max-age=31536000, immutable"@)
            } else if x == "js"@ {
                Some("public, max-age=86400"@)
            } else if x == "html"@ {
                Some("public, max-age=0, must-revalidate, stale-while-revalidate=30"@)
            } else {
                None
            }
        },
    }
}

/// The view of an optional string.
pub open spec fn opt_string_view(o: Option<String>) -> Option<Seq<char>> {
    match o {
        Some(s) => Some(s@),
        None => None,
    }
}

proof fn lemma_last_dot_found(b: Seq<char>, j: int)
    requires
        1 <= j <= b.len(),
        forall|k: int| j <= k < b.len() ==> b[k] != '.',
        b[j - 1] == '.',
    ensures
        last_dot(b) == j - 1,
    decreases b.len(),
{
    if j == b.len() {
    } else {
        assert(b.last() != '.');
        lemma_last_dot_found(b.drop_last(), j);
    }
}

proof fn lemma_last_dot_none(b: Seq<char>, j: int)
    requires
        0 <= j <= b.len(),
        forall|k: int| j <= k < b.len() ==> b[k] != '.',
        j == 0,
    ensures
        last_dot(b) == -1,
    decreases b.len(),
{
    if b.len() > 0 {
        assert(b.last() != '.');
        lemma_last_dot_none(b.drop_last(), 0);
    }
}

proof fn lemma_lower_literals()
    ensures
        lower_seq("woff"@) =~= "woff"@,
        lower_seq("woff2"@) =~= "woff2"@,
        lower_seq("png"@) =~= "png"@,
        lower_seq("jpg"@) =~= "jpg"@,
        lower_seq("jpeg"@) =~= "jpeg"@,
        lower_seq("gif"@) =~= "gif"@,
        lower_seq("svg"@) =~= "svg"@,
        lower_seq("webp"@) =~= "webp"@,
        lower_seq("css"@) =~= "css"@,
        lower_seq("js"@) =~= "js"@,
        lower_seq("html"@) =~= "html"@,
{
    reveal_strlit("woff");
    reveal_strlit("woff2");
    reveal_strlit("png");
    reveal_strlit("jpg");
    reveal_strlit("jpeg");
    reveal_strlit("gif");
    reveal_strlit("svg");
    reveal_strlit("webp");
    reveal_strlit("css");
    reveal_strlit("js");
    reveal_strlit("html");
}

/// The cache-control directive for `path`, per the fixed extension table.
pub fn cache_control_for(path: &str) -> (r: Option<String>)
    ensures
        opt_string_view(r) == cache_control_spec(path@),
{
    let ghost s = path@;
    let n = path.unicode_len();
    let mut bs = n;
    let mut bstop = false;
    while bs > 0 && !bstop
        invariant
            n == s.len(),
            path@ == s,
            bs <= n,
            forall|k: int| bs <= k < n ==> s[k] != '/',
            bstop ==> bs > 0 && s[bs as int - 1] == '/',
        decreases bs + (if bstop { 0int } else { 1int }),
    {
        if path.get_char(bs - 1) == '/' {
            bstop = true;
        } else {
            bs = bs - 1;
        }
    }
    proof {
        crate::paths::lemma_basename_range(s, bs as int);
    }
    let ghost bn = s.subrange(bs as int, n as int);
    let mut m = n;
    let mut dstop = false;
    while m > bs && !dstop
        invariant
            n == s.len(),
            path@ == s,
            bs <= m <= n,
            forall|k: int| m <= k < n ==> s[k] != '.',
            dstop ==> m > bs && s[m as int - 1] == '.',
        decreases m + (if dstop { 0int } else { 1int }),
    {
        if path.get_char(m - 1) == '.' {
            dstop = true;
        } else {
            m = m - 1;
        }
    }
    proof {
        assert(bn.len() == n - bs);
        assert(forall|k: int| 0 <= k < bn.len() ==> bn[k] == s[bs as int + k]);
        if dstop {
            lemma_last_dot_found(bn, m as int - bs as int);
        } else {
            lemma_last_dot_none(bn, 0);
        }
    }
    if !dstop || m - 1 == bs {
        proof {
            assert(cache_control_spec(s) is None);
        }
        return None;
    }
    let ext = path.substring_char(m, n);
    proof {
        assert(ext@ =~= bn.subrange(m as int - bs as int, bn.len() as int));
        lemma_lower_literals();
    }
    if eq_ignore_ascii(ext, "woff") || eq_ignore_ascii(ext, "woff2")
        || eq_ignore_ascii(ext, "png") || eq_ignore_ascii(ext, "jpg")
        || eq_ignore_ascii(ext, "jpeg") || eq_ignore_ascii(ext, "gif")
        || eq_ignore_ascii(ext, "svg") || eq_ignore_ascii(ext, "webp")
        || eq_ignore_ascii(ext, "css") {
        Some("public, max-age=31536000, immutable".to_owned())
    } else if eq_ignore_ascii(ext, "js") {
        Some("public, max-age=86400".to_owned())
    } else if eq_ignore_ascii(ext, "html") {
        Some("public, max-age=0, must-revalidate, stale-while-revalidate=30".to_owned())
    } else {
        None
    }
}

/// How a payload relates to the (path, bytes) pair it was built from.
pub open spec fn payload_matches(p: AssetPayload, rel: Seq<char>, body: Seq<u8>) -> bool {
    p.body@ == body && p.content_type@ == mime_essence_of(rel)
        && opt_string_view(p.cache_control) == cache_control_spec(rel)
}

/// How an optional payload relates to an optional hit.
pub open spec fn payload_matches_opt(
    r: Option<AssetPayload>,
    h: Option<(Seq<char>, Seq<u8>)>,
) -> bool {
    match (r, h) {
        (Some(p), Some(x)) => payload_matches(p, x.0, x.1),
        (None, None) => true,
        _ => false,
    }
}

/// Builds the payload served for the asset at `rel_path` with content
/// `body`: the bytes unchanged, the MIME guess for the path, and the fixed
/// cache policy for its extension.
pub fn make_payload(rel_path: &str, body: Vec<u8>) -> (p: AssetPayload)
    ensures
        payload_matches(p, rel_path@, body@),
{
    let content_type = content_type_for(rel_path);
    let cache_control = cache_control_for(rel_path);
    AssetPayload { body, content_type, cache_control }
}

/// The views of a table of entries.
pub open spec fn table_view(t: Seq<AssetEntry>) -> Seq<(Seq<char>, Seq<u8>)> {
    t.map_values(|e: AssetEntry| (e.path@, e.body@))
}

/// The first entry whose path equals `rel`, searched front to back.
pub open spec fn lookup_spec(t: Seq<(Seq<char>, Seq<u8>)>, rel: Seq<char>) -> Option<Seq<u8>>
    decreases t.len(),
{
    if t.len() == 0 {
        None
    } else if t[0].0 == rel {
        Some(t[0].1)
    } else {
        lookup_spec(t.drop_first(), rel)
    }
}

/// One probe of the embedded table: the candidate is sanitized and then
/// looked up exactly.
pub open spec fn load_candidate_spec(
    t: Seq<(Seq<char>, Seq<u8>)>,
    rel: Seq<char>,
) -> Option<(Seq<char>, Seq<u8>)> {
    match sanitize_spec(rel) {
        None => None,
        Some(clean) => match lookup_spec(t, clean) {
            Some(body) => Some((clean, body)),
            None => None,
        },
    }
}

/// The first candidate in `cands` that hits the table.
pub open spec fn first_hit_spec(
    t: Seq<(Seq<char>, Seq<u8>)>,
    cands: Seq<Seq<char>>,
) -> Option<(Seq<char>, Seq<u8>)>
    decreases cands.len(),
{
    if cands.len() == 0 {
        None
    } else {
        match load_candidate_spec(t, cands[0]) {
            Some(h) => Some(h),
            None => first_hit_spec(t, cands.drop_first()),
        }
    }
}

/// Full embedded resolution: normalize, enumerate candidates, first hit
/// wins.
pub open spec fn resolve_spec(
    t: Seq<(Seq<char>, Seq<u8>)>,
    req: Seq<char>,
) -> Option<(Seq<char>, Seq<u8>)> {
    match normalize_spec(req) {
        None => None,
        Some(p) => first_hit_spec(t, candidates_spec(p)),
    }
}

/// Sanitizes `rel` and looks it up in the embedded table, returning the
/// payload for the stored bytes on a hit.
pub fn load_candidate(entries: &Vec<AssetEntry>, rel: &str) -> (r: Option<AssetPayload>)
    ensures
        payload_matches_opt(r, load_candidate_spec(table_view(entries@), rel@)),
{
    let clean = match sanitize_relative_path(rel) {
        None => {
            return None;
        },
        Some(c) => c,
    };
    let ghost t = table_view(entries@);
    let mut i: usize = 0;
    proof {
        assert(t.skip(0) =~~= t);
    }
    while i < entries.len()
        invariant
            i <= entries@.len(),
            t == table_view(entries@),
            clean@ == sanitize_spec(rel@).unwrap(),
            sanitize_spec(rel@) is Some,
            lookup_spec(t, clean@) == lookup_spec(t.skip(i as int), clean@),
        decreases entries@.len() - i,
    {
        proof {
            assert(t.skip(i as int)[0] == t[i as int]);
            assert(t.skip(i as int).drop_first() =~~= t.skip(i as int + 1));
        }
        if str_eq(entries[i].path.as_str(), clean.as_str()) {
            let body = vstd::slice::slice_to_vec(entries[i].body.as_slice());
            return Some(make_payload(clean.as_str(), body));
        }
        i = i + 1;
    }
    proof {
        assert(t.skip(i as int) =~~= Seq::<(Seq<char>, Seq<u8>)>::empty());
    }
    None
}

/// Resolves a request path against the embedded table: normalization,
/// candidate chain, first hit wins, absent otherwise.
pub fn resolve_embedded(entries: &Vec<AssetEntry>, request_path: &str) -> (r: Option<
    AssetPayload,
>)
    ensures
        payload_matches_opt(r, resolve_spec(table_view(entries@), request_path@)),
{
    let normalized = match normalize_request_path(request_path) {
        None => {
            return None;
        },
        Some(p) => p,
    };
    let cands = candidate_paths(normalized.as_str());
    let ghost t = table_view(entries@);
    let ghost cv = candidates_spec(normalized@);
    let mut i: usize = 0;
    proof {
        assert(cv.skip(0) =~~= cv);
    }
    while i < cands.len()
        invariant
            i <= cands@.len(),
            t == table_view(entries@),
            cv == candidates_spec(normalized@),
            cands.deep_view() == cv,
            normalize_spec(request_path@) == Some(normalized@),
            first_hit_spec(t, cv) == first_hit_spec(t, cv.skip(i as int)),
        decreases cands@.len() - i,
    {
        proof {
            assert(cv.skip(i as int)[0] == cv[i as int]);
            assert(cv[i as int] == cands@[i as int]@);
            assert(cv.skip(i as int).drop_first() =~~= cv.skip(i as int + 1));
        }
        let hit = load_candidate(entries, cands[i].as_str());
        match hit {
            Some(p) => {
                return Some(p);
            },
            None => {},
        }
        i = i + 1;
    }
    proof {
        assert(cv.skip(i as int) =~~= Seq::<Seq<char>>::empty());
    }
    None
}

/// The page served for misses from HTML-preferring clients: the fixed
/// relative path `404.html`, probed through the same per-variant lookup.
pub fn load_not_found_html(entries: &Vec<AssetEntry>) -> (r: Option<AssetPayload>)
    ensures
        payload_matches_opt(r, load_candidate_spec(table_view(entries@), "404.html"@)),
{
    load_candidate(entries, "404.html")
}

/// The stat target for a disk candidate: the configured root joined with a
/// root-relative path.
pub open spec fn join_under_root(root: Seq<char>, rel: Seq<char>) -> Seq<char> {
    if root.len() == 0 {
        rel
    } else if root.last() == '/' {
        root + rel
    } else {
        root + seq!['/'] + rel
    }
}

/// Sanitizes a disk candidate and computes the path to probe for it: the
/// configured root joined with the sanitized relative path.  Returns the
/// probe target together with the sanitized relative path, or `None` for a
/// traversal attempt.
pub fn disk_probe_target(root: &str, rel: &str) -> (r: Option<(String, String)>)
    ensures
        (match (r, sanitize_spec(rel@)) {
            (Some(t), Some(clean)) => t.0@ == join_under_root(root@, clean) && t.1@ == clean,
            (None, None) => true,
            _ => false,
        }),
{
    let clean = match sanitize_relative_path(rel) {
        None => {
            return None;
        },
        Some(c) => c,
    };
    let rn = root.unicode_len();
    let mut target = root.to_owned();
    if rn > 0 && root.get_char(rn - 1) != '/' {
        target.append("/");
        proof {
            reveal_strlit("/");
            assert("/"@ =~= seq!['/']);
        }
    }
    target.append(clean.as_str());
    Some((target, clean))
}

/// The segments of `segs` that are non-empty, in order.
pub open spec fn seg_filter(segs: Seq<Seq<char>>) -> Seq<Seq<char>>
    decreases segs.len(),
{
    if segs.len() == 0 {
        Seq::<Seq<char>>::empty()
    } else if segs[0].len() == 0 {
        seg_filter(segs.drop_first())
    } else {
        seq![segs[0]] + seg_filter(segs.drop_first())
    }
}

/// The non-empty `/`-separated segments of `p`.
pub open spec fn nonempty_segments(p: Seq<char>) -> Seq<Seq<char>> {
    seg_filter(split_path(p))
}

/// Whether `p` starts at the filesystem root.
pub open spec fn is_absolute(p: Seq<char>) -> bool {
    p.len() > 0 && p[0] == '/'
}

/// Containment in the sense of component-wise path prefixing, as it applies
/// to canonicalized paths: both paths agree on absoluteness and every
/// non-empty segment of `root`, in order, leads `target`.
pub open spec fn is_descendant_spec(target: Seq<char>, root: Seq<char>) -> bool {
    let rs = nonempty_segments(root);
    let ts = nonempty_segments(target);
    is_absolute(target) == is_absolute(root) && rs.len() <= ts.len() && rs == ts.take(
        rs.len() as int,
    )
}

fn split_nonempty(p: &str) -> (v: Vec<String>)
    ensures
        strs_view(v@) == nonempty_segments(p@),
{
    let ghost s = p@;
    let n = p.unicode_len();
    let mut v: Vec<String> = Vec::new();
    let mut start: usize = 0;
    let mut done = false;
    proof {
        assert(s.skip(0) =~= s);
        assert(strs_view(v@) =~~= Seq::<Seq<char>>::empty());
        assert(strs_view(v@) + seg_filter(split_path(s)) =~~= seg_filter(split_path(s)));
    }
    while !done
        invariant
            n == s.len(),
            p@ == s,
            start <= n,
            !done ==> nonempty_segments(s) == strs_view(v@) + seg_filter(
                split_path(s.skip(start as int)),
            ),
            done ==> nonempty_segments(s) == strs_view(v@),
        decreases n - start + (if done { 0int } else { 1int }),
    {
        let mut end = start;
        while end < n && p.get_char(end) != '/'
            invariant
                n == s.len(),
                p@ == s,
                start <= end <= n,
                forall|k: int| start <= k < end ==> s[k] != '/',
            decreases n - end,
        {
            end = end + 1;
        }
        let ghost sub = s.subrange(start as int, end as int);
        let ghost tail = if end < n {
            split_path(s.skip(end as int + 1))
        } else {
            Seq::<Seq<char>>::empty()
        };
        proof {
            crate::paths::lemma_split_at_boundary(s, start as int, end as int);
            assert(split_path(s.skip(start as int)) =~~= seq![sub] + tail);
            assert((seq![sub] + tail)[0] == sub);
            assert((seq![sub] + tail).drop_first() =~~= tail);
        }
        let ghost acc = strs_view(v@);
        if end > start {
            let seg = p.substring_char(start, end);
            v.push(seg.to_owned());
            proof {
                assert(seg_filter(seq![sub] + tail) =~~= seq![sub] + seg_filter(tail));
                assert(strs_view(v@) =~~= acc.push(sub));
                assert(acc + (seq![sub] + seg_filter(tail)) =~~= acc.push(sub) + seg_filter(
                    tail,
                ));
            }
        } else {
            proof {
                assert(seg_filter(seq![sub] + tail) =~~= seg_filter(tail));
            }
        }
        if end == n {
            done = true;
            proof {
                assert(seg_filter(Seq::<Seq<char>>::empty()) =~~= Seq::<Seq<char>>::empty());
                assert(strs_view(v@) + Seq::<Seq<char>>::empty() =~~= strs_view(v@));
            }
        } else {
            start = end + 1;
        }
    }
    v
}

/// Decides whether `canonical_target` lies at or below `canonical_root` in
/// the component-prefix sense; the disk backend serves a resolved file only
/// when this holds of the two canonicalized paths.
pub fn path_within_root(canonical_root: &str, canonical_target: &str) -> (r: bool)
    ensures
        r == is_descendant_spec(canonical_target@, canonical_root@),
{
    let rabs = canonical_root.unicode_len() > 0 && canonical_root.get_char(0) == '/';
    let tabs = canonical_target.unicode_len() > 0 && canonical_target.get_char(0) == '/';
    if rabs != tabs {
        return false;
    }
    let rs = split_nonempty(canonical_root);
    let ts = split_nonempty(canonical_target);
    let ghost rv = strs_view(rs@);
    let ghost tv = strs_view(ts@);
    if rs.len() > ts.len() {
        return false;
    }
    let mut i: usize = 0;
    while i < rs.len()
        invariant
            i <= rs@.len(),
            rs@.len() <= ts@.len(),
            rv == strs_view(rs@),
            tv == strs_view(ts@),
            rv == nonempty_segments(canonical_root@),
            tv == nonempty_segments(canonical_target@),
            forall|k: int| 0 <= k < i ==> rv[k] == tv[k],
        decreases rs@.len() - i,
    {
        if !str_eq(rs[i].as_str(), ts[i].as_str()) {
            proof {
                assert(rv[i as int] != tv[i as int]);
                if rv == tv.take(rv.len() as int) {
                    assert(rv[i as int] == tv.take(rv.len() as int)[i as int]);
                }
            }
            return false;
        }
        i = i + 1;
    }
    proof {
        assert(rv =~~= tv.take(rv.len() as int));
    }
    true
}

} // verus!
