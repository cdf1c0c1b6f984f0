//! Best-effort title extraction from raw HTML. This is a marker search, not an
//! HTML parser: malformed or nested markup is not understood.

use vstd::prelude::*;
use vstd::string::StringSliceAdditionalSpecFns;

verus! {

/// `m` occurs in `s` at byte offset `i`, on character boundaries.
pub open spec fn occurs_at(s: Seq<u8>, m: Seq<u8>, i: int) -> bool {
    &&& 0 <= i
    &&& i + m.len() <= s.len()
    &&& s.subrange(i, i + m.len()) == m
    &&& vstd::utf8::is_char_boundary(s, i)
    &&& vstd::utf8::is_char_boundary(s, i + m.len())
}

/// The first offset at which `m` occurs in `s`, if any.
pub open spec fn first_occurrence(s: Seq<u8>, m: Seq<u8>) -> Option<int> {
    if exists|i: int| occurs_at(s, m, i) {
        Some(choose|i: int| occurs_at(s, m, i) && forall|j: int| 0 <= j < i ==> !occurs_at(s, m, j))
    } else {
        None
    }
}

/// Bytes before and after the first occurrence of `m` in `s`.
#[verifier::opaque]
pub open spec fn split_once_spec(s: Seq<u8>, m: Seq<u8>) -> Option<(Seq<u8>, Seq<u8>)> {
    match first_occurrence(s, m) {
        Some(i) => Some((s.subrange(0, i), s.subrange(i + m.len(), s.len() as int))),
        None => None,
    }
}

/// The title of a page: the text between the first `<title>` and the next
/// `</title>`, inside the region between the first `<head>` and the next `</head>`.
pub open spec fn title_spec(
    html: Seq<u8>,
    head_open: Seq<u8>,
    head_close: Seq<u8>,
    title_open: Seq<u8>,
    title_close: Seq<u8>,
) -> Option<Seq<u8>> {
    match split_once_spec(html, head_open) {
        None => None,
        Some((_, rest)) => match split_once_spec(rest, head_close) {
            None => None,
            Some((head, _)) => match split_once_spec(head, title_open) {
                None => None,
                Some((_, title_rest)) => match split_once_spec(title_rest, title_close) {
                    None => None,
                    Some((title, _)) => Some(title),
                },
            },
        },
    }
}

/// The title of `html` with the usual markers.
pub open spec fn page_title(html: Seq<u8>) -> Option<Seq<u8>> {
    title_spec(
        html,
        "<head>".spec_bytes(),
        "</head>".spec_bytes(),
        "<title>".spec_bytes(),
        "</title>".spec_bytes(),
    )
}

/// The title of a page whose HTML is `html`, as characters.
pub open spec fn page_title_text(html: Seq<char>) -> Option<Seq<char>> {
    match page_title(vstd::utf8::encode_utf8(html)) {
        Some(b) => Some(vstd::utf8::decode_utf8(b)),
        None => None,
    }
}

proof fn lemma_first_occurrence(s: Seq<u8>, m: Seq<u8>, i: int)
    requires
        occurs_at(s, m, i),
        forall|j: int| 0 <= j < i ==> !occurs_at(s, m, j),
    ensures
        first_occurrence(s, m) == Some(i),
{
    let k = choose|k: int| occurs_at(s, m, k) && forall|j: int| 0 <= j < k ==> !occurs_at(s, m, j);
    assert(occurs_at(s, m, k));
    if k < i {
    } else if i < k {
    }
}

/// Does `m` occur in `s` at byte offset `i`?
fn matches_at(s: &str, m: &str, i: usize) -> (r: bool)
    requires
        i <= s.spec_bytes().len(),
    ensures
        r == occurs_at(s.spec_bytes(), m.spec_bytes(), i as int),
{
    let sb = s.as_bytes();
    let mb = m.as_bytes();
    let sl = sb.len();
    if mb.len() > sl - i {
        return false;
    }
    let mut k: usize = 0;
    while k < mb.len()
        invariant
            sl == sb@.len(),
            i + mb@.len() <= sb@.len(),
            sb@ == s.spec_bytes(),
            mb@ == m.spec_bytes(),
            k <= mb@.len(),
            forall|j: int| 0 <= j < k ==> sb@[i + j] == mb@[j],
        decreases mb@.len() - k,
    {
        if sb[i + k] != mb[k] {
            assert(sb@.subrange(i as int, i + mb@.len())[k as int] != mb@[k as int]);
            return false;
        }
        k = k + 1;
    }
    assert(sb@.subrange(i as int, i + mb@.len()) =~= mb@);
    s.is_char_boundary(i) && s.is_char_boundary(i + mb.len())
}

/// Splits `s` around the first occurrence of `m`, as `str::split_once` does.
pub fn split_once_at<'a>(s: &'a str, m: &str) -> (r: Option<(&'a str, &'a str)>)
    ensures
        match r {
            Some((a, b)) => split_once_spec(s.spec_bytes(), m.spec_bytes()) == Some(
                (a.spec_bytes(), b.spec_bytes()),
            ),
            None => split_once_spec(s.spec_bytes(), m.spec_bytes()) is None,
        },
{
    reveal(split_once_spec);
    let n = s.as_bytes().len();
    let ml = m.as_bytes().len();
    if ml > n {
        assert forall|j: int| !occurs_at(s.spec_bytes(), m.spec_bytes(), j) by {}
        return None;
    }
    let last = n - ml;
    let mut i: usize = 0;
    while i < last
        invariant
            n == s.spec_bytes().len(),
            ml == m.spec_bytes().len(),
            last == n - ml,
            i <= last,
            forall|j: int| 0 <= j < i ==> !occurs_at(s.spec_bytes(), m.spec_bytes(), j),
        decreases last - i,
    {
        if matches_at(s, m, i) {
            return Some(split_around(s, m, i));
        }
        i = i + 1;
    }
    if matches_at(s, m, i) {
        return Some(split_around(s, m, i));
    }
    assert forall|j: int| !occurs_at(s.spec_bytes(), m.spec_bytes(), j) by {
        if 0 <= j <= i {
        }
    }
    None
}

fn split_around<'a>(s: &'a str, m: &str, i: usize) -> (r: (&'a str, &'a str))
    requires
        occurs_at(s.spec_bytes(), m.spec_bytes(), i as int),
        forall|j: int| 0 <= j < i ==> !occurs_at(s.spec_bytes(), m.spec_bytes(), j),
    ensures
        split_once_spec(s.spec_bytes(), m.spec_bytes()) == Some((r.0.spec_bytes(), r.1.spec_bytes())),
{
    proof {
        reveal(split_once_spec);
        lemma_first_occurrence(s.spec_bytes(), m.spec_bytes(), i as int);
    }
    let ml = m.as_bytes().len();
    let n = s.as_bytes().len();
    assert(i + ml <= n);
    let (a, _) = s.split_at(i);
    let (_, b) = s.split_at(i + ml);
    (a, b)
}

/// Extracts the page title of `html`: the text between the first `<title>` and
/// the next `</title>`, searched only inside the first `<head>` ... `</head>`
/// region, verbatim. `None` when a marker is missing. A heuristic, not a parser.
pub fn extract_page_title(html: &str) -> (r: Option<String>)
    ensures
        match r {
            Some(t) => page_title(html.spec_bytes()) == Some(vstd::utf8::encode_utf8(t@)),
            None => page_title(html.spec_bytes()) is None,
        },
        match r {
            Some(t) => page_title_text(html@) == Some(t@),
            None => page_title_text(html@) is None,
        },
{
    let (_, rest) = split_once_at(html, "<head>")?;
    let (head, _) = split_once_at(rest, "</head>")?;
    let (_, title_rest) = split_once_at(head, "<title>")?;
    let (title, _) = split_once_at(title_rest, "</title>")?;
    let t = title.to_owned();
    proof {
        vstd::utf8::encode_utf8_decode_utf8(t@);
    }
    Some(t)
}

/// A page whose HTML has no `<head>` marker has no title.
pub proof fn lemma_no_head_no_title(html: Seq<u8>)
    requires
        forall|i: int| !occurs_at(html, "<head>".spec_bytes(), i),
    ensures
        page_title(html) is None,
{
    reveal(split_once_spec);
}

} // verus!
