//! The sitemap document: an XML file of the shape
//! `<urlset><url><loc>URL</loc>...</url>...</urlset>`, optionally preceded
//! by an XML declaration, with attributes allowed on the root element and
//! whitespace allowed between elements. Parsing yields the text of each
//! `<loc>` element, one per `<url>` element, in document order.

use vstd::prelude::*;
use vstd::slice::slice_subrange;
use vstd::slice::slice_to_vec;
use crate::entry_views;
use crate::scan::find_from;
use crate::scan::first_match;
use crate::scan::lemma_first_match;
use crate::scan::starts_with_at;
use crate::XmlFetchError;

verus! {

/// A whitespace byte: space, tab, line feed or carriage return.
pub open spec fn is_ws(c: u8) -> bool {
    c == 32u8 || c == 9u8 || c == 10u8 || c == 13u8
}

/// `s` without its leading whitespace.
pub open spec fn trim_start(s: Seq<u8>) -> Seq<u8>
    decreases s.len(),
{
    if s.len() > 0 && is_ws(s[0]) {
        trim_start(s.drop_first())
    } else {
        s
    }
}

/// Trimming never lengthens a sequence, leaves no leading whitespace, and is
/// idempotent.
pub proof fn lemma_trim_start(s: Seq<u8>)
    ensures
        trim_start(s).len() <= s.len(),
        trim_start(trim_start(s)) == trim_start(s),
    decreases s.len(),
{
    if s.len() > 0 && is_ws(s[0]) {
        lemma_trim_start(s.drop_first());
    }
}

/// The bytes of `<?xml`.
pub open spec fn tag_decl_open() -> Seq<u8> {
    seq![60u8, 63u8, 120u8, 109u8, 108u8]
}

/// The bytes of `?>`.
pub open spec fn tag_decl_close() -> Seq<u8> {
    seq![63u8, 62u8]
}

/// The bytes of `<urlset`.
pub open spec fn tag_urlset_open() -> Seq<u8> {
    seq![60u8, 117u8, 114u8, 108u8, 115u8, 101u8, 116u8]
}

/// The byte of `>`.
pub open spec fn tag_gt() -> Seq<u8> {
    seq![62u8]
}

/// The bytes of `</urlset>`.
pub open spec fn tag_urlset_close() -> Seq<u8> {
    seq![60u8, 47u8, 117u8, 114u8, 108u8, 115u8, 101u8, 116u8, 62u8]
}

/// The bytes of `<url>`.
pub open spec fn tag_url_open() -> Seq<u8> {
    seq![60u8, 117u8, 114u8, 108u8, 62u8]
}

/// The bytes of `</url>`.
pub open spec fn tag_url_close() -> Seq<u8> {
    seq![60u8, 47u8, 117u8, 114u8, 108u8, 62u8]
}

/// The bytes of `<loc>`.
pub open spec fn tag_loc_open() -> Seq<u8> {
    seq![60u8, 108u8, 111u8, 99u8, 62u8]
}

/// The bytes of `</loc>`.
pub open spec fn tag_loc_close() -> Seq<u8> {
    seq![60u8, 47u8, 108u8, 111u8, 99u8, 62u8]
}

/// The text of the first `<loc>...</loc>` inside one `<url>` element's body,
/// or nothing when the body has no complete `<loc>` element.
pub open spec fn loc_of_body(b: Seq<u8>) -> Option<Seq<u8>> {
    match first_match(b, tag_loc_open()) {
        None => None,
        Some(k) => {
            let a = b.skip(k + 5);
            match first_match(a, tag_loc_close()) {
                None => None,
                Some(m) => Some(a.take(m)),
            }
        },
    }
}

/// The sequence of `<url>` elements from here to the closing `</urlset>`
/// tag: on success, the `<loc>` texts in document order, and the rest of the
/// document after `</urlset>`.
pub open spec fn parse_urls(s: Seq<u8>) -> Option<(Seq<Seq<u8>>, Seq<u8>)>
    decreases s.len(),
    via parse_urls_decreases
{
    let t = trim_start(s);
    if tag_urlset_close().is_prefix_of(t) {
        Some((Seq::empty(), t.skip(9)))
    } else if tag_url_open().is_prefix_of(t) {
        let u = t.skip(5);
        match first_match(u, tag_url_close()) {
            None => None,
            Some(j) => {
                let body = u.take(j);
                let rest = u.skip(j + 6);
                match loc_of_body(body) {
                    None => None,
                    Some(text) => match parse_urls(rest) {
                        None => None,
                        Some((ls, r)) => Some((seq![text] + ls, r)),
                    },
                }
            },
        }
    } else {
        None
    }
}

#[via_fn]
proof fn parse_urls_decreases(s: Seq<u8>) {
    lemma_trim_start(s);
    let t = trim_start(s);
    if !tag_urlset_close().is_prefix_of(t) && tag_url_open().is_prefix_of(t) {
        lemma_first_match(t.skip(5), tag_url_close());
    }
}

/// The document past its prologue: leading whitespace, an optional XML
/// declaration, more whitespace, and the `<urlset ...>` start tag.
pub open spec fn after_prologue(s: Seq<u8>) -> Option<Seq<u8>> {
    let t0 = trim_start(s);
    let t1 = if tag_decl_open().is_prefix_of(t0) {
        match first_match(t0, tag_decl_close()) {
            None => None,
            Some(j) => Some(trim_start(t0.skip(j + 2))),
        }
    } else {
        Some(t0)
    };
    match t1 {
        None => None,
        Some(t) => {
            if tag_urlset_open().is_prefix_of(t) {
                match first_match(t, tag_gt()) {
                    None => None,
                    Some(j) => Some(t.skip(j + 1)),
                }
            } else {
                None
            }
        },
    }
}

/// The parse of a whole sitemap document: the `<loc>` text of each `<url>`
/// element, in document order, or nothing when the document does not have
/// the expected shape (nothing but whitespace may follow `</urlset>`).
pub open spec fn spec_parse_sitemap(s: Seq<u8>) -> Option<Seq<Seq<u8>>> {
    match after_prologue(s) {
        None => None,
        Some(t) => match parse_urls(t) {
            None => None,
            Some((ls, r)) => if trim_start(r).len() == 0 {
                Some(ls)
            } else {
                None
            },
        },
    }
}

fn tag_decl_open_v() -> (r: Vec<u8>)
    ensures
        r@ == tag_decl_open(),
{
    let mut v: Vec<u8> = Vec::new();
    v.push(60u8);
    v.push(63u8);
    v.push(120u8);
    v.push(109u8);
    v.push(108u8);
    proof {
        assert(v@ =~= tag_decl_open());
    }
    v
}

fn tag_decl_close_v() -> (r: Vec<u8>)
    ensures
        r@ == tag_decl_close(),
{
    let mut v: Vec<u8> = Vec::new();
    v.push(63u8);
    v.push(62u8);
    proof {
        assert(v@ =~= tag_decl_close());
    }
    v
}

fn tag_urlset_open_v() -> (r: Vec<u8>)
    ensures
        r@ == tag_urlset_open(),
{
    let mut v: Vec<u8> = Vec::new();
    v.push(60u8);
    v.push(117u8);
    v.push(114u8);
    v.push(108u8);
    v.push(115u8);
    v.push(101u8);
    v.push(116u8);
    proof {
        assert(v@ =~= tag_urlset_open());
    }
    v
}

fn tag_gt_v() -> (r: Vec<u8>)
    ensures
        r@ == tag_gt(),
{
    let mut v: Vec<u8> = Vec::new();
    v.push(62u8);
    proof {
        assert(v@ =~= tag_gt());
    }
    v
}

fn tag_urlset_close_v() -> (r: Vec<u8>)
    ensures
        r@ == tag_urlset_close(),
{
    let mut v: Vec<u8> = Vec::new();
    v.push(60u8);
    v.push(47u8);
    v.push(117u8);
    v.push(114u8);
    v.push(108u8);
    v.push(115u8);
    v.push(101u8);
    v.push(116u8);
    v.push(62u8);
    proof {
        assert(v@ =~= tag_urlset_close());
    }
    v
}

fn tag_url_open_v() -> (r: Vec<u8>)
    ensures
        r@ == tag_url_open(),
{
    let mut v: Vec<u8> = Vec::new();
    v.push(60u8);
    v.push(117u8);
    v.push(114u8);
    v.push(108u8);
    v.push(62u8);
    proof {
        assert(v@ =~= tag_url_open());
    }
    v
}

fn tag_url_close_v() -> (r: Vec<u8>)
    ensures
        r@ == tag_url_close(),
{
    let mut v: Vec<u8> = Vec::new();
    v.push(60u8);
    v.push(47u8);
    v.push(117u8);
    v.push(114u8);
    v.push(108u8);
    v.push(62u8);
    proof {
        assert(v@ =~= tag_url_close());
    }
    v
}

fn tag_loc_open_v() -> (r: Vec<u8>)
    ensures
        r@ == tag_loc_open(),
{
    let mut v: Vec<u8> = Vec::new();
    v.push(60u8);
    v.push(108u8);
    v.push(111u8);
    v.push(99u8);
    v.push(62u8);
    proof {
        assert(v@ =~= tag_loc_open());
    }
    v
}

fn tag_loc_close_v() -> (r: Vec<u8>)
    ensures
        r@ == tag_loc_close(),
{
    let mut v: Vec<u8> = Vec::new();
    v.push(60u8);
    v.push(47u8);
    v.push(108u8);
    v.push(111u8);
    v.push(99u8);
    v.push(62u8);
    proof {
        assert(v@ =~= tag_loc_close());
    }
    v
}

/// True exactly when the byte is XML whitespace.
fn is_ws_exec(c: u8) -> (r: bool)
    ensures
        r == is_ws(c),
{
    c == 32u8 || c == 9u8 || c == 10u8 || c == 13u8
}

/// Advances past whitespace: the suffix at the returned position is the
/// suffix at `i` with its leading whitespace trimmed.
fn trim_start_from(s: &[u8], i: usize) -> (j: usize)
    requires
        i <= s@.len(),
    ensures
        i <= j <= s@.len(),
        s@.skip(j as int) == trim_start(s@.skip(i as int)),
{
    let n: usize = s.len();
    let mut j: usize = i;
    while j < n && is_ws_exec(*vstd::slice::slice_index_get(s, j))
        invariant
            i <= j <= n == s@.len(),
            trim_start(s@.skip(i as int)) == trim_start(s@.skip(j as int)),
        decreases n - j,
    {
        proof {
            let sfx = s@.skip(j as int);
            assert(sfx[0] == s@[j as int]);
            assert(sfx.drop_first() =~= s@.skip(j + 1));
        }
        j = j + 1;
    }
    proof {
        assert(trim_start(s@.skip(j as int)) == s@.skip(j as int));
    }
    j
}

/// What the parse loop still owes: the entries gathered so far, followed by
/// the `<url>` elements in the remaining suffix, with only whitespace after
/// the closing `</urlset>`.
spec fn gathered(acc: Seq<Seq<u8>>, s: Seq<u8>) -> Option<Seq<Seq<u8>>> {
    match parse_urls(s) {
        None => None,
        Some((ls, r)) => if trim_start(r).len() == 0 {
            Some(acc + ls)
        } else {
            None
        },
    }
}

/// Parsing a suffix ignores its leading whitespace.
proof fn lemma_parse_urls_trim(s: Seq<u8>)
    ensures
        parse_urls(trim_start(s)) == parse_urls(s),
{
    lemma_trim_start(s);
}

/// Two suffixes of `s`, taken in turn, are one suffix.
proof fn lemma_skip_skip(s: Seq<u8>, a: int, b: int)
    requires
        0 <= a,
        0 <= b,
        a + b <= s.len(),
    ensures
        s.skip(a).skip(b) == s.skip(a + b),
{
    assert(s.skip(a).skip(b) =~= s.skip(a + b));
}

/// Parses a sitemap document: on success, the text of each `<url>` element's
/// `<loc>`, in document order, exactly as `spec_parse_sitemap` gives them;
/// an error exactly when the document does not have the sitemap shape.
#[verifier::loop_isolation(false)]
#[verifier::rlimit(60)]
pub fn parse_sitemap(xml: &[u8]) -> (r: Result<Vec<Vec<u8>>, XmlFetchError>)
    ensures
        match r {
            Ok(v) => spec_parse_sitemap(xml@) == Some(entry_views(v@)),
            Err(_) => spec_parse_sitemap(xml@) is None,
        },
{
    let n: usize = xml.len();
    proof {
        assert(xml@.skip(0) =~= xml@);
    }
    let mut i: usize = trim_start_from(xml, 0);
    let ghost t0 = trim_start(xml@);
    let decl_open = tag_decl_open_v();
    if starts_with_at(xml, i, decl_open.as_slice()) {
        let decl_close = tag_decl_close_v();
        match find_from(xml, i, decl_close.as_slice()) {
            None => {
                return Err(XmlFetchError::new("unclosed XML declaration"));
            },
            Some(j) => {
                proof {
                    lemma_skip_skip(xml@, i as int, j - i + 2);
                }
                i = trim_start_from(xml, j + 2);
            },
        }
    }
    let ghost t = xml@.skip(i as int);
    let urlset_open = tag_urlset_open_v();
    if !starts_with_at(xml, i, urlset_open.as_slice()) {
        return Err(XmlFetchError::new("missing <urlset> root element"));
    }
    let gt = tag_gt_v();
    let i = match find_from(xml, i, gt.as_slice()) {
        None => {
            return Err(XmlFetchError::new("unclosed <urlset> start tag"));
        },
        Some(j) => {
            proof {
                lemma_skip_skip(xml@, i as int, j - i + 1);
            }
            j + 1
        },
    };
    proof {
        assert(after_prologue(xml@) == Some(xml@.skip(i as int)));
    }
    let urlset_close = tag_urlset_close_v();
    let url_open = tag_url_open_v();
    let url_close = tag_url_close_v();
    let loc_open = tag_loc_open_v();
    let loc_close = tag_loc_close_v();
    let mut acc: Vec<Vec<u8>> = Vec::new();
    let mut i: usize = i;
    proof {
        assert(entry_views(acc@) =~= Seq::<Seq<u8>>::empty());
        assert(entry_views(acc@) + Seq::<Seq<u8>>::empty() =~= entry_views(acc@));
    }
    loop
        invariant
            i <= xml@.len(),
            spec_parse_sitemap(xml@) == gathered(entry_views(acc@), xml@.skip(i as int)),
        decreases xml@.len() - i,
    {
        let ghost pre = xml@.skip(i as int);
        let start = i;
        let i_t = trim_start_from(xml, i);
        proof {
            lemma_parse_urls_trim(pre);
            lemma_trim_start(pre);
        }
        let ghost t = xml@.skip(i_t as int);
        if starts_with_at(xml, i_t, urlset_close.as_slice()) {
            proof {
                assert(t == trim_start(pre));
                assert(trim_start(t) == t);
                assert(tag_urlset_close().is_prefix_of(t));
                assert(t.len() >= 9);
                assert(parse_urls(t) == Some((Seq::<Seq<u8>>::empty(), t.skip(9))));
                lemma_skip_skip(xml@, i_t as int, 9);
            }
            let after = trim_start_from(xml, i_t + 9);
            if after == n {
                proof {
                    assert(xml@.skip(after as int) =~= Seq::<u8>::empty());
                    assert(entry_views(acc@) + Seq::<Seq<u8>>::empty() =~= entry_views(acc@));
                }
                return Ok(acc);
            } else {
                return Err(XmlFetchError::new("content after </urlset>"));
            }
        } else if starts_with_at(xml, i_t, url_open.as_slice()) {
            proof {
                assert(tag_url_open().is_prefix_of(t));
                assert(t.len() == xml@.len() - i_t);
                assert(i_t + 5 <= n);
                lemma_skip_skip(xml@, i_t as int, 5);
            }
            let u0 = i_t + 5;
            let ghost u = xml@.skip(u0 as int);
            proof {
                assert(t.skip(5) == u);
            }
            match find_from(xml, u0, url_close.as_slice()) {
                None => {
                    return Err(XmlFetchError::new("unclosed <url> element"));
                },
                Some(j) => {
                    let body = slice_subrange(xml, u0, j);
                    proof {
                        assert(body@ =~= u.take(j - u0));
                        assert(body@.skip(0) =~= body@);
                    }
                    match find_from(body, 0, loc_open.as_slice()) {
                        None => {
                            return Err(XmlFetchError::new("<url> element without a <loc>"));
                        },
                        Some(k) => {
                            let a0 = k + 5;
                            let ghost a = body@.skip(a0 as int);
                            match find_from(body, a0, loc_close.as_slice()) {
                                None => {
                                    return Err(XmlFetchError::new("unclosed <loc> element"));
                                },
                                Some(m) => {
                                    let text = slice_to_vec(slice_subrange(body, a0, m));
                                    proof {
                                        assert(text@ =~= a.take(m - a0));
                                        assert(loc_of_body(body@) == Some(text@));
                                        lemma_skip_skip(xml@, u0 as int, j - u0 + 6);
                                        assert(u.skip(j - u0 + 6) == xml@.skip(j + 6));
                                        assert(parse_urls(t) == match parse_urls(
                                            xml@.skip(j + 6),
                                        ) {
                                            None => None,
                                            Some((ls, r)) => Some((seq![text@] + ls, r)),
                                        });
                                        match parse_urls(xml@.skip(j + 6)) {
                                            None => {},
                                            Some((ls, r)) => {
                                                assert(entry_views(acc@.push(text))
                                                    =~= entry_views(acc@) + seq![text@]);
                                                assert(entry_views(acc@) + (seq![text@] + ls) =~= (
                                                entry_views(acc@) + seq![text@]) + ls);
                                            },
                                        }
                                    }
                                    acc.push(text);
                                    i = j + 6;
                                },
                            }
                        },
                    }
                },
            }
        } else {
            return Err(XmlFetchError::new("unexpected content inside <urlset>"));
        }
    }
}

} // verus!
