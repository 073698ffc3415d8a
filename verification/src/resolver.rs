//! Slug normalization, validation, resolution and autocomplete over a
//! sitemap snapshot.
//!
//! A slug is the user-supplied path (with an optional `#fragment`); a
//! namespace is the fixed URL prefix it is resolved under. A slug is first
//! normalized (given a leading `/` if it lacks one); for matching against the
//! sitemap it is then truncated at its first `#`, while the URL built on
//! success keeps the fragment verbatim.

use vstd::prelude::*;
use vstd::slice::slice_index_get;
use vstd::slice::slice_subrange;
use vstd::slice::slice_to_vec;
use crate::entry_views;
use crate::scan::concat_bytes;
use crate::scan::contains_sub;
use crate::scan::bytes_eq;
use crate::scan::has_sub;
use crate::scan::starts_with;

verus! {

/// The byte `/`.
pub open spec fn slash() -> u8 {
    47u8
}

/// The byte `#`.
pub open spec fn hash_mark() -> u8 {
    35u8
}

/// A normalized slug: the slug itself if it already starts with `/`, else
/// the slug with `/` prepended.
pub open spec fn spec_normalize(s: Seq<u8>) -> Seq<u8> {
    if s.len() > 0 && s[0] == slash() {
        s
    } else {
        seq![slash()] + s
    }
}

/// A slug truncated at its first `#`: the part used for sitemap matching.
pub open spec fn spec_truncate(s: Seq<u8>) -> Seq<u8>
    decreases s.len(),
{
    if s.len() == 0 {
        Seq::empty()
    } else if s[0] == hash_mark() {
        Seq::empty()
    } else {
        seq![s[0]] + spec_truncate(s.drop_first())
    }
}

/// `spec_truncate` keeps exactly the bytes before the first `#`: if no `#`
/// stands before position `k` and `k` is the end or holds `#`, the truncated
/// slug is the first `k` bytes.
pub proof fn lemma_truncate_take(s: Seq<u8>, k: int)
    requires
        0 <= k <= s.len(),
        forall|t: int| 0 <= t < k ==> s[t] != hash_mark(),
        k == s.len() || s[k] == hash_mark(),
    ensures
        spec_truncate(s) == s.take(k),
    decreases s.len(),
{
    if k == 0 {
        assert(s.take(0) =~= Seq::<u8>::empty());
    } else {
        assert(s[0] != hash_mark());
        lemma_truncate_take(s.drop_first(), k - 1);
        assert(seq![s[0]] + s.drop_first().take(k - 1) =~= s.take(k));
    }
}

/// Law: normalization is idempotent, and a slug that already starts with `/`
/// is left unchanged by it.
pub proof fn lemma_normalize_idempotent(s: Seq<u8>)
    ensures
        spec_normalize(spec_normalize(s)) == spec_normalize(s),
        s.len() > 0 && s[0] == slash() ==> spec_normalize(s) == s,
{
    if !(s.len() > 0 && s[0] == slash()) {
        assert((seq![slash()] + s)[0] == slash());
    }
}

/// A slug with no fragment marker is kept whole by truncation.
pub proof fn lemma_truncate_no_fragment(s: Seq<u8>)
    requires
        forall|t: int| 0 <= t < s.len() ==> s[t] != hash_mark(),
    ensures
        spec_truncate(s) == s,
{
    lemma_truncate_take(s, s.len() as int);
    assert(s.take(s.len() as int) =~= s);
}

/// Law: the fragment is excluded from matching but kept in the URL. For a
/// slug `path#frag` whose path holds no `#`, the matching key is the
/// normalized path alone, and normalization leaves the fragment verbatim at
/// the end.
pub proof fn lemma_fragment_excluded(path: Seq<u8>, frag: Seq<u8>)
    requires
        forall|t: int| 0 <= t < path.len() ==> path[t] != hash_mark(),
    ensures
        spec_truncate(spec_normalize(path + seq![hash_mark()] + frag)) == spec_normalize(path),
        spec_normalize(path + seq![hash_mark()] + frag) == spec_normalize(path) + seq![
            hash_mark(),
        ] + frag,
{
    let s = path + seq![hash_mark()] + frag;
    if path.len() > 0 && path[0] == slash() {
        assert(s.len() > 0 && s[0] == slash());
        lemma_truncate_take(s, path.len() as int);
        assert(s.take(path.len() as int) =~= path);
    } else {
        assert(!(s.len() > 0 && s[0] == slash())) by {
            if s.len() > 0 && s[0] == slash() {
                if path.len() > 0 {
                    assert(s[0] == path[0]);
                } else {
                    assert(s[0] == hash_mark());
                }
            }
        }
        let n = seq![slash()] + s;
        let npath = seq![slash()] + path;
        assert(n =~= npath + seq![hash_mark()] + frag);
        assert(forall|t: int| 0 <= t < npath.len() ==> npath[t] != hash_mark());
        lemma_truncate_take(n, npath.len() as int);
        assert(n.take(npath.len() as int) =~= npath);
        assert(spec_normalize(path) == npath);
    }
}

/// The slug names a page under the namespace: some sitemap entry starts with
/// the namespace followed by the normalized, fragment-free slug.
pub open spec fn spec_valid_slug(sitemap: Seq<Seq<u8>>, ns: Seq<u8>, slug: Seq<u8>) -> bool {
    exists|i: int|
        0 <= i < sitemap.len() && (ns + spec_truncate(spec_normalize(slug))).is_prefix_of(
            sitemap[i],
        )
}

/// Law: an empty slug normalizes to `/`, and validates exactly when some
/// sitemap entry begins with the namespace root followed by `/`.
pub proof fn lemma_empty_slug(sitemap: Seq<Seq<u8>>, ns: Seq<u8>)
    ensures
        spec_normalize(Seq::<u8>::empty()) == seq![slash()],
        spec_valid_slug(sitemap, ns, Seq::<u8>::empty()) <==> exists|i: int|
            0 <= i < sitemap.len() && (ns + seq![slash()]).is_prefix_of(sitemap[i]),
{
    assert(seq![slash()] + Seq::<u8>::empty() =~= seq![slash()]);
    lemma_truncate_no_fragment(seq![slash()]);
}

/// The normalized form of `slug`, as bytes.
pub fn normalize_slug(slug: &[u8]) -> (r: Vec<u8>)
    ensures
        r@ == spec_normalize(slug@),
{
    if slug.len() > 0 && *slice_index_get(slug, 0) == 47u8 {
        slice_to_vec(slug)
    } else {
        let mut out: Vec<u8> = Vec::new();
        out.push(47u8);
        let r = concat_bytes(out.as_slice(), slug);
        proof {
            assert(out@ =~= seq![slash()]);
        }
        r
    }
}

/// The bytes of `s` before its first `#`.
pub fn truncate_fragment(s: &[u8]) -> (r: Vec<u8>)
    ensures
        r@ == spec_truncate(s@),
{
    let mut k: usize = 0;
    while k < s.len() && *slice_index_get(s, k) != 35u8
        invariant
            k <= s@.len(),
            forall|t: int| 0 <= t < k ==> s@[t] != hash_mark(),
        decreases s@.len() - k,
    {
        k = k + 1;
    }
    let r = slice_to_vec(slice_subrange(s, 0, k));
    proof {
        lemma_truncate_take(s@, k as int);
    }
    r
}

/// Whether the normalized, fragment-free slug, appended to the namespace, is
/// a prefix of some sitemap entry.
pub fn validate_slug(sitemap: &Vec<Vec<u8>>, namespace: &[u8], slug: &[u8]) -> (r: bool)
    ensures
        r == spec_valid_slug(entry_views(sitemap@), namespace@, slug@),
{
    let normalized = normalize_slug(slug);
    let truncated = truncate_fragment(normalized.as_slice());
    let needle = concat_bytes(namespace, truncated.as_slice());
    let ghost views = entry_views(sitemap@);
    let mut i: usize = 0;
    while i < sitemap.len()
        invariant
            i <= sitemap@.len(),
            views == entry_views(sitemap@),
            needle@ == namespace@ + spec_truncate(spec_normalize(slug@)),
            forall|k: int| 0 <= k < i ==> !needle@.is_prefix_of(views[k]),
        decreases sitemap@.len() - i,
    {
        if starts_with(sitemap[i].as_slice(), needle.as_slice()) {
            proof {
                assert(views[i as int] == sitemap@[i as int]@);
                assert((namespace@ + spec_truncate(spec_normalize(slug@))).is_prefix_of(
                    views[i as int],
                ));
            }
            return true;
        }
        i = i + 1;
    }
    false
}

/// Resolves `slug` under `namespace` against the sitemap snapshot: when the
/// slug validates, the constructed URL — the namespace followed by the whole
/// normalized slug, fragment included; when it does not, nothing.
pub fn resolve(sitemap: &Vec<Vec<u8>>, namespace: &[u8], slug: &[u8]) -> (r: Option<Vec<u8>>)
    ensures
        match r {
            Some(url) => spec_valid_slug(entry_views(sitemap@), namespace@, slug@) && url@
                == namespace@ + spec_normalize(slug@),
            None => !spec_valid_slug(entry_views(sitemap@), namespace@, slug@),
        },
{
    if validate_slug(sitemap, namespace, slug) {
        let normalized = normalize_slug(slug);
        Some(concat_bytes(namespace, normalized.as_slice()))
    } else {
        None
    }
}

/// An entry kept by autocomplete: it contains the partial text somewhere,
/// lies under the namespace, and is not the bare namespace root itself.
pub open spec fn spec_keep(e: Seq<u8>, ns: Seq<u8>, partial: Seq<u8>) -> bool {
    has_sub(e, partial) && ns.is_prefix_of(e) && e != ns + seq![slash()]
}

/// The autocomplete suggestions, in sitemap order: every kept entry with the
/// namespace prefix stripped.
pub open spec fn spec_suggestions(sitemap: Seq<Seq<u8>>, ns: Seq<u8>, partial: Seq<u8>) -> Seq<
    Seq<u8>,
>
    decreases sitemap.len(),
{
    if sitemap.len() == 0 {
        Seq::empty()
    } else {
        let head: Seq<Seq<u8>> = if spec_keep(sitemap[0], ns, partial) {
            seq![sitemap[0].skip(ns.len() as int)]
        } else {
            Seq::empty()
        };
        head + spec_suggestions(sitemap.drop_first(), ns, partial)
    }
}

/// Unfolds `spec_suggestions` one sitemap entry at a time.
proof fn lemma_suggestions_step(sitemap: Seq<Seq<u8>>, ns: Seq<u8>, partial: Seq<u8>, i: int)
    requires
        0 <= i < sitemap.len(),
    ensures
        spec_suggestions(sitemap.skip(i), ns, partial) == (if spec_keep(sitemap[i], ns, partial) {
            seq![sitemap[i].skip(ns.len() as int)]
        } else {
            Seq::<Seq<u8>>::empty()
        }) + spec_suggestions(sitemap.skip(i + 1), ns, partial),
{
    let tail = sitemap.skip(i);
    assert(tail[0] == sitemap[i]);
    assert(tail.drop_first() =~= sitemap.skip(i + 1));
}

/// The autocomplete suggestions for `partial` under `namespace`: every
/// sitemap entry that contains `partial`, lies under the namespace and is
/// not the bare namespace root, in order, with the namespace stripped.
pub fn autocomplete(sitemap: &Vec<Vec<u8>>, namespace: &[u8], partial: &[u8]) -> (r: Vec<Vec<u8>>)
    ensures
        entry_views(r@) == spec_suggestions(entry_views(sitemap@), namespace@, partial@),
{
    let mut root = slice_to_vec(namespace);
    root.push(47u8);
    proof {
        assert(root@ =~= namespace@ + seq![slash()]);
    }
    let ghost views = entry_views(sitemap@);
    let mut out: Vec<Vec<u8>> = Vec::new();
    proof {
        assert(views.skip(0) =~= views);
        assert(entry_views(out@) =~= Seq::<Seq<u8>>::empty());
        assert(entry_views(out@) + spec_suggestions(views, namespace@, partial@)
            =~= spec_suggestions(views, namespace@, partial@));
    }
    let mut i: usize = 0;
    while i < sitemap.len()
        invariant
            i <= sitemap@.len(),
            views == entry_views(sitemap@),
            root@ == namespace@ + seq![slash()],
            spec_suggestions(views, namespace@, partial@) == entry_views(out@)
                + spec_suggestions(views.skip(i as int), namespace@, partial@),
        decreases sitemap@.len() - i,
    {
        proof {
            lemma_suggestions_step(views, namespace@, partial@, i as int);
        }
        let entry = sitemap[i].as_slice();
        if contains_sub(entry, partial) && starts_with(entry, namespace) && !bytes_eq(
            entry,
            root.as_slice(),
        ) {
            let stripped = slice_to_vec(slice_subrange(entry, namespace.len(), entry.len()));
            proof {
                assert(spec_keep(views[i as int], namespace@, partial@));
                assert(entry_views(out@.push(stripped)) =~= entry_views(out@).push(stripped@));
                assert(entry_views(out@).push(stripped@) =~= entry_views(out@) + seq![stripped@]);
                assert(entry_views(out@) + seq![stripped@] + spec_suggestions(
                    views.skip(i + 1),
                    namespace@,
                    partial@,
                ) =~= entry_views(out@) + (seq![stripped@] + spec_suggestions(
                    views.skip(i + 1),
                    namespace@,
                    partial@,
                )));
            }
            out.push(stripped);
        } else {
            proof {
                assert(!spec_keep(views[i as int], namespace@, partial@));
                assert(Seq::<Seq<u8>>::empty() + spec_suggestions(
                    views.skip(i + 1),
                    namespace@,
                    partial@,
                ) =~= spec_suggestions(views.skip(i + 1), namespace@, partial@));
            }
        }
        i = i + 1;
    }
    proof {
        assert(views.skip(i as int) =~= Seq::<Seq<u8>>::empty());
        assert(entry_views(out@) + Seq::<Seq<u8>>::empty() =~= entry_views(out@));
    }
    out
}

} // verus!
