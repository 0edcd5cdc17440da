//! The two link templates and the strings they are built from.
//!
//! A repository permalink is formatted from the remote URL (with one
//! conventional `.git` suffix stripped when it carries one), the current
//! branch and the file's path relative to the repository root. The plain
//! template yields a bare link target; the anchor template yields the
//! opening of an HTML anchor tag. Strings are held as bytes, written here
//! as ASCII codes.

use vstd::prelude::*;

use crate::text::append_bytes;
use crate::text::ends_with;
use crate::text::sub_bytes;

verus! {

/// The placeholder token of the plain template: `#[git]`.
pub open spec fn plain_placeholder() -> Seq<u8> {
    seq![35u8, 91u8, 103u8, 105u8, 116u8, 93u8]
}

/// The opening of an anchor tag up to its quoted target: `<a href="`.
pub open spec fn anchor_open() -> Seq<u8> {
    seq![60u8, 97u8, 32u8, 104u8, 114u8, 101u8, 102u8, 61u8, 34u8]
}

/// The placeholder token of the anchor template: `<a href="#[git]"`.
pub open spec fn anchor_placeholder() -> Seq<u8> {
    anchor_open() + plain_placeholder() + seq![34u8]
}

/// The path segment of the plain template: `/tree/`.
pub open spec fn tree_segment() -> Seq<u8> {
    seq![47u8, 116u8, 114u8, 101u8, 101u8, 47u8]
}

/// The path segment of the anchor template: `/blob/`.
pub open spec fn blob_segment() -> Seq<u8> {
    seq![47u8, 98u8, 108u8, 111u8, 98u8, 47u8]
}

/// The conventional suffix of a repository URL: `.git`.
pub open spec fn git_suffix() -> Seq<u8> {
    seq![46u8, 103u8, 105u8, 116u8]
}

/// Which of the two fixed templates a run rewrites with.
#[derive(Clone, Copy, Debug, PartialEq, Eq, Structural)]
pub enum LinkTemplate {
    /// Replaces `#[git]` by the bare link target `{url}/tree/{branch}/{rel}`.
    PlainLink,
    /// Replaces `<a href="#[git]"` by `<a href="{url}/blob/{branch}/{rel}"`.
    AnchorLink,
}

/// The placeholder token that the given template replaces.
pub open spec fn template_placeholder(t: LinkTemplate) -> Seq<u8> {
    match t {
        LinkTemplate::PlainLink => plain_placeholder(),
        LinkTemplate::AnchorLink => anchor_placeholder(),
    }
}

/// The plain link target: `{url}/tree/{branch}/{rel}`.
pub open spec fn plain_link(url: Seq<u8>, branch: Seq<u8>, rel: Seq<u8>) -> Seq<u8> {
    url + tree_segment() + branch + seq![47u8] + rel
}

/// The anchor link: `<a href="{url}/blob/{branch}/{rel}"`.
pub open spec fn anchor_link(url: Seq<u8>, branch: Seq<u8>, rel: Seq<u8>) -> Seq<u8> {
    anchor_open() + url + blob_segment() + branch + seq![47u8] + rel + seq![34u8]
}

/// The string that the given template writes in the placeholder's place.
pub open spec fn template_link(t: LinkTemplate, url: Seq<u8>, branch: Seq<u8>, rel: Seq<u8>) -> Seq<u8> {
    match t {
        LinkTemplate::PlainLink => plain_link(url, branch, rel),
        LinkTemplate::AnchorLink => anchor_link(url, branch, rel),
    }
}

/// The remote URL as it stands in the link: one trailing `.git` is stripped
/// when the URL carries one, and the URL is kept as it is otherwise.
pub open spec fn stripped_url(url: Seq<u8>) -> Seq<u8> {
    if git_suffix().is_suffix_of(url) {
        url.take(url.len() - git_suffix().len())
    } else {
        url
    }
}

/// The placeholder token of the given template, as bytes.
pub fn placeholder_bytes(t: LinkTemplate) -> (r: Vec<u8>)
    ensures
        r@ == template_placeholder(t),
        r@.len() > 0,
{
    let mut v: Vec<u8> = Vec::new();
    if let LinkTemplate::AnchorLink = t {
        push_anchor_open(&mut v);
    }
    v.push(35);
    v.push(91);
    v.push(103);
    v.push(105);
    v.push(116);
    v.push(93);
    if let LinkTemplate::AnchorLink = t {
        v.push(34);
        proof {
            assert(v@ =~= anchor_placeholder());
        }
    } else {
        proof {
            assert(v@ =~= plain_placeholder());
        }
    }
    v
}

/// Appends `<a href="` to `v`.
fn push_anchor_open(v: &mut Vec<u8>)
    ensures
        final(v)@ == old(v)@ + anchor_open(),
{
    v.push(60);
    v.push(97);
    v.push(32);
    v.push(104);
    v.push(114);
    v.push(101);
    v.push(102);
    v.push(61);
    v.push(34);
    proof {
        assert(v@ =~= old(v)@ + anchor_open());
    }
}

/// Builds the link string of the given template from the (already stripped)
/// remote URL, the branch name and the relative path.
pub fn build_link(t: LinkTemplate, url: &Vec<u8>, branch: &Vec<u8>, rel: &Vec<u8>) -> (r: Vec<u8>)
    ensures
        r@ == template_link(t, url@, branch@, rel@),
{
    let mut v: Vec<u8> = Vec::new();
    match t {
        LinkTemplate::PlainLink => {
            append_bytes(&mut v, url);
            v.push(47);
            v.push(116);
            v.push(114);
            v.push(101);
            v.push(101);
            v.push(47);
            append_bytes(&mut v, branch);
            v.push(47);
            append_bytes(&mut v, rel);
            proof {
                assert(v@ =~= plain_link(url@, branch@, rel@));
            }
        }
        LinkTemplate::AnchorLink => {
            push_anchor_open(&mut v);
            append_bytes(&mut v, url);
            v.push(47);
            v.push(98);
            v.push(108);
            v.push(111);
            v.push(98);
            v.push(47);
            append_bytes(&mut v, branch);
            v.push(47);
            append_bytes(&mut v, rel);
            v.push(34);
            proof {
                assert(v@ =~= anchor_link(url@, branch@, rel@));
            }
        }
    }
    v
}

/// Strips one trailing `.git` from the remote URL when it ends in one.
pub fn strip_git_suffix(url: &Vec<u8>) -> (r: Vec<u8>)
    ensures
        r@ == stripped_url(url@),
{
    let mut suffix: Vec<u8> = Vec::new();
    suffix.push(46);
    suffix.push(103);
    suffix.push(105);
    suffix.push(116);
    proof {
        assert(suffix@ =~= git_suffix());
    }
    if ends_with(url, &suffix) {
        let r = sub_bytes(url, 0, url.len() - suffix.len());
        proof {
            assert(r@ =~= stripped_url(url@));
        }
        r
    } else {
        let r = sub_bytes(url, 0, url.len());
        proof {
            assert(r@ =~= stripped_url(url@));
        }
        r
    }
}

} // verus!
