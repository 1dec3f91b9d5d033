//! Which repository paths are documents, under which reader, and which of
//! them the built-in scope leaves out.

use crate::bytes::{ascii, ends_with, ends_with_text, rfind_byte, last_byte, lemma_last_byte, spells};
use vstd::prelude::*;

verus! {

/// The readers a document can be bound to.
#[derive(Clone, Copy, Debug, PartialEq, Eq, Structural)]
pub enum Adapter {
    Markdown,
    Mdx,
    Rst,
    AsciiDoc,
    PlainAdvisory,
}

/// What the built-in rows make of one path.
#[derive(Clone, Copy, Debug, PartialEq, Eq, Structural)]
pub enum Classification {
    StructuredMarkdown,
    ExtensionlessMarkdown,
    StructuredMdx,
    StructuredAsciiDoc,
    StructuredRst,
    PlainAdvisory,
    UnparsedMarkup,
    PolicyIncluded,
}

/// The reader a classification binds a document to on its own: none for
/// markup nothing here parses, nor for a path only a policy include brings in.
pub open spec fn native_adapter_of(c: Classification) -> Option<Adapter> {
    match c {
        Classification::StructuredMarkdown | Classification::ExtensionlessMarkdown => Some(
            Adapter::Markdown,
        ),
        Classification::StructuredMdx => Some(Adapter::Mdx),
        Classification::StructuredAsciiDoc => Some(Adapter::AsciiDoc),
        Classification::StructuredRst => Some(Adapter::Rst),
        Classification::PlainAdvisory => Some(Adapter::PlainAdvisory),
        Classification::UnparsedMarkup | Classification::PolicyIncluded => None,
    }
}

/// A policy include needs an explicit binding; unparsed markup has no native
/// adapter.
pub fn native_adapter(classification: Classification) -> (a: Option<Adapter>)
    ensures
        a == native_adapter_of(classification),
{
    match classification {
        Classification::StructuredMarkdown | Classification::ExtensionlessMarkdown => Some(
            Adapter::Markdown,
        ),
        Classification::StructuredMdx => Some(Adapter::Mdx),
        Classification::StructuredAsciiDoc => Some(Adapter::AsciiDoc),
        Classification::StructuredRst => Some(Adapter::Rst),
        Classification::PlainAdvisory => Some(Adapter::PlainAdvisory),
        Classification::UnparsedMarkup | Classification::PolicyIncluded => None,
    }
}

/// The part of a path after its last `/`, or the whole path.
pub open spec fn basename_of(p: Seq<u8>) -> Seq<u8> {
    match last_byte(p, 0, p.len() as int, 0x2f) {
        Some(k) => p.skip(k + 1),
        None => p,
    }
}

/// The basenames read as Markdown without a suffix.
pub open spec fn extensionless(b: Seq<u8>) -> bool {
    ||| b == ascii("README"@)
    ||| b == ascii("CONTRIBUTING"@)
    ||| b == ascii("CHANGELOG"@)
    ||| b == ascii("SECURITY"@)
    ||| b == ascii("SUPPORT"@)
    ||| b == ascii("CODE_OF_CONDUCT"@)
}

/// The built-in rows: exact lowercase suffix, then exact extensionless
/// basename, then exact advisory basename.
pub open spec fn classification_of(p: Seq<u8>) -> Option<Classification> {
    if ends_with(p, ascii(".md"@)) || ends_with(p, ascii(".markdown"@)) {
        Some(Classification::StructuredMarkdown)
    } else if ends_with(p, ascii(".mdx"@)) {
        Some(Classification::StructuredMdx)
    } else if ends_with(p, ascii(".adoc"@)) || ends_with(p, ascii(".asciidoc"@)) {
        Some(Classification::StructuredAsciiDoc)
    } else if ends_with(p, ascii(".rst"@)) {
        Some(Classification::StructuredRst)
    } else if ends_with(p, ascii(".ipynb"@)) || ends_with(p, ascii(".org"@)) {
        Some(Classification::UnparsedMarkup)
    } else if extensionless(basename_of(p)) {
        Some(Classification::ExtensionlessMarkdown)
    } else if basename_of(p) == ascii(".cursorrules"@) || basename_of(p) == ascii("llms.txt"@) {
        Some(Classification::PlainAdvisory)
    } else {
        None
    }
}

proof fn lemma_basename_under(d: Seq<u8>, name: Seq<u8>)
    requires
        !crate::bytes::has_byte(name, 0, name.len() as int, 0x2f),
    ensures
        basename_of(d + seq![0x2fu8] + name) == name,
        basename_of(name) == name,
{
    let p = d + seq![0x2fu8] + name;
    lemma_last_byte(p, 0, p.len() as int, 0x2f);
    lemma_last_byte(name, 0, name.len() as int, 0x2f);
    let slash = d.len() as int;
    assert(p[slash] == 0x2f);
    match last_byte(p, 0, p.len() as int, 0x2f) {
        Some(k) => {
            if k > slash {
                assert(name[k - slash - 1] == 0x2f);
            }
            if k < slash {
                assert(crate::bytes::has_byte(p, k + 1, p.len() as int, 0x2f));
            }
            assert(p.skip(k + 1) =~= name);
        },
        None => {
            assert(crate::bytes::has_byte(p, 0, p.len() as int, 0x2f));
        },
    }
    match last_byte(name, 0, name.len() as int, 0x2f) {
        Some(k) => {
            assert(crate::bytes::has_byte(name, 0, name.len() as int, 0x2f));
        },
        None => {},
    }
}

proof fn lemma_not_suffixed(p: Seq<u8>, suffix: Seq<u8>)
    requires
        p.len() > 0,
        0x41 <= p.last() <= 0x5a,
        suffix.len() > 0,
        0x61 <= suffix.last() <= 0x7a,
    ensures
        !ends_with(p, suffix),
{
    if ends_with(p, suffix) {
        assert(p.skip(p.len() - suffix.len())[suffix.len() - 1] == p.last());
    }
}

proof fn lemma_extensionless_at(p: Seq<u8>, name: Seq<u8>)
    requires
        basename_of(p) == name,
        p.len() > 0,
        p.last() == name.last(),
        name.len() > 0,
        0x41 <= name.last() <= 0x5a,
        extensionless(name),
    ensures
        classification_of(p) == Some(Classification::ExtensionlessMarkdown),
{
    reveal_strlit(".md");
    reveal_strlit(".markdown");
    reveal_strlit(".mdx");
    reveal_strlit(".adoc");
    reveal_strlit(".asciidoc");
    reveal_strlit(".rst");
    reveal_strlit(".ipynb");
    reveal_strlit(".org");
    lemma_not_suffixed(p, ascii(".md"@));
    lemma_not_suffixed(p, ascii(".markdown"@));
    lemma_not_suffixed(p, ascii(".mdx"@));
    lemma_not_suffixed(p, ascii(".adoc"@));
    lemma_not_suffixed(p, ascii(".asciidoc"@));
    lemma_not_suffixed(p, ascii(".rst"@));
    lemma_not_suffixed(p, ascii(".ipynb"@));
    lemma_not_suffixed(p, ascii(".org"@));
}

proof fn lemma_named(d: Seq<u8>, name: Seq<u8>)
    requires
        name.len() > 0,
        0x41 <= name.last() <= 0x5a,
        extensionless(name),
        !crate::bytes::has_byte(name, 0, name.len() as int, 0x2f),
    ensures
        classification_of(name) == Some(Classification::ExtensionlessMarkdown),
        classification_of(d + seq![0x2fu8] + name) == Some(Classification::ExtensionlessMarkdown),
{
    lemma_basename_under(d, name);
    lemma_extensionless_at(name, name);
    let p = d + seq![0x2fu8] + name;
    assert(p.last() == name.last());
    lemma_extensionless_at(p, name);
}

/// The six files a repository keeps at any level without a suffix (README,
/// CONTRIBUTING, CHANGELOG, SECURITY, SUPPORT, CODE_OF_CONDUCT) are Markdown
/// documents, alone or under any directory.
pub proof fn lemma_extensionless_documents(d: Seq<u8>)
    ensures
        classification_of(ascii("README"@)) == Some(Classification::ExtensionlessMarkdown),
        classification_of(ascii("CONTRIBUTING"@)) == Some(Classification::ExtensionlessMarkdown),
        classification_of(ascii("CHANGELOG"@)) == Some(Classification::ExtensionlessMarkdown),
        classification_of(ascii("SECURITY"@)) == Some(Classification::ExtensionlessMarkdown),
        classification_of(ascii("SUPPORT"@)) == Some(Classification::ExtensionlessMarkdown),
        classification_of(ascii("CODE_OF_CONDUCT"@)) == Some(Classification::ExtensionlessMarkdown),
        classification_of(d + seq![0x2fu8] + ascii("README"@)) == Some(Classification::ExtensionlessMarkdown),
        classification_of(d + seq![0x2fu8] + ascii("CONTRIBUTING"@)) == Some(Classification::ExtensionlessMarkdown),
        classification_of(d + seq![0x2fu8] + ascii("CHANGELOG"@)) == Some(Classification::ExtensionlessMarkdown),
        classification_of(d + seq![0x2fu8] + ascii("SECURITY"@)) == Some(Classification::ExtensionlessMarkdown),
        classification_of(d + seq![0x2fu8] + ascii("SUPPORT"@)) == Some(Classification::ExtensionlessMarkdown),
        classification_of(d + seq![0x2fu8] + ascii("CODE_OF_CONDUCT"@)) == Some(Classification::ExtensionlessMarkdown),
{
    reveal_strlit("README");
    reveal_strlit("CONTRIBUTING");
    reveal_strlit("CHANGELOG");
    reveal_strlit("SECURITY");
    reveal_strlit("SUPPORT");
    reveal_strlit("CODE_OF_CONDUCT");
    lemma_named(d, ascii("README"@));
    lemma_named(d, ascii("CONTRIBUTING"@));
    lemma_named(d, ascii("CHANGELOG"@));
    lemma_named(d, ascii("SECURITY"@));
    lemma_named(d, ascii("SUPPORT"@));
    lemma_named(d, ascii("CODE_OF_CONDUCT"@));
}

proof fn lemma_suffix_kept(p: Seq<u8>, s: Seq<u8>, other: Seq<u8>)
    requires
        s.len() > 0,
        other.len() > 0,
    ensures
        ends_with(p + s, s),
        other.last() != s.last() ==> !ends_with(p + s, other),
{
    let q = p + s;
    assert(q.skip(q.len() - s.len()) =~= s);
    if other.last() != s.last() && ends_with(q, other) {
        assert(q.skip(q.len() - other.len())[other.len() - 1] == q.last());
    }
}

/// Any path that ends in a recognised suffix is read by that suffix's row:
/// `.md` and `.markdown` as Markdown, `.mdx` as MDX, `.adoc` and `.asciidoc`
/// as AsciiDoc, `.rst` as reStructuredText, and `.ipynb` and `.org` as markup
/// nothing here parses, whatever comes before the suffix.
pub proof fn lemma_suffixes_decide(p: Seq<u8>)
    ensures
        classification_of(p + ascii(".md"@)) == Some(Classification::StructuredMarkdown),
        classification_of(p + ascii(".markdown"@)) == Some(Classification::StructuredMarkdown),
        classification_of(p + ascii(".mdx"@)) == Some(Classification::StructuredMdx),
        classification_of(p + ascii(".adoc"@)) == Some(Classification::StructuredAsciiDoc),
        classification_of(p + ascii(".asciidoc"@)) == Some(Classification::StructuredAsciiDoc),
        classification_of(p + ascii(".rst"@)) == Some(Classification::StructuredRst),
        classification_of(p + ascii(".ipynb"@)) == Some(Classification::UnparsedMarkup),
        classification_of(p + ascii(".org"@)) == Some(Classification::UnparsedMarkup),
{
    reveal_strlit(".md");
    reveal_strlit(".markdown");
    reveal_strlit(".mdx");
    reveal_strlit(".adoc");
    reveal_strlit(".asciidoc");
    reveal_strlit(".rst");
    reveal_strlit(".ipynb");
    reveal_strlit(".org");
    let md = ascii(".md"@);
    let markdown = ascii(".markdown"@);
    let mdx = ascii(".mdx"@);
    let adoc = ascii(".adoc"@);
    let asciidoc = ascii(".asciidoc"@);
    let rst = ascii(".rst"@);
    let ipynb = ascii(".ipynb"@);
    let org = ascii(".org"@);
    lemma_suffix_kept(p, md, md);
    lemma_suffix_kept(p, markdown, markdown);
    lemma_suffix_kept(p, mdx, md);
    lemma_suffix_kept(p, mdx, markdown);
    lemma_suffix_kept(p, adoc, md);
    lemma_suffix_kept(p, adoc, markdown);
    lemma_suffix_kept(p, adoc, mdx);
    lemma_suffix_kept(p, asciidoc, md);
    lemma_suffix_kept(p, asciidoc, markdown);
    lemma_suffix_kept(p, asciidoc, mdx);
    lemma_suffix_kept(p, asciidoc, adoc);
    lemma_suffix_kept(p, rst, md);
    lemma_suffix_kept(p, rst, markdown);
    lemma_suffix_kept(p, rst, mdx);
    lemma_suffix_kept(p, rst, adoc);
    lemma_suffix_kept(p, rst, asciidoc);
    lemma_suffix_kept(p, ipynb, md);
    lemma_suffix_kept(p, ipynb, markdown);
    lemma_suffix_kept(p, ipynb, mdx);
    lemma_suffix_kept(p, ipynb, adoc);
    lemma_suffix_kept(p, ipynb, asciidoc);
    lemma_suffix_kept(p, ipynb, rst);
    lemma_suffix_kept(p, org, md);
    lemma_suffix_kept(p, org, markdown);
    lemma_suffix_kept(p, org, mdx);
    lemma_suffix_kept(p, org, adoc);
    lemma_suffix_kept(p, org, asciidoc);
    lemma_suffix_kept(p, org, rst);
}

proof fn lemma_tail_differs(p: Seq<u8>, name: Seq<u8>, suffix: Seq<u8>, k: int)
    requires
        p.len() >= name.len(),
        p.skip(p.len() - name.len()) == name,
        0 <= k < suffix.len(),
        0 <= name.len() - suffix.len() + k,
        name[name.len() - suffix.len() + k] != suffix[k],
    ensures
        !ends_with(p, suffix),
{
    if ends_with(p, suffix) {
        assert(p.skip(p.len() - suffix.len())[k] == p[p.len() - suffix.len() + k]);
        assert(p.skip(p.len() - name.len())[name.len() - suffix.len() + k] == p[p.len() - suffix.len() + k]);
    }
}

proof fn lemma_advisory_at(p: Seq<u8>, name: Seq<u8>)
    requires
        basename_of(p) == name,
        p.len() >= name.len(),
        p.skip(p.len() - name.len()) == name,
        name == ascii(".cursorrules"@) || name == ascii("llms.txt"@),
    ensures
        classification_of(p) == Some(Classification::PlainAdvisory),
{
    reveal_strlit(".md");
    reveal_strlit(".markdown");
    reveal_strlit(".mdx");
    reveal_strlit(".adoc");
    reveal_strlit(".asciidoc");
    reveal_strlit(".rst");
    reveal_strlit(".ipynb");
    reveal_strlit(".org");
    reveal_strlit(".cursorrules");
    reveal_strlit("llms.txt");
    reveal_strlit("README");
    reveal_strlit("CONTRIBUTING");
    reveal_strlit("CHANGELOG");
    reveal_strlit("SECURITY");
    reveal_strlit("SUPPORT");
    reveal_strlit("CODE_OF_CONDUCT");
    let md = ascii(".md"@);
    let markdown = ascii(".markdown"@);
    let mdx = ascii(".mdx"@);
    let adoc = ascii(".adoc"@);
    let asciidoc = ascii(".asciidoc"@);
    let rst = ascii(".rst"@);
    let ipynb = ascii(".ipynb"@);
    let org = ascii(".org"@);
    lemma_tail_differs(p, name, md, md.len() - 1);
    lemma_tail_differs(p, name, markdown, markdown.len() - 1);
    lemma_tail_differs(p, name, mdx, mdx.len() - 1);
    lemma_tail_differs(p, name, adoc, adoc.len() - 1);
    lemma_tail_differs(p, name, asciidoc, asciidoc.len() - 1);
    lemma_tail_differs(p, name, ipynb, ipynb.len() - 1);
    lemma_tail_differs(p, name, org, org.len() - 1);
    if name == ascii(".cursorrules"@) {
        lemma_tail_differs(p, name, rst, rst.len() - 1);
        assert(name[0] != ascii("CONTRIBUTING"@)[0]);
    } else {
        lemma_tail_differs(p, name, rst, 1);
        assert(name[0] != ascii("SECURITY"@)[0]);
    }
    assert(!extensionless(name));
}

/// The two advisory files (`.cursorrules` and `llms.txt`), alone or under any
/// directory, are plain advisory documents.
pub proof fn lemma_advisory_documents(d: Seq<u8>)
    ensures
        classification_of(ascii(".cursorrules"@)) == Some(Classification::PlainAdvisory),
        classification_of(ascii("llms.txt"@)) == Some(Classification::PlainAdvisory),
        classification_of(d + seq![0x2fu8] + ascii(".cursorrules"@)) == Some(Classification::PlainAdvisory),
        classification_of(d + seq![0x2fu8] + ascii("llms.txt"@)) == Some(Classification::PlainAdvisory),
{
    reveal_strlit(".cursorrules");
    reveal_strlit("llms.txt");
    let c = ascii(".cursorrules"@);
    let l = ascii("llms.txt"@);
    lemma_basename_under(d, c);
    lemma_basename_under(d, l);
    assert(c.skip(0) =~= c);
    assert(l.skip(0) =~= l);
    lemma_advisory_at(c, c);
    lemma_advisory_at(l, l);
    let pc = d + seq![0x2fu8] + c;
    let pl = d + seq![0x2fu8] + l;
    assert(pc.skip(pc.len() - c.len()) =~= c);
    assert(pl.skip(pl.len() - l.len()) =~= l);
    lemma_advisory_at(pc, c);
    lemma_advisory_at(pl, l);
}

proof fn lemma_tree_component(d: Seq<u8>, n: Seq<u8>, rest: Seq<u8>)
    requires
        n.len() > 0,
        !crate::bytes::has_byte(n, 0, n.len() as int, 0x2f),
        excluded_tree(n),
    ensures
        excluded_by_built_in_spec(n + seq![0x2fu8] + rest),
        excluded_by_built_in_spec(d + seq![0x2fu8] + n + seq![0x2fu8] + rest),
{
    let p = n + seq![0x2fu8] + rest;
    let j = n.len() as int;
    assert(p.subrange(0, j) =~= n);
    assert(!crate::bytes::has_byte(p, 0, j, 0x2f)) by {
        if crate::bytes::has_byte(p, 0, j, 0x2f) {
            let k = choose|k: int| 0 <= k < j && p[k] == 0x2f;
            assert(n[k] == 0x2f);
        }
    }
    assert(directory_component(p, 0, j));
    let q = d + seq![0x2fu8] + n + seq![0x2fu8] + rest;
    let i: int = d.len() as int + 1;
    assert(q.subrange(i, i + j) =~= n);
    assert(q[i - 1] == 0x2f);
    assert(q[i + j] == 0x2f);
    assert(!crate::bytes::has_byte(q, i, i + j, 0x2f)) by {
        if crate::bytes::has_byte(q, i, i + j, 0x2f) {
            let k = choose|k: int| i <= k < i + j && q[k] == 0x2f;
            assert(n[k - i] == 0x2f);
        }
    }
    assert(directory_component(q, i, i + j));
}

/// A path under any of the nine built-in excluded trees (node_modules,
/// vendor, third_party, dist, build, .next, target, test, tests), at the top
/// of the repository or below any directory, is excluded.
pub proof fn lemma_built_in_trees_are_excluded(d: Seq<u8>, rest: Seq<u8>)
    ensures
        excluded_by_built_in_spec(ascii("node_modules"@) + seq![0x2fu8] + rest),
        excluded_by_built_in_spec(ascii("vendor"@) + seq![0x2fu8] + rest),
        excluded_by_built_in_spec(ascii("third_party"@) + seq![0x2fu8] + rest),
        excluded_by_built_in_spec(ascii("dist"@) + seq![0x2fu8] + rest),
        excluded_by_built_in_spec(ascii("build"@) + seq![0x2fu8] + rest),
        excluded_by_built_in_spec(ascii(".next"@) + seq![0x2fu8] + rest),
        excluded_by_built_in_spec(ascii("target"@) + seq![0x2fu8] + rest),
        excluded_by_built_in_spec(ascii("test"@) + seq![0x2fu8] + rest),
        excluded_by_built_in_spec(ascii("tests"@) + seq![0x2fu8] + rest),
        excluded_by_built_in_spec(d + seq![0x2fu8] + ascii("node_modules"@) + seq![0x2fu8] + rest),
        excluded_by_built_in_spec(d + seq![0x2fu8] + ascii("vendor"@) + seq![0x2fu8] + rest),
        excluded_by_built_in_spec(d + seq![0x2fu8] + ascii("third_party"@) + seq![0x2fu8] + rest),
        excluded_by_built_in_spec(d + seq![0x2fu8] + ascii("dist"@) + seq![0x2fu8] + rest),
        excluded_by_built_in_spec(d + seq![0x2fu8] + ascii("build"@) + seq![0x2fu8] + rest),
        excluded_by_built_in_spec(d + seq![0x2fu8] + ascii(".next"@) + seq![0x2fu8] + rest),
        excluded_by_built_in_spec(d + seq![0x2fu8] + ascii("target"@) + seq![0x2fu8] + rest),
        excluded_by_built_in_spec(d + seq![0x2fu8] + ascii("test"@) + seq![0x2fu8] + rest),
        excluded_by_built_in_spec(d + seq![0x2fu8] + ascii("tests"@) + seq![0x2fu8] + rest),
{
    reveal_strlit("node_modules");
    reveal_strlit("vendor");
    reveal_strlit("third_party");
    reveal_strlit("dist");
    reveal_strlit("build");
    reveal_strlit(".next");
    reveal_strlit("target");
    reveal_strlit("test");
    reveal_strlit("tests");
    lemma_tree_component(d, ascii("node_modules"@), rest);
    lemma_tree_component(d, ascii("vendor"@), rest);
    lemma_tree_component(d, ascii("third_party"@), rest);
    lemma_tree_component(d, ascii("dist"@), rest);
    lemma_tree_component(d, ascii("build"@), rest);
    lemma_tree_component(d, ascii(".next"@), rest);
    lemma_tree_component(d, ascii("target"@), rest);
    lemma_tree_component(d, ascii("test"@), rest);
    lemma_tree_component(d, ascii("tests"@), rest);
}

/// Whether the whole of `t` spells `s`.
fn whole(t: &[u8], s: &str) -> (b: bool)
    ensures
        b == (t@ == ascii(s@)),
{
    let b = spells(t, 0, t.len(), s);
    assert(t@.subrange(0, t@.len() as int) =~= t@);
    b
}

/// Classifies one repository path by the closed built-in rows. Other case or
/// suffixes are not treated as equivalent, and the rows read raw bytes, so a
/// path that is not text still classifies.
pub fn classify(path: &[u8]) -> (c: Option<Classification>)
    ensures
        c == classification_of(path@),
{
    if ends_with_text(path, ".md") || ends_with_text(path, ".markdown") {
        return Some(Classification::StructuredMarkdown);
    }
    if ends_with_text(path, ".mdx") {
        return Some(Classification::StructuredMdx);
    }
    if ends_with_text(path, ".adoc") || ends_with_text(path, ".asciidoc") {
        return Some(Classification::StructuredAsciiDoc);
    }
    if ends_with_text(path, ".rst") {
        return Some(Classification::StructuredRst);
    }
    if ends_with_text(path, ".ipynb") || ends_with_text(path, ".org") {
        return Some(Classification::UnparsedMarkup);
    }
    proof {
        lemma_last_byte(path@, 0, path@.len() as int, 0x2f);
    }
    let start = match rfind_byte(path, 0, path.len(), 0x2f) {
        Some(k) => k + 1,
        None => 0,
    };
    let base = vstd::slice::slice_subrange(path, start, path.len());
    assert(base@ == basename_of(path@)) by {
        assert(path@.subrange(0, path@.len() as int) =~= path@);
        assert(path@.subrange(start as int, path@.len() as int) =~= path@.skip(start as int));
    }
    if whole(base, "README") || whole(base, "CONTRIBUTING") || whole(base, "CHANGELOG") || whole(
        base,
        "SECURITY",
    ) || whole(base, "SUPPORT") || whole(base, "CODE_OF_CONDUCT") {
        return Some(Classification::ExtensionlessMarkdown);
    }
    if whole(base, ".cursorrules") || whole(base, "llms.txt") {
        return Some(Classification::PlainAdvisory);
    }
    None
}

/// The directory names whose trees the built-in scope leaves out.
pub open spec fn excluded_tree(c: Seq<u8>) -> bool {
    ||| c == ascii("node_modules"@)
    ||| c == ascii("vendor"@)
    ||| c == ascii("third_party"@)
    ||| c == ascii("dist"@)
    ||| c == ascii("build"@)
    ||| c == ascii(".next"@)
    ||| c == ascii("target"@)
    ||| c == ascii("test"@)
    ||| c == ascii("tests"@)
}

/// Whether `[i, j)` of `p` is a directory component: it starts the path or
/// follows a `/`, holds no `/`, and a `/` ends it.
pub open spec fn directory_component(p: Seq<u8>, i: int, j: int) -> bool {
    &&& 0 <= i <= j < p.len()
    &&& p[j] == 0x2f
    &&& (i == 0 || p[i - 1] == 0x2f)
    &&& !crate::bytes::has_byte(p, i, j, 0x2f)
}

/// Whether some directory component of a path, byte for byte, names an
/// excluded tree. The basename is no tree component.
pub open spec fn excluded_by_built_in_spec(p: Seq<u8>) -> bool {
    exists|i: int, j: int| #[trigger]
        directory_component(p, i, j) && excluded_tree(p.subrange(i, j))
}

/// A path under an excluded tree stays excluded however deep it goes, and a
/// path with no directory component is never excluded: the basename is no
/// tree component.
pub proof fn lemma_excluded_tree_reaches_down(p: Seq<u8>, q: Seq<u8>)
    ensures
        excluded_by_built_in_spec(p) ==> excluded_by_built_in_spec(p + q),
        !crate::bytes::has_byte(p, 0, p.len() as int, 0x2f) ==> !excluded_by_built_in_spec(p),
{
    if excluded_by_built_in_spec(p) {
        let (i, j) = choose|i: int, j: int| #[trigger]
            directory_component(p, i, j) && excluded_tree(p.subrange(i, j));
        let pq = p + q;
        assert(pq.subrange(i, j) =~= p.subrange(i, j));
        assert(directory_component(pq, i, j)) by {
            assert(pq[j] == p[j]);
            if i > 0 {
                assert(pq[i - 1] == p[i - 1]);
            }
            assert forall|k: int| i <= k < j implies pq[k] == p[k] by {}
        }
    }
    if excluded_by_built_in_spec(p) && !crate::bytes::has_byte(p, 0, p.len() as int, 0x2f) {
        let (i, j) = choose|i: int, j: int| #[trigger]
            directory_component(p, i, j) && excluded_tree(p.subrange(i, j));
        assert(p[j] == 0x2f);
    }
}

/// Whether the window `[lo, hi)` names an excluded tree.
fn names_excluded_tree(t: &[u8], lo: usize, hi: usize) -> (b: bool)
    requires
        lo <= hi <= t@.len(),
    ensures
        b == excluded_tree(t@.subrange(lo as int, hi as int)),
{
    spells(t, lo, hi, "node_modules") || spells(t, lo, hi, "vendor") || spells(
        t,
        lo,
        hi,
        "third_party",
    ) || spells(t, lo, hi, "dist") || spells(t, lo, hi, "build") || spells(t, lo, hi, ".next")
        || spells(t, lo, hi, "target") || spells(t, lo, hi, "test") || spells(t, lo, hi, "tests")
}

/// A document under a directory component in the closed excluded set is
/// discovered but excluded by built-in scope. Matching is byte-exact.
pub fn excluded_by_built_in(path: &[u8]) -> (b: bool)
    ensures
        b == excluded_by_built_in_spec(path@),
{
    let mut start: usize = 0;
    let mut k: usize = 0;
    while k < path.len()
        invariant
            start <= k <= path@.len(),
            start == 0 || path@[start - 1] == 0x2f,
            !crate::bytes::has_byte(path@, start as int, k as int, 0x2f),
            forall|i: int, j: int|
                directory_component(path@, i, j) && j < k ==> !excluded_tree(
                    path@.subrange(i, j),
                ),
        decreases path@.len() - k,
    {
        if path[k] == 0x2f {
            if names_excluded_tree(path, start, k) {
                assert(directory_component(path@, start as int, k as int));
                return true;
            }
            proof {
                assert forall|i: int, j: int|
                    directory_component(path@, i, j) && j < k + 1 implies !excluded_tree(
                    path@.subrange(i, j),
                ) by {
                    if j == k {
                        if i < start {
                            assert(path@[start - 1] == 0x2f);
                        } else if i > start {
                            assert(path@[i - 1] == 0x2f);
                        }
                    }
                }
            }
            start = k + 1;
        }
        k = k + 1;
    }
    false
}

} // verus!
