//! Locale trees: which locale side owns a page path, and the key a page
//! carries there, so a page and the same page in another locale share one key.

use crate::text::{byte_len, chars_of, lemma_rfind, rfind, rfind_char};
use vstd::prelude::*;
use vstd::string::StrSliceExecFns;

verus! {

/// What follows the last `/` of a path, or the whole path.
pub open spec fn basename_of(path: Seq<char>) -> Seq<char> {
    match rfind(path, 0, path.len() as int, '/') {
        Some(k) => path.skip(k + 1),
        None => path,
    }
}

/// What follows the last `/` of a path, or the whole path.
pub fn basename(path: &str) -> (r: &str)
    ensures
        r@ == basename_of(path@),
{
    let t = chars_of(path);
    proof {
        lemma_rfind(t@, 0, t@.len() as int, '/');
    }
    match rfind_char(t.as_slice(), 0, t.len(), '/') {
        Some(k) => {
            let r = path.substring_char(k + 1, t.len());
            assert(r@ =~= path@.skip(k + 1));
            r
        },
        None => path,
    }
}

/// Where one locale's pages live in the candidate tree. A layout that gives
/// each locale its own directory leaves `suffix` out; one that marks the
/// locale in the filename names it there, so `guide/start.fr.md` and
/// `guide/start.md` share the key `guide/start.md`.
pub struct LocaleSide {
    pub root: String,
    pub locale: String,
    pub suffix: Option<String>,
}

/// Which subtree each locale owns and which file suffixes are pages at all.
pub struct LocaleTreeContext {
    pub source: LocaleSide,
    pub target: LocaleSide,
    pub documents: Vec<String>,
}

/// The side that owns a path.
#[derive(Clone, Copy, Debug, PartialEq, Eq, Structural)]
pub enum Owner {
    Source,
    Target,
}

/// The path below `root/`, when the path lies there.
pub open spec fn below(path: Seq<char>, root: Seq<char>) -> Option<Seq<char>> {
    if path.len() > root.len() && path.take(root.len() as int) == root && path[root.len() as int]
        == '/' {
        Some(path.skip(root.len() as int + 1))
    } else {
        None
    }
}

/// Whether `s` ends with `p`.
pub open spec fn ends_with(s: Seq<char>, p: Seq<char>) -> bool {
    p.len() <= s.len() && s.skip(s.len() - p.len()) == p
}

/// The longest of the page suffixes `relative` ends with, the later of two
/// equally long ones.
pub open spec fn longest_document(documents: Seq<Seq<char>>, relative: Seq<char>) -> Option<Seq<char>>
    decreases documents.len(),
{
    if documents.len() == 0 {
        None
    } else {
        let before = longest_document(documents.drop_last(), relative);
        let d = documents.last();
        if ends_with(relative, d) && (before is None || before.unwrap().len() <= d.len()) {
            Some(d)
        } else {
            before
        }
    }
}

/// The key a path carries on one side: the path below the side's root, with
/// the locale marker taken out of the filename where the side marks it there.
/// A side that marks nothing claims no file whose stem holds a dot.
pub open spec fn key_of(root: Seq<char>, suffix: Option<Seq<char>>, documents: Seq<Seq<char>>, path: Seq<char>) -> Option<Seq<char>> {
    match below(path, root) {
        None => None,
        Some(relative) => match longest_document(documents, relative) {
            None => None,
            Some(document) => {
                let stem = relative.take(relative.len() - document.len());
                match suffix {
                    Some(locale) => if ends_with(stem, locale) && stem.len() > locale.len()
                        && stem[stem.len() - locale.len() - 1] == '.' {
                        Some(stem.take(stem.len() - locale.len() - 1) + document)
                    } else {
                        None
                    },
                    None => if basename_of(stem).contains('.') {
                        None
                    } else {
                        Some(relative)
                    },
                }
            },
        },
    }
}

/// The views of a list of strings.
pub open spec fn string_views(v: Seq<String>) -> Seq<Seq<char>> {
    v.map_values(|s: String| s@)
}

/// The view of an optional string.
pub open spec fn opt_text(o: Option<String>) -> Option<Seq<char>> {
    match o {
        Some(s) => Some(s@),
        None => None,
    }
}

/// The side that owns a path and the key it carries there. A root nested
/// inside the other side's root is the more specific claim, so the side whose
/// root is longer, in bytes, is asked first, the target on a tie.
pub open spec fn assignment(source_root: Seq<char>, source_suffix: Option<Seq<char>>, target_root: Seq<char>, target_suffix: Option<Seq<char>>, documents: Seq<Seq<char>>, path: Seq<char>) -> Option<(Owner, Seq<char>)> {
    let from_source = key_of(source_root, source_suffix, documents, path);
    let from_target = key_of(target_root, target_suffix, documents, path);
    if byte_len(target_root) >= byte_len(source_root) {
        match from_target {
            Some(k) => Some((Owner::Target, k)),
            None => match from_source {
                Some(k) => Some((Owner::Source, k)),
                None => None,
            },
        }
    } else {
        match from_source {
            Some(k) => Some((Owner::Source, k)),
            None => match from_target {
                Some(k) => Some((Owner::Target, k)),
                None => None,
            },
        }
    }
}

/// Whether `t` ends with `p`.
fn ends_with_chars(t: &[char], p: &[char]) -> (b: bool)
    ensures
        b == ends_with(t@, p@),
{
    if p.len() > t.len() {
        return false;
    }
    let b = crate::text::equals_at(t, t.len() - p.len(), t.len(), p);
    assert(t@.subrange(t@.len() - p@.len(), t@.len() as int) =~= t@.skip(t@.len() - p@.len()));
    b
}

proof fn lemma_longest_document(documents: Seq<Seq<char>>, relative: Seq<char>)
    ensures
        longest_document(documents, relative) matches Some(d) ==> ends_with(relative, d),
    decreases documents.len(),
{
    if documents.len() > 0 {
        lemma_longest_document(documents.drop_last(), relative);
    }
}

/// The longest of the page suffixes `relative` ends with.
fn longest(documents: &Vec<String>, relative: &Vec<char>) -> (r: Option<Vec<char>>)
    ensures
        (match r {
            Some(b) => Some(b@),
            None => None,
        }) == longest_document(string_views(documents@), relative@),
{
    let ghost docs = string_views(documents@);
    let mut best: Option<Vec<char>> = None;
    let mut k: usize = 0;
    while k < documents.len()
        invariant
            k <= documents@.len(),
            docs == string_views(documents@),
            (match best {
                Some(b) => Some(b@),
                None => None,
            }) == longest_document(docs.take(k as int), relative@),
        decreases documents@.len() - k,
    {
        let d = chars_of(documents[k].as_str());
        proof {
            assert(docs.take(k + 1).drop_last() =~= docs.take(k as int));
            assert(docs.take(k + 1).last() == d@);
        }
        if ends_with_chars(relative.as_slice(), d.as_slice()) {
            let longer = match &best {
                None => true,
                Some(b) => b.len() <= d.len(),
            };
            if longer {
                best = Some(d);
            }
        }
        k = k + 1;
    }
    assert(docs.take(documents@.len() as int) =~= docs);
    best
}

/// The key of a file whose stem marks the locale: the stem without `.` and
/// the locale, then the page suffix.
fn marked_key(stem: &Vec<char>, locale: &str, document: &Vec<char>) -> (r: Option<String>)
    ensures
        opt_text(r) == (if ends_with(stem@, locale@) && stem@.len() > locale@.len() && stem@[stem@.len()
            - locale@.len() - 1] == '.' {
            Some(stem@.take(stem@.len() - locale@.len() - 1) + document@)
        } else {
            None
        }),
{
    let l = chars_of(locale);
    if ends_with_chars(stem.as_slice(), l.as_slice()) && stem.len() > l.len() && stem[stem.len()
        - l.len() - 1] == '.' {
        let mut key = crate::text::copy_range(stem.as_slice(), 0, stem.len() - l.len() - 1);
        let ghost head = key@;
        let mut m: usize = 0;
        while m < document.len()
            invariant
                m <= document@.len(),
                key@ == head + document@.take(m as int),
            decreases document@.len() - m,
        {
            key.push(document[m]);
            assert(document@.take(m + 1) =~= document@.take(m as int).push(document@[m as int]));
            m = m + 1;
        }
        assert(document@.take(document@.len() as int) =~= document@);
        assert(head =~= stem@.take(stem@.len() - l@.len() - 1));
        let text = crate::text::text_of(key.as_slice(), 0, key.len());
        assert(key@.subrange(0, key@.len() as int) =~= key@);
        Some(text)
    } else {
        None
    }
}

/// The key of a file on a side that marks no locale: the path below the root,
/// unless the stem's last segment holds a dot.
fn unmarked_key(stem: &Vec<char>, relative: &Vec<char>) -> (r: Option<String>)
    ensures
        opt_text(r) == (if basename_of(stem@).contains('.') {
            None
        } else {
            Some(relative@)
        }),
{
    let stem_text = crate::text::text_of(stem.as_slice(), 0, stem.len());
    assert(stem@.subrange(0, stem@.len() as int) =~= stem@);
    let base = chars_of(basename(stem_text.as_str()));
    let dotted = crate::text::any_char(base.as_slice(), 0, base.len(), '.');
    proof {
        if base@.contains('.') {
            let w = choose|w: int| 0 <= w < base@.len() && base@[w] == '.';
            assert(crate::text::has_char(base@, 0, base@.len() as int, '.'));
        }
    }
    if dotted {
        None
    } else {
        let text = crate::text::text_of(relative.as_slice(), 0, relative.len());
        assert(relative@.subrange(0, relative@.len() as int) =~= relative@);
        Some(text)
    }
}

/// The key a path carries on one side, if the side claims it.
pub fn keyed(side: &LocaleSide, documents: &Vec<String>, path: &str) -> (r: Option<String>)
    ensures
        opt_text(r) == key_of(side.root@, opt_text(side.suffix), string_views(documents@), path@),
{
    let p = chars_of(path);
    let root = chars_of(side.root.as_str());
    if !(p.len() > root.len() && crate::text::equals_at(p.as_slice(), 0, root.len(), root.as_slice())
        && p[root.len()] == '/') {
        proof {
            if p@.len() > root@.len() && p@.take(root@.len() as int) == root@ {
                assert(p@.subrange(0, root@.len() as int) =~= p@.take(root@.len() as int));
            }
        }
        return None;
    }
    assert(p@.subrange(0, root@.len() as int) =~= p@.take(root@.len() as int));
    let relative = crate::text::copy_range(p.as_slice(), root.len() + 1, p.len());
    assert(relative@ =~= p@.skip(root@.len() as int + 1));
    proof {
        lemma_longest_document(string_views(documents@), relative@);
    }
    let document = match longest(documents, &relative) {
        None => {
            return None;
        },
        Some(d) => d,
    };
    let stem_len = relative.len() - document.len();
    let stem = crate::text::copy_range(relative.as_slice(), 0, stem_len);
    assert(stem@ =~= relative@.take(stem_len as int));
    match &side.suffix {
        Some(locale) => marked_key(&stem, locale.as_str(), &document),
        None => unmarked_key(&stem, &relative),
    }
}

/// The side that owns a path and the key it carries there.
pub fn assign(context: &LocaleTreeContext, path: &str) -> (r: Option<(Owner, String)>)
    ensures
        match r {
            Some((owner, key)) => assignment(
                context.source.root@,
                opt_text(context.source.suffix),
                context.target.root@,
                opt_text(context.target.suffix),
                string_views(context.documents@),
                path@,
            ) == Some((owner, key@)),
            None => assignment(
                context.source.root@,
                opt_text(context.source.suffix),
                context.target.root@,
                opt_text(context.target.suffix),
                string_views(context.documents@),
                path@,
            ) is None,
        },
{
    let source = context.source.root.as_str().as_bytes().len();
    let target = context.target.root.as_str().as_bytes().len();
    proof {
        crate::text::lemma_byte_len_encoding(context.source.root@);
        crate::text::lemma_byte_len_encoding(context.target.root@);
    }
    let from_target = keyed(&context.target, &context.documents, path);
    let from_source = keyed(&context.source, &context.documents, path);
    if target >= source {
        match from_target {
            Some(key) => Some((Owner::Target, key)),
            None => match from_source {
                Some(key) => Some((Owner::Source, key)),
                None => None,
            },
        }
    } else {
        match from_source {
            Some(key) => Some((Owner::Source, key)),
            None => match from_target {
                Some(key) => Some((Owner::Target, key)),
                None => None,
            },
        }
    }
}

} // verus!
