//! One reStructuredText document read into the vocabulary every reader
//! speaks: its references as occurrences with their place in the block they
//! sit in, its titles as headings, the spans nothing here reads into, the
//! labels it declares, and the work the read took.

use vstd::prelude::*;

use crate::anchor::{Heading, HeadingSource};
use crate::rst::extract::{extract, extraction_of, title_views, ExtractionView, TitleView};
use crate::rst::read::string_views;
use crate::rst::{doc_destination, doc_target, ReferenceKind, ReferenceView, Refusal};
use vstd::utf8::{decode_utf8, valid_utf8};

verus! {

/// Why a document cannot be analyzed.
#[derive(Clone, Copy, Debug, PartialEq, Eq, Structural)]
pub enum Fault {
    /// The bytes are not UTF-8.
    DocumentInvalid,
}

/// One reference as every reader reports it: the construct it was written
/// with, the destination as written and as it is resolved, its span, where it
/// sits (its block, then its place among the references of that block), and
/// the span of its block.
#[derive(Debug, PartialEq, Eq)]
pub struct Occurrence {
    pub construct: ReferenceKind,
    pub raw_destination: String,
    pub semantic_destination: String,
    pub span: (usize, usize),
    pub node_path: Vec<usize>,
    pub block_span: (usize, usize),
}

/// An occurrence as values.
pub struct OccurrenceView {
    pub construct: ReferenceKind,
    pub raw_destination: Seq<char>,
    pub semantic_destination: Seq<char>,
    pub span: (usize, usize),
    pub node_path: Seq<usize>,
    pub block_span: (usize, usize),
}

impl View for Occurrence {
    type V = OccurrenceView;

    open spec fn view(&self) -> OccurrenceView {
        OccurrenceView {
            construct: self.construct,
            raw_destination: self.raw_destination@,
            semantic_destination: self.semantic_destination@,
            span: self.span,
            node_path: self.node_path@,
            block_span: self.block_span,
        }
    }
}

/// How much a read took: the nodes it produced and how deep they nest.
#[derive(Clone, Copy, Debug, PartialEq, Eq, Structural)]
pub struct Work {
    pub nodes: u64,
    pub nesting: u64,
}

/// What a document holds for every reader.
#[derive(Debug, PartialEq, Eq)]
pub struct AnalyzedDocument {
    pub occurrences: Vec<Occurrence>,
    pub opaque_html: Vec<(usize, usize)>,
    pub headings: Vec<Heading>,
    pub declared_anchors: Vec<String>,
}

/// One document's analysis: the work it took, the bytes of embedded code it
/// ran, and what it holds.
#[derive(Debug, PartialEq, Eq)]
pub struct Analysis {
    pub work: Work,
    pub embedded_code_bytes: u64,
    pub extraction: Option<AnalyzedDocument>,
}

/// `n`, or the largest `usize` where `n` is larger.
pub open spec fn saturating_usize(n: int) -> usize {
    if n > usize::MAX {
        usize::MAX
    } else {
        n as usize
    }
}

/// A `:doc:` destination is resolved by the source-suffix rule; every other
/// destination is resolved as written.
pub open spec fn semantic_of(r: ReferenceView) -> Seq<char> {
    if r.kind == ReferenceKind::DocRole {
        doc_target(r.target)
    } else {
        r.target
    }
}

/// The place of reference `i` among the references of its block: one more
/// than the reference before it where that sits in the same block, counting
/// from zero in each new block.
pub open spec fn ordinal(refs: Seq<ReferenceView>, i: int) -> usize
    decreases i,
{
    if i <= 0 {
        if refs[0].block == usize::MAX {
            1
        } else {
            0
        }
    } else if refs[i - 1].block == refs[i].block {
        saturating_usize(ordinal(refs, i - 1) + 1)
    } else {
        0
    }
}

/// Reference `i` as an occurrence.
pub open spec fn occurrence_of(refs: Seq<ReferenceView>, i: int) -> OccurrenceView {
    OccurrenceView {
        construct: refs[i].kind,
        raw_destination: refs[i].target,
        semantic_destination: semantic_of(refs[i]),
        span: refs[i].span,
        node_path: seq![refs[i].block, ordinal(refs, i)],
        block_span: refs[i].block_span,
    }
}

/// The views of a list of occurrences.
pub open spec fn occurrence_views(v: Seq<Occurrence>) -> Seq<OccurrenceView> {
    v.map_values(|o: Occurrence| o@)
}

/// The nodes a read produced: its blocks, its references and its titles.
pub open spec fn nodes_of(x: ExtractionView) -> u64 {
    saturating_usize(saturating_usize(x.blocks + x.references.len()) + x.titles.len()) as u64
}

/// Whether a heading is a title read from reStructuredText.
pub open spec fn is_title_heading(h: Heading, t: TitleView) -> bool {
    &&& h.text@ == t.text
    &&& h.source == HeadingSource::Rst
    &&& h.attribute is None
    &&& h.span == t.span
}

/// What an analysis of a read says.
pub open spec fn analysis_of(a: Analysis, x: ExtractionView) -> bool {
    &&& a.work.nodes == nodes_of(x)
    &&& a.work.nesting == saturating_usize(x.nesting + 1) as u64
    &&& a.embedded_code_bytes == 0
    &&& a.extraction is Some
    &&& occurrence_views(a.extraction.unwrap().occurrences@) == Seq::new(
        x.references.len(),
        |i: int| occurrence_of(x.references, i),
    )
    &&& a.extraction.unwrap().opaque_html@ == x.opaque
    &&& a.extraction.unwrap().headings@.len() == x.titles.len()
    &&& forall|i: int|
        0 <= i < x.titles.len() ==> is_title_heading(#[trigger] a.extraction.unwrap().headings@[i], x.titles[i])
    &&& string_views(a.extraction.unwrap().declared_anchors@) == x.anchors
}

/// Reads one reStructuredText document into the vocabulary every reader
/// speaks; `DocumentInvalid` exactly when the bytes are not UTF-8.
pub fn analyze(source: &[u8]) -> (r: Result<Analysis, Fault>)
    ensures
        r is Err <==> !valid_utf8(source@),
        r matches Err(f) ==> f == Fault::DocumentInvalid,
        r matches Ok(a) ==> analysis_of(a, extraction_of(decode_utf8(source@))),
{
    let read = match extract(source) {
        Ok(read) => read,
        Err(Refusal::NotUtf8) => {
            return Err(Fault::DocumentInvalid);
        },
    };
    let ghost x = read@;
    let nodes = read.blocks.saturating_add(read.references.len()).saturating_add(read.titles.len());
    let mut occurrences: Vec<Occurrence> = Vec::new();
    let mut previous_block: usize = usize::MAX;
    let mut within: usize = 0;
    let mut i: usize = 0;
    while i < read.references.len()
        invariant
            x == read@,
            i <= read.references@.len(),
            x.references.len() == read.references@.len(),
            occurrence_views(occurrences@) == Seq::new(i as nat, |k: int| occurrence_of(x.references, k)),
            i > 0 ==> previous_block == x.references[i - 1].block && within == ordinal(x.references, i - 1),
            i == 0 ==> previous_block == usize::MAX && within == 0,
        decreases read.references@.len() - i,
    {
        let reference = &read.references[i];
        assert(x.references[i as int] == reference@);
        if previous_block == reference.block {
            within = within.saturating_add(1);
        } else {
            within = 0;
        }
        previous_block = reference.block;
        let semantic = if reference.kind == ReferenceKind::DocRole {
            doc_destination(reference.target.as_str())
        } else {
            reference.target.clone()
        };
        let mut node_path: Vec<usize> = Vec::new();
        node_path.push(reference.block);
        node_path.push(within);
        let occurrence = Occurrence {
            construct: reference.kind,
            raw_destination: reference.target.clone(),
            semantic_destination: semantic,
            span: reference.span,
            node_path,
            block_span: reference.block_span,
        };
        let ghost before = occurrences@;
        occurrences.push(occurrence);
        proof {
            assert(occurrence_views(occurrences@) =~= occurrence_views(before).push(occurrences@.last()@));
            assert(occurrences@.last()@.node_path =~= seq![x.references[i as int].block, ordinal(x.references, i as int)]);
            assert(occurrences@.last()@ == occurrence_of(x.references, i as int));
            assert(occurrence_views(occurrences@) =~= Seq::new((i + 1) as nat, |k: int| occurrence_of(x.references, k)));
        }
        i = i + 1;
    }
    let mut headings: Vec<Heading> = Vec::new();
    let mut j: usize = 0;
    while j < read.titles.len()
        invariant
            x == read@,
            j <= read.titles@.len(),
            x.titles == title_views(read.titles@),
            headings@.len() == j,
            forall|k: int| 0 <= k < j ==> is_title_heading(#[trigger] headings@[k], x.titles[k]),
        decreases read.titles@.len() - j,
    {
        let title = &read.titles[j];
        assert(x.titles[j as int] == title@);
        headings.push(Heading { text: title.text.clone(), source: HeadingSource::Rst, attribute: None, span: title.span });
        j = j + 1;
    }
    let document = AnalyzedDocument {
        occurrences,
        opaque_html: read.opaque,
        headings,
        declared_anchors: read.anchors,
    };
    let nesting = read.nesting.saturating_add(1);
    Ok(Analysis {
        work: Work { nodes: nodes as u64, nesting: nesting as u64 },
        embedded_code_bytes: 0,
        extraction: Some(document),
    })
}

} // verus!
