//! Heading identities: one row per renderer saying how it turns a heading's
//! text into the identity it publishes, and the union of what every known
//! renderer publishes for one document.

pub mod identity;
pub mod slug;

use vstd::prelude::*;

pub use identity::{anchor_set, anchor_set_checked, bump, identities, identities_checked};
pub use slug::slug;

verus! {

/// The Unicode normalization a renderer applies before it reads the text.
#[derive(Clone, Copy, Debug, PartialEq, Eq, Structural)]
pub enum Normalize {
    AsWritten,
    Nfc,
    Nfkd,
}

/// What a renderer does to the decomposed text: nothing, drop everything
/// outside ASCII, or drop the Latin combining block.
#[derive(Clone, Copy, Debug, PartialEq, Eq, Structural)]
pub enum Fold {
    AsWritten,
    AsciiIgnore,
    LatinMarks,
}

/// Whether case folding runs over the whole string before the filter, with the
/// full Unicode mapping, or per surviving character with the simple one.
#[derive(Clone, Copy, Debug, PartialEq, Eq, Structural)]
pub enum Case {
    FullBeforeFilter,
    SimpleAfterFilter,
}

/// The characters a renderer carries into the identity.
#[derive(Clone, Copy, Debug, PartialEq, Eq, Structural)]
pub enum Keep {
    LetterMarkNumberConnector,
    LetterNumberUnderscore,
    AlphabeticNumericUnderscore,
    AsciiAlphanumeric,
    AsciidoctorId,
    AnythingButC0,
}

/// The characters a renderer turns into a separator. A hyphen is one under
/// every rule, either because it survives or because it is replaced by one.
#[derive(Clone, Copy, Debug, PartialEq, Eq, Structural)]
pub enum Separators {
    Space,
    Whitespace,
    WhitespaceUnderscore,
    MditVuePunctuation,
    NonAlphanumeric,
}

/// When whitespace is trimmed: never, before the filter runs, or after
/// removal but before separators are mapped.
#[derive(Clone, Copy, Debug, PartialEq, Eq, Structural)]
pub enum Trim {
    Never,
    Before,
    AfterRemoval,
}

/// What a renderer publishes for a heading whose identity came out empty.
#[derive(Clone, Copy, Debug, PartialEq, Eq)]
pub enum Empty {
    Drop,
    Keep,
    Fill(&'static str),
}

/// Whether the renderer rewrites dashes and ellipses before it reads the text.
#[derive(Clone, Copy, Debug, PartialEq, Eq, Structural)]
pub enum Typography {
    Plain,
    SmartPunctuation,
}

/// Whether the leading run of non-letters is dropped before anything else.
#[derive(Clone, Copy, Debug, PartialEq, Eq, Structural)]
pub enum Head {
    AsWritten,
    StripNonLetter,
}

/// Whether a run of separators becomes one separator.
#[derive(Clone, Copy, Debug, PartialEq, Eq, Structural)]
pub enum Runs {
    AsWritten,
    Collapse,
}

/// Whether separators at either end survive.
#[derive(Clone, Copy, Debug, PartialEq, Eq, Structural)]
pub enum Edges {
    AsWritten,
    Trim,
    TrimEnd,
}

/// Whether a heading's own `{#id}` becomes the identity or stays text.
#[derive(Clone, Copy, Debug, PartialEq, Eq, Structural)]
pub enum Attribute {
    Literal,
    Honored,
}

/// Whether the renderer builds an identity from a heading written as raw HTML.
/// The ones that do run over the rendered document rather than over the
/// Markdown tree, so they see both kinds in one sequence.
#[derive(Clone, Copy, Debug, PartialEq, Eq, Structural)]
pub enum RawHtml {
    Anchored,
    Ignored,
}

/// Whether the renderer builds an identity from a definition-list term. Only
/// Hugo does, under `autoDefinitionTermID`, and it numbers a repeat on the
/// same counter the headings use.
#[derive(Clone, Copy, Debug, PartialEq, Eq, Structural)]
pub enum Terms {
    Anchored,
    Ignored,
}

/// How a repeated identity is made unique.
#[derive(Clone, Copy, Debug, PartialEq, Eq, Structural)]
pub enum Duplicates {
    Dash,
    Underscore,
    UnderscoreFromTwo,
    Collide,
}

/// One renderer's heading-identity rule, as a table rather than as code, so a
/// reader can compare two renderers by reading two rows.
#[derive(Clone, Copy, Debug, PartialEq, Eq)]
pub struct AnchorRule {
    pub name: &'static str,
    pub typography: Typography,
    pub normalize: Normalize,
    pub fold: Fold,
    pub head: Head,
    pub trim: Trim,
    pub case: Case,
    pub keep: Keep,
    pub separators: Separators,
    pub runs: Runs,
    pub edges: Edges,
    pub leading_digit_prefix: Option<&'static str>,
    pub separator: char,
    pub prefix: Option<&'static str>,
    pub empty: Empty,
    pub duplicates: Duplicates,
    pub attribute: Attribute,
    pub raw_html: RawHtml,
    pub terms: Terms,
}

/// Where a heading was written.
#[derive(Clone, Copy, Debug, PartialEq, Eq, Structural)]
pub enum HeadingSource {
    Markdown,
    RawHtml,
    Rst,
}

/// A heading's own attribute block: the identity it spells, and the text the
/// block adds to the heading when a renderer reads it as text.
#[derive(Clone, Debug, PartialEq, Eq)]
pub struct HeadingAttribute {
    pub id: String,
    pub suffix: String,
}

/// One heading as the identity rules read it, with the span of source text
/// it was read from.
#[derive(Debug, PartialEq, Eq)]
pub struct Heading {
    pub text: String,
    pub source: HeadingSource,
    pub attribute: Option<HeadingAttribute>,
    pub span: (usize, usize),
}

/// A heading as values: its text, whether it is raw HTML, and its attribute
/// block's identity and suffix.
pub struct HeadingView {
    pub text: Seq<char>,
    pub raw_html: bool,
    pub attribute: Option<(Seq<char>, Seq<char>)>,
}

impl View for Heading {
    type V = HeadingView;

    open spec fn view(&self) -> HeadingView {
        HeadingView {
            text: self.text@,
            raw_html: self.source == HeadingSource::RawHtml,
            attribute: match self.attribute {
                Some(a) => Some((a.id@, a.suffix@)),
                None => None,
            },
        }
    }
}

/// The rule github.com publishes heading identities under, which is also the
/// one Hugo's default `autoHeadingIDType` spells and the one the term rule
/// reads its construct with.
pub open spec fn github_rule() -> AnchorRule {
    AnchorRule {
        name: "github",
        typography: Typography::Plain,
        normalize: Normalize::AsWritten,
        fold: Fold::AsWritten,
        head: Head::AsWritten,
        trim: Trim::Never,
        case: Case::FullBeforeFilter,
        keep: Keep::LetterMarkNumberConnector,
        separators: Separators::Space,
        runs: Runs::AsWritten,
        edges: Edges::AsWritten,
        leading_digit_prefix: None,
        separator: '-',
        prefix: None,
        empty: Empty::Keep,
        duplicates: Duplicates::Dash,
        attribute: Attribute::Literal,
        raw_html: RawHtml::Anchored,
        terms: Terms::Ignored,
    }
}

/// The rule github.com publishes heading identities under.
pub fn github() -> (r: AnchorRule)
    ensures
        r == github_rule(),
{
    AnchorRule {
        name: "github",
        typography: Typography::Plain,
        normalize: Normalize::AsWritten,
        fold: Fold::AsWritten,
        head: Head::AsWritten,
        trim: Trim::Never,
        case: Case::FullBeforeFilter,
        keep: Keep::LetterMarkNumberConnector,
        separators: Separators::Space,
        runs: Runs::AsWritten,
        edges: Edges::AsWritten,
        leading_digit_prefix: None,
        separator: '-',
        prefix: None,
        empty: Empty::Keep,
        duplicates: Duplicates::Dash,
        attribute: Attribute::Literal,
        raw_html: RawHtml::Anchored,
        terms: Terms::Ignored,
    }
}

/// The identity Hugo publishes for a definition-list term under
/// `autoDefinitionTermID`: the slug its heading rule builds, on the counter
/// its headings occupy. It reads a construct no renderer of the table reads,
/// so what it adds to the union is the terms and nothing else.
pub fn definition_terms() -> (r: AnchorRule)
    ensures
        r == (AnchorRule { name: "definition-term", terms: Terms::Anchored, ..github_rule() }),
{
    let mut rule = github();
    rule.name = "definition-term";
    rule.terms = Terms::Anchored;
    rule
}

/// Every renderer rule the resolver knows, in the order they are read. Adding
/// one can only grow the set an anchor may match, so the set is the union and
/// a missing rule is the only way to report a live anchor as absent.
pub open spec fn rule_table() -> Seq<AnchorRule> {
    seq![
        github_rule(),
        AnchorRule {
            name: "gitea",
            typography: Typography::Plain,
            normalize: Normalize::AsWritten,
            fold: Fold::AsWritten,
            head: Head::AsWritten,
            trim: Trim::Before,
            case: Case::SimpleAfterFilter,
            keep: Keep::LetterNumberUnderscore,
            separators: Separators::Whitespace,
            runs: Runs::AsWritten,
            edges: Edges::AsWritten,
            leading_digit_prefix: None,
            separator: '-',
            prefix: None,
            empty: Empty::Drop,
            duplicates: Duplicates::Collide,
            attribute: Attribute::Honored,
            raw_html: RawHtml::Ignored,
            terms: Terms::Ignored,
        },
        AnchorRule {
            name: "forgejo",
            typography: Typography::Plain,
            normalize: Normalize::AsWritten,
            fold: Fold::AsWritten,
            head: Head::AsWritten,
            trim: Trim::Before,
            case: Case::SimpleAfterFilter,
            keep: Keep::LetterNumberUnderscore,
            separators: Separators::Whitespace,
            runs: Runs::AsWritten,
            edges: Edges::AsWritten,
            leading_digit_prefix: None,
            separator: '-',
            prefix: None,
            empty: Empty::Fill("heading"),
            duplicates: Duplicates::Dash,
            attribute: Attribute::Honored,
            raw_html: RawHtml::Ignored,
            terms: Terms::Ignored,
        },
        AnchorRule {
            name: "mdbook",
            typography: Typography::Plain,
            normalize: Normalize::AsWritten,
            fold: Fold::AsWritten,
            head: Head::AsWritten,
            trim: Trim::Before,
            case: Case::FullBeforeFilter,
            keep: Keep::AlphabeticNumericUnderscore,
            separators: Separators::Whitespace,
            runs: Runs::AsWritten,
            edges: Edges::AsWritten,
            leading_digit_prefix: None,
            separator: '-',
            prefix: None,
            empty: Empty::Keep,
            duplicates: Duplicates::Dash,
            attribute: Attribute::Honored,
            raw_html: RawHtml::Ignored,
            terms: Terms::Ignored,
        },
        AnchorRule {
            name: "mdbook-smart",
            typography: Typography::SmartPunctuation,
            normalize: Normalize::AsWritten,
            fold: Fold::AsWritten,
            head: Head::AsWritten,
            trim: Trim::Before,
            case: Case::FullBeforeFilter,
            keep: Keep::AlphabeticNumericUnderscore,
            separators: Separators::Whitespace,
            runs: Runs::AsWritten,
            edges: Edges::AsWritten,
            leading_digit_prefix: None,
            separator: '-',
            prefix: None,
            empty: Empty::Keep,
            duplicates: Duplicates::Dash,
            attribute: Attribute::Honored,
            raw_html: RawHtml::Ignored,
            terms: Terms::Ignored,
        },
        AnchorRule {
            name: "goldmark",
            typography: Typography::Plain,
            normalize: Normalize::AsWritten,
            fold: Fold::AsciiIgnore,
            head: Head::AsWritten,
            trim: Trim::Before,
            case: Case::SimpleAfterFilter,
            keep: Keep::AsciiAlphanumeric,
            separators: Separators::WhitespaceUnderscore,
            runs: Runs::AsWritten,
            edges: Edges::AsWritten,
            leading_digit_prefix: None,
            separator: '-',
            prefix: None,
            empty: Empty::Fill("heading"),
            duplicates: Duplicates::Dash,
            attribute: Attribute::Literal,
            raw_html: RawHtml::Ignored,
            terms: Terms::Ignored,
        },
        AnchorRule {
            name: "python-markdown",
            typography: Typography::Plain,
            normalize: Normalize::Nfkd,
            fold: Fold::AsciiIgnore,
            head: Head::AsWritten,
            trim: Trim::AfterRemoval,
            case: Case::FullBeforeFilter,
            keep: Keep::LetterNumberUnderscore,
            separators: Separators::Whitespace,
            runs: Runs::Collapse,
            edges: Edges::AsWritten,
            leading_digit_prefix: None,
            separator: '-',
            prefix: None,
            empty: Empty::Keep,
            duplicates: Duplicates::Underscore,
            attribute: Attribute::Honored,
            raw_html: RawHtml::Ignored,
            terms: Terms::Ignored,
        },
        AnchorRule {
            name: "pymdownx",
            typography: Typography::Plain,
            normalize: Normalize::Nfc,
            fold: Fold::AsWritten,
            head: Head::AsWritten,
            trim: Trim::Before,
            case: Case::FullBeforeFilter,
            keep: Keep::LetterNumberUnderscore,
            separators: Separators::Space,
            runs: Runs::AsWritten,
            edges: Edges::AsWritten,
            leading_digit_prefix: None,
            separator: '-',
            prefix: None,
            empty: Empty::Keep,
            duplicates: Duplicates::Underscore,
            attribute: Attribute::Honored,
            raw_html: RawHtml::Ignored,
            terms: Terms::Ignored,
        },
        AnchorRule {
            name: "mdit-vue",
            typography: Typography::Plain,
            normalize: Normalize::Nfkd,
            fold: Fold::LatinMarks,
            head: Head::AsWritten,
            trim: Trim::Never,
            case: Case::FullBeforeFilter,
            keep: Keep::AnythingButC0,
            separators: Separators::MditVuePunctuation,
            runs: Runs::Collapse,
            edges: Edges::Trim,
            leading_digit_prefix: Some("_"),
            separator: '-',
            prefix: None,
            empty: Empty::Keep,
            duplicates: Duplicates::Dash,
            attribute: Attribute::Honored,
            raw_html: RawHtml::Ignored,
            terms: Terms::Ignored,
        },
        AnchorRule {
            name: "kramdown",
            typography: Typography::Plain,
            normalize: Normalize::AsWritten,
            fold: Fold::AsWritten,
            head: Head::StripNonLetter,
            trim: Trim::Never,
            case: Case::FullBeforeFilter,
            keep: Keep::AsciiAlphanumeric,
            separators: Separators::Space,
            runs: Runs::AsWritten,
            edges: Edges::AsWritten,
            leading_digit_prefix: None,
            separator: '-',
            prefix: None,
            empty: Empty::Fill("section"),
            duplicates: Duplicates::Dash,
            attribute: Attribute::Literal,
            raw_html: RawHtml::Ignored,
            terms: Terms::Ignored,
        },
        AnchorRule {
            name: "asciidoctor",
            typography: Typography::Plain,
            normalize: Normalize::AsWritten,
            fold: Fold::AsWritten,
            head: Head::AsWritten,
            trim: Trim::Before,
            case: Case::SimpleAfterFilter,
            keep: Keep::AsciidoctorId,
            separators: Separators::Space,
            runs: Runs::Collapse,
            edges: Edges::TrimEnd,
            leading_digit_prefix: None,
            separator: '_',
            prefix: Some("_"),
            empty: Empty::Drop,
            duplicates: Duplicates::UnderscoreFromTwo,
            attribute: Attribute::Literal,
            raw_html: RawHtml::Ignored,
            terms: Terms::Ignored,
        },
        AnchorRule {
            name: "docutils",
            typography: Typography::Plain,
            normalize: Normalize::Nfkd,
            fold: Fold::AsciiIgnore,
            head: Head::StripNonLetter,
            trim: Trim::Before,
            case: Case::SimpleAfterFilter,
            keep: Keep::AsciiAlphanumeric,
            separators: Separators::NonAlphanumeric,
            runs: Runs::Collapse,
            edges: Edges::Trim,
            leading_digit_prefix: None,
            separator: '-',
            prefix: None,
            empty: Empty::Drop,
            duplicates: Duplicates::Dash,
            attribute: Attribute::Literal,
            raw_html: RawHtml::Ignored,
            terms: Terms::Ignored,
        }
    ]
}

/// Every renderer rule the resolver knows.
pub fn rules() -> (r: Vec<AnchorRule>)
    ensures
        r@ == rule_table(),
{
    let mut r: Vec<AnchorRule> = Vec::new();
    r.push(github());
    r.push(AnchorRule {
        name: "gitea",
        typography: Typography::Plain,
        normalize: Normalize::AsWritten,
        fold: Fold::AsWritten,
        head: Head::AsWritten,
        trim: Trim::Before,
        case: Case::SimpleAfterFilter,
        keep: Keep::LetterNumberUnderscore,
        separators: Separators::Whitespace,
        runs: Runs::AsWritten,
        edges: Edges::AsWritten,
        leading_digit_prefix: None,
        separator: '-',
        prefix: None,
        empty: Empty::Drop,
        duplicates: Duplicates::Collide,
        attribute: Attribute::Honored,
        raw_html: RawHtml::Ignored,
        terms: Terms::Ignored,
    });
    r.push(AnchorRule {
        name: "forgejo",
        typography: Typography::Plain,
        normalize: Normalize::AsWritten,
        fold: Fold::AsWritten,
        head: Head::AsWritten,
        trim: Trim::Before,
        case: Case::SimpleAfterFilter,
        keep: Keep::LetterNumberUnderscore,
        separators: Separators::Whitespace,
        runs: Runs::AsWritten,
        edges: Edges::AsWritten,
        leading_digit_prefix: None,
        separator: '-',
        prefix: None,
        empty: Empty::Fill("heading"),
        duplicates: Duplicates::Dash,
        attribute: Attribute::Honored,
        raw_html: RawHtml::Ignored,
        terms: Terms::Ignored,
    });
    r.push(AnchorRule {
        name: "mdbook",
        typography: Typography::Plain,
        normalize: Normalize::AsWritten,
        fold: Fold::AsWritten,
        head: Head::AsWritten,
        trim: Trim::Before,
        case: Case::FullBeforeFilter,
        keep: Keep::AlphabeticNumericUnderscore,
        separators: Separators::Whitespace,
        runs: Runs::AsWritten,
        edges: Edges::AsWritten,
        leading_digit_prefix: None,
        separator: '-',
        prefix: None,
        empty: Empty::Keep,
        duplicates: Duplicates::Dash,
        attribute: Attribute::Honored,
        raw_html: RawHtml::Ignored,
        terms: Terms::Ignored,
    });
    r.push(AnchorRule {
        name: "mdbook-smart",
        typography: Typography::SmartPunctuation,
        normalize: Normalize::AsWritten,
        fold: Fold::AsWritten,
        head: Head::AsWritten,
        trim: Trim::Before,
        case: Case::FullBeforeFilter,
        keep: Keep::AlphabeticNumericUnderscore,
        separators: Separators::Whitespace,
        runs: Runs::AsWritten,
        edges: Edges::AsWritten,
        leading_digit_prefix: None,
        separator: '-',
        prefix: None,
        empty: Empty::Keep,
        duplicates: Duplicates::Dash,
        attribute: Attribute::Honored,
        raw_html: RawHtml::Ignored,
        terms: Terms::Ignored,
    });
    r.push(AnchorRule {
        name: "goldmark",
        typography: Typography::Plain,
        normalize: Normalize::AsWritten,
        fold: Fold::AsciiIgnore,
        head: Head::AsWritten,
        trim: Trim::Before,
        case: Case::SimpleAfterFilter,
        keep: Keep::AsciiAlphanumeric,
        separators: Separators::WhitespaceUnderscore,
        runs: Runs::AsWritten,
        edges: Edges::AsWritten,
        leading_digit_prefix: None,
        separator: '-',
        prefix: None,
        empty: Empty::Fill("heading"),
        duplicates: Duplicates::Dash,
        attribute: Attribute::Literal,
        raw_html: RawHtml::Ignored,
        terms: Terms::Ignored,
    });
    r.push(AnchorRule {
        name: "python-markdown",
        typography: Typography::Plain,
        normalize: Normalize::Nfkd,
        fold: Fold::AsciiIgnore,
        head: Head::AsWritten,
        trim: Trim::AfterRemoval,
        case: Case::FullBeforeFilter,
        keep: Keep::LetterNumberUnderscore,
        separators: Separators::Whitespace,
        runs: Runs::Collapse,
        edges: Edges::AsWritten,
        leading_digit_prefix: None,
        separator: '-',
        prefix: None,
        empty: Empty::Keep,
        duplicates: Duplicates::Underscore,
        attribute: Attribute::Honored,
        raw_html: RawHtml::Ignored,
        terms: Terms::Ignored,
    });
    r.push(AnchorRule {
        name: "pymdownx",
        typography: Typography::Plain,
        normalize: Normalize::Nfc,
        fold: Fold::AsWritten,
        head: Head::AsWritten,
        trim: Trim::Before,
        case: Case::FullBeforeFilter,
        keep: Keep::LetterNumberUnderscore,
        separators: Separators::Space,
        runs: Runs::AsWritten,
        edges: Edges::AsWritten,
        leading_digit_prefix: None,
        separator: '-',
        prefix: None,
        empty: Empty::Keep,
        duplicates: Duplicates::Underscore,
        attribute: Attribute::Honored,
        raw_html: RawHtml::Ignored,
        terms: Terms::Ignored,
    });
    r.push(AnchorRule {
        name: "mdit-vue",
        typography: Typography::Plain,
        normalize: Normalize::Nfkd,
        fold: Fold::LatinMarks,
        head: Head::AsWritten,
        trim: Trim::Never,
        case: Case::FullBeforeFilter,
        keep: Keep::AnythingButC0,
        separators: Separators::MditVuePunctuation,
        runs: Runs::Collapse,
        edges: Edges::Trim,
        leading_digit_prefix: Some("_"),
        separator: '-',
        prefix: None,
        empty: Empty::Keep,
        duplicates: Duplicates::Dash,
        attribute: Attribute::Honored,
        raw_html: RawHtml::Ignored,
        terms: Terms::Ignored,
    });
    r.push(AnchorRule {
        name: "kramdown",
        typography: Typography::Plain,
        normalize: Normalize::AsWritten,
        fold: Fold::AsWritten,
        head: Head::StripNonLetter,
        trim: Trim::Never,
        case: Case::FullBeforeFilter,
        keep: Keep::AsciiAlphanumeric,
        separators: Separators::Space,
        runs: Runs::AsWritten,
        edges: Edges::AsWritten,
        leading_digit_prefix: None,
        separator: '-',
        prefix: None,
        empty: Empty::Fill("section"),
        duplicates: Duplicates::Dash,
        attribute: Attribute::Literal,
        raw_html: RawHtml::Ignored,
        terms: Terms::Ignored,
    });
    r.push(AnchorRule {
        name: "asciidoctor",
        typography: Typography::Plain,
        normalize: Normalize::AsWritten,
        fold: Fold::AsWritten,
        head: Head::AsWritten,
        trim: Trim::Before,
        case: Case::SimpleAfterFilter,
        keep: Keep::AsciidoctorId,
        separators: Separators::Space,
        runs: Runs::Collapse,
        edges: Edges::TrimEnd,
        leading_digit_prefix: None,
        separator: '_',
        prefix: Some("_"),
        empty: Empty::Drop,
        duplicates: Duplicates::UnderscoreFromTwo,
        attribute: Attribute::Literal,
        raw_html: RawHtml::Ignored,
        terms: Terms::Ignored,
    });
    r.push(AnchorRule {
        name: "docutils",
        typography: Typography::Plain,
        normalize: Normalize::Nfkd,
        fold: Fold::AsciiIgnore,
        head: Head::StripNonLetter,
        trim: Trim::Before,
        case: Case::SimpleAfterFilter,
        keep: Keep::AsciiAlphanumeric,
        separators: Separators::NonAlphanumeric,
        runs: Runs::Collapse,
        edges: Edges::Trim,
        leading_digit_prefix: None,
        separator: '-',
        prefix: None,
        empty: Empty::Drop,
        duplicates: Duplicates::Dash,
        attribute: Attribute::Literal,
        raw_html: RawHtml::Ignored,
        terms: Terms::Ignored,
    });
    assert(r@ =~= rule_table());
    r
}

} // verus!
