//! Value claims: why a claim's target may fail to answer, and which invisible
//! construct carries a claim in each kind of document.

pub mod groups;

use crate::document::Adapter;
use crate::projection::is_control;
use crate::rst::read::{decimal, push_decimal};
use crate::text::{chars_of, utf8_text};
use vstd::prelude::*;
use vstd::string::StringExecFns;
use vstd::utf8::{decode_utf8, valid_utf8};

verus! {

/// Why a claim's target could not answer at all.
#[derive(Clone, Copy, Debug, PartialEq, Eq, Structural)]
pub enum ClaimMissingReason {
    Absent,
    NotABlob,
    LfsPointer,
    LineOutOfRange,
}

/// Which invisible construct carries a claim, which is what a provable
/// rewrite must respell: the fix regenerates the carrier, not just the line.
#[derive(Clone, Copy, Debug, PartialEq, Eq, Structural)]
pub enum ClaimCarrier {
    Definition,
    RstComment,
    AdocComment,
}

impl ClaimCarrier {
    /// The carrier a document of one kind writes its claims in.
    pub open spec fn carrier_of(adapter: Adapter) -> ClaimCarrier {
        match adapter {
            Adapter::Rst => ClaimCarrier::RstComment,
            Adapter::AsciiDoc => ClaimCarrier::AdocComment,
            Adapter::Markdown | Adapter::Mdx | Adapter::PlainAdvisory => ClaimCarrier::Definition,
        }
    }

    /// The carrier a document of one kind writes its claims in.
    pub fn of(adapter: Adapter) -> (c: ClaimCarrier)
        ensures
            c == Self::carrier_of(adapter),
    {
        match adapter {
            Adapter::Rst => ClaimCarrier::RstComment,
            Adapter::AsciiDoc => ClaimCarrier::AdocComment,
            Adapter::Markdown | Adapter::Mdx | Adapter::PlainAdvisory => ClaimCarrier::Definition,
        }
    }

    /// What a carrier writes before the link definition it hides.
    pub open spec fn prefix_text(self) -> Seq<char> {
        match self {
            ClaimCarrier::Definition => ""@,
            ClaimCarrier::RstComment => ".. "@,
            ClaimCarrier::AdocComment => "// "@,
        }
    }

    /// What a carrier writes before the link definition it hides.
    pub fn prefix(self) -> (p: &'static str)
        ensures
            p@ == self.prefix_text(),
    {
        match self {
            ClaimCarrier::Definition => "",
            ClaimCarrier::RstComment => ".. ",
            ClaimCarrier::AdocComment => "// ",
        }
    }

    /// The reader that proves a respelled carrier classifies back.
    pub open spec fn prover_of(self) -> Adapter {
        match self {
            ClaimCarrier::Definition => Adapter::Markdown,
            ClaimCarrier::RstComment => Adapter::Rst,
            ClaimCarrier::AdocComment => Adapter::AsciiDoc,
        }
    }

    /// The reader that proves a respelled carrier classifies back.
    pub fn prover(self) -> (a: Adapter)
        ensures
            a == self.prover_of(),
    {
        match self {
            ClaimCarrier::Definition => Adapter::Markdown,
            ClaimCarrier::RstComment => Adapter::Rst,
            ClaimCarrier::AdocComment => Adapter::AsciiDoc,
        }
    }
}

/// The reader a carrier is proved under writes its claims in that same
/// carrier, so a rewrite is always read back the way it was written.
pub proof fn lemma_prover_writes_its_carrier(c: ClaimCarrier)
    ensures
        ClaimCarrier::carrier_of(c.prover_of()) == c,
{
}

/// Whether observed words can stand as a quoted title: no quote, no
/// backslash, no control character.
pub open spec fn quotable(words: Seq<char>) -> bool {
    forall|i: int| 0 <= i < words.len() ==> {
        let c = #[trigger] words[i];
        c != '"' && c != '\\' && !is_control(c)
    }
}

/// The definition that would attest a broken claim: the claim written again
/// in its carrier with the observed line as its expected words.
pub open spec fn respelled(carrier: ClaimCarrier, name: Seq<char>, path: Seq<char>, line: u64, observed: Seq<char>) -> Seq<char> {
    carrier.prefix_text() + "[amiss:"@ + name + "]: <amiss:value?path="@ + path + "&line=L"@ + decimal(
        line as nat,
    ) + "> \""@ + observed + "\""@
}

/// The definition that would attest a broken claim, when the observed line
/// is UTF-8 text that can be spelled as a quoted title and the path is UTF-8.
/// Before such a definition is offered as a fix, the carrier's own reader must
/// classify it back to the identical claim.
pub fn claim_respelling(name: &str, path: &[u8], line: u64, observed: &[u8], carrier: ClaimCarrier) -> (r: Option<String>)
    ensures
        r is Some <==> valid_utf8(observed@) && quotable(decode_utf8(observed@)) && valid_utf8(path@),
        r matches Some(s) ==> s@ == respelled(carrier, name@, decode_utf8(path@), line, decode_utf8(observed@)),
{
    let words = match utf8_text(observed) {
        Some(w) => w,
        None => {
            return None;
        },
    };
    let cs = chars_of(words);
    let mut i: usize = 0;
    while i < cs.len()
        invariant
            i <= cs@.len(),
            cs@ == words@,
            words@ == decode_utf8(observed@),
            forall|k: int| 0 <= k < i ==> {
                let c = #[trigger] cs@[k];
                c != '"' && c != '\\' && !is_control(c)
            },
        decreases cs@.len() - i,
    {
        let c = cs[i];
        let code = c as u32;
        if c == '"' || c == '\\' || code < 0x20 || (0x7f <= code && code <= 0x9f) {
            assert(decode_utf8(observed@)[i as int] == c);
            return None;
        }
        i = i + 1;
    }
    let path_text = match utf8_text(path) {
        Some(p) => p,
        None => {
            return None;
        },
    };
    let mut r = String::new();
    r.append(carrier.prefix());
    r.append("[amiss:");
    r.append(name);
    r.append("]: <amiss:value?path=");
    r.append(path_text);
    r.append("&line=L");
    push_decimal(&mut r, line);
    r.append("> \"");
    r.append(words);
    r.append("\"");
    proof {
        reveal_strlit("[amiss:");
        reveal_strlit("]: <amiss:value?path=");
        reveal_strlit("&line=L");
        reveal_strlit("> \"");
        reveal_strlit("\"");
    }
    Some(r)
}

/// The one answer a value claim can get from the tree it names.
pub enum ClaimVerdict {
    Attested,
    Broken { observed_digest: Vec<u8>, observed: Vec<u8> },
    TargetMissing(ClaimMissingReason),
}

/// One evaluated claim: its carrier, the document and name it sits under,
/// its span and the digest of its source, the path and line it names, the
/// digest it expects, and its answer.
pub struct ClaimOutcome {
    pub carrier: ClaimCarrier,
    pub document: Vec<u8>,
    pub name: String,
    pub span: (usize, usize),
    pub source_digest: Vec<u8>,
    pub path: Vec<u8>,
    pub line: u64,
    pub expected_digest: Vec<u8>,
    pub verdict: ClaimVerdict,
}

} // verus!
