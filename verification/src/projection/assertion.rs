//! What a projection assertion is answered against: the one carrier in its
//! document that names it, with the code block beside it, and the records a
//! named record set holds for it.

use vstd::prelude::*;

use crate::text::same_text;

verus! {

/// Why an assertion has no sink to compare against.
#[derive(Clone, Copy, Debug, PartialEq, Eq, Structural)]
pub enum SinkDrift {
    /// No carrier in the document names the projection.
    SinkAbsent,
    /// More than one carrier names it.
    SinkAmbiguous,
    /// The one carrier that names it has no code block beside it.
    SinkNotAdjacent,
}

/// One governed carrier of a document as the sink choice reads it: the
/// projection it names, if it names one, its span, and whether a code block
/// sits directly before it.
pub struct ProjectionCarrier {
    pub name: Option<String>,
    pub span: (usize, usize),
    pub adjacent_code: bool,
}

/// Whether a carrier names the projection `name`.
pub open spec fn names(c: ProjectionCarrier, name: Seq<char>) -> bool {
    match c.name {
        Some(n) => n@ == name,
        None => false,
    }
}

/// The positions of the carriers that name the projection, in document order.
pub open spec fn naming(cs: Seq<ProjectionCarrier>, name: Seq<char>) -> Seq<usize>
    decreases cs.len(),
{
    if cs.len() == 0 {
        seq![]
    } else if names(cs.last(), name) {
        naming(cs.drop_last(), name).push((cs.len() - 1) as usize)
    } else {
        naming(cs.drop_last(), name)
    }
}

/// The sink an assertion is answered against: the position of the one
/// carrier that names it, when that carrier has code beside it.
pub open spec fn sink_of(cs: Seq<ProjectionCarrier>, name: Seq<char>) -> Result<usize, SinkDrift> {
    let n = naming(cs, name);
    if n.len() == 0 {
        Err(SinkDrift::SinkAbsent)
    } else if n.len() > 1 {
        Err(SinkDrift::SinkAmbiguous)
    } else if !cs[n[0] as int].adjacent_code {
        Err(SinkDrift::SinkNotAdjacent)
    } else {
        Ok(n[0])
    }
}

/// The carriers that answer an assertion, in document order, and the sink it
/// is compared against or why there is none.
pub fn sink_choice(carriers: &Vec<ProjectionCarrier>, name: &str) -> (r: (Vec<usize>, Result<usize, SinkDrift>))
    ensures
        r.0@ == naming(carriers@, name@),
        r.1 == sink_of(carriers@, name@),
{
    let mut found: Vec<usize> = Vec::new();
    let mut i: usize = 0;
    while i < carriers.len()
        invariant
            i <= carriers@.len(),
            found@ == naming(carriers@.take(i as int), name@),
            forall|k: int| 0 <= k < found@.len() ==> #[trigger] found@[k] < i,
        decreases carriers@.len() - i,
    {
        proof {
            assert(carriers@.take(i + 1).drop_last() =~= carriers@.take(i as int));
            assert(carriers@.take(i + 1).last() == carriers@[i as int]);
        }
        let named = match &carriers[i].name {
            Some(n) => same_text(n.as_str(), name),
            None => false,
        };
        if named {
            found.push(i);
        }
        i = i + 1;
    }
    proof {
        assert(carriers@.take(carriers@.len() as int) =~= carriers@);
    }
    if found.len() == 0 {
        return (found, Err(SinkDrift::SinkAbsent));
    }
    if found.len() > 1 {
        return (found, Err(SinkDrift::SinkAmbiguous));
    }
    let at = found[0];
    if !carriers[at].adjacent_code {
        return (found, Err(SinkDrift::SinkNotAdjacent));
    }
    (found, Ok(at))
}

} // verus!
