//! The schema a stored scan row declares.

use vstd::prelude::*;

verus! {

/// The one schema a scan-cache row is written under.
#[derive(Clone, Copy, Debug, PartialEq, Eq, Structural)]
pub enum ScanCacheRowSchema {
    Current,
}

impl ScanCacheRowSchema {
    /// The name a schema is written as.
    pub open spec fn name(self) -> Seq<char> {
        match self {
            ScanCacheRowSchema::Current => "amiss/scan-cache-row"@,
        }
    }

    /// The name a schema is written as.
    pub fn as_str(self) -> (s: &'static str)
        ensures
            s@ == self.name(),
    {
        match self {
            ScanCacheRowSchema::Current => "amiss/scan-cache-row",
        }
    }

    /// The schema a name spells, if any.
    pub fn from_name(name: &str) -> (r: Option<ScanCacheRowSchema>)
        ensures
            r == (if name@ == ScanCacheRowSchema::Current.name() {
                Some(ScanCacheRowSchema::Current)
            } else {
                None
            }),
    {
        let given = crate::text::chars_of(name);
        let wanted = crate::text::chars_of("amiss/scan-cache-row");
        if crate::text::equals_at(given.as_slice(), 0, given.len(), wanted.as_slice()) {
            assert(given@.subrange(0, given@.len() as int) =~= given@);
            Some(ScanCacheRowSchema::Current)
        } else {
            assert(given@.subrange(0, given@.len() as int) =~= given@);
            None
        }
    }
}

impl Default for ScanCacheRowSchema {
    fn default() -> (s: ScanCacheRowSchema)
        ensures
            s == ScanCacheRowSchema::Current,
    {
        ScanCacheRowSchema::Current
    }
}

} // verus!
