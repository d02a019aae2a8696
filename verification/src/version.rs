//! The version line of the program.
use vstd::prelude::*;

verus! {

#[derive(Debug, Clone, PartialEq, Default)]
pub struct VersionInfo {
    pub version: &'static str,
    pub short_hash: &'static str,
    pub date: &'static str,
}

impl VersionInfo {
    /// `version (short_hash date)`.
    pub open spec fn text(&self) -> Seq<char> {
        self.version@ + " ("@ + self.short_hash@ + " "@ + self.date@ + ")"@
    }

    /// The version as `version (short_hash date)` (what `Display` writes).
    pub fn to_string(&self) -> (s: String)
        ensures
            s@ == self.text(),
    {
        let mut s = String::new();
        s.append(self.version);
        s.append(" (");
        s.append(self.short_hash);
        s.append(" ");
        s.append(self.date);
        s.append(")");
        s
    }
}

/// `tomb version (short_hash date)`.
pub fn get_version_string(info: &VersionInfo) -> (s: String)
    ensures
        s@ == "tomb "@ + info.text(),
{
    let mut s = String::new();
    s.append("tomb ");
    let t = info.to_string();
    s.append(t.as_str());
    s
}

} // verus!
