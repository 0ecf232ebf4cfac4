use vstd::prelude::*;
use vstd::string::StringExecFns;

verus! {

/// A dependency named by a lock file.
pub struct DependencyRecord {
    pub name: String,
    pub version: String,
}

impl DependencyRecord {
    /// Where the dependency's sources are expected: `<root>/<name>-<version>`.
    pub fn path(&self, root: &String) -> (r: String)
        ensures
            r@ == root@ + "/"@ + self.name@ + "-"@ + self.version@,
    {
        let r = root.clone().concat("/").concat(self.name.as_str()).concat("-").concat(
            self.version.as_str(),
        );
        r
    }

    /// `name version`, for progress messages.
    pub fn describe(&self) -> (r: String)
        ensures
            r@ == self.name@ + " "@ + self.version@,
    {
        self.name.clone().concat(" ").concat(self.version.as_str())
    }
}

} // verus!
