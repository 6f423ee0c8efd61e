//! The error of a rename that would leave a name ambiguous.
use vstd::string::StringExecFns;
use vstd::prelude::*;

verus! {

/// A rename that cannot be carried out, because in `depender`, which uses
/// `dependee`, the new name would be ambiguous.
pub struct AmbiguousRename {
    pub depender: String,
    pub dependee: String,
    pub message: String,
}

/// The text of the error: where the conflict lies, then the message.
pub open spec fn rename_text(depender: Seq<char>, dependee: Seq<char>, message: Seq<char>) -> Seq<
    char,
> {
    if depender == dependee {
        "renaming conflict: in "@ + dependee + ", "@ + message
    } else {
        "renaming conflict: in "@ + depender + ", which uses "@ + dependee + ", "@ + message
    }
}

impl AmbiguousRename {
    /// The error as text.
    pub fn to_string(&self) -> (r: String)
        ensures
            r@ == rename_text(self.depender@, self.dependee@, self.message@),
    {
        let mut out = String::from_str("renaming conflict: in ");
        if self.depender == self.dependee {
            out.append(self.dependee.as_str());
        } else {
            out.append(self.depender.as_str());
            out.append(", which uses ");
            out.append(self.dependee.as_str());
        }
        out.append(", ");
        out.append(self.message.as_str());
        out
    }
}

} // verus!
