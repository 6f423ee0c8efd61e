//! The errors of a catalog, and the advice that goes with them.
use crate::rename::AmbiguousRename;
use vstd::string::StringExecFns;
use vstd::prelude::*;

verus! {

/// What went wrong in the catalog.
pub enum ErrorKind {
    Corruption { detail: String },
    OidExhaustion,
    /// An error of the SQL layer, as text.
    Sql(String),
    ReservedSchemaName(String),
    ReservedRoleName(String),
    ReservedSystemRoleName(String),
    ReservedClusterName(String),
    ReservedReplicaName(String),
    ReadOnlyCluster(String),
    ReadOnlyDatabase(String),
    ReadOnlySystemSchema(String),
    ReadOnlyItem(String),
    SchemaNotEmpty(String),
    InvalidTemporaryDependency(String),
    InvalidTemporarySchema,
    UnsatisfiableLoggingDependency { depender_name: String },
    AmbiguousRename(AmbiguousRename),
    TypeRename(String),
    AmbientSchemaRename(String),
    FailedMigration { last_seen_version: String, this_version: &'static str, cause: String },
    FailpointReached(String),
    Unstructured(String),
    /// An error of the durable store, as text.
    Durable(String),
    /// An error of a malformed identifier, as text.
    Uuid(String),
    CircularRoleMembership { role_name: String, member_name: String },
    ManagedCluster(String),
}

/// An error of the catalog.
pub struct Error {
    pub kind: ErrorKind,
}

/// The detail that goes with an error: which names are reserved, for the
/// errors about a reserved name of a schema, role or cluster.
pub open spec fn detail_text(kind: ErrorKind) -> Option<Seq<char>> {
    match kind {
        ErrorKind::ReservedSchemaName(_) => Some(
            "The prefixes \"mz_\" and \"pg_\" are reserved for system schemas."@,
        ),
        ErrorKind::ReservedRoleName(_) => Some(
            "The role \"public\" and the prefixes \"mz_\" and \"pg_\" are reserved for system roles."@,
        ),
        ErrorKind::ReservedSystemRoleName(_) => Some(
            "The role prefixes \"mz_\" and \"pg_\" are reserved for system roles."@,
        ),
        ErrorKind::ReservedClusterName(_) => Some(
            "The prefixes \"mz_\" and \"pg_\" are reserved for system clusters."@,
        ),
        _ => None,
    }
}

/// The models of an optional text.
pub open spec fn text_view(text: Option<String>) -> Option<Seq<char>> {
    match text {
        Some(t) => Some(t@),
        None => None,
    }
}

impl Error {
    /// The error of the given kind.
    pub fn new(kind: ErrorKind) -> (r: Error)
        ensures
            r.kind == kind,
    {
        Error { kind }
    }

    /// More about the error, where there is more to say.
    pub fn detail(&self) -> (r: Option<String>)
        ensures
            text_view(r) == detail_text(self.kind),
    {
        match &self.kind {
            ErrorKind::ReservedSchemaName(_) => Some(
                String::from_str(
                    "The prefixes \"mz_\" and \"pg_\" are reserved for system schemas.",
                ),
            ),
            ErrorKind::ReservedRoleName(_) => Some(
                String::from_str(
                    "The role \"public\" and the prefixes \"mz_\" and \"pg_\" are reserved for system roles.",
                ),
            ),
            ErrorKind::ReservedSystemRoleName(_) => Some(
                String::from_str(
                    "The role prefixes \"mz_\" and \"pg_\" are reserved for system roles.",
                ),
            ),
            ErrorKind::ReservedClusterName(_) => Some(
                String::from_str(
                    "The prefixes \"mz_\" and \"pg_\" are reserved for system clusters.",
                ),
            ),
            _ => None,
        }
    }

    /// How the error could be mended: there is no such advice.
    pub fn hint(&self) -> (r: Option<String>)
        ensures
            r is None,
    {
        None
    }
}

} // verus!
