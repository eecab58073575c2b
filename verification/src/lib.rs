pub mod change;
pub mod changelog;
pub mod changeset;
pub mod dependents;
pub mod manifest;
pub mod scopes;
pub mod tags;
pub mod text;
pub mod trailers;
pub mod version;
pub mod workspace;
