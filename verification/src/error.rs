use vstd::prelude::*;

verus! {

/// The closed error taxonomy of the library.
///
/// Structural errors (`NotFound`, `NodeRecursion`, `VersionCompatibility`)
/// come out of planning; `ChildProcess` and `Many` come out of execution;
/// the adapter variants carry messages from the serialization and I/O
/// boundaries, which sit outside the library.
#[derive(Debug, PartialEq)]
pub enum Error {
    /// Fallback for propagation from adapters.
    Generic(String),
    /// Aggregate of every failure collected across one stage.
    Many(Vec<Error>),
    /// A command that is gated behind the experimental flag.
    ExperimentalCommand(String),
    /// Invalid command-line usage.
    Argument(String),
    /// A required argument is absent.
    MissingArgument(String),
    /// A child exited with a non-zero code or was terminated by a signal.
    ChildProcess(String),
    /// The prerequisite graph over the selected nodes has a cycle.
    NodeRecursion,
    /// No subcommand matched.
    UnknownCommand,
    /// The workflow file declares an unsupported version.
    VersionCompatibility(String),
    /// A referenced node or watch entry does not exist.
    NotFound(String),
    /// A regex failed to compile or to run.
    RegexError(String),
    /// Template rendering failed (for example on a missing key in strict mode).
    Handlebars(String),
    /// An I/O failure at the boundary.
    Io(String),
    /// YAML (de)serialization failure.
    SerdeYaml(String),
    /// JSON (de)serialization failure.
    SerdeJson(String),
    /// TOML serialization failure.
    SerializeToml(String),
    /// TOML deserialization failure.
    DeserializeToml(String),
    /// RON serialization failure.
    SerializeRon(String),
    /// RON deserialization failure.
    DeserializeRon(String),
}

} // verus!
