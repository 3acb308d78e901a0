//! Failures of loading and of document derivation.

use vstd::prelude::*;

verus! {

/// Everything that can go wrong while loading a topology or deriving a
/// document.  The first four variants are loader failures, raised before any
/// derivation begins; the last four are the engine's own taxonomy.  Every
/// failure aborts the whole run: there is no partial output.
#[derive(Debug)]
pub enum ConfigError {
    /// The source text is not well-formed; carries the parser's message.
    Syntax { message: String },
    /// The document has no `clients` key at top level.
    MissingClients,
    /// The `clients` value is not a list.
    ClientsNotList,
    /// The node specification at this position in the list is not a table.
    NodeNotTable { index: usize },
    /// The node at this position lacks an identity attribute whose value is a
    /// non-empty string.  Detected when the topology is constructed.
    MissingIdentity { index: usize },
    /// No node of the topology has this identity.
    NodeNotFound { name: String },
    /// An attribute selected for emission has a non-scalar value; names the
    /// owning node and the offending key.
    UnsupportedType { node: String, key: String },
    /// The route rewrite found no usable address attribute on this peer.
    MissingAddress { name: String },
}

/// The mathematical shadow of `ConfigError`: the same variants over sequences
/// and integers, for use in contracts.
pub enum ErrView {
    Syntax(Seq<char>),
    MissingClients,
    ClientsNotList,
    NodeNotTable(int),
    MissingIdentity(int),
    NodeNotFound(Seq<char>),
    UnsupportedType(Seq<char>, Seq<char>),
    MissingAddress(Seq<char>),
}

impl View for ConfigError {
    type V = ErrView;

    open spec fn view(&self) -> ErrView {
        match self {
            ConfigError::Syntax { message } => ErrView::Syntax(message@),
            ConfigError::MissingClients => ErrView::MissingClients,
            ConfigError::ClientsNotList => ErrView::ClientsNotList,
            ConfigError::NodeNotTable { index } => ErrView::NodeNotTable(*index as int),
            ConfigError::MissingIdentity { index } => ErrView::MissingIdentity(*index as int),
            ConfigError::NodeNotFound { name } => ErrView::NodeNotFound(name@),
            ConfigError::UnsupportedType { node, key } => ErrView::UnsupportedType(node@, key@),
            ConfigError::MissingAddress { name } => ErrView::MissingAddress(name@),
        }
    }
}

} // verus!
