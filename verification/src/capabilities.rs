//! What the server tells the editor it can do.
use vstd::prelude::*;

verus! {

/// How the editor sends the text of a changed document.
#[derive(Debug, Clone, Copy, PartialEq, Eq, Structural)]
pub enum TextSyncKind {
    /// Documents are not synchronised.
    NoSync,
    /// The whole text is sent on every change.
    Full,
    /// Only the changed ranges are sent.
    Incremental,
}

/// The capabilities the server advertises.
#[derive(Debug, Clone, Copy, PartialEq, Eq, Structural)]
pub struct Capabilities {
    /// How documents are synchronised, if at all.
    pub text_document_sync: Option<TextSyncKind>,
    /// Whether completion is offered (with the default completion options).
    pub completion_provider: bool,
}

/// The answer to the editor's `initialize` request, whatever the editor
/// asked for: full-text synchronisation and completion, nothing else.
pub fn server_capabilities() -> (c: Capabilities)
    ensures
        c.text_document_sync == Some(TextSyncKind::Full),
        c.completion_provider,
{
    Capabilities { text_document_sync: Some(TextSyncKind::Full), completion_provider: true }
}

} // verus!
