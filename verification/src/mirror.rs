use crate::document::{merged, session_name, Document, Json};
use vstd::prelude::*;

verus! {

/// The canonical in-process copy of the upstream session's state.
///
/// The mirror is reached through `&mut`: whoever holds that reference has
/// exclusive access, and keeps it for a whole batch of updates, so that no
/// reader ever sees a batch half applied. It starts out empty, is replaced
/// wholesale by every snapshot and is changed by every merge; nothing resets
/// it when a connection ends.
pub struct Mirror {
    document: Document,
}

impl View for Mirror {
    type V = Json;

    closed spec fn view(&self) -> Json {
        self.document@
    }
}

impl Mirror {
    #[verifier::type_invariant]
    spec fn holds_well_formed_document(self) -> bool {
        self.document.wf()
    }

    /// An empty mirror: it holds `Null` and so carries no session name.
    pub fn new() -> (mirror: Mirror)
        ensures
            mirror@ == Json::Null,
    {
        Mirror { document: Document::Null }
    }

    /// The document that the mirror holds.
    pub fn document(&self) -> (document: &Document)
        ensures
            document@ == self@,
            document.wf(),
    {
        proof {
            use_type_invariant(self);
        }
        &self.document
    }

    /// The session name of the mirrored document, if it carries one.
    pub fn current_session_name(&self) -> (name: Option<&String>)
        ensures
            match name {
                Some(text) => session_name(self@) == Some(text@),
                None => session_name(self@) is None,
            },
    {
        proof {
            use_type_invariant(self);
        }
        self.document.session_name()
    }

    /// Puts `document` in the place of whatever the mirror held.
    pub fn replace(&mut self, document: Document)
        requires
            document.wf(),
        ensures
            final(self)@ == document@,
    {
        self.document = document;
    }

    /// Merges the patch `partial` into the mirrored document.
    pub fn merge(&mut self, partial: Document)
        requires
            partial.wf(),
        ensures
            final(self)@ == merged(old(self)@, partial@),
    {
        proof {
            use_type_invariant(&*self);
        }
        let mut held = Document::Null;
        core::mem::swap(&mut self.document, &mut held);
        self.document = crate::document::merge(held, partial);
    }
}

} // verus!
