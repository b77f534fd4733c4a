use vstd::prelude::*;
use crate::node::{Attribute, QualifiedName};

verus! {

/// A parser handle: the number that the tokenizer gave a node it created.
/// The document node is handle 0; created nodes take 1, 2, ... in order.
pub type ParserHandle = usize;

/// The child of an append: a node the tokenizer created, or raw text.
pub enum ParserNodeOrText {
    Node(ParserHandle),
    Text(String),
}

/// The document's quirks mode, as the tokenizer decided it.
#[derive(Clone, Copy, PartialEq, Eq, Structural, Debug)]
pub enum QuirksMode {
    Quirks,
    LimitedQuirks,
    NoQuirks,
}

/// One structural event of the tree-construction protocol.
pub enum ParseOperation {
    CreateElement { node: ParserHandle, name: QualifiedName, attrs: Vec<Attribute> },
    CreateComment { node: ParserHandle, text: String },
    Append { parent: ParserHandle, child: ParserNodeOrText },
    AppendBeforeSibling { sibling: ParserHandle, child: ParserNodeOrText },
    AppendBasedOnParentNode {
        element: ParserHandle,
        prev_element: ParserHandle,
        child: ParserNodeOrText,
    },
    AppendDoctypeToDocument(Doctype),
    AddAttrsIfMissing { target: ParserHandle, attrs: Vec<Attribute> },
    RemoveFromParent { target: ParserHandle },
    ReparentChildren { node: ParserHandle, new_parent: ParserHandle },
    GetTemplateContents { target: ParserHandle },
    AssociateWithForm { target: ParserHandle, form: ParserHandle },
    CreatePI { node: ParserHandle, data: String },
    MarkScriptAlreadyStarted { node: ParserHandle },
    SetQuirksMode { mode: QuirksMode },
    SetCurrentLine { line: u64 },
    FinishedParsing,
}

/// The doctype that the document declared, kept as metadata.
pub struct Doctype {
    pub name: String,
    pub public_id: String,
    pub system_id: String,
}

} // verus!
