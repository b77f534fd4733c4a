use std::borrow::Cow;

use html5ever::interface::{ElementFlags, NodeOrText, QuirksMode as Html5QuirksMode, TreeSink};
use html5ever::tendril::{StrTendril, TendrilSink};
use html5ever::{parse_document, ExpandedName, QualName};
use mj_dom::dom::{LoadState, MjDom};
use mj_dom::node::{Attribute, DomError, NodeId, NodeKind, QualifiedName};
use mj_dom::parser::{Doctype, ParseOperation, ParserNodeOrText, QuirksMode};

fn qname(local: &str) -> QualifiedName {
    QualifiedName { prefix: None, ns: "http://www.w3.org/1999/xhtml".to_string(), local: local.to_string() }
}

fn name_of(q: &QualName) -> QualifiedName {
    QualifiedName {
        prefix: q.prefix.as_ref().map(|p| p.to_string()),
        ns: q.ns.to_string(),
        local: q.local.to_string(),
    }
}

/// Hands each tree-construction callback to the document owner at once.
struct DirectSink {
    dom: MjDom,
    names: Vec<Option<QualName>>,
}

impl DirectSink {
    fn new() -> Self {
        let mut dom = MjDom::init();
        dom.start_load();
        DirectSink { dom, names: vec![None] }
    }

    fn send(&mut self, op: ParseOperation) {
        let _ = self.dom.recv(op);
    }

    fn child(c: NodeOrText<usize>) -> ParserNodeOrText {
        match c {
            NodeOrText::AppendNode(h) => ParserNodeOrText::Node(h),
            NodeOrText::AppendText(t) => ParserNodeOrText::Text(t.to_string()),
        }
    }

    fn next_handle(&mut self, name: Option<QualName>) -> usize {
        self.names.push(name);
        self.names.len() - 1
    }
}

impl TreeSink for DirectSink {
    type Handle = usize;
    type Output = MjDom;

    fn finish(mut self) -> MjDom {
        self.send(ParseOperation::FinishedParsing);
        self.dom
    }

    fn parse_error(&mut self, _msg: Cow<'static, str>) {}

    fn get_document(&mut self) -> usize {
        0
    }

    fn elem_name<'a>(&'a self, target: &'a usize) -> ExpandedName<'a> {
        self.names[*target].as_ref().expect("element handle").expanded()
    }

    fn create_element(&mut self, name: QualName, attrs: Vec<html5ever::Attribute>, _flags: ElementFlags) -> usize {
        let attrs = attrs.iter().map(|a| Attribute { name: name_of(&a.name), value: a.value.to_string() }).collect();
        let qn = name_of(&name);
        let h = self.next_handle(Some(name));
        self.send(ParseOperation::CreateElement { node: h, name: qn, attrs });
        h
    }

    fn create_comment(&mut self, text: StrTendril) -> usize {
        let h = self.next_handle(None);
        self.send(ParseOperation::CreateComment { node: h, text: text.to_string() });
        h
    }

    fn create_pi(&mut self, _target: StrTendril, data: StrTendril) -> usize {
        let h = self.next_handle(None);
        self.send(ParseOperation::CreatePI { node: h, data: data.to_string() });
        h
    }

    fn append(&mut self, parent: &usize, child: NodeOrText<usize>) {
        self.send(ParseOperation::Append { parent: *parent, child: Self::child(child) });
    }

    fn append_based_on_parent_node(&mut self, element: &usize, prev_element: &usize, child: NodeOrText<usize>) {
        self.send(ParseOperation::AppendBasedOnParentNode {
            element: *element,
            prev_element: *prev_element,
            child: Self::child(child),
        });
    }

    fn append_doctype_to_document(&mut self, name: StrTendril, public_id: StrTendril, system_id: StrTendril) {
        self.send(ParseOperation::AppendDoctypeToDocument(Doctype {
            name: name.to_string(),
            public_id: public_id.to_string(),
            system_id: system_id.to_string(),
        }));
    }

    fn get_template_contents(&mut self, target: &usize) -> usize {
        self.send(ParseOperation::GetTemplateContents { target: *target });
        *target
    }

    fn same_node(&self, x: &usize, y: &usize) -> bool {
        x == y
    }

    fn set_quirks_mode(&mut self, mode: Html5QuirksMode) {
        let mode = match mode {
            Html5QuirksMode::Quirks => QuirksMode::Quirks,
            Html5QuirksMode::LimitedQuirks => QuirksMode::LimitedQuirks,
            Html5QuirksMode::NoQuirks => QuirksMode::NoQuirks,
        };
        self.send(ParseOperation::SetQuirksMode { mode });
    }

    fn append_before_sibling(&mut self, sibling: &usize, new_node: NodeOrText<usize>) {
        self.send(ParseOperation::AppendBeforeSibling { sibling: *sibling, child: Self::child(new_node) });
    }

    fn add_attrs_if_missing(&mut self, target: &usize, attrs: Vec<html5ever::Attribute>) {
        let attrs = attrs.iter().map(|a| Attribute { name: name_of(&a.name), value: a.value.to_string() }).collect();
        self.send(ParseOperation::AddAttrsIfMissing { target: *target, attrs });
    }

    fn remove_from_parent(&mut self, target: &usize) {
        self.send(ParseOperation::RemoveFromParent { target: *target });
    }

    fn reparent_children(&mut self, node: &usize, new_parent: &usize) {
        self.send(ParseOperation::ReparentChildren { node: *node, new_parent: *new_parent });
    }

    fn set_current_line(&mut self, line_number: u64) {
        self.send(ParseOperation::SetCurrentLine { line: line_number });
    }
}

fn parse(markup: &str) -> MjDom {
    parse_document(DirectSink::new(), Default::default()).one(markup)
}

fn local(dom: &MjDom, id: NodeId) -> String {
    match &dom.tree().node(id).unwrap().kind {
        NodeKind::Element { name, .. } => name.local.clone(),
        _ => panic!("not an element"),
    }
}

#[test]
fn minimal_document_builds_html_head_body() {
    let dom = parse("<html><head></head><body>Hi</body></html>");
    assert_eq!(dom.state(), LoadState::Loaded);
    assert!(dom.is_usable());
    let tree = dom.tree();
    let root = tree.root();
    let top = tree.children_of(root).unwrap();
    assert_eq!(top.len(), 1);
    let html = top[0];
    assert_eq!(local(&dom, html), "html");
    let kids = tree.children_of(html).unwrap();
    assert_eq!(kids.len(), 2);
    assert_eq!(local(&dom, kids[0]), "head");
    assert_eq!(local(&dom, kids[1]), "body");
    let body_kids = tree.children_of(kids[1]).unwrap();
    assert_eq!(body_kids.len(), 1);
    match &tree.node(body_kids[0]).unwrap().kind {
        NodeKind::Text { contents } => assert_eq!(contents, "Hi"),
        _ => panic!("body child is not text"),
    }
    assert_eq!(tree.html(), Some(html));
    assert_eq!(tree.head(), Some(kids[0]));
    assert_eq!(tree.body(), Some(kids[1]));
}

#[test]
fn doctype_and_quirks_mode_are_metadata() {
    let dom = parse("<!DOCTYPE html><html><body><!-- note --><p>x</p></body></html>");
    assert_eq!(dom.quirks_mode(), QuirksMode::NoQuirks);
    assert_eq!(dom.doctype().as_ref().map(|d| d.name.clone()), Some("html".to_string()));
    let tree = dom.tree();
    let body = tree.body().unwrap();
    let kids = tree.children_of(body).unwrap();
    assert_eq!(kids.len(), 2);
    assert!(matches!(&tree.node(kids[0]).unwrap().kind, NodeKind::Comment { content } if content == " note "));
    assert_eq!(local(&dom, kids[1]), "p");
}

#[test]
fn missing_doctype_means_quirks() {
    let dom = parse("<p>x</p>");
    assert_eq!(dom.quirks_mode(), QuirksMode::Quirks);
    assert!(dom.tree().body().is_some());
}

fn loading() -> MjDom {
    let mut dom = MjDom::init();
    dom.start_load();
    dom
}

#[test]
fn operations_apply_in_order() {
    let mut dom = loading();
    assert_eq!(dom.recv(ParseOperation::CreateElement { node: 1, name: qname("div"), attrs: Vec::new() }), Ok(()));
    assert_eq!(dom.recv(ParseOperation::Append { parent: 0, child: ParserNodeOrText::Node(1) }), Ok(()));
    assert_eq!(dom.recv(ParseOperation::Append { parent: 1, child: ParserNodeOrText::Text("Hello".to_string()) }), Ok(()));
    assert_eq!(dom.recv(ParseOperation::Append { parent: 1, child: ParserNodeOrText::Text(" World".to_string()) }), Ok(()));
    let div = dom.node_of(1).unwrap();
    let kids = dom.tree().children_of(div).unwrap().clone();
    assert_eq!(kids.len(), 1);
    assert!(matches!(&dom.tree().node(kids[0]).unwrap().kind, NodeKind::Text { contents } if contents == "Hello World"));
    assert_eq!(dom.recv(ParseOperation::SetCurrentLine { line: 7 }), Ok(()));
    assert_eq!(dom.current_line(), 7);
    assert_eq!(dom.state(), LoadState::Loading);
    assert_eq!(dom.recv(ParseOperation::FinishedParsing), Ok(()));
    assert_eq!(dom.state(), LoadState::Loaded);
    assert_eq!(dom.recv(ParseOperation::FinishedParsing), Err(DomError::ChannelClosed));
}

#[test]
fn unknown_handle_aborts_the_load() {
    let mut dom = loading();
    assert_eq!(dom.recv(ParseOperation::Append { parent: 5, child: ParserNodeOrText::Text("x".to_string()) }), Err(DomError::UnknownNode));
    assert_eq!(dom.state(), LoadState::Failed(DomError::UnknownNode));
    assert!(!dom.is_usable());
    assert_eq!(dom.recv(ParseOperation::FinishedParsing), Err(DomError::ChannelClosed));
    assert_eq!(dom.state(), LoadState::Failed(DomError::UnknownNode));
}

#[test]
fn out_of_order_handle_is_unknown() {
    let mut dom = loading();
    assert_eq!(dom.recv(ParseOperation::CreateComment { node: 2, text: "c".to_string() }), Err(DomError::UnknownNode));
}

#[test]
fn cycle_aborts_the_load() {
    let mut dom = loading();
    dom.recv(ParseOperation::CreateElement { node: 1, name: qname("a"), attrs: Vec::new() }).unwrap();
    dom.recv(ParseOperation::CreateElement { node: 2, name: qname("b"), attrs: Vec::new() }).unwrap();
    dom.recv(ParseOperation::Append { parent: 1, child: ParserNodeOrText::Node(2) }).unwrap();
    assert_eq!(dom.recv(ParseOperation::Append { parent: 2, child: ParserNodeOrText::Node(1) }), Err(DomError::CycleDetected));
    assert_eq!(dom.state(), LoadState::Failed(DomError::CycleDetected));
}

#[test]
fn unsupported_operation_marks_the_document_incomplete() {
    let mut dom = loading();
    dom.recv(ParseOperation::CreateElement { node: 1, name: qname("template"), attrs: Vec::new() }).unwrap();
    assert_eq!(dom.recv(ParseOperation::GetTemplateContents { target: 1 }), Err(DomError::UnsupportedOperation));
    assert_eq!(dom.state(), LoadState::Loading);
    assert!(dom.is_incomplete());
    assert_eq!(dom.recv(ParseOperation::FinishedParsing), Ok(()));
    assert_eq!(dom.state(), LoadState::Loaded);
    assert!(dom.is_incomplete());
}

#[test]
fn closing_the_channel_mid_load_aborts_it() {
    let mut dom = loading();
    dom.recv(ParseOperation::CreateElement { node: 1, name: qname("html"), attrs: Vec::new() }).unwrap();
    dom.channel_closed();
    assert_eq!(dom.state(), LoadState::Failed(DomError::ChannelClosed));
    let mut done = loading();
    done.recv(ParseOperation::FinishedParsing).unwrap();
    done.channel_closed();
    assert_eq!(done.state(), LoadState::Loaded);
}

#[test]
fn nothing_applies_before_a_load() {
    let mut dom = MjDom::init();
    assert_eq!(dom.state(), LoadState::NotLoaded);
    assert!(dom.doctype().is_none());
    assert_eq!(dom.recv(ParseOperation::CreateComment { node: 1, text: "c".to_string() }), Err(DomError::ChannelClosed));
    assert_eq!(dom.tree().len(), 1);
}

#[test]
fn append_before_sibling_and_based_on_parent() {
    let mut dom = loading();
    dom.recv(ParseOperation::CreateElement { node: 1, name: qname("table"), attrs: Vec::new() }).unwrap();
    dom.recv(ParseOperation::Append { parent: 0, child: ParserNodeOrText::Node(1) }).unwrap();
    dom.recv(ParseOperation::CreateElement { node: 2, name: qname("b"), attrs: Vec::new() }).unwrap();
    dom.recv(ParseOperation::AppendBeforeSibling { sibling: 1, child: ParserNodeOrText::Node(2) }).unwrap();
    dom.recv(ParseOperation::AppendBasedOnParentNode { element: 1, prev_element: 2, child: ParserNodeOrText::Text("t".to_string()) }).unwrap();
    dom.recv(ParseOperation::CreateElement { node: 3, name: qname("i"), attrs: Vec::new() }).unwrap();
    dom.recv(ParseOperation::CreateElement { node: 4, name: qname("u"), attrs: Vec::new() }).unwrap();
    dom.recv(ParseOperation::AppendBasedOnParentNode { element: 3, prev_element: 2, child: ParserNodeOrText::Node(4) }).unwrap();
    let root = dom.tree().root();
    let table = dom.node_of(1).unwrap();
    let b = dom.node_of(2).unwrap();
    let u = dom.node_of(4).unwrap();
    let top = dom.tree().children_of(root).unwrap().clone();
    assert_eq!(top.len(), 3);
    assert_eq!(top[0], b);
    assert_eq!(top[2], table);
    assert_eq!(dom.tree().children_of(b).unwrap(), &vec![u]);
    assert_eq!(dom.recv(ParseOperation::RemoveFromParent { target: 2 }), Ok(()));
    assert_eq!(dom.tree().parent_of(b), Ok(None));
}

#[test]
fn misnested_formatting_is_rebuilt() {
    let dom = parse("<b>1<p>2</b>3</p>");
    assert_eq!(dom.state(), LoadState::Loaded);
    assert!(!dom.is_incomplete());
    let tree = dom.tree();
    let body = tree.body().unwrap();
    let kids = tree.children_of(body).unwrap();
    assert_eq!(kids.len(), 2);
    assert_eq!(local(&dom, kids[0]), "b");
    assert_eq!(local(&dom, kids[1]), "p");
    let p_kids = tree.children_of(kids[1]).unwrap();
    assert_eq!(p_kids.len(), 2);
    assert_eq!(local(&dom, p_kids[0]), "b");
    assert!(matches!(&tree.node(p_kids[1]).unwrap().kind, NodeKind::Text { contents } if contents == "3"));
}

#[test]
fn reparent_operation_moves_children() {
    let mut dom = loading();
    dom.recv(ParseOperation::CreateElement { node: 1, name: qname("a"), attrs: Vec::new() }).unwrap();
    dom.recv(ParseOperation::CreateElement { node: 2, name: qname("b"), attrs: Vec::new() }).unwrap();
    dom.recv(ParseOperation::Append { parent: 1, child: ParserNodeOrText::Text("x".to_string()) }).unwrap();
    assert_eq!(dom.recv(ParseOperation::ReparentChildren { node: 1, new_parent: 2 }), Ok(()));
    let a = dom.node_of(1).unwrap();
    let b = dom.node_of(2).unwrap();
    assert!(dom.tree().children_of(a).unwrap().is_empty());
    assert_eq!(dom.tree().children_of(b).unwrap().len(), 1);
    assert_eq!(dom.recv(ParseOperation::ReparentChildren { node: 1, new_parent: 9 }), Err(DomError::UnknownNode));
}

#[test]
fn document_walk_covers_every_node() {
    let dom = parse("<html><head></head><body>Hi</body></html>");
    let tree = dom.tree();
    let mut it = dom.iter();
    let mut seen = Vec::new();
    while let Some(id) = it.next(tree) {
        seen.push(id);
    }
    let html = tree.html().unwrap();
    let head = tree.head().unwrap();
    let body = tree.body().unwrap();
    let text = tree.children_of(body).unwrap()[0];
    assert_eq!(seen, vec![tree.root(), html, head, body, text]);
}

#[test]
fn doctype_operation_is_recorded() {
    let mut dom = loading();
    assert!(dom.doctype().is_none());
    let d = Doctype { name: "html".to_string(), public_id: "p".to_string(), system_id: "s".to_string() };
    assert_eq!(dom.recv(ParseOperation::AppendDoctypeToDocument(d)), Ok(()));
    let got = dom.doctype().as_ref().unwrap();
    assert_eq!((got.name.as_str(), got.public_id.as_str(), got.system_id.as_str()), ("html", "p", "s"));
    dom.start_load();
    assert!(dom.doctype().is_none());
}
