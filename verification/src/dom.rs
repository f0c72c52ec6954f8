//! The backing structure: an arena of nodes ordered into trees, the listeners
//! registered on them and a log of every mutation performed.
//!
//! Components never keep references into the structure; they keep
//! [`NodeId`]s, and every operation goes through a [`Dom`] value.

use vstd::prelude::*;

verus! {

/// Names a node of a [`Dom`]: the position at which the node was created.
pub type NodeId = usize;

/// Names a listener of a [`Dom`]: the position at which it was registered.
pub type ListenerId = usize;

/// What a node is.
#[derive(Clone, Copy, PartialEq, Eq, Structural, Debug)]
pub enum NodeKind {
    /// A node that has a tag name, attributes and children.
    Element,
    /// A node that displays character data.
    Text,
    /// An inert node carrying character data, used to mark positions.
    Comment,
}

/// An event recorded by a listener, as plain values.
#[derive(Clone, Debug)]
pub struct Event {
    /// The node the event was fired at.
    pub target: NodeId,
    /// The payload that came with the event, such as the text of an input.
    pub data: String,
}

/// One operation performed on the backing structure.
#[derive(Clone, Debug)]
pub enum Mutation {
    /// The element `node` was created with the tag name `tag`.
    CreateElement { node: NodeId, tag: String },
    /// The text node `node` was created displaying `data`.
    CreateText { node: NodeId, data: String },
    /// The comment `node` was created carrying `data`.
    CreateComment { node: NodeId, data: String },
    /// `node` became a child of `parent`, in front of `reference` or last.
    InsertBefore { parent: NodeId, node: NodeId, reference: Option<NodeId> },
    /// The child `node` of `parent` was detached.
    RemoveChild { parent: NodeId, node: NodeId },
    /// The character data of `node` was replaced by `data`.
    SetData { node: NodeId, data: String },
    /// The attribute `name` of `node` was set to `value`.
    SetAttribute { node: NodeId, name: String, value: String },
    /// The attribute `name` of `node` was removed.
    RemoveAttribute { node: NodeId, name: String },
    /// `listener` was registered on `node` for the events named `event`.
    Listen { listener: ListenerId, node: NodeId, event: String, passive: bool },
}

/// The mathematical model of an [`Event`].
pub struct EventView {
    pub target: NodeId,
    pub data: Seq<char>,
}

/// The mathematical model of a [`Mutation`].
pub enum MutationView {
    CreateElement { node: NodeId, tag: Seq<char> },
    CreateText { node: NodeId, data: Seq<char> },
    CreateComment { node: NodeId, data: Seq<char> },
    InsertBefore { parent: NodeId, node: NodeId, reference: Option<NodeId> },
    RemoveChild { parent: NodeId, node: NodeId },
    SetData { node: NodeId, data: Seq<char> },
    SetAttribute { node: NodeId, name: Seq<char>, value: Seq<char> },
    RemoveAttribute { node: NodeId, name: Seq<char> },
    Listen { listener: ListenerId, node: NodeId, event: Seq<char>, passive: bool },
}

/// The mathematical model of one node.
pub struct NodeView {
    pub kind: NodeKind,
    /// The tag name of an element; the character data of a text or comment.
    pub text: Seq<char>,
    pub attrs: Map<Seq<char>, Seq<char>>,
    pub parent: Option<NodeId>,
    pub children: Seq<NodeId>,
}

/// The mathematical model of one listener.
pub struct ListenerView {
    pub node: NodeId,
    pub event: Seq<char>,
    pub passive: bool,
    /// The event recorded and not yet delivered.
    pub pending: Option<EventView>,
}

/// The mathematical model of a [`Dom`].
pub struct DomView {
    pub nodes: Seq<NodeView>,
    pub listeners: Seq<ListenerView>,
    pub log: Seq<MutationView>,
}

impl View for Event {
    type V = EventView;

    open spec fn view(&self) -> EventView {
        EventView { target: self.target, data: self.data@ }
    }
}

impl View for Mutation {
    type V = MutationView;

    open spec fn view(&self) -> MutationView {
        match *self {
            Mutation::CreateElement { node, tag } => MutationView::CreateElement {
                node,
                tag: tag@,
            },
            Mutation::CreateText { node, data } => MutationView::CreateText { node, data: data@ },
            Mutation::CreateComment { node, data } => MutationView::CreateComment {
                node,
                data: data@,
            },
            Mutation::InsertBefore { parent, node, reference } => MutationView::InsertBefore {
                parent,
                node,
                reference,
            },
            Mutation::RemoveChild { parent, node } => MutationView::RemoveChild { parent, node },
            Mutation::SetData { node, data } => MutationView::SetData { node, data: data@ },
            Mutation::SetAttribute { node, name, value } => MutationView::SetAttribute {
                node,
                name: name@,
                value: value@,
            },
            Mutation::RemoveAttribute { node, name } => MutationView::RemoveAttribute {
                node,
                name: name@,
            },
            Mutation::Listen { listener, node, event, passive } => MutationView::Listen {
                listener,
                node,
                event: event@,
                passive,
            },
        }
    }
}

impl NodeView {
    /// A node as it is right after creation: detached, childless, without
    /// attributes.
    pub open spec fn fresh(kind: NodeKind, text: Seq<char>) -> NodeView {
        NodeView { kind, text, attrs: Map::empty(), parent: None, children: Seq::empty() }
    }
}

impl DomView {
    /// The number of nodes ever created.
    pub open spec fn len(self) -> nat {
        self.nodes.len()
    }

    /// Whether `n` names a node.
    pub open spec fn has(self, n: NodeId) -> bool {
        n < self.nodes.len()
    }

    pub open spec fn kind(self, n: NodeId) -> NodeKind {
        self.nodes[n as int].kind
    }

    pub open spec fn text(self, n: NodeId) -> Seq<char> {
        self.nodes[n as int].text
    }

    pub open spec fn attrs(self, n: NodeId) -> Map<Seq<char>, Seq<char>> {
        self.nodes[n as int].attrs
    }

    pub open spec fn parent(self, n: NodeId) -> Option<NodeId> {
        self.nodes[n as int].parent
    }

    pub open spec fn children(self, n: NodeId) -> Seq<NodeId> {
        self.nodes[n as int].children
    }

    /// Whether `n` names an element.
    pub open spec fn is_element(self, n: NodeId) -> bool {
        self.has(n) && self.kind(n) == NodeKind::Element
    }

    /// Whether `n` names a node that is not a child of any node.
    pub open spec fn is_detached(self, n: NodeId) -> bool {
        self.has(n) && self.parent(n) is None
    }

    /// Whether `c` is a child of `p`.
    pub open spec fn is_child(self, p: NodeId, c: NodeId) -> bool {
        self.has(c) && self.parent(c) == Some(p)
    }

    /// The links of node `n` are consistent: its children are distinct,
    /// younger than it and point back to it; only elements have children;
    /// its parent is an older element that lists it.
    pub open spec fn node_wf(self, n: NodeId) -> bool {
        let node = self.nodes[n as int];
        &&& node.children.no_duplicates()
        &&& (node.kind != NodeKind::Element ==> node.children.len() == 0)
        &&& forall|i: int|
            0 <= i < node.children.len() ==> {
                let c = #[trigger] node.children[i];
                n < c && c < self.nodes.len() && self.nodes[c as int].parent == Some(n)
            }
        &&& match node.parent {
            Some(p) => p < n && self.nodes[p as int].kind == NodeKind::Element
                && self.nodes[p as int].children.contains(n),
            None => true,
        }
    }

    /// The structure is a forest: every node's links are consistent and
    /// every listener sits on a node.
    pub open spec fn wf(self) -> bool {
        &&& self.nodes.len() <= usize::MAX
        &&& self.listeners.len() <= usize::MAX
        &&& forall|n: NodeId| n < self.nodes.len() ==> #[trigger] self.node_wf(n)
        &&& forall|l: int|
            0 <= l < self.listeners.len() ==> (#[trigger] self.listeners[l]).node
                < self.nodes.len()
    }

    /// The position of `reference` among the children of `parent`, or the
    /// end of the children when there is no reference.
    pub open spec fn position(self, parent: NodeId, reference: Option<NodeId>) -> int {
        match reference {
            Some(r) => self.children(parent).index_of(r),
            None => self.children(parent).len() as int,
        }
    }

    /// The structure with one more node at its end.
    pub open spec fn with_node(self, node: NodeView, entry: MutationView) -> DomView {
        DomView {
            nodes: self.nodes.push(node),
            listeners: self.listeners,
            log: self.log.push(entry),
        }
    }

    /// The structure after the detached node `node` became the child of
    /// `parent` at position `at`.
    pub open spec fn with_child(self, parent: NodeId, node: NodeId, at: int) -> Seq<NodeView> {
        let p = self.nodes[parent as int];
        let c = self.nodes[node as int];
        self.nodes.update(parent as int, NodeView { children: p.children.insert(at, node), ..p })
            .update(node as int, NodeView { parent: Some(parent), ..c })
    }

    /// The structure after the child `node` of `parent` was detached.
    pub open spec fn without_child(self, parent: NodeId, node: NodeId) -> Seq<NodeView> {
        let p = self.nodes[parent as int];
        let c = self.nodes[node as int];
        self.nodes.update(
            parent as int,
            NodeView { children: p.children.remove(p.children.index_of(node)), ..p },
        ).update(node as int, NodeView { parent: None, ..c })
    }
}

struct Node {
    kind: NodeKind,
    text: String,
    /// Every write to an attribute, oldest first: a value set, or `None`
    /// for a removal. The attributes are what the writes add up to.
    writes: Vec<(String, Option<String>)>,
    parent: Option<NodeId>,
    children: Vec<NodeId>,
}

struct Listener {
    node: NodeId,
    event: String,
    passive: bool,
    pending: Option<Event>,
}

/// The backing structure.
pub struct Dom {
    nodes: Vec<Node>,
    listeners: Vec<Listener>,
    log: Vec<Mutation>,
}

/// The attributes that a sequence of writes adds up to.
spec fn attrs_of(writes: Seq<(String, Option<String>)>) -> Map<Seq<char>, Seq<char>>
    decreases writes.len(),
{
    if writes.len() == 0 {
        Map::empty()
    } else {
        let before = attrs_of(writes.drop_last());
        match writes.last().1 {
            Some(value) => before.insert(writes.last().0@, value@),
            None => before.remove(writes.last().0@),
        }
    }
}

spec fn pending_of(pending: Option<Event>) -> Option<EventView> {
    match pending {
        Some(event) => Some(event@),
        None => None,
    }
}

impl View for Node {
    type V = NodeView;

    closed spec fn view(&self) -> NodeView {
        NodeView {
            kind: self.kind,
            text: self.text@,
            attrs: attrs_of(self.writes@),
            parent: self.parent,
            children: self.children@,
        }
    }
}

impl View for Listener {
    type V = ListenerView;

    closed spec fn view(&self) -> ListenerView {
        ListenerView {
            node: self.node,
            event: self.event@,
            passive: self.passive,
            pending: pending_of(self.pending),
        }
    }
}

impl View for Dom {
    type V = DomView;

    closed spec fn view(&self) -> DomView {
        DomView {
            nodes: Seq::new(self.nodes.len() as nat, |i: int| self.nodes[i]@),
            listeners: Seq::new(self.listeners.len() as nat, |i: int| self.listeners[i]@),
            log: Seq::new(self.log.len() as nat, |i: int| self.log[i]@),
        }
    }
}

impl Dom {
    /// An empty structure.
    pub fn new() -> (dom: Dom)
        ensures
            dom@.nodes.len() == 0,
            dom@.listeners.len() == 0,
            dom@.log.len() == 0,
            dom@.wf(),
    {
        Dom { nodes: Vec::new(), listeners: Vec::new(), log: Vec::new() }
    }

    /// The number of nodes ever created.
    pub fn len(&self) -> (len: usize)
        ensures
            len == self@.len(),
    {
        self.nodes.len()
    }

    /// What node `n` is.
    pub fn kind(&self, n: NodeId) -> (kind: NodeKind)
        requires
            self@.has(n),
        ensures
            kind == self@.kind(n),
    {
        self.nodes[n].kind
    }

    /// The tag name of the element `n`, or the character data of the text
    /// or comment `n`.
    pub fn text(&self, n: NodeId) -> (text: &str)
        requires
            self@.has(n),
        ensures
            text@ == self@.text(n),
    {
        self.nodes[n].text.as_str()
    }

    /// The node that `n` is a child of, if any.
    pub fn parent(&self, n: NodeId) -> (parent: Option<NodeId>)
        requires
            self@.has(n),
        ensures
            parent == self@.parent(n),
    {
        self.nodes[n].parent
    }

    /// The children of `n`, first to last.
    pub fn children(&self, n: NodeId) -> (children: &Vec<NodeId>)
        requires
            self@.has(n),
        ensures
            children@ == self@.children(n),
    {
        &self.nodes[n].children
    }

    /// The value of the attribute `name` of `n`, if it is set.
    pub fn attribute(&self, n: NodeId, name: &str) -> (value: Option<String>)
        requires
            self@.has(n),
        ensures
            match value {
                Some(v) => self@.attrs(n).contains_key(name@) && self@.attrs(n)[name@] == v@,
                None => !self@.attrs(n).contains_key(name@),
            },
    {
        let key = name.to_owned();
        let writes = &self.nodes[n].writes;
        let mut i: usize = writes.len();
        proof {
            assert(writes@.take(i as int) =~= writes@);
            assert(self@.attrs(n) == attrs_of(writes@));
        }
        while i > 0
            invariant
                i <= writes.len(),
                key@ == name@,
                self@.attrs(n) == attrs_of(writes@),
                attrs_of(writes@).contains_key(name@) == attrs_of(
                    writes@.take(i as int),
                ).contains_key(name@),
                attrs_of(writes@).contains_key(name@) ==> attrs_of(writes@)[name@] == attrs_of(
                    writes@.take(i as int),
                )[name@],
            decreases i,
        {
            proof {
                assert(writes@.take(i as int).drop_last() =~= writes@.take(i - 1));
                assert(writes@.take(i as int).last() == writes@[i - 1]);
            }
            i = i - 1;
            if writes[i].0 == key {
                return match &writes[i].1 {
                    Some(value) => Some(value.clone()),
                    None => None,
                };
            }
        }
        proof {
            assert(writes@.take(0).len() == 0);
        }
        None
    }

    /// The number of operations logged and not yet taken.
    pub fn mutation_count(&self) -> (count: usize)
        ensures
            count == self@.log.len(),
    {
        self.log.len()
    }

    /// Hands out the logged operations, oldest first, and empties the log.
    pub fn take_mutations(&mut self) -> (log: Vec<Mutation>)
        ensures
            log@.map_values(|m: Mutation| m@) == old(self)@.log,
            final(self)@ == (DomView { log: Seq::empty(), ..old(self)@ }),
    {
        let mut log: Vec<Mutation> = Vec::new();
        core::mem::swap(&mut self.log, &mut log);
        proof {
            assert(log@.map_values(|m: Mutation| m@) =~= old(self)@.log);
            assert(self@.log =~= Seq::empty());
            assert(self@.nodes =~= old(self)@.nodes);
            assert(self@.listeners =~= old(self)@.listeners);
        }
        log
    }

    fn create(&mut self, kind: NodeKind, text: &str, entry: Mutation) -> (node: NodeId)
        requires
            old(self)@.wf(),
        ensures
            node == old(self)@.len(),
            final(self)@ == old(self)@.with_node(NodeView::fresh(kind, text@), entry@),
            final(self)@.wf(),
    {
        let node = self.nodes.len();
        self.nodes.push(
            Node {
                kind,
                text: text.to_owned(),
                writes: Vec::new(),
                parent: None,
                children: Vec::new(),
            },
        );
        self.log.push(entry);
        proof {
            let before = old(self)@;
            let after = before.with_node(NodeView::fresh(kind, text@), entry@);
            assert(self@.nodes =~= after.nodes);
            assert(self@.listeners =~= after.listeners);
            assert(self@.log =~= after.log);
            assert forall|n: NodeId| n < after.nodes.len() implies #[trigger] after.node_wf(n) by {
                if n < before.nodes.len() {
                    assert(before.node_wf(n));
                }
            }
        }
        node
    }

    /// Creates a detached element with the tag name `tag`.
    pub fn create_element(&mut self, tag: &str) -> (node: NodeId)
        requires
            old(self)@.wf(),
        ensures
            node == old(self)@.len(),
            final(self)@ == old(self)@.with_node(
                NodeView::fresh(NodeKind::Element, tag@),
                MutationView::CreateElement { node, tag: tag@ },
            ),
            final(self)@.wf(),
    {
        let node = self.nodes.len();
        let entry = Mutation::CreateElement { node, tag: tag.to_owned() };
        self.create(NodeKind::Element, tag, entry)
    }

    /// Creates a detached text node displaying `data`.
    pub fn create_text(&mut self, data: &str) -> (node: NodeId)
        requires
            old(self)@.wf(),
        ensures
            node == old(self)@.len(),
            final(self)@ == old(self)@.with_node(
                NodeView::fresh(NodeKind::Text, data@),
                MutationView::CreateText { node, data: data@ },
            ),
            final(self)@.wf(),
    {
        let node = self.nodes.len();
        let entry = Mutation::CreateText { node, data: data.to_owned() };
        self.create(NodeKind::Text, data, entry)
    }

    /// Creates a detached comment carrying `data`.
    pub fn create_comment(&mut self, data: &str) -> (node: NodeId)
        requires
            old(self)@.wf(),
        ensures
            node == old(self)@.len(),
            final(self)@ == old(self)@.with_node(
                NodeView::fresh(NodeKind::Comment, data@),
                MutationView::CreateComment { node, data: data@ },
            ),
            final(self)@.wf(),
    {
        let node = self.nodes.len();
        let entry = Mutation::CreateComment { node, data: data.to_owned() };
        self.create(NodeKind::Comment, data, entry)
    }

    /// The position of the child `child` among the children of `parent`.
    pub fn index_in(&self, parent: NodeId, child: NodeId) -> (at: usize)
        requires
            self@.wf(),
            self@.has(parent),
            self@.is_child(parent, child),
        ensures
            at < self@.children(parent).len(),
            self@.children(parent)[at as int] == child,
            at == self@.children(parent).index_of(child),
    {
        let children = &self.nodes[parent].children;
        proof {
            assert(self@.node_wf(child));
            assert(self@.node_wf(parent));
            assert(children@ == self@.children(parent));
        }
        let ghost found = children@.index_of(child);
        let count = children.len();
        let mut i: usize = 0;
        while children[i] != child
            invariant
                children@.contains(child),
                0 <= i <= found < children@.len() == count,
                children@[found] == child,
            decreases children@.len() - i,
        {
            assert(i as int != found);
            i = i + 1;
        }
        proof {
            assert(children@.no_duplicates());
        }
        i
    }

    /// Makes the detached node `node` a child of `parent`, right before the
    /// child `reference`, or last when there is no reference.
    ///
    /// A node can be put only under an element created before it, which
    /// keeps the structure a forest.
    pub fn insert_before(&mut self, parent: NodeId, node: NodeId, reference: Option<NodeId>)
        requires
            old(self)@.wf(),
            old(self)@.is_element(parent),
            old(self)@.is_detached(node),
            parent < node,
            reference matches Some(r) ==> old(self)@.is_child(parent, r),
        ensures
            final(self)@.nodes == old(self)@.with_child(
                parent,
                node,
                old(self)@.position(parent, reference),
            ),
            final(self)@.listeners == old(self)@.listeners,
            final(self)@.log == old(self)@.log.push(
                MutationView::InsertBefore { parent, node, reference },
            ),
            0 <= old(self)@.position(parent, reference) <= old(self)@.children(parent).len(),
            final(self)@.wf(),
    {
        let at = match reference {
            Some(r) => self.index_in(parent, r),
            None => self.nodes[parent].children.len(),
        };
        self.nodes[parent].children.insert(at, node);
        self.nodes[node].parent = Some(parent);
        self.log.push(Mutation::InsertBefore { parent, node, reference });
        proof {
            let before = old(self)@;
            assert(self@.nodes =~= before.with_child(parent, node, at as int));
            assert(self@.listeners =~= before.listeners);
            assert(self@.log =~= before.log.push(
                MutationView::InsertBefore { parent, node, reference },
            ));
            before.lemma_with_child_wf(parent, node, at as int);
            assert(self@.wf()) by {
                let after = DomView { nodes: before.with_child(parent, node, at as int), ..before };
                assert forall|n: NodeId| n < self@.nodes.len() implies #[trigger] self@.node_wf(
                    n,
                ) by {
                    assert(after.node_wf(n));
                }
            }
        }
    }

    /// Detaches the child `node` of `parent`.
    pub fn remove_child(&mut self, parent: NodeId, node: NodeId)
        requires
            old(self)@.wf(),
            old(self)@.has(parent),
            old(self)@.is_child(parent, node),
        ensures
            final(self)@.nodes == old(self)@.without_child(parent, node),
            final(self)@.listeners == old(self)@.listeners,
            final(self)@.log == old(self)@.log.push(MutationView::RemoveChild { parent, node }),
            final(self)@.wf(),
    {
        let at = self.index_in(parent, node);
        self.nodes[parent].children.remove(at);
        self.nodes[node].parent = None;
        self.log.push(Mutation::RemoveChild { parent, node });
        proof {
            let before = old(self)@;
            assert(before.node_wf(node));
            assert(self@.nodes =~= before.without_child(parent, node));
            assert(self@.listeners =~= before.listeners);
            assert(self@.log =~= before.log.push(MutationView::RemoveChild { parent, node }));
            before.lemma_without_child_wf(parent, node);
            assert(self@.wf()) by {
                let after = DomView { nodes: before.without_child(parent, node), ..before };
                assert forall|n: NodeId| n < self@.nodes.len() implies #[trigger] self@.node_wf(
                    n,
                ) by {
                    assert(after.node_wf(n));
                }
            }
        }
    }

    /// Replaces the character data of the text or comment `node`.
    pub fn set_data(&mut self, node: NodeId, data: &str)
        requires
            old(self)@.has(node),
            old(self)@.kind(node) != NodeKind::Element,
        ensures
            final(self)@ == old(self)@.with_data(node, data@),
            old(self)@.wf() ==> final(self)@.wf(),
    {
        self.nodes[node].text = data.to_owned();
        self.log.push(Mutation::SetData { node, data: data.to_owned() });
        proof {
            let before = old(self)@;
            let after = before.with_data(node, data@);
            assert(self@.nodes =~= after.nodes);
            assert(self@.listeners =~= after.listeners);
            assert(self@.log =~= after.log);
            if before.wf() {
                before.lemma_same_links_wf(after);
            }
        }
    }

    /// Sets the attribute `name` of the element `node` to `value`.
    pub fn set_attribute(&mut self, node: NodeId, name: &str, value: &str)
        requires
            old(self)@.is_element(node),
        ensures
            final(self)@ == old(self)@.with_attr(node, name@, value@),
            old(self)@.wf() ==> final(self)@.wf(),
    {
        let ghost writes = self.nodes[node as int].writes@;
        self.nodes[node].writes.push((name.to_owned(), Some(value.to_owned())));
        self.log.push(
            Mutation::SetAttribute { node, name: name.to_owned(), value: value.to_owned() },
        );
        proof {
            let before = old(self)@;
            let after = before.with_attr(node, name@, value@);
            assert(self.nodes[node as int].writes@.drop_last() =~= writes);
            assert(self@.nodes =~= after.nodes);
            assert(self@.listeners =~= after.listeners);
            assert(self@.log =~= after.log);
            if before.wf() {
                before.lemma_same_links_wf(after);
            }
        }
    }

    /// Removes the attribute `name` from the element `node`.
    pub fn remove_attribute(&mut self, node: NodeId, name: &str)
        requires
            old(self)@.is_element(node),
        ensures
            final(self)@ == old(self)@.without_attr(node, name@),
            old(self)@.wf() ==> final(self)@.wf(),
    {
        let ghost writes = self.nodes[node as int].writes@;
        self.nodes[node].writes.push((name.to_owned(), None));
        self.log.push(Mutation::RemoveAttribute { node, name: name.to_owned() });
        proof {
            let before = old(self)@;
            let after = before.without_attr(node, name@);
            assert(self.nodes[node as int].writes@.drop_last() =~= writes);
            assert(self@.nodes =~= after.nodes);
            assert(self@.listeners =~= after.listeners);
            assert(self@.log =~= after.log);
            if before.wf() {
                before.lemma_same_links_wf(after);
            }
        }
    }

    /// Registers a listener for the events named `event` on `node`. A
    /// passive listener may not suppress the default action of an event.
    pub fn listen(&mut self, node: NodeId, event: &str, passive: bool) -> (listener: ListenerId)
        requires
            old(self)@.has(node),
        ensures
            listener == old(self)@.listeners.len(),
            final(self)@ == old(self)@.with_listener(node, event@, passive),
            old(self)@.wf() ==> final(self)@.wf(),
    {
        let listener = self.listeners.len();
        self.listeners.push(Listener { node, event: event.to_owned(), passive, pending: None });
        self.log.push(Mutation::Listen { listener, node, event: event.to_owned(), passive });
        proof {
            let before = old(self)@;
            let after = before.with_listener(node, event@, passive);
            assert(self@.nodes =~= after.nodes);
            assert(self@.listeners =~= after.listeners);
            assert(self@.log =~= after.log);
            if before.wf() {
                before.lemma_same_links_wf(after);
            }
        }
        listener
    }

    /// The number of listeners ever registered.
    pub fn listener_count(&self) -> (count: usize)
        ensures
            count == self@.listeners.len(),
    {
        self.listeners.len()
    }

    /// Records `event` at `listener`, replacing an event recorded there and
    /// not yet delivered. This is all a listener does when its event fires.
    pub fn record(&mut self, listener: ListenerId, event: Event)
        requires
            listener < old(self)@.listeners.len(),
        ensures
            final(self)@ == old(self)@.with_pending(listener, Some(event@)),
            old(self)@.wf() ==> final(self)@.wf(),
    {
        self.listeners[listener].pending = Some(event);
        proof {
            let before = old(self)@;
            let after = before.with_pending(listener, Some(event@));
            assert(self@.nodes =~= after.nodes);
            assert(self@.listeners =~= after.listeners);
            assert(self@.log =~= after.log);
            if before.wf() {
                before.lemma_same_links_wf(after);
            }
        }
    }

    /// Takes the event recorded at `listener`, if there is one, for
    /// delivery.
    pub fn take_event(&mut self, listener: ListenerId) -> (event: Option<Event>)
        requires
            listener < old(self)@.listeners.len(),
        ensures
            match event {
                Some(e) => old(self)@.listeners[listener as int].pending == Some(e@),
                None => old(self)@.listeners[listener as int].pending is None,
            },
            final(self)@ == old(self)@.with_pending(listener, None),
            old(self)@.wf() ==> final(self)@.wf(),
    {
        let event = self.listeners[listener].pending.take();
        proof {
            let before = old(self)@;
            let after = before.with_pending(listener, None);
            assert(self@.nodes =~= after.nodes);
            assert(self@.listeners =~= after.listeners);
            assert(self@.log =~= after.log);
            if before.wf() {
                before.lemma_same_links_wf(after);
            }
        }
        event
    }

    /// The child that follows `node` under its parent, if there is one.
    pub fn next_sibling(&self, node: NodeId) -> (next: Option<NodeId>)
        requires
            self@.wf(),
            self@.has(node),
        ensures
            next == self@.next_sibling(node),
    {
        match self.nodes[node].parent {
            None => None,
            Some(parent) => {
                proof {
                    assert(self@.node_wf(node));
                }
                let at = self.index_in(parent, node);
                let siblings = &self.nodes[parent].children;
                if at < siblings.len() - 1 {
                    Some(siblings[at + 1])
                } else {
                    None
                }
            },
        }
    }
}

impl DomView {
    /// The child that follows `node` under its parent, if there is one.
    pub open spec fn next_sibling(self, node: NodeId) -> Option<NodeId> {
        match self.parent(node) {
            None => None,
            Some(p) => {
                let at = self.children(p).index_of(node);
                if at + 1 < self.children(p).len() {
                    Some(self.children(p)[at + 1])
                } else {
                    None
                }
            },
        }
    }

    /// Whether this structure came out of `old` by building: no node and no
    /// listener was lost, the old listeners are as they were, the new ones
    /// have recorded nothing, and the log only got longer.
    pub open spec fn grown_from(self, old: DomView) -> bool {
        &&& old.nodes.len() <= self.nodes.len()
        &&& old.listeners.len() <= self.listeners.len()
        &&& forall|l: int|
            0 <= l < old.listeners.len() ==> #[trigger] self.listeners[l] == old.listeners[l]
        &&& forall|l: int|
            old.listeners.len() <= l < self.listeners.len() ==> (
            #[trigger] self.listeners[l]).pending is None
        &&& old.log.len() <= self.log.len()
        &&& forall|i: int| 0 <= i < old.log.len() ==> #[trigger] self.log[i] == old.log[i]
    }

    /// The structure after the data of `node` was replaced.
    pub open spec fn with_data(self, node: NodeId, data: Seq<char>) -> DomView {
        DomView {
            nodes: self.nodes.update(
                node as int,
                NodeView { text: data, ..self.nodes[node as int] },
            ),
            listeners: self.listeners,
            log: self.log.push(MutationView::SetData { node, data }),
        }
    }

    /// The structure after an attribute of `node` was set.
    pub open spec fn with_attr(self, node: NodeId, name: Seq<char>, value: Seq<char>) -> DomView {
        DomView {
            nodes: self.nodes.update(
                node as int,
                NodeView {
                    attrs: self.nodes[node as int].attrs.insert(name, value),
                    ..self.nodes[node as int]
                },
            ),
            listeners: self.listeners,
            log: self.log.push(MutationView::SetAttribute { node, name, value }),
        }
    }

    /// The structure after an attribute of `node` was removed.
    pub open spec fn without_attr(self, node: NodeId, name: Seq<char>) -> DomView {
        DomView {
            nodes: self.nodes.update(
                node as int,
                NodeView {
                    attrs: self.nodes[node as int].attrs.remove(name),
                    ..self.nodes[node as int]
                },
            ),
            listeners: self.listeners,
            log: self.log.push(MutationView::RemoveAttribute { node, name }),
        }
    }

    /// The structure after a listener was registered on `node`.
    pub open spec fn with_listener(self, node: NodeId, event: Seq<char>, passive: bool) -> DomView {
        DomView {
            nodes: self.nodes,
            listeners: self.listeners.push(ListenerView { node, event, passive, pending: None }),
            log: self.log.push(
                MutationView::Listen {
                    listener: self.listeners.len() as usize,
                    node,
                    event,
                    passive,
                },
            ),
        }
    }

    /// The structure after the event waiting at `listener` was replaced.
    pub open spec fn with_pending(
        self,
        listener: ListenerId,
        pending: Option<EventView>,
    ) -> DomView {
        DomView {
            nodes: self.nodes,
            listeners: self.listeners.update(
                listener as int,
                ListenerView { pending, ..self.listeners[listener as int] },
            ),
            log: self.log,
        }
    }

    /// Whether `other` has the same nodes with the same kinds and links,
    /// and listeners on the same nodes.
    pub open spec fn same_links(self, other: DomView) -> bool {
        &&& other.nodes.len() == self.nodes.len()
        &&& other.listeners.len() <= usize::MAX
        &&& forall|n: int|
            0 <= n < self.nodes.len() ==> {
                &&& (#[trigger] other.nodes[n]).kind == self.nodes[n].kind
                &&& other.nodes[n].parent == self.nodes[n].parent
                &&& other.nodes[n].children == self.nodes[n].children
            }
        &&& forall|l: int|
            0 <= l < other.listeners.len() ==> (#[trigger] other.listeners[l]).node
                < other.nodes.len()
    }

    /// A change that touches no link keeps the structure a forest.
    pub proof fn lemma_same_links_wf(self, other: DomView)
        requires
            self.wf(),
            self.same_links(other),
        ensures
            other.wf(),
    {
        assert forall|n: NodeId| n < other.nodes.len() implies #[trigger] other.node_wf(n) by {
            assert(self.node_wf(n));
            let kids = other.nodes[n as int].children;
            assert forall|i: int| 0 <= i < kids.len() implies {
                let c = #[trigger] kids[i];
                n < c && c < other.nodes.len() && other.nodes[c as int].parent == Some(n)
            } by {
                assert(kids[i] == self.nodes[n as int].children[i]);
            }
        }
    }

    /// Attaching a detached node under an older element keeps the structure
    /// a forest.
    pub proof fn lemma_with_child_wf(self, parent: NodeId, node: NodeId, at: int)
        requires
            self.wf(),
            self.is_element(parent),
            self.is_detached(node),
            parent < node,
            0 <= at <= self.children(parent).len(),
        ensures
            (DomView { nodes: self.with_child(parent, node, at), ..self }).wf(),
    {
        let after = DomView { nodes: self.with_child(parent, node, at), ..self };
        let old_children = self.children(parent);
        let new_children = old_children.insert(at, node);
        assert(self.node_wf(parent));
        assert(self.node_wf(node));
        assert(!old_children.contains(node)) by {
            if old_children.contains(node) {
                let i = choose|i: int| 0 <= i < old_children.len() && old_children[i] == node;
                assert(self.nodes[old_children[i] as int].parent == Some(parent));
            }
        }
        assert(new_children.no_duplicates());
        assert(new_children[at] == node);
        assert forall|x: NodeId| old_children.contains(x) implies new_children.contains(x) by {
            let i = choose|i: int| 0 <= i < old_children.len() && old_children[i] == x;
            if i < at {
                assert(new_children[i] == x);
            } else {
                assert(new_children[i + 1] == x);
            }
        }
        assert forall|n: NodeId| n < after.nodes.len() implies #[trigger] after.node_wf(n) by {
            assert(self.node_wf(n));
            let kids = after.nodes[n as int].children;
            assert forall|i: int| 0 <= i < kids.len() implies {
                let c = #[trigger] kids[i];
                n < c && c < after.nodes.len() && after.nodes[c as int].parent == Some(n)
            } by {
                if n == parent {
                    if i < at {
                        assert(kids[i] == old_children[i]);
                    } else if i > at {
                        assert(kids[i] == old_children[i - 1]);
                    }
                } else {
                    assert(kids[i] == self.nodes[n as int].children[i]);
                    assert(self.nodes[kids[i] as int].parent == Some(n));
                }
            }
            match after.nodes[n as int].parent {
                Some(p) => {
                    if n == node {
                        assert(new_children.contains(node));
                    } else {
                        assert(self.nodes[p as int].children.contains(n));
                    }
                },
                None => {},
            }
        }
    }

    /// Detaching a child keeps the structure a forest.
    pub proof fn lemma_without_child_wf(self, parent: NodeId, node: NodeId)
        requires
            self.wf(),
            self.has(parent),
            self.is_child(parent, node),
        ensures
            (DomView { nodes: self.without_child(parent, node), ..self }).wf(),
    {
        let after = DomView { nodes: self.without_child(parent, node), ..self };
        let old_children = self.children(parent);
        assert(self.node_wf(parent));
        assert(self.node_wf(node));
        let at = old_children.index_of(node);
        assert(old_children.contains(node));
        let new_children = old_children.remove(at);
        assert(new_children.no_duplicates());
        assert forall|x: NodeId| x != node && old_children.contains(x)
            implies new_children.contains(
            x,
        ) by {
            let i = choose|i: int| 0 <= i < old_children.len() && old_children[i] == x;
            if i < at {
                assert(new_children[i] == x);
            } else {
                assert(new_children[i - 1] == x);
            }
        }
        assert forall|n: NodeId| n < after.nodes.len() implies #[trigger] after.node_wf(n) by {
            assert(self.node_wf(n));
            let kids = after.nodes[n as int].children;
            assert forall|i: int| 0 <= i < kids.len() implies {
                let c = #[trigger] kids[i];
                n < c && c < after.nodes.len() && after.nodes[c as int].parent == Some(n)
            } by {
                if n == parent {
                    if i < at {
                        assert(kids[i] == old_children[i]);
                    } else {
                        assert(kids[i] == old_children[i + 1]);
                    }
                } else {
                    assert(kids[i] == self.nodes[n as int].children[i]);
                    assert(self.nodes[kids[i] as int].parent == Some(n));
                }
            }
            match after.nodes[n as int].parent {
                Some(p) => {
                    assert(n != node);
                    assert(self.nodes[p as int].children.contains(n));
                },
                None => {},
            }
        }
    }
}

impl DomView {
    /// The structure after the children of `parent` at the positions from
    /// `from` up to, not including, `to` were detached one by one, first to
    /// last.
    pub open spec fn cleared(self, parent: NodeId, from: int, to: int) -> DomView {
        let kids = self.children(parent);
        DomView {
            nodes: Seq::new(
                self.nodes.len(),
                |n: int|
                    if n == parent {
                        NodeView { children: kids.take(from) + kids.skip(to), ..self.nodes[n] }
                    } else if self.nodes[n].parent == Some(parent) && from <= kids.index_of(
                        n as NodeId,
                    ) < to {
                        NodeView { parent: None, ..self.nodes[n] }
                    } else {
                        self.nodes[n]
                    },
            ),
            listeners: self.listeners,
            log: self.log + kids.subrange(from, to).map_values(
                |node: NodeId| MutationView::RemoveChild { parent, node },
            ),
        }
    }

    /// Detaching nothing changes nothing.
    pub proof fn lemma_cleared_nothing(self, parent: NodeId, at: int)
        requires
            self.has(parent),
            0 <= at <= self.children(parent).len(),
        ensures
            self.cleared(parent, at, at) == self,
    {
        let kids = self.children(parent);
        let after = self.cleared(parent, at, at);
        assert(kids.take(at) + kids.skip(at) =~= kids);
        assert(after.nodes =~= self.nodes);
        assert(after.log =~= self.log);
    }

    /// Detaching one more child extends a run of detached children by one.
    pub proof fn lemma_cleared_step(self, parent: NodeId, from: int, to: int)
        requires
            self.wf(),
            self.has(parent),
            0 <= from <= to < self.children(parent).len(),
        ensures
            self.cleared(parent, from, to).is_child(parent, self.children(parent)[to]),
            self.cleared(parent, from, to).children(parent).index_of(self.children(parent)[to])
                == from,
            self.cleared(parent, from, to + 1).nodes == self.cleared(
                parent,
                from,
                to,
            ).without_child(parent, self.children(parent)[to]),
            self.cleared(parent, from, to + 1).log == self.cleared(parent, from, to).log.push(
                MutationView::RemoveChild { parent, node: self.children(parent)[to] },
            ),
    {
        let kids = self.children(parent);
        let node = kids[to];
        let mid = self.cleared(parent, from, to);
        let end = self.cleared(parent, from, to + 1);
        assert(self.node_wf(parent));
        assert(self.nodes[kids[to] as int].parent == Some(parent));
        lemma_index_of(kids, to);
        let mid_kids = kids.take(from) + kids.skip(to);
        assert(mid.children(parent) == mid_kids);
        assert(mid_kids[from] == node);
        assert(mid_kids.no_duplicates()) by {
            assert forall|i: int, j: int|
                0 <= i < mid_kids.len() && 0 <= j < mid_kids.len() && i != j implies mid_kids[i]
                != mid_kids[j] by {
                let a = if i < from { i } else { i - from + to };
                let b = if j < from { j } else { j - from + to };
                assert(mid_kids[i] == kids[a]);
                assert(mid_kids[j] == kids[b]);
            }
        }
        lemma_index_of(mid_kids, from);
        assert(mid_kids.remove(from) =~= kids.take(from) + kids.skip(to + 1));
        assert forall|n: int| 0 <= n < self.nodes.len() implies end.nodes[n]
            == mid.without_child(parent, node)[n] by {
            if n != parent && self.nodes[n].parent == Some(parent) {
                assert(self.node_wf(n as NodeId));
                let k = kids.index_of(n as NodeId);
                assert(kids.contains(n as NodeId));
                assert(kids[k] == n);
            }
        }
        assert(end.nodes =~= mid.without_child(parent, node));
        assert(kids.subrange(from, to + 1) =~= kids.subrange(from, to).push(node));
        assert(end.log =~= mid.log.push(MutationView::RemoveChild { parent, node }));
    }
}

/// In a sequence without duplicates, an element is found where it is.
pub proof fn lemma_index_of<A>(s: Seq<A>, i: int)
    requires
        s.no_duplicates(),
        0 <= i < s.len(),
    ensures
        s.index_of(s[i]) == i,
{
    assert(s.contains(s[i]));
}

/// Where a component puts the nodes it creates: under `parent`, right
/// before the child `insert_before`, or last when there is none.
#[derive(Clone, Copy, Debug)]
pub struct Position {
    pub parent: NodeId,
    pub insert_before: Option<NodeId>,
}

impl Position {
    /// Whether nodes can be put here: the parent is an element and the
    /// reference, if any, is one of its children.
    pub open spec fn wf(self, dom: DomView) -> bool {
        &&& dom.is_element(self.parent)
        &&& self.insert_before matches Some(r) ==> dom.is_child(self.parent, r)
    }

    /// The index among the parent's children at which nodes are put.
    pub open spec fn index(self, dom: DomView) -> int {
        dom.position(self.parent, self.insert_before)
    }

    /// Puts the detached node `node` at this position.
    pub fn insert(&self, dom: &mut Dom, node: NodeId)
        requires
            old(dom)@.wf(),
            self.wf(old(dom)@),
            old(dom)@.is_detached(node),
            self.parent < node,
        ensures
            final(dom)@.nodes == old(dom)@.with_child(self.parent, node, self.index(old(dom)@)),
            final(dom)@.listeners == old(dom)@.listeners,
            final(dom)@.log == old(dom)@.log.push(
                MutationView::InsertBefore {
                    parent: self.parent,
                    node,
                    reference: self.insert_before,
                },
            ),
            0 <= self.index(old(dom)@) <= old(dom)@.children(self.parent).len(),
            final(dom)@.wf(),
    {
        dom.insert_before(self.parent, node, self.insert_before);
    }
}

/// Detaches every child of `parent` that stands after `start` and before
/// `end`, first to last.
pub fn clear(dom: &mut Dom, parent: NodeId, start: NodeId, end: NodeId)
    requires
        old(dom)@.wf(),
        old(dom)@.has(parent),
        old(dom)@.is_child(parent, start),
        old(dom)@.is_child(parent, end),
        old(dom)@.children(parent).index_of(start) < old(dom)@.children(parent).index_of(end),
    ensures
        final(dom)@ == old(dom)@.cleared(
            parent,
            old(dom)@.children(parent).index_of(start) + 1,
            old(dom)@.children(parent).index_of(end),
        ),
        final(dom)@.wf(),
{
    let ghost before = dom@;
    let ghost kids = before.children(parent);
    let ghost from = kids.index_of(start) + 1;
    let ghost stop = kids.index_of(end);
    let ghost to = from;
    proof {
        assert(before.node_wf(parent));
        assert(before.node_wf(start));
        assert(before.node_wf(end));
        assert(kids.contains(start) && kids.contains(end));
        before.lemma_cleared_nothing(parent, from);
    }
    loop
        invariant
            before.wf(),
            before.has(parent),
            before.is_child(parent, start),
            before.is_child(parent, end),
            kids == before.children(parent),
            kids.no_duplicates(),
            0 < from <= to <= stop < kids.len(),
            kids[from - 1] == start,
            kids[stop] == end,
            dom@ == before.cleared(parent, from, to),
            dom@.wf(),
        ensures
            to == stop,
        decreases stop - to,
    {
        proof {
            let now_kids = kids.take(from) + kids.skip(to);
            assert(dom@.children(parent) == now_kids);
            assert(now_kids[from - 1] == start);
            assert(now_kids[from] == kids[to]);
            assert(now_kids.no_duplicates()) by {
                assert(dom@.node_wf(parent));
            }
            lemma_index_of(now_kids, from - 1);
            assert(before.nodes[start as int].parent == Some(parent));
            lemma_index_of(kids, from - 1);
            assert(dom@.parent(start) == Some(parent));
        }
        let next = dom.next_sibling(start);
        match next {
            None => {
                assert(false);
                break ;
            },
            Some(node) => {
                if node == end {
                    proof {
                        lemma_index_of(kids, to);
                        lemma_index_of(kids, stop);
                    }
                    break ;
                }
                proof {
                    lemma_index_of(kids, to);
                    lemma_index_of(kids, stop);
                    before.lemma_cleared_step(parent, from, to);
                }
                dom.remove_child(parent, node);
                proof {
                    to = to + 1;
                    assert(dom@.nodes == before.cleared(parent, from, to).nodes);
                    assert(dom@.listeners == before.cleared(parent, from, to).listeners);
                    assert(dom@.log == before.cleared(parent, from, to).log);
                }
            },
        }
    }
}

} // verus!
