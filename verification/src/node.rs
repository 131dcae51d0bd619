//! The document (DOM) tree: nodes, elements, and the window that owns them.
//!
//! All nodes of one document live in a single arena owned by the [`Window`];
//! every parent/child/sibling/owner relation is an index into that arena, so
//! there is exactly one owning path to each node (the arena slot) and the
//! navigation links can never dangle or form ownership cycles.

use crate::attribute::Attribute;
use crate::attribute::AttributeView;
use vstd::prelude::*;
use vstd::string::StrSliceExecFns;
use vstd::string::StringExecFns;

verus! {

/// The closed set of recognized element tag names.
#[derive(Debug, Copy, Clone, PartialEq, Eq, Structural)]
pub enum ElementKind {
    Html,
    Head,
    Style,
    Script,
    Body,
    P,
}

/// Which [`ElementKind`], if any, a tag name denotes.
pub open spec fn element_kind_of(s: Seq<char>) -> Option<ElementKind> {
    if s == "html"@ {
        Some(ElementKind::Html)
    } else if s == "head"@ {
        Some(ElementKind::Head)
    } else if s == "style"@ {
        Some(ElementKind::Style)
    } else if s == "script"@ {
        Some(ElementKind::Script)
    } else if s == "body"@ {
        Some(ElementKind::Body)
    } else if s == "p"@ {
        Some(ElementKind::P)
    } else {
        None
    }
}

/// Character-for-character equality of two string slices.
fn str_eq(a: &str, b: &str) -> (r: bool)
    ensures
        r == (a@ == b@),
{
    let n = a.unicode_len();
    if n != b.unicode_len() {
        return false;
    }
    let mut i: usize = 0;
    while i < n
        invariant
            n == a@.len(),
            n == b@.len(),
            i <= n,
            forall|k: int| 0 <= k < i ==> a@[k] == b@[k],
        decreases n - i,
    {
        if a.get_char(i) != b.get_char(i) {
            return false;
        }
        i += 1;
    }
    proof {
        assert(a@ =~= b@);
    }
    true
}

/// The diagnostic carried by a failed tag-name lookup: a fixed prefix
/// followed by the offending name.
pub open spec fn unknown_tag_message(s: Seq<char>) -> Seq<char> {
    "invalid element kind: "@ + s
}

impl ElementKind {
    /// Recognize a tag name. Unrecognized tags are reported back to the
    /// caller (carrying a diagnostic that names the tag), never a panic.
    pub fn from_str(s: &str) -> (r: Result<ElementKind, String>)
        ensures
            match element_kind_of(s@) {
                Some(k) => r == Ok::<ElementKind, String>(k),
                None => r matches Err(e) && e@ == unknown_tag_message(s@),
            },
    {
        if str_eq(s, "html") {
            Ok(ElementKind::Html)
        } else if str_eq(s, "head") {
            Ok(ElementKind::Head)
        } else if str_eq(s, "style") {
            Ok(ElementKind::Style)
        } else if str_eq(s, "script") {
            Ok(ElementKind::Script)
        } else if str_eq(s, "body") {
            Ok(ElementKind::Body)
        } else if str_eq(s, "p") {
            Ok(ElementKind::P)
        } else {
            let mut message = String::from_str("invalid element kind: ");
            message.append(s);
            Err(message)
        }
    }
}

/// Mathematical model of an [`Element`].
pub struct ElementView {
    pub kind: ElementKind,
    pub attributes: Seq<AttributeView>,
}

/// An element node's payload: its tag identity and its attributes, in the
/// order they were written.
#[derive(Debug)]
pub struct Element {
    pub kind: ElementKind,
    pub attributes: Vec<Attribute>,
}

impl View for Element {
    type V = ElementView;

    open spec fn view(&self) -> ElementView {
        ElementView { kind: self.kind, attributes: self.attributes.deep_view() }
    }
}

impl Element {
    /// Build an element from a tag name. Construction is fallible: an
    /// unrecognized tag name is reported to the caller, with a diagnostic
    /// naming the tag.
    pub fn new(element_name: &str, attributes: Vec<Attribute>) -> (r: Result<Element, String>)
        ensures
            match element_kind_of(element_name@) {
                Some(k) => r matches Ok(el) && el@.kind == k && el@.attributes
                    == attributes.deep_view(),
                None => r matches Err(e) && e@ == unknown_tag_message(element_name@),
            },
    {
        match ElementKind::from_str(element_name) {
            Ok(kind) => Ok(Element { kind, attributes }),
            Err(e) => Err(e),
        }
    }

    pub fn kind(&self) -> (r: ElementKind)
        ensures
            r == self@.kind,
    {
        self.kind
    }

    pub fn attributes(&self) -> (r: &Vec<Attribute>)
        ensures
            r.deep_view() == self@.attributes,
    {
        &self.attributes
    }
}

impl Clone for Element {
    fn clone(&self) -> (r: Self)
        ensures
            r@ == self@,
    {
        let mut attributes: Vec<Attribute> = Vec::new();
        let mut i: usize = 0;
        while i < self.attributes.len()
            invariant
                i <= self.attributes.len(),
                attributes@.len() == i,
                forall|k: int| 0 <= k < i ==> (#[trigger] attributes@[k])@ == self.attributes@[k]@,
            decreases self.attributes.len() - i,
        {
            attributes.push(self.attributes[i].clone());
            i += 1;
        }
        proof {
            assert(attributes.deep_view() =~= self.attributes.deep_view());
        }
        Element { kind: self.kind, attributes }
    }
}

/// Mathematical model of a [`NodeKind`].
pub enum NodeKindView {
    Document,
    Element(ElementView),
    Text(Seq<char>),
}

/// What a tree node represents: the document itself, an element, or a run of
/// text.
#[derive(Debug)]
pub enum NodeKind {
    Document,
    Element(Element),
    Text(String),
}

impl View for NodeKind {
    type V = NodeKindView;

    open spec fn view(&self) -> NodeKindView {
        match self {
            NodeKind::Document => NodeKindView::Document,
            NodeKind::Element(e) => NodeKindView::Element(e@),
            NodeKind::Text(s) => NodeKindView::Text(s@),
        }
    }
}

impl Clone for NodeKind {
    fn clone(&self) -> (r: Self)
        ensures
            r@ == self@,
    {
        match self {
            NodeKind::Document => NodeKind::Document,
            NodeKind::Element(e) => NodeKind::Element(e.clone()),
            NodeKind::Text(s) => NodeKind::Text(s.clone()),
        }
    }
}

/// Mathematical model of a [`Node`].
pub struct NodeView {
    pub kind: NodeKindView,
    pub window: Option<usize>,
    pub parent: Option<usize>,
    pub first_child: Option<usize>,
    pub last_child: Option<usize>,
    pub previous_sibling: Option<usize>,
    pub next_sibling: Option<usize>,
}

/// One tree node. Each navigation link holds the arena index of another node
/// of the same document (`None` where there is no such node); `window` holds
/// the handle of the owning window. Only `first_child` and `next_sibling`
/// form the owning path through the tree; the remaining links are
/// back-references for navigation.
#[derive(Debug)]
pub struct Node {
    pub kind: NodeKind,
    pub window: Option<usize>,
    pub parent: Option<usize>,
    pub first_child: Option<usize>,
    pub last_child: Option<usize>,
    pub previous_sibling: Option<usize>,
    pub next_sibling: Option<usize>,
}

impl View for Node {
    type V = NodeView;

    open spec fn view(&self) -> NodeView {
        NodeView {
            kind: self.kind@,
            window: self.window,
            parent: self.parent,
            first_child: self.first_child,
            last_child: self.last_child,
            previous_sibling: self.previous_sibling,
            next_sibling: self.next_sibling,
        }
    }
}

impl DeepView for Node {
    type V = NodeView;

    open spec fn deep_view(&self) -> NodeView {
        self@
    }
}

/// A node with no links at all: not in any tree, with no children.
pub open spec fn detached(n: NodeView) -> bool {
    &&& n.parent is None
    &&& n.previous_sibling is None
    &&& n.next_sibling is None
    &&& n.first_child is None
    &&& n.last_child is None
}

impl Node {
    pub fn new(kind: NodeKind) -> (r: Node)
        ensures
            r@.kind == kind@,
            r@.window is None,
            detached(r@),
    {
        Node {
            kind,
            window: None,
            parent: None,
            first_child: None,
            last_child: None,
            previous_sibling: None,
            next_sibling: None,
        }
    }

    pub fn set_parent(&mut self, parent: Option<usize>)
        ensures
            final(self)@ == (NodeView { parent, ..old(self)@ }),
    {
        self.parent = parent;
    }

    pub fn parent(&self) -> (r: Option<usize>)
        ensures
            r == self@.parent,
    {
        self.parent
    }

    pub fn set_first_child(&mut self, first_child: Option<usize>)
        ensures
            final(self)@ == (NodeView { first_child, ..old(self)@ }),
    {
        self.first_child = first_child;
    }

    pub fn first_child(&self) -> (r: Option<usize>)
        ensures
            r == self@.first_child,
    {
        self.first_child
    }

    pub fn set_last_child(&mut self, last_child: Option<usize>)
        ensures
            final(self)@ == (NodeView { last_child, ..old(self)@ }),
    {
        self.last_child = last_child;
    }

    pub fn last_child(&self) -> (r: Option<usize>)
        ensures
            r == self@.last_child,
    {
        self.last_child
    }

    pub fn set_previous_sibling(&mut self, previous_sibling: Option<usize>)
        ensures
            final(self)@ == (NodeView { previous_sibling, ..old(self)@ }),
    {
        self.previous_sibling = previous_sibling;
    }

    pub fn previous_sibling(&self) -> (r: Option<usize>)
        ensures
            r == self@.previous_sibling,
    {
        self.previous_sibling
    }

    pub fn set_next_sibling(&mut self, next_sibling: Option<usize>)
        ensures
            final(self)@ == (NodeView { next_sibling, ..old(self)@ }),
    {
        self.next_sibling = next_sibling;
    }

    pub fn next_sibling(&self) -> (r: Option<usize>)
        ensures
            r == self@.next_sibling,
    {
        self.next_sibling
    }

    pub fn set_window(&mut self, window: Option<usize>)
        ensures
            final(self)@ == (NodeView { window, ..old(self)@ }),
    {
        self.window = window;
    }

    pub fn kind(&self) -> (r: NodeKind)
        ensures
            r@ == self@.kind,
    {
        self.kind.clone()
    }

    pub fn get_element(&self) -> (r: Option<Element>)
        ensures
            match self@.kind {
                NodeKindView::Element(ev) => r matches Some(e) && e@ == ev,
                _ => r is None,
            },
    {
        match &self.kind {
            NodeKind::Element(e) => Some(e.clone()),
            _ => None,
        }
    }

    pub fn element_kind(&self) -> (r: Option<ElementKind>)
        ensures
            match self@.kind {
                NodeKindView::Element(ev) => r == Some(ev.kind),
                _ => r is None,
            },
    {
        match &self.kind {
            NodeKind::Element(e) => Some(e.kind),
            _ => None,
        }
    }
}

impl Clone for Node {
    fn clone(&self) -> (r: Self)
        ensures
            r@ == self@,
    {
        Node {
            kind: self.kind.clone(),
            window: self.window,
            parent: self.parent,
            first_child: self.first_child,
            last_child: self.last_child,
            previous_sibling: self.previous_sibling,
            next_sibling: self.next_sibling,
        }
    }
}

/// Why a linking operation was refused. Violating a linking precondition is a
/// programming error of the caller; it is reported, and the tree is left
/// exactly as it was.
#[derive(Debug, Copy, Clone, PartialEq, Eq, Structural)]
pub enum DomError {
    /// An index does not name a node of this document.
    UnknownNode,
    /// The document root cannot be linked under another node.
    DocumentNode,
    /// A node cannot become its own child.
    SelfLink,
    /// The parent already has a first child; siblings are appended instead.
    FirstChildPresent,
    /// The node to link is still carrying links of its own.
    NotDetached,
    /// The anchor has no parent, so there is no child list to extend.
    AnchorDetached,
    /// The anchor already has a next sibling; only the last child can anchor
    /// an append.
    AnchorNotLast,
}

/// Mathematical model of a [`Window`]: the arena contents, and for every node
/// the sequence of its children in sibling order.
pub struct WindowView {
    pub nodes: Seq<NodeView>,
    pub children: Map<int, Seq<int>>,
}

/// The root aggregate of one document: it owns the arena in which the
/// document node and every node created for the document live.
pub struct Window {
    nodes: Vec<Node>,
    children: Ghost<Map<int, Seq<int>>>,
}

impl View for Window {
    type V = WindowView;

    closed spec fn view(&self) -> WindowView {
        WindowView { nodes: self.nodes.deep_view(), children: self.children@ }
    }
}

/// The child list of `p` and the sibling links of its members agree:
/// the list runs from `first_child` through `next_sibling` to `last_child`,
/// with `previous_sibling` running the same way backwards, and every member
/// has `p` as its parent.
pub open spec fn sibling_chain_wf(w: WindowView, p: int) -> bool {
    let s = w.children[p];
    &&& forall|k: int| 0 <= k < s.len() ==> 0 <= #[trigger] s[k] < w.nodes.len()
    &&& (s.len() == 0 ==> w.nodes[p].first_child is None && w.nodes[p].last_child is None)
    &&& (s.len() > 0 ==> w.nodes[p].first_child == Some(s[0] as usize) && w.nodes[p].last_child
        == Some(s[s.len() - 1] as usize) && w.nodes[s[0]].previous_sibling is None
        && w.nodes[s[s.len() - 1]].next_sibling is None)
    &&& forall|k: int| 0 <= k < s.len() - 1 ==> w.nodes[#[trigger] s[k]].next_sibling == Some(
        s[k + 1] as usize,
    )
    &&& forall|k: int| 1 <= k < s.len() ==> w.nodes[#[trigger] s[k]].previous_sibling == Some(
        s[k - 1] as usize,
    )
    &&& forall|k: int| 0 <= k < s.len() ==> w.nodes[#[trigger] s[k]].parent == Some(p as usize)
    &&& s.no_duplicates()
}

/// The links leaving node `i` are sound: they stay inside the arena, a node
/// is never its own parent, a parented node stands in its parent's child
/// list, and an unparented node has no siblings.
pub open spec fn node_links_wf(w: WindowView, i: int) -> bool {
    let n = w.nodes[i];
    &&& (n.parent matches Some(p) ==> (p as int) < w.nodes.len() && (p as int) != i
        && w.children[p as int].contains(i))
    &&& (n.parent is None ==> n.previous_sibling is None && n.next_sibling is None)
    &&& (n.first_child matches Some(c) ==> (c as int) < w.nodes.len())
    &&& (n.last_child matches Some(c) ==> (c as int) < w.nodes.len())
    &&& (n.previous_sibling matches Some(j) ==> (j as int) < w.nodes.len())
    &&& (n.next_sibling matches Some(j) ==> (j as int) < w.nodes.len())
}

/// The tree invariant: slot 0 holds the document root, every node has a
/// child list, every child list agrees with the sibling links, and every
/// link is sound. Together these give each reachable node exactly one owning
/// path from the window.
pub open spec fn window_wf(w: WindowView) -> bool {
    &&& w.nodes.len() >= 1
    &&& w.nodes[0].kind is Document
    &&& w.nodes[0].parent is None
    &&& w.nodes[0].previous_sibling is None
    &&& w.nodes[0].next_sibling is None
    &&& forall|p: int| 0 <= p < w.nodes.len() ==> w.children.contains_key(p)
    &&& forall|p: int| 0 <= p < w.nodes.len() ==> #[trigger] sibling_chain_wf(w, p)
    &&& forall|i: int| 0 <= i < w.nodes.len() ==> #[trigger] node_links_wf(w, i)
}

/// Which error, if any, `link_as_first_child` reports.
pub open spec fn link_first_child_check(w: WindowView, parent: usize, child: usize) -> Option<
    DomError,
> {
    if parent >= w.nodes.len() || child >= w.nodes.len() {
        Some(DomError::UnknownNode)
    } else if child == 0 {
        Some(DomError::DocumentNode)
    } else if parent == child {
        Some(DomError::SelfLink)
    } else if w.nodes[parent as int].first_child is Some {
        Some(DomError::FirstChildPresent)
    } else if !detached(w.nodes[child as int]) {
        Some(DomError::NotDetached)
    } else {
        None
    }
}

/// Which error, if any, `append_sibling` reports.
pub open spec fn append_sibling_check(w: WindowView, anchor: usize, node: usize) -> Option<
    DomError,
> {
    if anchor >= w.nodes.len() || node >= w.nodes.len() {
        Some(DomError::UnknownNode)
    } else if node == 0 {
        Some(DomError::DocumentNode)
    } else if w.nodes[anchor as int].parent is None {
        Some(DomError::AnchorDetached)
    } else if w.nodes[anchor as int].next_sibling is Some {
        Some(DomError::AnchorNotLast)
    } else if !detached(w.nodes[node as int]) {
        Some(DomError::NotDetached)
    } else {
        None
    }
}

/// `append_sibling`'s successful update keeps the tree invariant: the new
/// node joins the end of the anchor's parent's child list and every other
/// chain and link is untouched.
#[verifier::rlimit(100)]
proof fn lemma_append_keeps_wf(
    wold: WindowView,
    wnew: WindowView,
    anchor: usize,
    node: usize,
    q: usize,
)
    requires
        window_wf(wold),
        wold.nodes.len() <= usize::MAX,
        (anchor as int) < wold.nodes.len(),
        (node as int) < wold.nodes.len(),
        node != 0,
        wold.nodes[anchor as int].parent == Some(q),
        wold.nodes[anchor as int].next_sibling is None,
        detached(wold.nodes[node as int]),
        wnew.nodes == wold.nodes.update(
            anchor as int,
            (NodeView { next_sibling: Some(node), ..wold.nodes[anchor as int] }),
        ).update(
            node as int,
            (NodeView {
                parent: Some(q),
                previous_sibling: Some(anchor),
                ..wold.nodes[node as int]
            }),
        ).update(q as int, (NodeView { last_child: Some(node), ..wold.nodes[q as int] })),
        wnew.children == wold.children.insert(
            q as int,
            wold.children[q as int].push(node as int),
        ),
    ensures
        window_wf(wnew),
{
    // the anchor's parent is a real node with a nonempty child list, so it is
    // neither the anchor itself nor the detached node
    assert(node_links_wf(wold, anchor as int));
    assert(sibling_chain_wf(wold, q as int));
    assert(wold.children[q as int].contains(anchor as int));
    assert(wold.children[q as int].len() > 0);
    assert(q != node);
    assert(q != anchor);
    let sold = wold.children[q as int];
    let snew = wnew.children[q as int];
    assert(snew =~= sold.push(node as int));
    // the anchor is the last member of its parent's old chain
    let ka = choose|ka: int| 0 <= ka < sold.len() && sold[ka] == anchor as int;
    assert(ka == sold.len() - 1) by {
        if ka < sold.len() - 1 {
            assert(wold.nodes[sold[ka]].next_sibling == Some(sold[ka + 1] as usize));
        }
    }
    assert forall|p: int| 0 <= p < wnew.nodes.len() implies #[trigger] sibling_chain_wf(
        wnew,
        p,
    ) by {
        assert(sibling_chain_wf(wold, p));
        let s = wold.children[p];
        // the detached node stands in no old chain
        assert forall|k: int| 0 <= k < s.len() implies s[k] != node as int by {
            assert(wold.nodes[s[k]].parent == Some(p as usize));
        }
        if p == q as int {
            assert forall|k: int| 0 <= k < snew.len() - 1 implies wnew.nodes[
                #[trigger] snew[k]
            ].next_sibling == Some(snew[k + 1] as usize) by {
                if k < sold.len() - 1 {
                    assert(sold[k] != anchor as int);
                }
            }
        } else {
            // the anchor stands only in its own parent's chain
            assert forall|k: int| 0 <= k < s.len() implies s[k] != anchor as int by {
                assert(wold.nodes[s[k]].parent == Some(p as usize));
            }
        }
    }
    assert forall|i: int| 0 <= i < wnew.nodes.len() implies #[trigger] node_links_wf(
        wnew,
        i,
    ) by {
        assert(node_links_wf(wold, i));
        if i == node as int {
            assert(snew[sold.len() as int] == i);
            assert(snew.contains(i));
        } else if wnew.nodes[i].parent is Some {
            let g = wnew.nodes[i].parent->0;
            assert(wold.children[g as int].contains(i));
            if g == q {
                assert(snew.contains(i)) by {
                    let k = choose|k: int| 0 <= k < sold.len() && sold[k] == i;
                    assert(snew[k] == i);
                }
            }
        }
    }
}

impl Window {
    /// The tree invariant, as carried by every window.
    pub open spec fn wf(&self) -> bool {
        window_wf(self@)
    }

    /// A fresh window owning a fresh document node. The document's owner
    /// back-reference is set from the window itself once the window exists,
    /// so it can never dangle.
    pub fn new() -> (w: Window)
        ensures
            w.wf(),
            w@.nodes.len() == 1,
            w@.nodes[0].kind is Document,
            w@.nodes[0].window == Some(0usize),
            detached(w@.nodes[0]),
            w@.children == Map::<int, Seq<int>>::empty().insert(0, Seq::<int>::empty()),
    {
        let mut document = Node::new(NodeKind::Document);
        let mut nodes: Vec<Node> = Vec::new();
        nodes.push(document);
        let mut w = Window {
            nodes,
            children: Ghost(Map::<int, Seq<int>>::empty().insert(0, Seq::<int>::empty())),
        };
        w.nodes[0].set_window(Some(0));
        proof {
            assert(w@.nodes.len() == 1);
            assert(sibling_chain_wf(w@, 0));
            assert(node_links_wf(w@, 0));
        }
        w
    }

    /// The arena index of the document node.
    pub fn document(&self) -> (r: usize)
        requires
            self.wf(),
        ensures
            r == 0usize,
            self@.nodes[r as int].kind is Document,
    {
        0
    }

    /// How many nodes this window owns.
    pub fn node_count(&self) -> (r: usize)
        ensures
            r == self@.nodes.len(),
    {
        self.nodes.len()
    }

    /// Read one node.
    pub fn node(&self, id: usize) -> (r: Option<&Node>)
        ensures
            (id as int) < self@.nodes.len() ==> (r matches Some(n) && n@ == self@.nodes[
                id as int
            ]),
            (id as int) >= self@.nodes.len() ==> r is None,
    {
        if id < self.nodes.len() {
            Some(&self.nodes[id])
        } else {
            None
        }
    }

    /// Allocate a new detached node for this document. It carries the same
    /// owner handle as the document node and no links.
    pub fn create(&mut self, kind: NodeKind) -> (id: usize)
        requires
            old(self).wf(),
        ensures
            final(self).wf(),
            id as int == old(self)@.nodes.len(),
            final(self)@.nodes.len() == old(self)@.nodes.len() + 1,
            forall|j: int| 0 <= j < old(self)@.nodes.len() ==> final(self)@.nodes[j] == old(
                self,
            )@.nodes[j],
            final(self)@.nodes[id as int].kind == kind@,
            final(self)@.nodes[id as int].window == old(self)@.nodes[0].window,
            detached(final(self)@.nodes[id as int]),
            final(self)@.children == old(self)@.children.insert(id as int, Seq::<int>::empty()),
    {
        let id = self.nodes.len();
        let mut n = Node::new(kind);
        n.set_window(self.nodes[0].window);
        self.nodes.push(n);
        self.children = Ghost(self.children@.insert(id as int, Seq::<int>::empty()));
        proof {
            let wold = old(self)@;
            let wnew = self@;
            assert(wnew.nodes =~= wold.nodes.push(wnew.nodes[id as int]));
            assert forall|p: int| 0 <= p < wnew.nodes.len() implies #[trigger] sibling_chain_wf(
                wnew,
                p,
            ) by {
                if p < id {
                    assert(sibling_chain_wf(wold, p));
                }
            }
            assert forall|i: int| 0 <= i < wnew.nodes.len() implies #[trigger] node_links_wf(
                wnew,
                i,
            ) by {
                if i < id {
                    assert(node_links_wf(wold, i));
                }
            }
        }
        id
    }

    /// Make `child` the first (and only) child of `parent`. Refused, with the
    /// tree untouched, unless `parent` has no child yet and `child` is a
    /// detached non-root node of this document.
    pub fn link_as_first_child(&mut self, parent: usize, child: usize) -> (r: Result<
        (),
        DomError,
    >)
        requires
            old(self).wf(),
        ensures
            final(self).wf(),
            match link_first_child_check(old(self)@, parent, child) {
                Some(e) => r == Err::<(), DomError>(e) && final(self)@ == old(self)@,
                None => r == Ok::<(), DomError>(()) && final(self)@.nodes == old(self)@.nodes.update(
                    parent as int,
                    (NodeView {
                        first_child: Some(child),
                        last_child: Some(child),
                        ..old(self)@.nodes[parent as int]
                    }),
                ).update(
                    child as int,
                    (NodeView { parent: Some(parent), ..old(self)@.nodes[child as int] }),
                ) && final(self)@.children == old(self)@.children.insert(
                    parent as int,
                    seq![child as int],
                ),
            },
    {
        if parent >= self.nodes.len() || child >= self.nodes.len() {
            return Err(DomError::UnknownNode);
        }
        if child == 0 {
            return Err(DomError::DocumentNode);
        }
        if parent == child {
            return Err(DomError::SelfLink);
        }
        if self.nodes[parent].first_child.is_some() {
            return Err(DomError::FirstChildPresent);
        }
        if self.nodes[child].parent.is_some() || self.nodes[child].previous_sibling.is_some()
            || self.nodes[child].next_sibling.is_some() || self.nodes[child].first_child.is_some()
            || self.nodes[child].last_child.is_some() {
            return Err(DomError::NotDetached);
        }
        self.nodes[parent].set_first_child(Some(child));
        self.nodes[parent].set_last_child(Some(child));
        self.nodes[child].set_parent(Some(parent));
        self.children = Ghost(self.children@.insert(parent as int, seq![child as int]));
        proof {
            let wold = old(self)@;
            let wnew = self@;
            let pv = wold.nodes[parent as int];
            let cv = wold.nodes[child as int];
            assert(wnew.nodes =~= wold.nodes.update(
                parent as int,
                (NodeView { first_child: Some(child), last_child: Some(child), ..pv }),
            ).update(child as int, (NodeView { parent: Some(parent), ..cv })));
            assert forall|p: int| 0 <= p < wnew.nodes.len() implies #[trigger] sibling_chain_wf(
                wnew,
                p,
            ) by {
                assert(sibling_chain_wf(wold, p));
                assert(node_links_wf(wold, child as int));
                if p == parent as int {
                    assert(wnew.children[p] =~= seq![child as int]);
                } else {
                    // the old chain of p contains neither `parent`'s changed
                    // sibling links (none changed) nor `child` (it was
                    // detached, so it has no parent and stands in no chain)
                    let s = wold.children[p];
                    assert forall|k: int| 0 <= k < s.len() implies wnew.nodes[#[trigger] s[k]]
                        != wnew.nodes[child as int] || s[k] != child as int by {}
                    assert forall|k: int| 0 <= k < s.len() implies s[k] != child as int by {
                        assert(wold.nodes[s[k]].parent == Some(p as usize));
                    }
                }
            }
            assert forall|i: int| 0 <= i < wnew.nodes.len() implies #[trigger] node_links_wf(
                wnew,
                i,
            ) by {
                assert(node_links_wf(wold, i));
                if i == child as int {
                    assert(wnew.children[parent as int][0] == i);
                    assert(wnew.children[parent as int].contains(i));
                } else if wnew.nodes[i].parent is Some {
                    let q = wnew.nodes[i].parent->0;
                    assert(wold.children[q as int].contains(i));
                    if q as int == parent as int {
                        // the parent had no child yet, so its old chain was
                        // empty and nothing could have had it as parent
                        assert(sibling_chain_wf(wold, q as int));
                        assert(wold.children[q as int].len() == 0);
                        assert(false);
                    }
                }
            }
        }
        Ok(())
    }

    /// Append `node` directly after `anchor` in its parent's child list.
    /// Constant-time: the anchor must be the current last child, and the
    /// parent's `last_child` cache moves to the new node. Refused, with the
    /// tree untouched, unless `node` is a detached non-root node of this
    /// document.
    #[verifier::rlimit(100)]
    pub fn append_sibling(&mut self, anchor: usize, node: usize) -> (r: Result<(), DomError>)
        requires
            old(self).wf(),
        ensures
            final(self).wf(),
            match append_sibling_check(old(self)@, anchor, node) {
                Some(e) => r == Err::<(), DomError>(e) && final(self)@ == old(self)@,
                None => r == Ok::<(), DomError>(()) && ({
                    let q = old(self)@.nodes[anchor as int].parent->0;
                    &&& final(self)@.nodes == old(self)@.nodes.update(
                        anchor as int,
                        (NodeView {
                            next_sibling: Some(node),
                            ..old(self)@.nodes[anchor as int]
                        }),
                    ).update(
                        node as int,
                        (NodeView {
                            parent: Some(q),
                            previous_sibling: Some(anchor),
                            ..old(self)@.nodes[node as int]
                        }),
                    ).update(
                        q as int,
                        (NodeView { last_child: Some(node), ..old(self)@.nodes[q as int] }),
                    )
                    &&& final(self)@.children == old(self)@.children.insert(
                        q as int,
                        old(self)@.children[q as int].push(node as int),
                    )
                }),
            },
    {
        if anchor >= self.nodes.len() || node >= self.nodes.len() {
            return Err(DomError::UnknownNode);
        }
        if node == 0 {
            return Err(DomError::DocumentNode);
        }
        let q = match self.nodes[anchor].parent {
            Some(q) => q,
            None => {
                return Err(DomError::AnchorDetached);
            },
        };
        if self.nodes[anchor].next_sibling.is_some() {
            return Err(DomError::AnchorNotLast);
        }
        if self.nodes[node].parent.is_some() || self.nodes[node].previous_sibling.is_some()
            || self.nodes[node].next_sibling.is_some() || self.nodes[node].first_child.is_some()
            || self.nodes[node].last_child.is_some() {
            return Err(DomError::NotDetached);
        }
        proof {
            // the anchor's parent is a real node with a nonempty child list,
            // so it is neither the anchor itself nor the detached node
            assert(node_links_wf(old(self)@, anchor as int));
            assert(sibling_chain_wf(old(self)@, q as int));
            assert(old(self)@.children[q as int].contains(anchor as int));
            assert(old(self)@.children[q as int].len() > 0);
            assert(q != node);
            assert(q != anchor);
        }
        self.nodes[anchor].set_next_sibling(Some(node));
        self.nodes[node].set_previous_sibling(Some(anchor));
        self.nodes[node].set_parent(Some(q));
        self.nodes[q].set_last_child(Some(node));
        self.children = Ghost(
            self.children@.insert(q as int, self.children@[q as int].push(node as int)),
        );
        proof {
            let wold = old(self)@;
            let wnew = self@;
            assert(wnew.nodes =~= wold.nodes.update(
                anchor as int,
                (NodeView { next_sibling: Some(node), ..wold.nodes[anchor as int] }),
            ).update(
                node as int,
                (NodeView {
                    parent: Some(q),
                    previous_sibling: Some(anchor),
                    ..wold.nodes[node as int]
                }),
            ).update(q as int, (NodeView { last_child: Some(node), ..wold.nodes[q as int] })));
            assert(wold.nodes.len() <= usize::MAX);
            lemma_append_keeps_wf(wold, wnew, anchor, node, q);
        }
        Ok(())
    }

    /// The parent of `id`, if any.
    pub fn parent_of(&self, id: usize) -> (r: Option<usize>)
        ensures
            r == (if (id as int) < self@.nodes.len() {
                self@.nodes[id as int].parent
            } else {
                None::<usize>
            }),
    {
        if id < self.nodes.len() {
            self.nodes[id].parent
        } else {
            None
        }
    }

    /// The first child of `id`, if any.
    pub fn first_child_of(&self, id: usize) -> (r: Option<usize>)
        ensures
            r == (if (id as int) < self@.nodes.len() {
                self@.nodes[id as int].first_child
            } else {
                None::<usize>
            }),
    {
        if id < self.nodes.len() {
            self.nodes[id].first_child
        } else {
            None
        }
    }

    /// The next sibling of `id`, if any.
    pub fn next_sibling_of(&self, id: usize) -> (r: Option<usize>)
        ensures
            r == (if (id as int) < self@.nodes.len() {
                self@.nodes[id as int].next_sibling
            } else {
                None::<usize>
            }),
    {
        if id < self.nodes.len() {
            self.nodes[id].next_sibling
        } else {
            None
        }
    }

    /// The previous sibling of `id`, if any.
    pub fn previous_sibling_of(&self, id: usize) -> (r: Option<usize>)
        ensures
            r == (if (id as int) < self@.nodes.len() {
                self@.nodes[id as int].previous_sibling
            } else {
                None::<usize>
            }),
    {
        if id < self.nodes.len() {
            self.nodes[id].previous_sibling
        } else {
            None
        }
    }

    /// The owner handle of `id`, if any. Reading a back-reference never
    /// panics; an absent owner is an absent result.
    pub fn owning_window_of(&self, id: usize) -> (r: Option<usize>)
        ensures
            r == (if (id as int) < self@.nodes.len() {
                self@.nodes[id as int].window
            } else {
                None::<usize>
            }),
    {
        if id < self.nodes.len() {
            self.nodes[id].window
        } else {
            None
        }
    }

    /// The element payload of `id`: present exactly when `id` names an
    /// element node.
    pub fn element_view(&self, id: usize) -> (r: Option<Element>)
        ensures
            ((id as int) < self@.nodes.len() && self@.nodes[id as int].kind matches
            NodeKindView::Element(ev)) ==> (r matches Some(e) && e@ == self@.nodes[
                id as int
            ].kind->Element_0),
            ((id as int) >= self@.nodes.len() || !(self@.nodes[id as int].kind matches
            NodeKindView::Element(ev))) ==> r is None,
    {
        if id < self.nodes.len() {
            self.nodes[id].get_element()
        } else {
            None
        }
    }

    /// All children of `parent`, walked forward from `first_child` through
    /// `next_sibling`: exactly the child list, in order.
    pub fn children_forward(&self, parent: usize) -> (r: Vec<usize>)
        requires
            self.wf(),
            (parent as int) < self@.nodes.len(),
        ensures
            r@.len() == self@.children[parent as int].len(),
            forall|k: int| 0 <= k < r@.len() ==> r@[k] as int == self@.children[parent as int][k],
    {
        let ghost s = self@.children[parent as int];
        proof {
            assert(sibling_chain_wf(self@, parent as int));
        }
        let n = self.nodes.len();
        let mut r: Vec<usize> = Vec::new();
        let mut cur: Option<usize> = self.nodes[parent].first_child;
        while cur.is_some()
            invariant
                self.wf(),
                (parent as int) < self@.nodes.len(),
                n == self@.nodes.len(),
                s == self@.children[parent as int],
                sibling_chain_wf(self@, parent as int),
                r@.len() <= s.len(),
                forall|k: int| 0 <= k < r@.len() ==> r@[k] as int == s[k],
                r@.len() < s.len() ==> cur == Some(s[r@.len() as int] as usize),
                r@.len() == s.len() ==> cur is None,
            decreases s.len() - r@.len(),
        {
            let ghost k = r@.len() as int;
            let c = cur.unwrap();
            proof {
                assert(0 <= s[k] < n as int);
                assert(s[k] == c as int);
                if k + 1 < s.len() {
                    assert(self@.nodes[s[k]].next_sibling == Some(s[k + 1] as usize));
                } else {
                    assert(self@.nodes[s[k]].next_sibling is None);
                }
            }
            r.push(c);
            cur = self.nodes[c].next_sibling;
        }
        r
    }

    /// All children of `parent`, walked backward from `last_child` through
    /// `previous_sibling`: exactly the child list, reversed.
    pub fn children_backward(&self, parent: usize) -> (r: Vec<usize>)
        requires
            self.wf(),
            (parent as int) < self@.nodes.len(),
        ensures
            r@.len() == self@.children[parent as int].len(),
            forall|k: int| 0 <= k < r@.len() ==> r@[k] as int == self@.children[parent as int][
                self@.children[parent as int].len() - 1 - k
            ],
    {
        let ghost s = self@.children[parent as int];
        proof {
            assert(sibling_chain_wf(self@, parent as int));
        }
        let n = self.nodes.len();
        let mut r: Vec<usize> = Vec::new();
        let mut cur: Option<usize> = self.nodes[parent].last_child;
        while cur.is_some()
            invariant
                self.wf(),
                (parent as int) < self@.nodes.len(),
                n == self@.nodes.len(),
                s == self@.children[parent as int],
                sibling_chain_wf(self@, parent as int),
                r@.len() <= s.len(),
                forall|k: int| 0 <= k < r@.len() ==> r@[k] as int == s[s.len() - 1 - k],
                r@.len() < s.len() ==> cur == Some(s[s.len() - 1 - r@.len()] as usize),
                r@.len() == s.len() ==> cur is None,
            decreases s.len() - r@.len(),
        {
            let ghost k = s.len() - 1 - r@.len();
            let c = cur.unwrap();
            proof {
                assert(0 <= s[k] < n as int);
                assert(s[k] == c as int);
                if k >= 1 {
                    assert(self@.nodes[s[k]].previous_sibling == Some(s[k - 1] as usize));
                } else {
                    assert(self@.nodes[s[k]].previous_sibling is None);
                }
            }
            r.push(c);
            cur = self.nodes[c].previous_sibling;
        }
        r
    }
}

/// Every non-root node of a well-formed tree is re-found through its parent:
/// following `parent` and then searching that parent's child list finds the
/// node at exactly one position - no duplication, no loss.
pub proof fn lemma_parent_child_roundtrip(w: &Window, i: usize)
    requires
        w.wf(),
        (i as int) < w@.nodes.len(),
        w@.nodes[i as int].parent is Some,
    ensures
        ({
            let p = w@.nodes[i as int].parent->0;
            let s = w@.children[p as int];
            &&& exists|k: int| 0 <= k < s.len() && s[k] == i as int
            &&& forall|k1: int, k2: int|
                (0 <= k1 < s.len() && 0 <= k2 < s.len() && s[k1] == i as int && s[k2]
                    == i as int) ==> k1 == k2
        }),
{
    let p = w@.nodes[i as int].parent->0;
    assert(node_links_wf(w@, i as int));
    assert(sibling_chain_wf(w@, p as int));
    let s = w@.children[p as int];
    assert(s.contains(i as int));
}

} // verus!
