//! The accessibility projection of the document: a role per element, focus
//! traps on dialogs, and labels from declared content or, for a button without
//! one, from the text elements beneath it.
use vstd::prelude::*;
use vstd::string::StringExecFns;
use crate::value::{owned, str_eq};
use crate::document::{opt_str, DesignerElement, ElementModel, ProjectState};

verus! {

#[derive(Clone, Copy, Debug, PartialEq, Eq, Structural)]
pub enum AriaRole {
    Button,
    Heading,
    Img,
    Group,
    Text,
    Link,
    Input,
    Dialog,
}

/// One node of the accessibility tree.
#[derive(Debug)]
pub struct A11yNode {
    pub id: String,
    pub role: AriaRole,
    pub label: Option<String>,
    pub description: Option<String>,
    pub children: Vec<A11yNode>,
    pub layout_id: String,
    pub focus_trap: bool,
}

/// What `str::trim` makes of a text.
pub uninterp spec fn trimmed_of(s: Seq<char>) -> Seq<char>;

/// Relies on `str::trim`: the text without leading and trailing white space;
/// an empty text stays empty.
#[verifier::external_body]
fn trim_text(s: &str) -> (r: String)
    ensures
        r@ == trimmed_of(s@),
        s@.len() == 0 ==> r@.len() == 0,
{
    s.trim().to_string()
}

/// The role an element type maps to.
pub open spec fn role_of(t: Seq<char>) -> AriaRole {
    if t == "button"@ {
        AriaRole::Button
    } else if t == "modal"@ || t == "dialog"@ {
        AriaRole::Dialog
    } else if t == "text"@ {
        AriaRole::Text
    } else if t == "image"@ {
        AriaRole::Img
    } else if t == "input"@ {
        AriaRole::Input
    } else if t == "heading"@ {
        AriaRole::Heading
    } else if t == "link"@ {
        AriaRole::Link
    } else {
        AriaRole::Group
    }
}

/// The label an element declares: its content, else a stand-in for images and
/// text elements.
pub open spec fn declared_label(e: ElementModel) -> Option<Seq<char>> {
    match e.content {
        Some(c) => Some(c),
        None => if e.element_type == "image"@ {
            Some("Image"@)
        } else if e.element_type == "text"@ {
            Some("Content"@)
        } else {
            None
        },
    }
}

/// The text a node contributes to an enclosing button's label.
pub open spec fn own_text(n: A11yNode) -> Seq<Seq<char>> {
    if n.role == AriaRole::Text && n.label is Some {
        seq![n.label->0@]
    } else {
        Seq::empty()
    }
}

/// The texts of a list of nodes and their descendants, `fuel` levels down.
pub open spec fn list_texts(cs: Seq<A11yNode>, fuel: nat) -> Seq<Seq<char>>
    decreases fuel, cs.len(),
{
    if cs.len() == 0 {
        Seq::empty()
    } else {
        list_texts(cs.drop_last(), fuel) + node_texts(cs.last(), fuel)
    }
}

/// The texts of a node and its descendants, `fuel` levels down.
pub open spec fn node_texts(n: A11yNode, fuel: nat) -> Seq<Seq<char>>
    decreases fuel, 0int,
{
    if fuel == 0 {
        own_text(n)
    } else {
        own_text(n) + list_texts(n.children@, (fuel - 1) as nat)
    }
}

/// Texts each followed by one space.
pub open spec fn spaced(ts: Seq<Seq<char>>) -> Seq<char>
    decreases ts.len(),
{
    if ts.len() == 0 {
        Seq::empty()
    } else {
        spaced(ts.drop_last()) + ts.last() + " "@
    }
}

/// The label of an element whose children project to `texts`.
pub open spec fn label_of(e: ElementModel, texts: Seq<Seq<char>>) -> Option<Seq<char>> {
    match declared_label(e) {
        Some(l) => Some(l),
        None => if role_of(e.element_type) == AriaRole::Button && spaced(texts).len() > 0 {
            Some(trimmed_of(spaced(texts)))
        } else {
            None
        },
    }
}

/// The existing children of an element, in order.
pub open spec fn existing_children(t: crate::document::ElementTable, e: ElementModel) -> Seq<Seq<char>> {
    crate::document::child_ids(e).filter(|c: Seq<char>| t.contains_key(c))
}

/// A projected node is faithful to element `id` of the document.
pub open spec fn projected(t: crate::document::ElementTable, id: Seq<char>, n: A11yNode, depth: nat) -> bool {
    let e = t[id];
    &&& n.id@ == "a11y_"@ + id
    &&& n.layout_id@ == id
    &&& n.role == role_of(e.element_type)
    &&& n.focus_trap == (role_of(e.element_type) == AriaRole::Dialog)
    &&& n.description is None
    &&& opt_str(n.label) == label_of(e, if depth == 0 { Seq::empty() } else { list_texts(n.children@, (depth - 1) as nat) })
    &&& depth > 0 ==> n.children@.map_values(|c: A11yNode| c.layout_id@) == existing_children(t, e)
    &&& depth == 0 ==> n.children@.len() == 0
}

/// The node and every node below it are faithful to the document.
pub open spec fn projected_tree(t: crate::document::ElementTable, id: Seq<char>, n: A11yNode, depth: nat) -> bool
    decreases depth,
{
    &&& projected(t, id, n, depth)
    &&& depth > 0 ==> forall|k: int|
        0 <= k < n.children@.len() ==> projected_tree(
            t,
            (#[trigger] n.children@[k]).layout_id@,
            n.children@[k],
            (depth - 1) as nat,
        )
}

fn role_for(t: &str) -> (r: AriaRole)
    ensures
        r == role_of(t@),
{
    if str_eq(t, "button") {
        AriaRole::Button
    } else if str_eq(t, "modal") || str_eq(t, "dialog") {
        AriaRole::Dialog
    } else if str_eq(t, "text") {
        AriaRole::Text
    } else if str_eq(t, "image") {
        AriaRole::Img
    } else if str_eq(t, "input") {
        AriaRole::Input
    } else if str_eq(t, "heading") {
        AriaRole::Heading
    } else if str_eq(t, "link") {
        AriaRole::Link
    } else {
        AriaRole::Group
    }
}

/// The generator of the accessibility tree.
pub struct TreeGenerator;

impl TreeGenerator {
    /// The label an element declares.
    pub fn derive_label(el: &DesignerElement) -> (r: Option<String>)
        ensures
            opt_str(r) == declared_label(el@),
    {
        match &el.content {
            Some(c) => Some(c.clone()),
            None => if str_eq(el.element_type.as_str(), "image") {
                Some(owned("Image"))
            } else if str_eq(el.element_type.as_str(), "text") {
                Some(owned("Content"))
            } else {
                None
            },
        }
    }

    /// Projects element `id` and, `depth` levels down, its existing children.
    pub fn build_node(state: &ProjectState, id: &str, depth: usize) -> (r: A11yNode)
        requires
            state.wf(),
            state.elements@.contains_key(id@),
        ensures
            projected_tree(state.elements@, id@, r, depth as nat),
    {
        build_with_texts(state, id, depth).0
    }

    /// The accessibility tree from the element "root".
    pub fn generate(state: &ProjectState) -> (r: Result<A11yNode, String>)
        requires
            state.wf(),
        ensures
            r is Ok <==> state.elements@.contains_key("root"@),
            r matches Ok(n) ==> projected_tree(state.elements@, "root"@, n, state.elements.entries@.len() as nat),
            r matches Err(m) ==> m@ == "Root element not found"@,
    {
        if state.elements.find("root").is_none() {
            return Err(owned("Root element not found"));
        }
        let depth = state.elements.len();
        Ok(TreeGenerator::build_node(state, "root", depth))
    }
}

proof fn lemma_spaced_concat(a: Seq<Seq<char>>, b: Seq<Seq<char>>)
    ensures
        spaced(a + b) == spaced(a) + spaced(b),
    decreases b.len(),
{
    if b.len() == 0 {
        assert(a + b =~= a);
        assert(spaced(a) + spaced(b) =~= spaced(a));
    } else {
        lemma_spaced_concat(a, b.drop_last());
        assert((a + b).drop_last() =~= a + b.drop_last());
        assert((a + b).last() == b.last());
        assert(spaced(a + b) =~= spaced(a) + spaced(b));
    }
}

fn build_with_texts(state: &ProjectState, id: &str, depth: usize) -> (r: (A11yNode, String))
    requires
        state.wf(),
        state.elements@.contains_key(id@),
    ensures
        projected_tree(state.elements@, id@, r.0, depth as nat),
        r.1@ == spaced(node_texts(r.0, depth as nat)),
    decreases depth,
{
    let ghost t = state.elements@;
    let el = state.elements.get(id).unwrap();
    let role = role_for(el.element_type.as_str());
    let mut children: Vec<A11yNode> = Vec::new();
    let mut text = String::new();
    proof {
        reveal(Seq::filter);
        assert(children@.map_values(|c: A11yNode| c.layout_id@) =~= Seq::<Seq<char>>::empty());
        assert(text@ == spaced(Seq::empty()));
    }
    if depth > 0 {
        if let Some(ch) = &el.children {
            let ghost sv = crate::document::strings_view(ch@);
            let ghost fuel = (depth - 1) as nat;
            let mut i: usize = 0;
            proof {
                assert(sv.subrange(0, 0) =~= Seq::<Seq<char>>::empty());
            }
            while i < ch.len()
                invariant
                    state.wf(),
                    t == state.elements@,
                    depth > 0,
                    fuel == depth - 1,
                    sv == crate::document::strings_view(ch@),
                    i <= ch@.len(),
                    forall|k: int| 0 <= k < children@.len() ==> projected_tree(t, (#[trigger] children@[k]).layout_id@, children@[k], fuel),
                    children@.map_values(|c: A11yNode| c.layout_id@) == sv.subrange(0, i as int).filter(
                        |c: Seq<char>| t.contains_key(c),
                    ),
                    text@ == spaced(list_texts(children@, fuel)),
                decreases ch@.len() - i,
            {
                proof {
                    assert(sv.subrange(0, i + 1) =~= sv.subrange(0, i as int).push(sv[i as int]));
                    sv.subrange(0, i as int).lemma_filter_push(sv[i as int], |c: Seq<char>| t.contains_key(c));
                }
                let c = ch[i].as_str();
                if state.elements.find(c).is_some() {
                    let (node, sub) = build_with_texts(state, c, depth - 1);
                    let ghost before = children@;
                    text.append(sub.as_str());
                    children.push(node);
                    proof {
                        assert(children@.drop_last() =~= before);
                        assert(children@.map_values(|c: A11yNode| c.layout_id@) =~= before.map_values(
                            |c: A11yNode| c.layout_id@,
                        ).push(c@));
                        assert(list_texts(children@, fuel) == list_texts(before, fuel) + node_texts(children@.last(), fuel));
                        lemma_spaced_concat(list_texts(before, fuel), node_texts(children@.last(), fuel));
                    }
                }
                i = i + 1;
            }
            proof {
                assert(sv.subrange(0, ch@.len() as int) =~= sv);
            }
        }
    }
    let label = match TreeGenerator::derive_label(el) {
        Some(l) => Some(l),
        None => if role == AriaRole::Button && text.unicode_len() > 0 {
            Some(trim_text(text.as_str()))
        } else {
            None
        },
    };
    let mut nid = owned("a11y_");
    nid.append(id);
    let mut all = String::new();
    if role == AriaRole::Text {
        if let Some(l) = &label {
            all.append(l.as_str());
            all.append(" ");
        }
    }
    let ghost own_len = all@.len();
    all.append(text.as_str());
    let node = A11yNode {
        id: nid,
        role,
        label,
        description: None,
        children,
        layout_id: owned(id),
        focus_trap: role == AriaRole::Dialog,
    };
    proof {
        let kids = node.children@;
        if depth == 0 {
            assert(kids.len() == 0);
            assert(list_texts(kids, 0) =~= Seq::<Seq<char>>::empty());
        }
        let below = if depth == 0 { Seq::<Seq<char>>::empty() } else { list_texts(kids, (depth - 1) as nat) };
        assert(text@ == spaced(below)) by {
            if depth == 0 {
                assert(spaced(Seq::<Seq<char>>::empty()) =~= Seq::<char>::empty());
            }
        }
        lemma_spaced_concat(own_text(node), below);
        if own_text(node).len() == 1 {
            assert(own_text(node).drop_last() =~= Seq::<Seq<char>>::empty());
        }
        assert(spaced(own_text(node)) == all@.subrange(0, own_len as int)) by {
            if own_text(node).len() == 0 {
                assert(spaced(own_text(node)) =~= Seq::<char>::empty());
            }
        }
        assert(all@ =~= spaced(own_text(node)) + spaced(below));
        if depth == 0 {
            assert(own_text(node) + below =~= own_text(node));
        }
    }
    (node, all)
}

} // verus!
