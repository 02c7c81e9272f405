//! The document tree and the command protocol that mutates it.
use vstd::prelude::*;
use crate::value::{owned, str_eq, Keyed, PropMap, Replicate, Value, ValueModel};

verus! {

/// One element of the document tree.
#[derive(Debug)]
pub struct DesignerElement {
    pub id: String,
    pub element_type: String,
    pub parent_id: Option<String>,
    pub children: Option<Vec<String>>,
    pub styles: Option<PropMap>,
    pub tablet_styles: Option<PropMap>,
    pub mobile_styles: Option<PropMap>,
    pub layout_mode: Option<String>,
    pub blueprint_id: Option<String>,
    pub variable_bindings: Option<Keyed<String>>,
    pub name: Option<String>,
    pub content: Option<String>,
    pub props: PropMap,
}

/// The mathematical model of a `DesignerElement`.
pub struct ElementModel {
    pub id: Seq<char>,
    pub element_type: Seq<char>,
    pub parent_id: Option<Seq<char>>,
    pub children: Option<Seq<Seq<char>>>,
    pub styles: Option<Map<Seq<char>, ValueModel>>,
    pub tablet_styles: Option<Map<Seq<char>, ValueModel>>,
    pub mobile_styles: Option<Map<Seq<char>, ValueModel>>,
    pub layout_mode: Option<Seq<char>>,
    pub blueprint_id: Option<Seq<char>>,
    pub variable_bindings: Option<Map<Seq<char>, Seq<char>>>,
    pub name: Option<Seq<char>>,
    pub content: Option<Seq<char>>,
    pub props: Map<Seq<char>, ValueModel>,
}

pub open spec fn strings_view(v: Seq<String>) -> Seq<Seq<char>> {
    v.map_values(|s: String| s@)
}

pub open spec fn opt_str(o: Option<String>) -> Option<Seq<char>> {
    match o {
        Some(s) => Some(s@),
        None => None,
    }
}

pub open spec fn opt_map<V: View>(o: Option<Keyed<V>>) -> Option<Map<Seq<char>, V::V>> {
    match o {
        Some(m) => Some(m@),
        None => None,
    }
}

pub open spec fn opt_map_wf(m: Option<PropMap>) -> bool {
    m matches Some(p) ==> p.wf()
}

impl View for DesignerElement {
    type V = ElementModel;

    open spec fn view(&self) -> ElementModel {
        ElementModel {
            id: self.id@,
            element_type: self.element_type@,
            parent_id: opt_str(self.parent_id),
            children: match self.children {
                Some(v) => Some(strings_view(v@)),
                None => None,
            },
            styles: opt_map(self.styles),
            tablet_styles: opt_map(self.tablet_styles),
            mobile_styles: opt_map(self.mobile_styles),
            layout_mode: opt_str(self.layout_mode),
            blueprint_id: opt_str(self.blueprint_id),
            variable_bindings: opt_map(self.variable_bindings),
            name: opt_str(self.name),
            content: opt_str(self.content),
            props: self.props@,
        }
    }
}

/// A copy of a list of strings.
pub fn copy_strings(v: &Vec<String>) -> (r: Vec<String>)
    ensures
        r@ == v@,
{
    let mut out: Vec<String> = Vec::new();
    let mut i: usize = 0;
    while i < v.len()
        invariant
            i <= v@.len(),
            out@ == v@.subrange(0, i as int),
        decreases v@.len() - i,
    {
        out.push(v[i].clone());
        i = i + 1;
        assert(out@ =~= v@.subrange(0, i as int));
    }
    assert(v@.subrange(0, v@.len() as int) =~= v@);
    out
}

/// A copy of an optional string.
pub fn copy_opt_string(o: &Option<String>) -> (r: Option<String>)
    ensures
        opt_str(r) == opt_str(*o),
{
    match o {
        Some(s) => Some(s.clone()),
        None => None,
    }
}

fn copy_opt_map(o: &Option<PropMap>) -> (r: Option<PropMap>)
    requires
        opt_map_wf(*o),
    ensures
        opt_map(r) == opt_map(*o),
        opt_map_wf(r),
{
    match o {
        Some(m) => Some(m.duplicate()),
        None => None,
    }
}

impl Replicate for DesignerElement {
    open spec fn valid(&self) -> bool {
        &&& opt_map_wf(self.styles)
        &&& opt_map_wf(self.tablet_styles)
        &&& opt_map_wf(self.mobile_styles)
        &&& self.props.wf()
        &&& (self.variable_bindings matches Some(b) ==> b.wf())
    }

    fn replicate(&self) -> (r: DesignerElement) {
        let children = match &self.children {
            Some(v) => Some(copy_strings(v)),
            None => None,
        };
        let variable_bindings = match &self.variable_bindings {
            Some(b) => Some(b.duplicate()),
            None => None,
        };
        DesignerElement {
            id: self.id.clone(),
            element_type: self.element_type.clone(),
            parent_id: copy_opt_string(&self.parent_id),
            children,
            styles: copy_opt_map(&self.styles),
            tablet_styles: copy_opt_map(&self.tablet_styles),
            mobile_styles: copy_opt_map(&self.mobile_styles),
            layout_mode: copy_opt_string(&self.layout_mode),
            blueprint_id: copy_opt_string(&self.blueprint_id),
            variable_bindings,
            name: copy_opt_string(&self.name),
            content: copy_opt_string(&self.content),
            props: self.props.duplicate(),
        }
    }
}

/// The element table of a document, keyed by id.
pub type ElementTable = Map<Seq<char>, ElementModel>;

/// The child ids that an element lists; none when it has no list.
pub open spec fn child_ids(e: ElementModel) -> Seq<Seq<char>> {
    match e.children {
        Some(c) => c,
        None => Seq::empty(),
    }
}

/// `p` lists `c` among its children and both exist.
pub open spec fn has_edge(t: ElementTable, p: Seq<char>, c: Seq<char>) -> bool {
    &&& t.contains_key(p)
    &&& t.contains_key(c)
    &&& child_ids(t[p]).contains(c)
}

/// `rank` grows strictly along every child edge.
pub open spec fn ranked(t: ElementTable, rank: spec_fn(Seq<char>) -> int) -> bool {
    forall|p: Seq<char>, c: Seq<char>| #[trigger] has_edge(t, p, c) ==> rank(c) > rank(p)
}

/// The child relation has no cycle: some rank grows strictly along every edge.
pub open spec fn acyclic(t: ElementTable) -> bool {
    exists|rank: spec_fn(Seq<char>) -> int| #[trigger] ranked(t, rank)
}

/// A well-formed tree: each element is stored under its own id, every listed
/// child exists, and a listed child names its lister as parent.
pub open spec fn tree_wf(t: ElementTable) -> bool {
    &&& forall|k: Seq<char>| #[trigger] t.contains_key(k) ==> t[k].id == k
    &&& forall|p: Seq<char>, i: int|
        t.contains_key(p) && 0 <= i < child_ids(t[p]).len() ==> t.contains_key(
            #[trigger] child_ids(t[p])[i],
        ) && t[child_ids(t[p])[i]].parent_id == Some(p)
}

/// A path along child edges.
pub open spec fn is_path(t: ElementTable, path: Seq<Seq<char>>) -> bool {
    &&& path.len() >= 1
    &&& t.contains_key(path[0])
    &&& forall|i: int| 0 <= i < path.len() - 1 ==> #[trigger] has_edge(t, path[i], path[i + 1])
}

/// `to` can be reached from `from` along child edges.
pub open spec fn reachable(t: ElementTable, from: Seq<char>, to: Seq<char>) -> bool {
    exists|path: Seq<Seq<char>>|
        #[trigger] is_path(t, path) && path[0] == from && path[path.len() - 1] == to
}

/// `x` occurs in `s` exactly once.
pub open spec fn occurs_once(s: Seq<Seq<char>>, x: Seq<char>) -> bool {
    exists|i: int|
        0 <= i < s.len() && s[i] == x && forall|j: int| 0 <= j < s.len() && #[trigger] s[j] == x ==> j == i
}


pub open spec fn text_or(v: ValueModel, d: Seq<char>) -> Seq<char> {
    match v {
        ValueModel::Text(s) => s,
        _ => d,
    }
}

pub open spec fn or_empty(m: Option<Map<Seq<char>, ValueModel>>) -> Map<Seq<char>, ValueModel> {
    match m {
        Some(m) => m,
        None => Map::empty(),
    }
}

/// The element after `upd` is merged into the style map that `view` selects.
pub open spec fn with_styles(
    e: ElementModel,
    view: Seq<char>,
    upd: Map<Seq<char>, ValueModel>,
) -> ElementModel {
    if view == "mobile"@ {
        ElementModel { mobile_styles: Some(or_empty(e.mobile_styles).union_prefer_right(upd)), ..e }
    } else if view == "tablet"@ {
        ElementModel { tablet_styles: Some(or_empty(e.tablet_styles).union_prefer_right(upd)), ..e }
    } else {
        ElementModel { styles: Some(or_empty(e.styles).union_prefer_right(upd)), ..e }
    }
}

/// The element after the named field or free-form property `prop` is set.
pub open spec fn with_prop(e: ElementModel, prop: Seq<char>, v: ValueModel) -> ElementModel {
    if prop == "content"@ {
        ElementModel { content: Some(text_or(v, Seq::empty())), ..e }
    } else if prop == "name"@ {
        ElementModel { name: Some(text_or(v, Seq::empty())), ..e }
    } else if prop == "layoutMode"@ {
        ElementModel { layout_mode: Some(text_or(v, "safety"@)), ..e }
    } else {
        ElementModel { props: e.props.insert(prop, v), ..e }
    }
}

/// A child list after `x` is placed at `index`, or appended when the index is
/// absent or past the end.
pub open spec fn insert_child(l: Seq<Seq<char>>, x: Seq<char>, index: Option<u64>) -> Seq<
    Seq<char>,
> {
    match index {
        Some(i) => if i <= l.len() {
            l.insert(i as int, x)
        } else {
            l.push(x)
        },
        None => l.push(x),
    }
}

pub open spec fn with_children(e: ElementModel, l: Seq<Seq<char>>) -> ElementModel {
    ElementModel { children: Some(l), ..e }
}

/// The predicate "differs from `x`".
pub open spec fn differs(x: Seq<char>) -> spec_fn(Seq<char>) -> bool {
    |y: Seq<char>| y != x
}

/// A child list with every occurrence of `x` taken out.
pub open spec fn without(l: Seq<Seq<char>>, x: Seq<char>) -> Seq<Seq<char>> {
    l.filter(differs(x))
}

/// A child list after `x`, found at `k`, moves to `new_index`, clamped to the end.
pub open spec fn moved(l: Seq<Seq<char>>, k: int, x: Seq<char>, new_index: u64) -> Seq<Seq<char>> {
    let rest = l.remove(k);
    let at = if new_index > rest.len() {
        rest.len() as int
    } else {
        new_index as int
    };
    rest.insert(at, x)
}

/// The set of touched ids after `x` is marked.
pub open spec fn mark(d: Seq<Seq<char>>, x: Seq<char>) -> Seq<Seq<char>> {
    if d.contains(x) {
        d
    } else {
        d.push(x)
    }
}

/// A variable of the project.
#[derive(Debug)]
pub struct LogicVariable {
    pub id: String,
    pub name: String,
    pub var_type: String,
    pub value: Value,
}

impl View for LogicVariable {
    type V = (Seq<char>, Seq<char>, Seq<char>, ValueModel);

    open spec fn view(&self) -> Self::V {
        (self.id@, self.name@, self.var_type@, self.value@)
    }
}

impl Replicate for LogicVariable {
    open spec fn valid(&self) -> bool {
        true
    }

    fn replicate(&self) -> (r: LogicVariable) {
        LogicVariable {
            id: self.id.clone(),
            name: self.name.clone(),
            var_type: self.var_type.clone(),
            value: self.value.duplicate(),
        }
    }
}

/// The whole document: elements, variables and the active view.
#[derive(Debug)]
pub struct ProjectState {
    pub name: String,
    pub elements: Keyed<DesignerElement>,
    pub global_variables: Keyed<LogicVariable>,
    pub active_page_id: Option<String>,
    pub view_mode: String,
}

impl ProjectState {
    pub open spec fn wf(&self) -> bool {
        self.elements.wf() && self.global_variables.wf()
    }
}

/// What a command does, with its arguments.
#[derive(Debug)]
pub enum CommandAction {
    /// Merge `updates` into the style map that `view_mode` selects
    /// ("mobile", "tablet", anything else for the base map).
    UpdateStyle { updates: PropMap, view_mode: String },
    /// Set a built-in field ("content", "name", "layoutMode") or a free-form property.
    UpdateProp { prop: String, value: Value },
    /// Insert a new element and link it under `parent_id` at `index`, its
    /// parent id set to that parent. When no such parent exists the element is
    /// stored as given and linked nowhere. An id already in the document is
    /// rejected and nothing changes.
    AddElement { element: DesignerElement, parent_id: String, index: Option<u64> },
    /// Delete the target and unlink it from its parent; descendants stay.
    RemoveElement,
    /// Move the target within the child list of `parent_id`.
    ReorderElement { parent_id: String, new_index: u64 },
    /// An action this protocol does not know.
    Unknown,
}

/// A mutation command addressed to one element.
#[derive(Debug)]
pub struct HyperCommand {
    pub id: String,
    pub action: CommandAction,
    pub target_id: String,
    pub timestamp: u64,
}

/// The canonical document and the ids touched since the last pull.
#[derive(Debug)]
pub struct StateStore {
    pub project: Option<ProjectState>,
    pub dirty: Vec<String>,
}


/// The element table, touched ids and result after a command on a loaded document.
pub open spec fn apply_spec(
    t: ElementTable,
    d: Seq<Seq<char>>,
    action: CommandAction,
    tid: Seq<char>,
) -> (ElementTable, Seq<Seq<char>>, bool) {
    match action {
        CommandAction::UpdateStyle { updates, view_mode } => if t.contains_key(tid) {
            (t.insert(tid, with_styles(t[tid], view_mode@, updates@)), mark(d, tid), true)
        } else {
            (t, d, false)
        },
        CommandAction::UpdateProp { prop, value } => if t.contains_key(tid) {
            (t.insert(tid, with_prop(t[tid], prop@, value@)), mark(d, tid), true)
        } else {
            (t, d, false)
        },
        CommandAction::AddElement { element, parent_id, index } => {
            let eid = element.id@;
            let pid = parent_id@;
            if t.contains_key(eid) {
                (t, d, false)
            } else {
                let linked = t.contains_key(pid);
                let added = if linked {
                    ElementModel { parent_id: Some(pid), ..element@ }
                } else {
                    element@
                };
                let t1 = t.insert(eid, added);
                let t2 = if linked {
                    t1.insert(pid, with_children(t1[pid], insert_child(child_ids(t1[pid]), eid, index)))
                } else {
                    t1
                };
                (t2, mark(mark(d, pid), eid), true)
            }
        },
        CommandAction::RemoveElement => if t.contains_key(tid) {
            let e = t[tid];
            let t1 = t.remove(tid);
            match e.parent_id {
                Some(p) => if t1.contains_key(p) && t1[p].children is Some {
                    (
                        t1.insert(p, with_children(t1[p], without(child_ids(t1[p]), tid))),
                        mark(d, p),
                        true,
                    )
                } else {
                    (t1, mark(d, p), true)
                },
                None => (t1, d, true),
            }
        } else {
            (t, d, false)
        },
        CommandAction::ReorderElement { parent_id, new_index } => {
            let pid = parent_id@;
            if t.contains_key(pid) && t[pid].children is Some && child_ids(t[pid]).contains(tid) {
                let l = child_ids(t[pid]);
                let k = l.index_of_first(tid)->0;
                (t.insert(pid, with_children(t[pid], moved(l, k, tid, new_index))), mark(d, pid), true)
            } else {
                (t, d, false)
            }
        },
        CommandAction::Unknown => (t, d, false),
    }
}

/// Pushing onto a list of strings pushes the string's text onto its view.
pub proof fn lemma_sv_push(v: Seq<String>, x: String)
    ensures
        strings_view(v.push(x)) == strings_view(v).push(x@),
{
    assert(strings_view(v.push(x)) =~= strings_view(v).push(x@));
}

proof fn lemma_sv_insert(v: Seq<String>, i: int, x: String)
    requires
        0 <= i <= v.len(),
    ensures
        strings_view(v.insert(i, x)) == strings_view(v).insert(i, x@),
{
    assert(strings_view(v.insert(i, x)) =~= strings_view(v).insert(i, x@));
}

proof fn lemma_sv_remove(v: Seq<String>, i: int)
    requires
        0 <= i < v.len(),
    ensures
        strings_view(v.remove(i)) == strings_view(v).remove(i),
{
    assert(strings_view(v.remove(i)) =~= strings_view(v).remove(i));
}

/// The index of the first occurrence of `x` in `v`.
pub fn position_of(v: &Vec<String>, x: &str) -> (r: Option<usize>)
    ensures
        r matches Some(k) ==> k < v@.len() && strings_view(v@).index_of_first(x@) == Some(k as int)
            && strings_view(v@)[k as int] == x@,
        r is None <==> !strings_view(v@).contains(x@),
{
    let ghost sv = strings_view(v@);
    let mut i: usize = 0;
    while i < v.len()
        invariant
            i <= v@.len(),
            sv == strings_view(v@),
            forall|j: int| 0 <= j < i ==> sv[j] != x@,
        decreases v@.len() - i,
    {
        if str_eq(v[i].as_str(), x) {
            proof {
                sv.index_of_first_ensures(x@);
                assert(sv[i as int] == x@);
                assert(sv.contains(x@));
                let f = sv.index_of_first(x@)->0;
                assert(f == i);
            }
            return Some(i);
        }
        i = i + 1;
    }
    proof {
        if sv.contains(x@) {
            let j = choose|j: int| 0 <= j < sv.len() && sv[j] == x@;
            assert(sv[j] != x@);
        }
    }
    None
}

/// The list `v` without any occurrence of `x`.
pub fn remove_all(v: &Vec<String>, x: &str) -> (r: Vec<String>)
    ensures
        strings_view(r@) == without(strings_view(v@), x@),
{
    let ghost sv = strings_view(v@);
    let mut out: Vec<String> = Vec::new();
    let mut i: usize = 0;
    proof {
        assert(sv.subrange(0, 0) =~= Seq::<Seq<char>>::empty());
        reveal(Seq::filter);
        assert(strings_view(out@) =~= Seq::<Seq<char>>::empty());
    }
    while i < v.len()
        invariant
            i <= v@.len(),
            sv == strings_view(v@),
            strings_view(out@) == sv.subrange(0, i as int).filter(differs(x@)),
        decreases v@.len() - i,
    {
        proof {
            assert(sv.subrange(0, i + 1) =~= sv.subrange(0, i as int).push(sv[i as int]));
            sv.subrange(0, i as int).lemma_filter_push(sv[i as int], differs(x@));
        }
        if !str_eq(v[i].as_str(), x) {
            proof {
                lemma_sv_push(out@, v@[i as int]);
            }
            out.push(v[i].clone());
        }
        i = i + 1;
    }
    assert(sv.subrange(0, v@.len() as int) =~= sv);
    out
}

impl ProjectState {
    fn update_style(&mut self, target: &str, updates: &PropMap, view: &str) -> (r: bool)
        requires
            old(self).wf(),
            updates.wf(),
        ensures
            final(self).wf(),
            r == old(self).elements@.contains_key(target@),
            final(self).elements@ == (if r {
                old(self).elements@.insert(
                    target@,
                    with_styles(old(self).elements@[target@], view@, updates@),
                )
            } else {
                old(self).elements@
            }),
            final(self).global_variables == old(self).global_variables,
            final(self).view_mode == old(self).view_mode,
            final(self).name == old(self).name,
            final(self).active_page_id == old(self).active_page_id,
    {
        match self.elements.get(target) {
            None => false,
            Some(e) => {
                let el = e.replicate();
                let el2 = if str_eq(view, "mobile") {
                    let mut m = match &el.mobile_styles {
                        Some(x) => x.duplicate(),
                        None => PropMap::new(),
                    };
                    m.overlay(updates);
                    DesignerElement { mobile_styles: Some(m), ..el }
                } else if str_eq(view, "tablet") {
                    let mut m = match &el.tablet_styles {
                        Some(x) => x.duplicate(),
                        None => PropMap::new(),
                    };
                    m.overlay(updates);
                    DesignerElement { tablet_styles: Some(m), ..el }
                } else {
                    let mut m = match &el.styles {
                        Some(x) => x.duplicate(),
                        None => PropMap::new(),
                    };
                    m.overlay(updates);
                    DesignerElement { styles: Some(m), ..el }
                };
                assert(el2@ == with_styles(old(self).elements@[target@], view@, updates@));
                self.elements.insert(owned(target), el2);
                true
            },
        }
    }

    fn update_prop(&mut self, target: &str, prop: &str, value: &Value) -> (r: bool)
        requires
            old(self).wf(),
        ensures
            final(self).wf(),
            r == old(self).elements@.contains_key(target@),
            final(self).elements@ == (if r {
                old(self).elements@.insert(
                    target@,
                    with_prop(old(self).elements@[target@], prop@, value@),
                )
            } else {
                old(self).elements@
            }),
            final(self).global_variables == old(self).global_variables,
            final(self).view_mode == old(self).view_mode,
            final(self).name == old(self).name,
            final(self).active_page_id == old(self).active_page_id,
    {
        match self.elements.get(target) {
            None => false,
            Some(e) => {
                let mut el = e.replicate();
                let text = match value.as_text() {
                    Some(s) => Some(s.clone()),
                    None => None,
                };
                if str_eq(prop, "content") {
                    el.content = Some(match text { Some(s) => s, None => String::new() });
                } else if str_eq(prop, "name") {
                    el.name = Some(match text { Some(s) => s, None => String::new() });
                } else if str_eq(prop, "layoutMode") {
                    el.layout_mode = Some(match text { Some(s) => s, None => owned("safety") });
                } else {
                    el.props.insert(owned(prop), value.duplicate());
                }
                assert(el@ == with_prop(old(self).elements@[target@], prop@, value@));
                self.elements.insert(owned(target), el);
                true
            },
        }
    }

    fn add_element(&mut self, element: DesignerElement, parent_id: &str, index: Option<u64>)
        requires
            old(self).wf(),
            element.valid(),
            !old(self).elements@.contains_key(element.id@),
        ensures
            final(self).wf(),
            ({
                let t = old(self).elements@;
                let eid = element.id@;
                let pid = parent_id@;
                let linked = t.contains_key(pid);
                let added = if linked {
                    ElementModel { parent_id: Some(pid), ..element@ }
                } else {
                    element@
                };
                let t1 = t.insert(eid, added);
                final(self).elements@ == if linked {
                    t1.insert(
                        pid,
                        with_children(t1[pid], insert_child(child_ids(t1[pid]), eid, index)),
                    )
                } else {
                    t1
                }
            }),
            final(self).global_variables == old(self).global_variables,
            final(self).view_mode == old(self).view_mode,
            final(self).name == old(self).name,
            final(self).active_page_id == old(self).active_page_id,
    {
        let ghost t = old(self).elements@;
        let eid = element.id.clone();
        let linked = self.elements.find(parent_id).is_some();
        let mut el = element;
        if linked {
            el.parent_id = Some(owned(parent_id));
        }
        self.elements.insert(eid.clone(), el);
        if linked {
            let pe = self.elements.get(parent_id).unwrap();
            let mut parent_el = pe.replicate();
            let mut l = match &parent_el.children {
                Some(v) => copy_strings(v),
                None => Vec::new(),
            };
            let ghost l0 = l@;
            assert(strings_view(l0) == child_ids(pe@));
            match index {
                Some(i) => {
                    if i <= l.len() as u64 {
                        proof {
                            lemma_sv_insert(l0, i as int, eid);
                        }
                        l.insert(i as usize, eid);
                    } else {
                        proof {
                            lemma_sv_push(l0, eid);
                        }
                        l.push(eid);
                    }
                },
                None => {
                    proof {
                        lemma_sv_push(l0, eid);
                    }
                    l.push(eid);
                },
            }
            parent_el.children = Some(l);
            self.elements.insert(owned(parent_id), parent_el);
        }
    }

    fn remove_element(&mut self, target: &str) -> (r: Option<Option<String>>)
        requires
            old(self).wf(),
        ensures
            final(self).wf(),
            r is Some == old(self).elements@.contains_key(target@),
            r matches Some(p) ==> opt_str(p) == old(self).elements@[target@].parent_id,
            ({
                let t = old(self).elements@;
                let t1 = t.remove(target@);
                final(self).elements@ == if t.contains_key(target@) {
                    match t[target@].parent_id {
                        Some(p) => if t1.contains_key(p) && t1[p].children is Some {
                            t1.insert(p, with_children(t1[p], without(child_ids(t1[p]), target@)))
                        } else {
                            t1
                        },
                        None => t1,
                    }
                } else {
                    t
                }
            }),
            final(self).global_variables == old(self).global_variables,
            final(self).view_mode == old(self).view_mode,
            final(self).name == old(self).name,
            final(self).active_page_id == old(self).active_page_id,
    {
        match self.elements.remove(target) {
            None => None,
            Some(e) => {
                if let Some(p) = &e.parent_id {
                    let found = self.elements.get(p.as_str());
                    if let Some(pe) = found {
                        if let Some(ch) = &pe.children {
                            let l = remove_all(ch, target);
                            let mut parent_el = pe.replicate();
                            parent_el.children = Some(l);
                            self.elements.insert(p.clone(), parent_el);
                        }
                    }
                }
                Some(e.parent_id)
            },
        }
    }

    fn reorder_element(&mut self, target: &str, parent_id: &str, new_index: u64) -> (r: bool)
        requires
            old(self).wf(),
        ensures
            final(self).wf(),
            ({
                let t = old(self).elements@;
                let pid = parent_id@;
                let ok = t.contains_key(pid) && t[pid].children is Some && child_ids(
                    t[pid],
                ).contains(target@);
                &&& r == ok
                &&& final(self).elements@ == if ok {
                    let l = child_ids(t[pid]);
                    let k = l.index_of_first(target@)->0;
                    t.insert(pid, with_children(t[pid], moved(l, k, target@, new_index)))
                } else {
                    t
                }
            }),
            final(self).global_variables == old(self).global_variables,
            final(self).view_mode == old(self).view_mode,
            final(self).name == old(self).name,
            final(self).active_page_id == old(self).active_page_id,
    {
        let found = self.elements.get(parent_id);
        match found {
            None => false,
            Some(pe) => match &pe.children {
                None => false,
                Some(ch) => match position_of(ch, target) {
                    None => false,
                    Some(k) => {
                        let mut l = copy_strings(ch);
                        let ghost l0 = l@;
                        proof {
                            lemma_sv_remove(l0, k as int);
                        }
                        l.remove(k);
                        let ghost l1 = l@;
                        let at = if new_index > l.len() as u64 {
                            l.len()
                        } else {
                            new_index as usize
                        };
                        let tid = owned(target);
                        proof {
                            lemma_sv_insert(l1, at as int, tid);
                        }
                        l.insert(at, tid);
                        let mut parent_el = pe.replicate();
                        parent_el.children = Some(l);
                        self.elements.insert(owned(parent_id), parent_el);
                        true
                    },
                },
            },
        }
    }
}

impl StateStore {
    pub open spec fn wf(&self) -> bool {
        &&& (self.project matches Some(p) ==> p.wf())
        &&& strings_view(self.dirty@).no_duplicates()
    }

    /// The ids touched since the last pull, in the order first touched.
    pub open spec fn dirty_ids(&self) -> Seq<Seq<char>> {
        strings_view(self.dirty@)
    }

    pub fn new() -> (r: StateStore)
        ensures
            r.wf(),
            r.project is None,
            r.dirty_ids() == Seq::<Seq<char>>::empty(),
    {
        let r = StateStore { project: None, dirty: Vec::new() };
        assert(r.dirty_ids() =~= Seq::<Seq<char>>::empty());
        r
    }

    /// Replaces the whole document at once.
    pub fn load_snapshot(&mut self, state: ProjectState)
        requires
            old(self).wf(),
            state.wf(),
        ensures
            final(self).wf(),
            final(self).project == Some(state),
            final(self).dirty_ids() == old(self).dirty_ids(),
    {
        self.project = Some(state);
    }

    /// Records `id` as touched.
    pub fn mark_dirty(&mut self, id: &str)
        requires
            old(self).wf(),
        ensures
            final(self).wf(),
            final(self).project == old(self).project,
            final(self).dirty_ids() == mark(old(self).dirty_ids(), id@),
    {
        match position_of(&self.dirty, id) {
            Some(_) => {},
            None => {
                let s = owned(id);
                proof {
                    lemma_sv_push(self.dirty@, s);
                }
                self.dirty.push(s);
            },
        }
    }

    /// Hands out the touched ids and forgets them.
    pub fn pull_dirty(&mut self) -> (r: Vec<String>)
        requires
            old(self).wf(),
        ensures
            final(self).wf(),
            final(self).project == old(self).project,
            strings_view(r@) == old(self).dirty_ids(),
            final(self).dirty_ids() == Seq::<Seq<char>>::empty(),
    {
        let r = copy_strings(&self.dirty);
        self.dirty.clear();
        assert(self.dirty_ids() =~= Seq::<Seq<char>>::empty());
        r
    }

    /// The element table of the loaded document.
    pub open spec fn table(&self) -> ElementTable {
        self.project->0.elements@
    }

    /// Applies one command; the result tells whether a target was found and changed.
    pub fn apply(&mut self, cmd: HyperCommand) -> (r: bool)
        requires
            old(self).wf(),
            cmd.action matches CommandAction::UpdateStyle { updates, .. } ==> updates.wf(),
            cmd.action matches CommandAction::AddElement { element, .. } ==> element.valid(),
        ensures
            final(self).wf(),
            old(self).project is None ==> !r && *final(self) == *old(self),
            old(self).project is Some ==> {
                &&& final(self).project is Some
                &&& (final(self).table(), final(self).dirty_ids(), r) == apply_spec(
                    old(self).table(),
                    old(self).dirty_ids(),
                    cmd.action,
                    cmd.target_id@,
                )
                &&& final(self).project->0.global_variables == old(
                    self,
                ).project->0.global_variables
                &&& final(self).project->0.view_mode == old(self).project->0.view_mode
                &&& final(self).project->0.name == old(self).project->0.name
                &&& final(self).project->0.active_page_id == old(self).project->0.active_page_id
            },
    {
        let mut project = match self.project.take() {
            Some(p) => p,
            None => return false,
        };
        let ghost t = project.elements@;
        let target = cmd.target_id;
        let r = match cmd.action {
            CommandAction::UpdateStyle { updates, view_mode } => {
                let r = project.update_style(target.as_str(), &updates, view_mode.as_str());
                self.project = Some(project);
                if r {
                    self.mark_dirty(target.as_str());
                }
                r
            },
            CommandAction::UpdateProp { prop, value } => {
                let r = project.update_prop(target.as_str(), prop.as_str(), &value);
                self.project = Some(project);
                if r {
                    self.mark_dirty(target.as_str());
                }
                r
            },
            CommandAction::AddElement { element, parent_id, index } => {
                let eid = element.id.clone();
                if project.elements.find(eid.as_str()).is_some() {
                    self.project = Some(project);
                    return false;
                }
                project.add_element(element, parent_id.as_str(), index);
                self.project = Some(project);
                self.mark_dirty(parent_id.as_str());
                self.mark_dirty(eid.as_str());
                true
            },
            CommandAction::RemoveElement => {
                let removed = project.remove_element(target.as_str());
                self.project = Some(project);
                match removed {
                    None => false,
                    Some(parent) => {
                        if let Some(p) = parent {
                            self.mark_dirty(p.as_str());
                        }
                        true
                    },
                }
            },
            CommandAction::ReorderElement { parent_id, new_index } => {
                let r = project.reorder_element(target.as_str(), parent_id.as_str(), new_index);
                self.project = Some(project);
                if r {
                    self.mark_dirty(parent_id.as_str());
                }
                r
            },
            CommandAction::Unknown => {
                self.project = Some(project);
                false
            },
        };
        r
    }

    /// Stores `el` under its id, replacing any element with that id; nothing
    /// is linked or unlinked. False when no document is loaded.
    pub fn put_element(&mut self, el: DesignerElement) -> (r: bool)
        requires
            old(self).wf(),
            el.valid(),
        ensures
            final(self).wf(),
            r == old(self).project is Some,
            r ==> final(self).table() == old(self).table().insert(el.id@, el@),
            !r ==> *final(self) == *old(self),
            final(self).dirty == old(self).dirty,
    {
        match &mut self.project {
            None => false,
            Some(p) => {
                let id = el.id.clone();
                p.elements.insert(id, el);
                true
            },
        }
    }

    /// A copy of the element with id `id`.
    pub fn element(&self, id: &str) -> (r: Option<DesignerElement>)
        requires
            self.wf(),
        ensures
            self.project is None ==> r is None,
            self.project is Some ==> (r is Some <==> self.table().contains_key(id@)),
            r matches Some(e) ==> e@ == self.table()[id@] && e.valid(),
    {
        match &self.project {
            None => None,
            Some(p) => match p.elements.get(id) {
                Some(e) => Some(e.replicate()),
                None => None,
            },
        }
    }

    /// Sets the value of an existing project variable.
    pub fn set_variable(&mut self, id: &str, value: Value) -> (r: bool)
        requires
            old(self).wf(),
        ensures
            final(self).wf(),
            final(self).dirty == old(self).dirty,
            r == (old(self).project matches Some(p) && p.global_variables@.contains_key(id@)),
            r ==> {
                let old_var = old(self).project->0.global_variables@[id@];
                &&& final(self).project->0.global_variables@ == old(
                    self,
                ).project->0.global_variables@.insert(id@, (old_var.0, old_var.1, old_var.2, value@))
                &&& final(self).table() == old(self).table()
            },
            !r ==> final(self).project == old(self).project,
    {
        let mut project = match self.project.take() {
            Some(p) => p,
            None => return false,
        };
        let r = match project.global_variables.get(id) {
            None => false,
            Some(var) => {
                let nv = LogicVariable {
                    id: var.id.clone(),
                    name: var.name.clone(),
                    var_type: var.var_type.clone(),
                    value,
                };
                project.global_variables.insert(owned(id), nv);
                true
            },
        };
        self.project = Some(project);
        r
    }

    /// The value of a project variable.
    pub fn get_variable(&self, id: &str) -> (r: Option<Value>)
        requires
            self.wf(),
        ensures
            r is Some == (self.project matches Some(p) && p.global_variables@.contains_key(id@)),
            r matches Some(v) ==> v@ == self.project->0.global_variables@[id@].3,
    {
        match &self.project {
            None => None,
            Some(p) => match p.global_variables.get(id) {
                Some(var) => Some(var.value.duplicate()),
                None => None,
            },
        }
    }
}

/// Adding a new element (an id not yet in the document, listing no children of
/// its own) under an existing parent of a well-formed acyclic tree puts the new
/// id exactly once in the parent's child list, and the tree stays acyclic.
pub proof fn lemma_add_links_once(
    t: ElementTable,
    d: Seq<Seq<char>>,
    element: DesignerElement,
    parent_id: String,
    index: Option<u64>,
    target: Seq<char>,
)
    requires
        tree_wf(t),
        acyclic(t),
        t.contains_key(parent_id@),
        !t.contains_key(element.id@),
        child_ids(element@).len() == 0,
    ensures
        ({
            let eid = element.id@;
            let pid = parent_id@;
            let (t2, _, _) = apply_spec(
                t,
                d,
                CommandAction::AddElement { element, parent_id, index },
                target,
            );
            &&& t2.contains_key(pid)
            &&& occurs_once(child_ids(t2[pid]), eid)
            &&& acyclic(t2)
        }),
{
    let eid = element.id@;
    let pid = parent_id@;
    let em = element@;
    let (t2, _, _) = apply_spec(
        t,
        d,
        CommandAction::AddElement { element, parent_id, index },
        target,
    );
    let l = child_ids(t[pid]);
    let nl = insert_child(l, eid, index);
    assert(child_ids(t2[pid]) == nl);
    assert forall|j: int| 0 <= j < l.len() implies l[j] != eid by {
        assert(t.contains_key(l[j]));
    }
    let at: int = match index {
        Some(i) => if i <= l.len() {
            i as int
        } else {
            l.len() as int
        },
        None => l.len() as int,
    };
    assert(nl[at] == eid);
    assert forall|j: int| 0 <= j < nl.len() && #[trigger] nl[j] == eid implies j == at by {
        if j < at {
            assert(nl[j] == l[j]);
        } else if j > at {
            assert(nl[j] == l[j - 1]);
        }
    }
    assert(occurs_once(nl, eid));
    let rank = choose|rank: spec_fn(Seq<char>) -> int| ranked(t, rank);
    let rank2 = |k: Seq<char>|
        if k == eid {
            rank(pid) + 1
        } else {
            rank(k)
        };
    assert forall|p: Seq<char>, c: Seq<char>| #[trigger] has_edge(t2, p, c) implies rank2(c) > rank2(
        p,
    ) by {
        if p == eid {
            assert(child_ids(t2[p]) == child_ids(em));
        } else if p == pid {
            if c != eid {
                let j = choose|j: int| 0 <= j < nl.len() && nl[j] == c;
                if j < at {
                    assert(l[j] == c);
                } else {
                    assert(l[j - 1] == c);
                }
                assert(has_edge(t, p, c));
            }
        } else {
            assert(t2[p] == t[p]);
            assert(child_ids(t[p]).contains(c));
            let k = choose|k: int| 0 <= k < child_ids(t[p]).len() && child_ids(t[p])[k] == c;
            assert(t.contains_key(child_ids(t[p])[k]));
            assert(has_edge(t, p, c));
        }
    }
    assert(ranked(t2, rank2));
}

/// Removing an element takes its id out of its former parent's child list. Its
/// former children stay in the document with their records unchanged (but for
/// one that is also the removed element's parent), yet no element lists them
/// any more, so none of them can be reached from any other element, the root
/// included.
pub proof fn lemma_remove_orphans(t: ElementTable, d: Seq<Seq<char>>, target: Seq<char>)
    requires
        tree_wf(t),
        t.contains_key(target),
    ensures
        ({
            let (t2, _, r) = apply_spec(t, d, CommandAction::RemoveElement, target);
            &&& r
            &&& !t2.contains_key(target)
            &&& (t[target].parent_id is Some && t2.contains_key(t[target].parent_id->0)
                ==> !child_ids(t2[t[target].parent_id->0]).contains(target))
            &&& forall|c: Seq<char>|
                #![trigger child_ids(t[target]).contains(c)]
                child_ids(t[target]).contains(c) && c != target ==> {
                    &&& t2.contains_key(c)
                    &&& (t[target].parent_id != Some(c) ==> t2[c] == t[c])
                    &&& forall|q: Seq<char>| !(#[trigger] has_edge(t2, q, c))
                    &&& forall|r: Seq<char>| r != c ==> !(#[trigger] reachable(t2, r, c))
                }
        }),
{
    let (t2, _, _) = apply_spec(t, d, CommandAction::RemoveElement, target);
    let e = t[target];
    let t1 = t.remove(target);
    if let Some(p) = e.parent_id {
        if t1.contains_key(p) && t1[p].children is Some {
            let l = child_ids(t1[p]);
            broadcast use vstd::seq_lib::group_filter_ensures;

            if without(l, target).contains(target) {
                let j = choose|j: int|
                    0 <= j < without(l, target).len() && without(l, target)[j] == target;
                assert(differs(target)(without(l, target)[j]));
            }
        }
    }
    assert forall|c: Seq<char>| #[trigger]
        child_ids(t[target]).contains(c) && c != target implies {
        &&& t2.contains_key(c)
        &&& (t[target].parent_id != Some(c) ==> t2[c] == t[c])
        &&& forall|q: Seq<char>| !(#[trigger] has_edge(t2, q, c))
        &&& forall|r: Seq<char>| r != c ==> !(#[trigger] reachable(t2, r, c))
    } by {
        let k = choose|k: int| 0 <= k < child_ids(t[target]).len() && child_ids(t[target])[k] == c;
        assert(t.contains_key(child_ids(t[target])[k]));
        assert(t[c].parent_id == Some(target));
        assert forall|q: Seq<char>| !(#[trigger] has_edge(t2, q, c)) by {
            if has_edge(t2, q, c) {
                assert(q != target);
                let lq = child_ids(t[q]);
                if e.parent_id == Some(q) && t1[q].children is Some {
                    assert(t1[q] == t[q]);
                    assert(child_ids(t2[q]) == without(lq, target));
                    assert(without(lq, target).contains(c));
                    lq.lemma_filter_contains_rev(differs(target), c);
                    assert(lq.contains(c));
                } else {
                    assert(t2[q] == t[q]);
                }
                let j = choose|j: int| 0 <= j < lq.len() && lq[j] == c;
                assert(t[lq[j]].parent_id == Some(q));
            }
        }
        assert forall|r: Seq<char>| r != c implies !(#[trigger] reachable(t2, r, c)) by {
            if reachable(t2, r, c) {
                let path = choose|path: Seq<Seq<char>>|
                    #[trigger] is_path(t2, path) && path[0] == r && path[path.len() - 1] == c;
                let n = path.len() as int;
                assert(n >= 2);
                assert(has_edge(t2, path[n - 2], path[n - 2 + 1]));
            }
        }
    }
}

proof fn lemma_same_links(t: ElementTable, k: Seq<char>, e2: ElementModel)
    requires
        tree_wf(t),
        t.contains_key(k),
        e2.id == t[k].id,
        e2.parent_id == t[k].parent_id,
        e2.children == t[k].children,
    ensures
        tree_wf(t.insert(k, e2)),
        forall|a: Seq<char>, c: Seq<char>| #[trigger] has_edge(t.insert(k, e2), a, c) ==> has_edge(t, a, c),
{
    let t2 = t.insert(k, e2);
    assert forall|q: Seq<char>, i: int|
        t2.contains_key(q) && 0 <= i < child_ids(t2[q]).len() implies t2.contains_key(
            #[trigger] child_ids(t2[q])[i],
        ) && t2[child_ids(t2[q])[i]].parent_id == Some(q) by {
        assert(child_ids(t2[q]) == child_ids(t[q]));
        assert(t.contains_key(child_ids(t[q])[i]));
    }
    assert forall|a: Seq<char>, c: Seq<char>| #[trigger] has_edge(t2, a, c) implies has_edge(t, a, c) by {
        assert(child_ids(t2[a]) == child_ids(t[a]));
    }
}

proof fn lemma_remove_keeps(t: ElementTable, target: Seq<char>)
    requires
        tree_wf(t),
        t.contains_key(target),
    ensures
        tree_wf(apply_spec(t, Seq::empty(), CommandAction::RemoveElement, target).0),
        forall|a: Seq<char>, c: Seq<char>|
            #[trigger] has_edge(apply_spec(t, Seq::empty(), CommandAction::RemoveElement, target).0, a, c)
                ==> has_edge(t, a, c),
{
    let t2 = apply_spec(t, Seq::empty(), CommandAction::RemoveElement, target).0;
    let e = t[target];
    let t1 = t.remove(target);
    // every list of t2 is a part of the same list in t, without the target
    assert forall|q: Seq<char>, c: Seq<char>|
        t2.contains_key(q) && #[trigger] child_ids(t2[q]).contains(c) implies child_ids(t[q]).contains(c)
        && c != target && t2.contains_key(c) && t2[c].parent_id == t[c].parent_id by {
        if e.parent_id == Some(q) && t1.contains_key(q) && t1[q].children is Some {
            assert(child_ids(t2[q]) == without(child_ids(t[q]), target));
            child_ids(t[q]).lemma_filter_contains_rev(differs(target), c);
            broadcast use vstd::seq_lib::group_filter_ensures;
            let i = choose|i: int| 0 <= i < child_ids(t2[q]).len() && child_ids(t2[q])[i] == c;
            assert(differs(target)(child_ids(t2[q])[i]));
        } else {
            assert(child_ids(t2[q]) == child_ids(t[q]));
            if c == target {
                let i = choose|i: int| 0 <= i < child_ids(t[q]).len() && child_ids(t[q])[i] == c;
                assert(t[child_ids(t[q])[i]].parent_id == Some(q));
            }
        }
        let i = choose|i: int| 0 <= i < child_ids(t[q]).len() && child_ids(t[q])[i] == c;
        assert(t.contains_key(child_ids(t[q])[i]));
    }
    assert forall|q: Seq<char>, i: int|
        t2.contains_key(q) && 0 <= i < child_ids(t2[q]).len() implies t2.contains_key(
            #[trigger] child_ids(t2[q])[i],
        ) && t2[child_ids(t2[q])[i]].parent_id == Some(q) by {
        let c = child_ids(t2[q])[i];
        assert(child_ids(t2[q]).contains(c));
        let j = choose|j: int| 0 <= j < child_ids(t[q]).len() && child_ids(t[q])[j] == c;
        assert(t.contains_key(child_ids(t[q])[j]));
    }
    assert forall|a: Seq<char>, c: Seq<char>| #[trigger] has_edge(t2, a, c) implies has_edge(t, a, c) by {
        assert(child_ids(t2[a]).contains(c));
    }
}

proof fn lemma_add_keeps(t: ElementTable, element: DesignerElement, parent_id: String, index: Option<u64>)
    requires
        tree_wf(t),
        acyclic(t),
        !t.contains_key(element.id@),
        child_ids(element@).len() == 0,
    ensures
        tree_wf(apply_spec(t, Seq::empty(), CommandAction::AddElement { element, parent_id, index }, Seq::empty()).0),
        acyclic(apply_spec(t, Seq::empty(), CommandAction::AddElement { element, parent_id, index }, Seq::empty()).0),
{
    let eid = element.id@;
    let pid = parent_id@;
    let em = element@;
    let t2 = apply_spec(t, Seq::empty(), CommandAction::AddElement { element, parent_id, index }, Seq::empty()).0;
    let linked = t.contains_key(pid);
    let l = child_ids(t[pid]);
    let nl = insert_child(l, eid, index);
    assert forall|q: Seq<char>, c: Seq<char>|
        t2.contains_key(q) && #[trigger] child_ids(t2[q]).contains(c) implies (c == eid && q == pid && linked)
        || (child_ids(t[q]).contains(c) && q != eid) by {
        if q == eid {
            assert(child_ids(t2[q]) == child_ids(em));
        } else if linked && q == pid {
            assert(child_ids(t2[q]) == nl);
            if c != eid {
                let i = choose|i: int| 0 <= i < nl.len() && nl[i] == c;
                let at: int = match index {
                    Some(x) => if x <= l.len() { x as int } else { l.len() as int },
                    None => l.len() as int,
                };
                if i < at {
                    assert(l[i] == c);
                } else if i > at {
                    assert(l[i - 1] == c);
                }
            }
        } else {
            assert(child_ids(t2[q]) == child_ids(t[q]));
        }
    }
    assert forall|q: Seq<char>, i: int|
        t2.contains_key(q) && 0 <= i < child_ids(t2[q]).len() implies t2.contains_key(
            #[trigger] child_ids(t2[q])[i],
        ) && t2[child_ids(t2[q])[i]].parent_id == Some(q) by {
        let c = child_ids(t2[q])[i];
        assert(child_ids(t2[q]).contains(c));
        if !(c == eid && q == pid && linked) {
            let j = choose|j: int| 0 <= j < child_ids(t[q]).len() && child_ids(t[q])[j] == c;
            assert(t.contains_key(child_ids(t[q])[j]));
            assert(c != eid);
        }
    }
    if linked {
        lemma_add_links_once(t, Seq::empty(), element, parent_id, index, Seq::empty());
    } else {
        assert forall|a: Seq<char>, c: Seq<char>| #[trigger] has_edge(t2, a, c) implies has_edge(t, a, c) by {
            assert(child_ids(t2[a]).contains(c));
            let j = choose|j: int| 0 <= j < child_ids(t[a]).len() && child_ids(t[a])[j] == c;
            assert(t.contains_key(child_ids(t[a])[j]));
        }
        lemma_edges_shrink_acyclic(t, t2);
    }
}

proof fn lemma_edges_shrink_acyclic(t: ElementTable, t2: ElementTable)
    requires
        acyclic(t),
        forall|p: Seq<char>, c: Seq<char>| #[trigger] has_edge(t2, p, c) ==> has_edge(t, p, c),
    ensures
        acyclic(t2),
{
    let rank = choose|rank: spec_fn(Seq<char>) -> int| ranked(t, rank);
    assert forall|p: Seq<char>, c: Seq<char>| #[trigger] has_edge(t2, p, c) implies rank(c) > rank(p) by {
        assert(has_edge(t, p, c));
    }
    assert(ranked(t2, rank));
}

/// Replacing the child list of `p` by one whose entries all come from its old
/// list keeps the tree well formed and adds no edge.
proof fn lemma_sublist_keeps(t: ElementTable, p: Seq<char>, l2: Seq<Seq<char>>)
    requires
        tree_wf(t),
        t.contains_key(p),
        forall|i: int| 0 <= i < l2.len() ==> child_ids(t[p]).contains(#[trigger] l2[i]),
    ensures
        tree_wf(t.insert(p, with_children(t[p], l2))),
        forall|a: Seq<char>, c: Seq<char>|
            #[trigger] has_edge(t.insert(p, with_children(t[p], l2)), a, c) ==> has_edge(t, a, c),
{
    let t2 = t.insert(p, with_children(t[p], l2));
    assert forall|q: Seq<char>, i: int|
        t2.contains_key(q) && 0 <= i < child_ids(t2[q]).len() implies t2.contains_key(
            #[trigger] child_ids(t2[q])[i],
        ) && t2[child_ids(t2[q])[i]].parent_id == Some(q) by {
        let c = child_ids(t2[q])[i];
        if q == p {
            assert(child_ids(t[p]).contains(l2[i]));
            let j = choose|j: int| 0 <= j < child_ids(t[p]).len() && child_ids(t[p])[j] == c;
            assert(t.contains_key(child_ids(t[p])[j]));
        } else {
            assert(child_ids(t[q])[i] == c);
        }
    }
    assert forall|a: Seq<char>, c: Seq<char>| #[trigger] has_edge(t2, a, c) implies has_edge(t, a, c) by {
        if a == p {
            let i = choose|i: int| 0 <= i < l2.len() && l2[i] == c;
            assert(child_ids(t[p]).contains(l2[i]));
        }
    }
}

/// Every command keeps the document a well-formed acyclic tree, provided an
/// added element lists no children of its own.
pub proof fn lemma_apply_keeps_tree(t: ElementTable, d: Seq<Seq<char>>, action: CommandAction, target: Seq<char>)
    requires
        tree_wf(t),
        acyclic(t),
        action matches CommandAction::AddElement { element, .. } ==> child_ids(element@).len() == 0,
    ensures
        tree_wf(apply_spec(t, d, action, target).0),
        acyclic(apply_spec(t, d, action, target).0),
{
    let t2 = apply_spec(t, d, action, target).0;
    match action {
        CommandAction::UpdateStyle { updates, view_mode } => {
            if t.contains_key(target) {
                let e2 = with_styles(t[target], view_mode@, updates@);
                assert(child_ids(e2) == child_ids(t[target]));
                lemma_same_links(t, target, e2);
                lemma_edges_shrink_acyclic(t, t2);
            }
        },
        CommandAction::UpdateProp { prop, value } => {
            if t.contains_key(target) {
                let e2 = with_prop(t[target], prop@, value@);
                assert(child_ids(e2) == child_ids(t[target]));
                lemma_same_links(t, target, e2);
                lemma_edges_shrink_acyclic(t, t2);
            }
        },
        CommandAction::ReorderElement { parent_id, new_index } => {
            let pid = parent_id@;
            if t.contains_key(pid) && t[pid].children is Some && child_ids(t[pid]).contains(target) {
                let l = child_ids(t[pid]);
                l.index_of_first_ensures(target);
                let k = l.index_of_first(target)->0;
                let l2 = moved(l, k, target, new_index);
                let rest = l.remove(k);
                assert forall|i: int| 0 <= i < l2.len() implies l.contains(#[trigger] l2[i]) by {
                    let at = if new_index > rest.len() { rest.len() as int } else { new_index as int };
                    if i == at {
                    } else {
                        let r = if i < at { i } else { i - 1 };
                        assert(l2[i] == rest[r]);
                        let o = if r < k { r } else { r + 1 };
                        assert(rest[r] == l[o]);
                    }
                }
                lemma_sublist_keeps(t, pid, l2);
                lemma_edges_shrink_acyclic(t, t2);
            }
        },
        CommandAction::RemoveElement => {
            if t.contains_key(target) {
                lemma_remove_keeps(t, target);
                assert(apply_spec(t, Seq::empty(), CommandAction::RemoveElement, target).0 == t2);
                lemma_edges_shrink_acyclic(t, t2);
            }
        },
        CommandAction::AddElement { element, parent_id, index } => {
            if !t.contains_key(element.id@) {
                lemma_add_keeps(t, element, parent_id, index);
                assert(apply_spec(t, Seq::empty(), CommandAction::AddElement { element, parent_id, index }, Seq::empty()).0 == t2);
            }
        },
        CommandAction::Unknown => {},
    }
}

} // verus!
