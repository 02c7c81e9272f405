//! Keyboard shortcuts: key combinations bound to editor actions.
use vstd::prelude::*;
use crate::value::{owned, str_eq};

verus! {

/// What `str::to_lowercase` makes of a text.
pub uninterp spec fn lower_of(s: Seq<char>) -> Seq<char>;

/// Relies on `str::to_lowercase`: the result depends on the characters alone.
#[verifier::external_body]
fn lowercase(s: &str) -> (r: String)
    ensures
        r@ == lower_of(s@),
{
    s.to_lowercase()
}

/// A key with its modifiers; the key is kept in lower case.
#[derive(Debug)]
pub struct ShortcutKey {
    pub key: String,
    pub ctrl: bool,
    pub shift: bool,
    pub alt: bool,
    pub meta: bool,
}

/// (key, ctrl, shift, alt, meta, action).
pub type Binding = (Seq<char>, bool, bool, bool, bool, Seq<char>);

impl ShortcutKey {
    pub fn new(key: &str, ctrl: bool, shift: bool, alt: bool, meta: bool) -> (r: ShortcutKey)
        ensures
            r.key@ == lower_of(key@),
            r.ctrl == ctrl && r.shift == shift && r.alt == alt && r.meta == meta,
    {
        ShortcutKey { key: lowercase(key), ctrl, shift, alt, meta }
    }
}

pub open spec fn binding_of(e: (ShortcutKey, String)) -> Binding {
    (e.0.key@, e.0.ctrl, e.0.shift, e.0.alt, e.0.meta, e.1@)
}

/// The action bound to a combination: the binding made last for it.
pub open spec fn bound(bs: Seq<Binding>, key: Seq<char>, ctrl: bool, shift: bool, alt: bool, meta: bool) -> Option<
    Seq<char>,
>
    decreases bs.len(),
{
    if bs.len() == 0 {
        None
    } else {
        let b = bs.last();
        if b.0 == key && b.1 == ctrl && b.2 == shift && b.3 == alt && b.4 == meta {
            Some(b.5)
        } else {
            bound(bs.drop_last(), key, ctrl, shift, alt, meta)
        }
    }
}

/// The default bindings: each command with Ctrl and again with Meta, then
/// the editing keys.
pub open spec fn default_bindings() -> Seq<Binding> {
    seq![
        (lower_of("z"@), true, false, false, false, "Undo"@),
        (lower_of("z"@), false, false, false, true, "Undo"@),
        (lower_of("z"@), true, true, false, false, "Redo"@),
        (lower_of("z"@), false, true, false, true, "Redo"@),
        (lower_of("y"@), true, false, false, false, "Redo"@),
        (lower_of("y"@), false, false, false, true, "Redo"@),
        (lower_of("s"@), true, false, false, false, "Save"@),
        (lower_of("s"@), false, false, false, true, "Save"@),
        (lower_of("c"@), true, false, false, false, "Copy"@),
        (lower_of("c"@), false, false, false, true, "Copy"@),
        (lower_of("v"@), true, false, false, false, "Paste"@),
        (lower_of("v"@), false, false, false, true, "Paste"@),
        (lower_of("x"@), true, false, false, false, "Cut"@),
        (lower_of("x"@), false, false, false, true, "Cut"@),
        (lower_of("a"@), true, false, false, false, "SelectAll"@),
        (lower_of("a"@), false, false, false, true, "SelectAll"@),
        (lower_of("d"@), true, false, false, false, "Duplicate"@),
        (lower_of("d"@), false, false, false, true, "Duplicate"@),
        (lower_of("g"@), true, false, false, false, "Group"@),
        (lower_of("g"@), false, false, false, true, "Group"@),
        (lower_of("g"@), true, true, false, false, "Ungroup"@),
        (lower_of("g"@), false, true, false, true, "Ungroup"@),
        (lower_of("="@), true, false, false, false, "ZoomIn"@),
        (lower_of("="@), false, false, false, true, "ZoomIn"@),
        (lower_of("-"@), true, false, false, false, "ZoomOut"@),
        (lower_of("-"@), false, false, false, true, "ZoomOut"@),
        (lower_of("0"@), true, false, false, false, "ResetView"@),
        (lower_of("0"@), false, false, false, true, "ResetView"@),
        (lower_of("k"@), true, false, false, false, "ToggleCommandBar"@),
        (lower_of("k"@), false, false, false, true, "ToggleCommandBar"@),
        (lower_of("."@), true, false, false, false, "ToggleUI"@),
        (lower_of("."@), false, false, false, true, "ToggleUI"@),
        (lower_of("delete"@), false, false, false, false, "Delete"@),
        (lower_of("backspace"@), false, false, false, false, "Delete"@),
        (lower_of("escape"@), false, false, false, false, "Escape"@)
    ]
}

/// The registry of shortcut bindings.
#[derive(Debug)]
pub struct ShortcutsPlugin {
    registry: Vec<(ShortcutKey, String)>,
}

impl ShortcutsPlugin {
    /// The bindings, oldest first.
    pub closed spec fn bindings(&self) -> Seq<Binding> {
        self.registry@.map_values(|e: (ShortcutKey, String)| binding_of(e))
    }

    pub fn new() -> (r: ShortcutsPlugin)
        ensures
            r.bindings() == Seq::<Binding>::empty(),
    {
        let r = ShortcutsPlugin { registry: Vec::new() };
        assert(r.bindings() =~= Seq::<Binding>::empty());
        r
    }

    pub fn new_with_defaults() -> (r: ShortcutsPlugin)
        ensures
            r.bindings() == default_bindings(),
    {
        let mut p = ShortcutsPlugin::new();
        p.register_defaults();
        assert(p.bindings() =~= default_bindings());
        p
    }

    fn bind(&mut self, k: ShortcutKey, action: &str)
        ensures
            final(self).bindings() == old(self).bindings().push((k.key@, k.ctrl, k.shift, k.alt, k.meta, action@)),
    {
        self.registry.push((k, owned(action)));
        assert(self.bindings() =~= old(self).bindings().push((k.key@, k.ctrl, k.shift, k.alt, k.meta, action@)));
    }

    fn register(&mut self, key: &str, ctrl: bool, shift: bool, meta: bool, action: &str)
        ensures
            final(self).bindings() == old(self).bindings().push((lower_of(key@), ctrl, shift, false, meta, action@)),
    {
        let k = ShortcutKey::new(key, ctrl, shift, false, meta);
        self.bind(k, action);
    }

    /// Adds the default bindings.
    pub fn register_defaults(&mut self)
        ensures
            final(self).bindings() == old(self).bindings() + default_bindings(),
    {
        self.register("z", true, false, false, "Undo");
        self.register("z", false, false, true, "Undo");
        self.register("z", true, true, false, "Redo");
        self.register("z", false, true, true, "Redo");
        self.register("y", true, false, false, "Redo");
        self.register("y", false, false, true, "Redo");
        self.register("s", true, false, false, "Save");
        self.register("s", false, false, true, "Save");
        self.register("c", true, false, false, "Copy");
        self.register("c", false, false, true, "Copy");
        self.register("v", true, false, false, "Paste");
        self.register("v", false, false, true, "Paste");
        self.register("x", true, false, false, "Cut");
        self.register("x", false, false, true, "Cut");
        self.register("a", true, false, false, "SelectAll");
        self.register("a", false, false, true, "SelectAll");
        self.register("d", true, false, false, "Duplicate");
        self.register("d", false, false, true, "Duplicate");
        self.register("g", true, false, false, "Group");
        self.register("g", false, false, true, "Group");
        self.register("g", true, true, false, "Ungroup");
        self.register("g", false, true, true, "Ungroup");
        self.register("=", true, false, false, "ZoomIn");
        self.register("=", false, false, true, "ZoomIn");
        self.register("-", true, false, false, "ZoomOut");
        self.register("-", false, false, true, "ZoomOut");
        self.register("0", true, false, false, "ResetView");
        self.register("0", false, false, true, "ResetView");
        self.register("k", true, false, false, "ToggleCommandBar");
        self.register("k", false, false, true, "ToggleCommandBar");
        self.register(".", true, false, false, "ToggleUI");
        self.register(".", false, false, true, "ToggleUI");
        self.register("delete", false, false, false, "Delete");
        self.register("backspace", false, false, false, "Delete");
        self.register("escape", false, false, false, "Escape");
        assert(self.bindings() =~= old(self).bindings() + default_bindings());
    }

    /// The action bound to a key combination.
    pub fn resolve(&self, key: &str, ctrl: bool, shift: bool, alt: bool, meta: bool) -> (r: Option<String>)
        ensures
            match r {
                Some(a) => bound(self.bindings(), lower_of(key@), ctrl, shift, alt, meta) == Some(a@),
                None => bound(self.bindings(), lower_of(key@), ctrl, shift, alt, meta) is None,
            },
    {
        let k = ShortcutKey::new(key, ctrl, shift, alt, meta);
        let ghost bs = self.bindings();
        let mut i: usize = self.registry.len();
        proof {
            assert(bs.subrange(0, bs.len() as int) =~= bs);
        }
        while i > 0
            invariant
                bs == self.bindings(),
                k.key@ == lower_of(key@),
                i <= self.registry@.len(),
                bound(bs, k.key@, ctrl, shift, alt, meta) == bound(bs.subrange(0, i as int), k.key@, ctrl, shift, alt, meta),
            decreases i,
        {
            let e = &self.registry[i - 1];
            proof {
                assert(bs.subrange(0, i as int).drop_last() =~= bs.subrange(0, i - 1));
                assert(bs[i - 1] == binding_of(self.registry@[i - 1]));
            }
            if str_eq(e.0.key.as_str(), k.key.as_str()) && e.0.ctrl == ctrl && e.0.shift == shift && e.0.alt == alt
                && e.0.meta == meta {
                let a = e.1.clone();
                proof {
                    assert(bs.subrange(0, i as int).last() == bs[i - 1]);
                    assert(bs[i - 1].5 == a@);
                    assert(bs[i - 1].0 == k.key@);
                    assert(bound(bs.subrange(0, i as int), k.key@, ctrl, shift, alt, meta) == Some(a@));
                }
                return Some(a);
            }
            i = i - 1;
        }
        proof {
            assert(bs.subrange(0, 0) =~= Seq::<Binding>::empty());
        }
        None
    }

    /// Binds a key combination to `action`, over any earlier binding of it.
    pub fn remap(&mut self, action: &str, key: &str, ctrl: bool, shift: bool, alt: bool, meta: bool)
        ensures
            final(self).bindings() == old(self).bindings().push((lower_of(key@), ctrl, shift, alt, meta, action@)),
    {
        let k = ShortcutKey::new(key, ctrl, shift, alt, meta);
        self.bind(k, action);
    }
}

} // verus!
