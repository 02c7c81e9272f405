//! Operations that read more than one store: the document for structure and
//! the spatial index for geometry.
use vstd::prelude::*;
use crate::document::StateStore;
use crate::spatial::{drag_target, SpatialIndex, COORD_LIMIT};

verus! {

/// The parent that the document records for `element_id`, if any.
pub open spec fn recorded_parent(store: &StateStore, element_id: Seq<char>) -> Option<Seq<char>> {
    if store.project is Some && store.table().contains_key(element_id) {
        store.table()[element_id].parent_id
    } else {
        None
    }
}

/// Clamps a drag of `element_id` toward (tx, ty) inside the box of the parent
/// the document records for it; elements without one move freely.
pub fn constrain_drag(store: &StateStore, index: &SpatialIndex, element_id: &str, tx: i64, ty: i64) -> (r: (i64, i64))
    requires
        store.wf(),
        index.wf(),
        -COORD_LIMIT <= tx <= COORD_LIMIT,
        -COORD_LIMIT <= ty <= COORD_LIMIT,
    ensures
        match recorded_parent(store, element_id@) {
            Some(p) => if index.index_of(p) is Some && index.index_of(element_id@) is Some {
                (r.0 as int, r.1 as int) == drag_target(
                    index.boxes()[index.index_of(element_id@)->0],
                    index.boxes()[index.index_of(p)->0],
                    tx as int,
                    ty as int,
                )
            } else {
                r == (tx, ty)
            },
            None => r == (tx, ty),
        },
{
    let parent = match store.element(element_id) {
        Some(e) => e.parent_id,
        None => None,
    };
    match &parent {
        Some(p) => index.constrain_drag(element_id, Some(p.as_str()), tx, ty),
        None => index.constrain_drag(element_id, None, tx, ty),
    }
}

} // verus!
