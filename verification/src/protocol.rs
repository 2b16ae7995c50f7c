//! The action-bubbling protocol: which list resolves an intent, and what the
//! resolution does. `Split`, `MergeUp` and `Indent` are resolved by the list
//! that holds the source block; `Outdent` is forwarded one level, because only
//! the list that holds the former parent can splice the block in after it;
//! `Next` and `Prev` are accepted and left without structural effect.

use vstd::prelude::*;

use crate::block::Block;
use crate::block::BlockAction;
use crate::block::BlockModel;
use crate::block::block_model;
use crate::block::forest_model;
use crate::block::lemma_forest_model;

verus! {

/// What a handler reports to the list above it.
#[derive(Clone, Copy, Debug, PartialEq, Eq, Structural)]
pub enum Outcome {
    /// The action was applied here or below (boundary no-ops included).
    Resolved,
    /// The action names a block of this list, but only the level above owns
    /// the list it must splice into.
    Forwarded,
    /// The source id does not occur in this subtree; the action is stale here.
    NotFound,
}

/// The id of the block that raised the action.
pub open spec fn source_id(a: BlockAction) -> u128 {
    match a {
        BlockAction::Split { id, .. } => id,
        BlockAction::MergeUp { id } => id,
        BlockAction::Indent { id } => id,
        BlockAction::Outdent { id } => id,
        BlockAction::Next { id } => id,
        BlockAction::Prev { id } => id,
    }
}

/// Does some entry of this one list carry the id?
pub open spec fn has_id(s: Seq<BlockModel>, id: u128) -> bool {
    exists|i: int| 0 <= i < s.len() && s[i].id == id
}

/// Position of the first entry of the list that carries the id, or -1.
pub open spec fn index_of_id(s: Seq<BlockModel>, id: u128) -> int
    decreases s,
{
    if s.len() == 0 {
        -1
    } else if s[0].id == id {
        0
    } else if index_of_id(s.drop_first(), id) == -1 {
        -1
    } else {
        1 + index_of_id(s.drop_first(), id)
    }
}

/// `index_of_id` finds the first entry with the id, exactly when one exists.
pub proof fn lemma_index_of_id(s: Seq<BlockModel>, id: u128)
    ensures
        has_id(s, id) <==> index_of_id(s, id) != -1,
        has_id(s, id) ==> 0 <= index_of_id(s, id) < s.len(),
        has_id(s, id) ==> s[index_of_id(s, id)].id == id,
        has_id(s, id) ==> forall|j: int| 0 <= j < index_of_id(s, id) ==> s[j].id != id,
    decreases s,
{
    if s.len() > 0 {
        lemma_index_of_id(s.drop_first(), id);
        if s[0].id != id {
            assert forall|i: int| 0 <= i < s.len() && s[i].id == id implies has_id(
                s.drop_first(),
                id,
            ) by {
                assert(s.drop_first()[i - 1] == s[i]);
            }
            assert(has_id(s.drop_first(), id) ==> has_id(s, id)) by {
                if has_id(s.drop_first(), id) {
                    let i = choose|i: int|
                        0 <= i < s.drop_first().len() && s.drop_first()[i].id == id;
                    assert(s[i + 1].id == id);
                }
            }
            if has_id(s, id) {
                let p = index_of_id(s, id);
                assert forall|j: int| 0 <= j < p implies s[j].id != id by {
                    if j > 0 {
                        assert(s[j] == s.drop_first()[j - 1]);
                    }
                }
            }
        }
    }
}

/// The block a `Split` inserts: empty text, no children, expanded, in edit
/// mode, under the given fresh id.
pub open spec fn fresh_model(id: u128) -> BlockModel {
    BlockModel {
        id,
        content: Seq::empty(),
        children: Seq::empty(),
        collapsed: false,
        is_editing: true,
    }
}

/// The same block with edit focus on it.
pub open spec fn refocus(b: BlockModel) -> BlockModel {
    BlockModel { is_editing: true, ..b }
}

/// `Split` on one list: a new empty block in edit mode right after the source
/// block; a stale id is a no-op.
pub open spec fn split_list(s: Seq<BlockModel>, src: u128, new_id: u128) -> Seq<BlockModel> {
    if has_id(s, src) {
        s.insert(index_of_id(s, src) + 1, fresh_model(new_id))
    } else {
        s
    }
}

/// `MergeUp` on one list: the source block is removed, with its whole subtree,
/// and the preceding sibling takes the focus; at position 0, and on a stale
/// id, a no-op.
pub open spec fn merge_up_list(s: Seq<BlockModel>, src: u128) -> Seq<BlockModel> {
    if has_id(s, src) {
        let p = index_of_id(s, src);
        if p > 0 {
            s.remove(p).update(p - 1, refocus(s[p - 1]))
        } else {
            s
        }
    } else {
        s
    }
}

/// `Indent` on one list: the source block becomes the last child of its
/// preceding sibling, which is forced open, and the moved block takes the
/// focus; at position 0, and on a stale id, a no-op.
pub open spec fn indent_list(s: Seq<BlockModel>, src: u128) -> Seq<BlockModel> {
    if has_id(s, src) {
        let p = index_of_id(s, src);
        if p > 0 {
            let target = s[p - 1];
            s.remove(p).update(
                p - 1,
                BlockModel { children: target.children.push(refocus(s[p])), collapsed: false, ..target },
            )
        } else {
            s
        }
    } else {
        s
    }
}

/// A forwarded `Outdent` resolved at this list: the source block leaves the
/// children of the entry at `q` and reappears right after that entry.
pub open spec fn outdent_list(s: Seq<BlockModel>, q: int, src: u128) -> Seq<BlockModel> {
    if 0 <= q < s.len() && has_id(s[q].children, src) {
        let parent = s[q];
        let k = index_of_id(parent.children, src);
        s.update(q, BlockModel { children: parent.children.remove(k), ..parent }).insert(
            q + 1,
            parent.children[k],
        )
    } else {
        s
    }
}

/// One dispatch step over a forest. If the source block sits in this very
/// list, the action is resolved here — except `Outdent`, which is handed back
/// to the level above unchanged. Otherwise the step descends into the
/// children, list by list.
pub open spec fn step_forest(s: Seq<BlockModel>, a: BlockAction, new_id: u128) -> (
    Seq<BlockModel>,
    Outcome,
)
    decreases s, s.len() + 1,
{
    let src = source_id(a);
    if has_id(s, src) {
        match a {
            BlockAction::Split { .. } => (split_list(s, src, new_id), Outcome::Resolved),
            BlockAction::MergeUp { .. } => (merge_up_list(s, src), Outcome::Resolved),
            BlockAction::Indent { .. } => (indent_list(s, src), Outcome::Resolved),
            BlockAction::Outdent { .. } => (s, Outcome::Forwarded),
            BlockAction::Next { .. } => (s, Outcome::Resolved),
            BlockAction::Prev { .. } => (s, Outcome::Resolved),
        }
    } else {
        step_below(s, 0, a, new_id)
    }
}

/// The descent: try the subtrees of the entries at `i` and beyond. A child
/// that answers `Forwarded` asked for an `Outdent`, and this list owns the
/// place after the parent, so it is resolved right here.
pub open spec fn step_below(s: Seq<BlockModel>, i: int, a: BlockAction, new_id: u128) -> (
    Seq<BlockModel>,
    Outcome,
)
    decreases s, s.len() - i,
{
    if i < 0 || i >= s.len() {
        (s, Outcome::NotFound)
    } else {
        let r = step_forest(s[i].children, a, new_id);
        match r.1 {
            Outcome::Resolved => (
                s.update(i, BlockModel { children: r.0, ..s[i] }),
                Outcome::Resolved,
            ),
            Outcome::Forwarded => (outdent_list(s, i, source_id(a)), Outcome::Resolved),
            Outcome::NotFound => step_below(s, i + 1, a, new_id),
        }
    }
}

/// What the whole tree does with an action that bubbled to the top: an
/// `Outdent` of a root block has nothing above the top level to move into,
/// and a stale id was already no one's to resolve, so both leave the forest
/// as it is.
pub open spec fn handle_forest(s: Seq<BlockModel>, a: BlockAction, new_id: u128) -> Seq<
    BlockModel,
> {
    step_forest(s, a, new_id).0
}

/// A step answers `Forwarded` only from the list that holds the source block,
/// with the forest untouched; `NotFound` also leaves the forest untouched.
pub proof fn lemma_step_props(s: Seq<BlockModel>, a: BlockAction, new_id: u128)
    ensures
        step_forest(s, a, new_id).1 == Outcome::Forwarded ==> step_forest(s, a, new_id).0 == s
            && has_id(s, source_id(a)),
        step_forest(s, a, new_id).1 == Outcome::NotFound ==> step_forest(s, a, new_id).0 == s
            && !has_id(s, source_id(a)),
    decreases s, s.len() + 1,
{
    if !has_id(s, source_id(a)) {
        lemma_step_below_props(s, 0, a, new_id);
    }
}

/// The descent never answers `Forwarded` itself, and a `NotFound` descent
/// leaves the forest untouched.
pub proof fn lemma_step_below_props(s: Seq<BlockModel>, i: int, a: BlockAction, new_id: u128)
    ensures
        step_below(s, i, a, new_id).1 != Outcome::Forwarded,
        step_below(s, i, a, new_id).1 == Outcome::NotFound ==> step_below(s, i, a, new_id).0
            == s,
    decreases s, s.len() - i,
{
    if 0 <= i < s.len() {
        match step_forest(s[i].children, a, new_id).1 {
            Outcome::NotFound => lemma_step_below_props(s, i + 1, a, new_id),
            _ => {},
        }
    }
}

/// Only `Split` reads the fresh id; every other action steps the same way
/// whatever id stands by.
pub proof fn lemma_step_id_irrelevant(s: Seq<BlockModel>, a: BlockAction, n1: u128, n2: u128)
    requires
        !(a matches BlockAction::Split { .. }),
    ensures
        step_forest(s, a, n1) == step_forest(s, a, n2),
    decreases s, s.len() + 1,
{
    if !has_id(s, source_id(a)) {
        lemma_step_below_id_irrelevant(s, 0, a, n1, n2);
    }
}

/// The descent case of `lemma_step_id_irrelevant`.
pub proof fn lemma_step_below_id_irrelevant(
    s: Seq<BlockModel>,
    i: int,
    a: BlockAction,
    n1: u128,
    n2: u128,
)
    requires
        !(a matches BlockAction::Split { .. }),
    ensures
        step_below(s, i, a, n1) == step_below(s, i, a, n2),
    decreases s, s.len() - i,
{
    if 0 <= i < s.len() {
        lemma_step_id_irrelevant(s[i].children, a, n1, n2);
        match step_forest(s[i].children, a, n1).1 {
            Outcome::NotFound => lemma_step_below_id_irrelevant(s, i + 1, a, n1, n2),
            _ => {},
        }
    }
}

} // verus!
