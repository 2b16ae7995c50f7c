//! The executable tree: an ordered forest of root blocks, the per-list
//! handlers, and the dispatch that walks the forest to the list responsible
//! for an action and applies the protocol there.

use vstd::prelude::*;

use crate::block::Block;
use crate::block::BlockAction;
use crate::block::BlockModel;
use crate::block::block_model;
use crate::block::forest_model;
use crate::block::fresh_id;
use crate::block::lemma_forest_model;
use crate::block::lemma_forest_model_insert;
use crate::block::lemma_forest_model_push;
use crate::block::lemma_forest_model_remove;
use crate::laws::block_count;
use crate::laws::deep_has_id;
use crate::laws::forest_count;
use crate::laws::lemma_count_at;
use crate::laws::lemma_count_push;
use crate::laws::lemma_handle_keeps_unique;
use crate::laws::unique_ids;
use crate::protocol::Outcome;
use crate::protocol::fresh_model;
use crate::protocol::handle_forest;
use crate::protocol::has_id;
use crate::protocol::indent_list;
use crate::protocol::index_of_id;
use crate::protocol::lemma_index_of_id;
use crate::protocol::lemma_step_id_irrelevant;
use crate::protocol::lemma_step_props;
use crate::protocol::merge_up_list;
use crate::protocol::outdent_list;
use crate::protocol::refocus;
use crate::protocol::source_id;
use crate::protocol::split_list;
use crate::protocol::step_below;
use crate::protocol::step_forest;

verus! {

/// The id the action carries.
pub fn action_id(action: &BlockAction) -> (r: u128)
    ensures
        r == source_id(*action),
{
    match action {
        BlockAction::Split { id, .. } => *id,
        BlockAction::MergeUp { id } => *id,
        BlockAction::Indent { id } => *id,
        BlockAction::Outdent { id } => *id,
        BlockAction::Next { id } => *id,
        BlockAction::Prev { id } => *id,
    }
}

/// Position of the first block of this one list that carries the id.
fn position_of(list: &Vec<Block>, id: u128) -> (r: Option<usize>)
    ensures
        match r {
            Some(p) => p < list@.len() && index_of_id(forest_model(list@), id) == p as int
                && has_id(forest_model(list@), id),
            None => !has_id(forest_model(list@), id),
        },
{
    let ghost s0 = forest_model(list@);
    proof {
        lemma_forest_model(list@);
        lemma_index_of_id(s0, id);
    }
    let mut i: usize = 0;
    while i < list.len()
        invariant
            i <= list@.len(),
            s0 == forest_model(list@),
            s0.len() == list@.len(),
            forall|j: int| 0 <= j < list@.len() ==> s0[j] == block_model(list@[j]),
            forall|j: int| 0 <= j < i ==> s0[j].id != id,
            has_id(s0, id) <==> index_of_id(s0, id) != -1,
            has_id(s0, id) ==> 0 <= index_of_id(s0, id) < s0.len(),
            has_id(s0, id) ==> s0[index_of_id(s0, id)].id == id,
            has_id(s0, id) ==> forall|j: int| 0 <= j < index_of_id(s0, id) ==> s0[j].id != id,
        decreases list@.len() - i,
    {
        if list[i].id == id {
            proof {
                assert(s0[i as int].id == id);
            }
            return Some(i);
        }
        i += 1;
    }
    None
}

/// `Split` applied to one list, as `split_list` says: a new empty block in
/// edit mode, under the given id, right after the source block; a stale
/// source id is a no-op.
pub fn split_in_list(list: &mut Vec<Block>, src: u128, new_id: u128)
    ensures
        forest_model(final(list)@) == split_list(forest_model(old(list)@), src, new_id),
{
    let ghost s0 = forest_model(old(list)@);
    let pos = position_of(list, src);
    match pos {
        Some(p) => {
            let mut nb = Block::with_id(new_id, String::new());
            nb.is_editing = true;
            let n: usize = list.len();
            proof {
                assert(block_model(nb) == fresh_model(new_id));
                lemma_forest_model(old(list)@);
                assert(p < n);
                lemma_forest_model_insert(old(list)@, p + 1, nb);
            }
            list.insert(p + 1, nb);
        },
        None => {},
    }
}

/// `MergeUp` applied to one list, as `merge_up_list` says: the source block
/// is removed with its subtree and the preceding sibling takes the focus; at
/// position 0, and on a stale id, a no-op.
pub fn merge_up_in_list(list: &mut Vec<Block>, src: u128)
    ensures
        forest_model(final(list)@) == merge_up_list(forest_model(old(list)@), src),
{
    let ghost s0 = forest_model(old(list)@);
    proof {
        lemma_forest_model(old(list)@);
    }
    let pos = position_of(list, src);
    match pos {
        Some(p) => {
            if p > 0 {
                list.remove(p);
                let mut prev = list.remove(p - 1);
                prev.is_editing = true;
                list.insert(p - 1, prev);
                proof {
                    lemma_forest_model_remove(old(list)@, p as int);
                    lemma_forest_model_remove(old(list)@.remove(p as int), p - 1);
                    lemma_forest_model_insert(
                        old(list)@.remove(p as int).remove(p - 1),
                        p - 1,
                        prev,
                    );
                    assert(block_model(prev) == refocus(s0[p - 1]));
                    assert(forest_model(list@) =~= s0.remove(p as int).update(
                        p - 1,
                        refocus(s0[p - 1]),
                    ));
                }
            }
        },
        None => {},
    }
}

/// `Indent` applied to one list, as `indent_list` says: the source block
/// becomes the last child of its preceding sibling, which is forced open, and
/// the moved block takes the focus; at position 0, and on a stale id, a
/// no-op.
pub fn indent_in_list(list: &mut Vec<Block>, src: u128)
    ensures
        forest_model(final(list)@) == indent_list(forest_model(old(list)@), src),
{
    let ghost s0 = forest_model(old(list)@);
    proof {
        lemma_forest_model(old(list)@);
    }
    let pos = position_of(list, src);
    match pos {
        Some(p) => {
            if p > 0 {
                let mut moved = list.remove(p);
                moved.is_editing = true;
                let mut target = list.remove(p - 1);
                let ghost t0 = target;
                target.children.push(moved);
                target.collapsed = false;
                list.insert(p - 1, target);
                proof {
                    lemma_forest_model_remove(old(list)@, p as int);
                    lemma_forest_model_remove(old(list)@.remove(p as int), p - 1);
                    lemma_forest_model_insert(
                        old(list)@.remove(p as int).remove(p - 1),
                        p - 1,
                        target,
                    );
                    lemma_forest_model_push(t0.children@, moved);
                    assert(block_model(moved) == refocus(s0[p as int]));
                    assert(block_model(t0) == s0[p - 1]);
                    assert(block_model(target) == (BlockModel {
                        children: s0[p - 1].children.push(refocus(s0[p as int])),
                        collapsed: false,
                        ..s0[p - 1]
                    }));
                    assert(forest_model(list@) =~= s0.remove(p as int).update(
                        p - 1,
                        block_model(target),
                    ));
                }
            }
        },
        None => {},
    }
}

/// A forwarded `Outdent` resolved at this list, as `outdent_list` says: the
/// source block leaves the children of the entry at `i` and reappears right
/// after that entry.
fn outdent_child(list: &mut Vec<Block>, i: usize, src: u128)
    requires
        i < old(list)@.len(),
        has_id(forest_model(old(list)@[i as int].children@), src),
    ensures
        forest_model(final(list)@) == outdent_list(forest_model(old(list)@), i as int, src),
{
    let ghost s0 = forest_model(old(list)@);
    proof {
        lemma_forest_model(old(list)@);
        assert(s0[i as int].children == forest_model(old(list)@[i as int].children@));
    }
    let ghost v0 = list@;
    let mut b = list.remove(i);
    let kpos = position_of(&b.children, src);
    match kpos {
        Some(k) => {
            let ghost c0 = b.children@;
            let moved = b.children.remove(k);
            list.insert(i, b);
            let n: usize = list.len();
            proof {
                assert(i < n);
            }
            list.insert(i + 1, moved);
            proof {
                lemma_forest_model_remove(c0, k as int);
                lemma_forest_model(c0);
                assert(block_model(moved) == s0[i as int].children[k as int]);
                assert(block_model(b) == (BlockModel {
                    children: s0[i as int].children.remove(k as int),
                    ..s0[i as int]
                }));
                assert(list@ =~= v0.update(i as int, b).insert(i + 1, moved));
                lemma_forest_model(v0.update(i as int, b));
                lemma_forest_model_insert(v0.update(i as int, b), i + 1, moved);
                assert(forest_model(v0.update(i as int, b)) =~= s0.update(
                    i as int,
                    block_model(b),
                ));
                lemma_index_of_id(s0[i as int].children, src);
                assert(forest_model(list@) =~= outdent_list(s0, i as int, src));
            }
        },
        None => {
            proof {
                assert(false);
            }
        },
    }
}

/// Dispatch one action over one list and the subtrees below it, exactly as
/// `step_forest` says: resolve `Split`, `MergeUp` and `Indent` in the list
/// that holds the source block, hand `Outdent` back to the caller, resolve a
/// forwarded `Outdent` at the list that holds the former parent, and report a
/// stale id untouched.
pub fn step_in_list(list: &mut Vec<Block>, action: &BlockAction, new_id: u128) -> (oc: Outcome)
    ensures
        forest_model(final(list)@) == step_forest(forest_model(old(list)@), *action, new_id).0,
        oc == step_forest(forest_model(old(list)@), *action, new_id).1,
    decreases *old(list), 1int,
{
    let ghost s0 = forest_model(old(list)@);
    let src = action_id(action);
    let pos = position_of(list, src);
    match pos {
        Some(_) => {
            match action {
                BlockAction::Split { .. } => {
                    split_in_list(list, src, new_id);
                    Outcome::Resolved
                },
                BlockAction::MergeUp { .. } => {
                    merge_up_in_list(list, src);
                    Outcome::Resolved
                },
                BlockAction::Indent { .. } => {
                    indent_in_list(list, src);
                    Outcome::Resolved
                },
                BlockAction::Outdent { .. } => Outcome::Forwarded,
                BlockAction::Next { .. } => Outcome::Resolved,
                BlockAction::Prev { .. } => Outcome::Resolved,
            }
        },
        None => step_descend(list, action, new_id),
    }
}

/// The descent of the dispatch: try the subtrees of the entries in order, as
/// `step_below` says.
#[verifier::rlimit(30)]
fn step_descend(list: &mut Vec<Block>, action: &BlockAction, new_id: u128) -> (oc: Outcome)
    requires
        !has_id(forest_model(old(list)@), source_id(*action)),
    ensures
        forest_model(final(list)@) == step_below(
            forest_model(old(list)@),
            0,
            *action,
            new_id,
        ).0,
        oc == step_below(forest_model(old(list)@), 0, *action, new_id).1,
    decreases *old(list), 0int,
{
    let ghost s0 = forest_model(old(list)@);
    proof {
        lemma_forest_model(old(list)@);
    }
    let src = action_id(action);
    let mut i: usize = 0;
    while i < list.len()
        invariant
            i <= list@.len(),
            list@.len() == old(list)@.len(),
            s0 == forest_model(old(list)@),
            s0.len() == old(list)@.len(),
            forall|j: int| 0 <= j < old(list)@.len() ==> s0[j] == block_model(old(list)@[j]),
            list@.skip(i as int) == old(list)@.skip(i as int),
            forall|j: int| 0 <= j < i ==> block_model(list@[j]) == s0[j],
            step_below(s0, 0, *action, new_id) == step_below(s0, i as int, *action, new_id),
            src == source_id(*action),
        decreases list@.len() - i,
    {
        proof {
            assert(list@[i as int] == list@.skip(i as int)[0]);
            assert(list@[i as int] == old(list)@[i as int]);
        }
        let ghost v1 = list@;
        let mut b = list.remove(i);
        proof {
            assert(b == old(list)@[i as int]);
            assert(decreases_to!(old(list)@ => old(list)@[i as int]));
            assert(decreases_to!(old(list)@[i as int] => old(list)@[i as int].children));
            assert(forest_model(b.children@) == s0[i as int].children);
        }
        let oc = step_in_list(&mut b.children, action, new_id);
        let ghost r = step_forest(s0[i as int].children, *action, new_id);
        match oc {
            Outcome::Resolved => {
                list.insert(i, b);
                proof {
                    assert(list@ =~= v1.update(i as int, b));
                    lemma_forest_model(list@);
                    assert forall|j: int|
                        0 <= j < s0.len() && j != i as int implies block_model(list@[j])
                        == s0[j] by {
                        if j > i as int {
                            assert(v1[j] == v1.skip(i as int)[j - i as int]);
                            assert(old(list)@[j] == old(list)@.skip(i as int)[j - i as int]);
                        }
                    }
                    assert(block_model(b) == (BlockModel { children: r.0, ..s0[i as int] }));
                    assert(forest_model(list@) =~= s0.update(
                        i as int,
                        BlockModel { children: r.0, ..s0[i as int] },
                    ));
                }
                return Outcome::Resolved;
            },
            Outcome::Forwarded => {
                list.insert(i, b);
                proof {
                    lemma_step_props(s0[i as int].children, *action, new_id);
                    assert(list@ =~= v1.update(i as int, b));
                    assert(block_model(b) == s0[i as int]);
                    lemma_forest_model(list@);
                    assert forall|j: int|
                        0 <= j < s0.len() && j != i as int implies block_model(list@[j])
                        == s0[j] by {
                        if j > i as int {
                            assert(v1[j] == v1.skip(i as int)[j - i as int]);
                            assert(old(list)@[j] == old(list)@.skip(i as int)[j - i as int]);
                        }
                    }
                    assert(forest_model(list@) =~= s0);
                    assert(forest_model(list@[i as int].children@) == s0[i as int].children);
                }
                outdent_child(list, i, src);
                proof {
                    assert(outdent_list(forest_model(v1.update(i as int, b)), i as int, src)
                        == outdent_list(s0, i as int, src));
                }
                return Outcome::Resolved;
            },
            Outcome::NotFound => {
                list.insert(i, b);
                proof {
                    lemma_step_props(s0[i as int].children, *action, new_id);
                    assert(forest_model(b.children@) == s0[i as int].children);
                    assert(block_model(b) == s0[i as int]);
                    assert(list@ =~= v1.update(i as int, b));
                    assert forall|j: int|
                        i as int + 1 <= j < s0.len() implies list@[j] == old(list)@[j] by {
                        assert(v1[j] == v1.skip(i as int)[j - i as int]);
                        assert(old(list)@[j] == old(list)@.skip(i as int)[j - i as int]);
                    }
                    assert(list@.skip(i + 1) =~= old(list)@.skip(i + 1));
                }
                i += 1;
            },
        }
    }
    proof {
        lemma_forest_model(list@);
        assert forall|j: int| 0 <= j < s0.len() implies block_model(list@[j]) == s0[j] by {}
        assert(forest_model(list@) =~= s0);
    }
    Outcome::NotFound
}

/// An ordered forest of root blocks: the whole document. It owns the top
/// level, so it is the terminal handler of anything that bubbles past the
/// last ancestor.
pub struct BlockTree {
    pub roots: Vec<Block>,
}

impl View for BlockTree {
    type V = Seq<BlockModel>;

    open spec fn view(&self) -> Seq<BlockModel> {
        forest_model(self.roots@)
    }
}

/// Does the id occur anywhere in this list or below it?
pub fn contains_id_deep(list: &Vec<Block>, id: u128) -> (r: bool)
    ensures
        r == deep_has_id(forest_model(list@), id),
    decreases list@,
{
    let ghost s0 = forest_model(list@);
    proof {
        lemma_forest_model(list@);
    }
    let mut i: usize = 0;
    while i < list.len()
        invariant
            i <= list@.len(),
            s0 == forest_model(list@),
            s0.len() == list@.len(),
            forall|j: int| 0 <= j < list@.len() ==> s0[j] == block_model(list@[j]),
            forest_count(s0.take(i as int), id) == 0,
        decreases list@.len() - i,
    {
        proof {
            assert(decreases_to!(list@ => list@[i as int]));
            assert(decreases_to!(list@[i as int] => list@[i as int].children));
        }
        if list[i].id == id {
            proof {
                lemma_count_at(s0, id, i as int);
            }
            return true;
        }
        if contains_id_deep(&list[i].children, id) {
            proof {
                lemma_count_at(s0, id, i as int);
                assert(forest_model(list@[i as int].children@) == s0[i as int].children);
            }
            return true;
        }
        proof {
            assert(s0.take(i + 1) =~= s0.take(i as int).push(s0[i as int]));
            lemma_count_push(s0.take(i as int), id, s0[i as int]);
            assert(forest_model(list@[i as int].children@) == s0[i as int].children);
            assert(block_count(s0[i as int], id) == 0);
        }
        i += 1;
    }
    proof {
        assert(s0.take(list@.len() as int) =~= s0);
    }
    false
}

impl BlockTree {
    /// Every id is unique across the whole tree: the structural invariant the
    /// handlers keep.
    pub open spec fn wf(&self) -> bool {
        unique_ids(self@)
    }

    /// An empty document.
    pub fn new() -> (t: BlockTree)
        ensures
            t@ == Seq::<BlockModel>::empty(),
            t.wf(),
    {
        BlockTree { roots: Vec::new() }
    }

    /// Does the id occur anywhere in the tree?
    pub fn contains_id(&self, id: u128) -> (r: bool)
        ensures
            r == deep_has_id(self@, id),
    {
        contains_id_deep(&self.roots, id)
    }

    /// Handle one action with a caller-chosen id for the block a `Split`
    /// would insert. A `Split` whose id already occurs in the tree is refused
    /// as a no-op, so uniqueness is kept whatever id is passed; every other
    /// action ignores the id. This is the deterministic heart of `handle`.
    pub fn handle_with_id(&mut self, action: &BlockAction, new_id: u128)
        ensures
            ((*action matches BlockAction::Split { .. }) && deep_has_id(old(self)@, new_id))
                ==> final(self)@ == old(self)@,
            !((*action matches BlockAction::Split { .. }) && deep_has_id(old(self)@, new_id))
                ==> final(self)@ == handle_forest(old(self)@, *action, new_id),
            old(self).wf() ==> final(self).wf(),
    {
        let refuse = match action {
            BlockAction::Split { .. } => contains_id_deep(&self.roots, new_id),
            _ => false,
        };
        if refuse {
            return ;
        }
        step_in_list(&mut self.roots, action, new_id);
        proof {
            if old(self).wf() {
                lemma_handle_keeps_unique(old(self)@, *action, new_id);
            }
        }
    }

    /// Handle one action, as the interactive layer raises it. The block a
    /// `Split` inserts gets a freshly drawn id; since the draw is random, all
    /// that is promised of a `Split` is that it either inserted a block under
    /// some id the tree did not hold, or — should the draw collide — left the
    /// tree unchanged. Every other action behaves exactly as `handle_forest`
    /// says. Uniqueness of ids is kept in every case.
    pub fn handle(&mut self, action: &BlockAction)
        ensures
            !(*action matches BlockAction::Split { .. }) ==> final(self)@ == handle_forest(
                old(self)@,
                *action,
                0,
            ),
            (*action matches BlockAction::Split { .. }) ==> (final(self)@ == old(self)@
                || exists|nid: u128|
                !deep_has_id(old(self)@, nid) && final(self)@ == handle_forest(
                    old(self)@,
                    *action,
                    nid,
                )),
            old(self).wf() ==> final(self).wf(),
    {
        let nid = fresh_id();
        self.handle_with_id(action, nid);
        proof {
            if !(*action matches BlockAction::Split { .. }) {
                lemma_step_id_irrelevant(old(self)@, *action, nid, 0);
            }
        }
    }
}

} // verus!
