//! Tree-wide id accounting, and the laws the protocol obeys: above all, that
//! a forest whose ids are unique stays that way under every action.

use vstd::prelude::*;

use crate::block::BlockAction;
use crate::block::BlockModel;
use crate::protocol::Outcome;
use crate::protocol::fresh_model;
use crate::protocol::handle_forest;
use crate::protocol::has_id;
use crate::protocol::index_of_id;
use crate::protocol::indent_list;
use crate::protocol::lemma_index_of_id;
use crate::protocol::merge_up_list;
use crate::protocol::refocus;
use crate::protocol::source_id;
use crate::protocol::split_list;
use crate::protocol::step_below;
use crate::protocol::step_forest;

verus! {

/// How often an id occurs in the whole forest, subtrees included.
pub open spec fn forest_count(s: Seq<BlockModel>, id: u128) -> nat
    decreases s,
{
    if s.len() == 0 {
        0
    } else {
        block_count(s[0], id) + forest_count(s.drop_first(), id)
    }
}

/// How often an id occurs in one block's subtree.
pub open spec fn block_count(b: BlockModel, id: u128) -> nat
    decreases b,
{
    (if b.id == id {
        1nat
    } else {
        0nat
    }) + forest_count(b.children, id)
}

/// Every id occurs at most once anywhere in the forest.
pub open spec fn unique_ids(s: Seq<BlockModel>) -> bool {
    forall|id: u128| forest_count(s, id) <= 1
}

/// The id occurs somewhere in the forest, at any depth.
pub open spec fn deep_has_id(s: Seq<BlockModel>, id: u128) -> bool {
    forest_count(s, id) > 0
}

/// Counting splits at any position of the list.
pub proof fn lemma_count_decompose(s: Seq<BlockModel>, id: u128, i: int)
    requires
        0 <= i <= s.len(),
    ensures
        forest_count(s, id) == forest_count(s.take(i), id) + forest_count(s.skip(i), id),
    decreases i,
{
    if i == 0 {
        assert(s.take(0) =~= Seq::<BlockModel>::empty());
        assert(s.skip(0) =~= s);
    } else {
        lemma_count_decompose(s.drop_first(), id, i - 1);
        assert(s.take(i).drop_first() =~= s.drop_first().take(i - 1));
        assert(s.skip(i) =~= s.drop_first().skip(i - 1));
        assert(s.take(i)[0] == s[0]);
        assert(forest_count(s.take(i), id) == block_count(s[0], id) + forest_count(
            s.drop_first().take(i - 1),
            id,
        ));
    }
}

/// Counting singles out any one entry of the list.
pub proof fn lemma_count_at(s: Seq<BlockModel>, id: u128, i: int)
    requires
        0 <= i < s.len(),
    ensures
        forest_count(s, id) == forest_count(s.take(i), id) + block_count(s[i], id)
            + forest_count(s.skip(i + 1), id),
{
    lemma_count_decompose(s, id, i);
    lemma_count_decompose(s.skip(i), id, 1);
    assert(s.skip(i).take(1) =~= seq![s[i]]);
    assert(s.skip(i).skip(1) =~= s.skip(i + 1));
    assert(forest_count(seq![s[i]], id) == block_count(s[i], id) + forest_count(
        seq![s[i]].drop_first(),
        id,
    ));
    assert(seq![s[i]].drop_first() =~= Seq::<BlockModel>::empty());
}

/// Inserting a block adds its subtree's occurrences.
pub proof fn lemma_count_insert(s: Seq<BlockModel>, id: u128, p: int, b: BlockModel)
    requires
        0 <= p <= s.len(),
    ensures
        forest_count(s.insert(p, b), id) == forest_count(s, id) + block_count(b, id),
{
    lemma_count_decompose(s, id, p);
    lemma_count_at(s.insert(p, b), id, p);
    assert(s.insert(p, b).take(p) =~= s.take(p));
    assert(s.insert(p, b).skip(p + 1) =~= s.skip(p));
}

/// Removing a block removes its subtree's occurrences.
pub proof fn lemma_count_remove(s: Seq<BlockModel>, id: u128, p: int)
    requires
        0 <= p < s.len(),
    ensures
        forest_count(s, id) == forest_count(s.remove(p), id) + block_count(s[p], id),
{
    lemma_count_at(s, id, p);
    lemma_count_decompose(s.remove(p), id, p);
    assert(s.remove(p).take(p) =~= s.take(p));
    assert(s.remove(p).skip(p) =~= s.skip(p + 1));
}

/// Replacing a block swaps its subtree's occurrences for the new one's.
pub proof fn lemma_count_update(s: Seq<BlockModel>, id: u128, p: int, b: BlockModel)
    requires
        0 <= p < s.len(),
    ensures
        forest_count(s.update(p, b), id) + block_count(s[p], id) == forest_count(s, id)
            + block_count(b, id),
{
    lemma_count_at(s, id, p);
    lemma_count_at(s.update(p, b), id, p);
    assert(s.update(p, b).take(p) =~= s.take(p));
    assert(s.update(p, b).skip(p + 1) =~= s.skip(p + 1));
}

/// Appending a block adds its subtree's occurrences.
pub proof fn lemma_count_push(s: Seq<BlockModel>, id: u128, b: BlockModel)
    ensures
        forest_count(s.push(b), id) == forest_count(s, id) + block_count(b, id),
{
    assert(s.push(b) =~= s.insert(s.len() as int, b));
    lemma_count_insert(s, id, s.len() as int, b);
}

/// Focus does not touch ids.
pub proof fn lemma_count_refocus(b: BlockModel, id: u128)
    ensures
        block_count(refocus(b), id) == block_count(b, id),
{
}

/// The id a `Split` may add is the fresh one; every other action only moves
/// or removes blocks. Stated as: an action never raises the count of an id,
/// except that an applied `Split` adds one occurrence of `new_id`.
pub proof fn lemma_step_count(s: Seq<BlockModel>, a: BlockAction, new_id: u128, id: u128)
    ensures
        forest_count(step_forest(s, a, new_id).0, id) <= forest_count(s, id) + (
        if id == new_id && (a matches BlockAction::Split { .. }) {
            1nat
        } else {
            0nat
        }),
    decreases s, s.len() + 1,
{
    let src = source_id(a);
    if has_id(s, src) {
        lemma_index_of_id(s, src);
        let p = index_of_id(s, src);
        match a {
            BlockAction::Split { .. } => {
                lemma_count_insert(s, id, p + 1, fresh_model(new_id));
            },
            BlockAction::MergeUp { .. } => {
                if p > 0 {
                    lemma_count_remove(s, id, p);
                    lemma_count_update(s.remove(p), id, p - 1, refocus(s[p - 1]));
                    assert(s.remove(p)[p - 1] == s[p - 1]);
                }
            },
            BlockAction::Indent { .. } => {
                if p > 0 {
                    let target = s[p - 1];
                    let t2 = BlockModel {
                        children: target.children.push(refocus(s[p])),
                        collapsed: false,
                        ..target
                    };
                    lemma_count_remove(s, id, p);
                    lemma_count_update(s.remove(p), id, p - 1, t2);
                    assert(s.remove(p)[p - 1] == s[p - 1]);
                    lemma_count_push(target.children, id, refocus(s[p]));
                }
            },
            _ => {},
        }
    } else {
        lemma_step_below_count(s, 0, a, new_id, id);
    }
}

/// The descent case of `lemma_step_count`.
pub proof fn lemma_step_below_count(s: Seq<BlockModel>, i: int, a: BlockAction, new_id: u128, id: u128)
    ensures
        forest_count(step_below(s, i, a, new_id).0, id) <= forest_count(s, id) + (
        if id == new_id && (a matches BlockAction::Split { .. }) {
            1nat
        } else {
            0nat
        }),
    decreases s, s.len() - i,
{
    if 0 <= i < s.len() {
        let r = step_forest(s[i].children, a, new_id);
        match r.1 {
            Outcome::Resolved => {
                lemma_step_count(s[i].children, a, new_id, id);
                lemma_count_update(s, id, i, BlockModel { children: r.0, ..s[i] });
            },
            Outcome::Forwarded => {
                let src = source_id(a);
                if has_id(s[i].children, src) {
                    let parent = s[i];
                    lemma_index_of_id(parent.children, src);
                    let k = index_of_id(parent.children, src);
                    let p2 = BlockModel { children: parent.children.remove(k), ..parent };
                    lemma_count_remove(parent.children, id, k);
                    lemma_count_update(s, id, i, p2);
                    lemma_count_insert(s.update(i, p2), id, i + 1, parent.children[k]);
                }
            },
            Outcome::NotFound => {
                lemma_step_below_count(s, i + 1, a, new_id, id);
            },
        }
    }
}

/// Uniqueness is kept: handling any action over a forest with unique ids
/// yields a forest with unique ids, provided the id a `Split` would add is
/// not already present.
pub proof fn lemma_handle_keeps_unique(s: Seq<BlockModel>, a: BlockAction, new_id: u128)
    requires
        unique_ids(s),
        a matches BlockAction::Split { .. } ==> !deep_has_id(s, new_id),
    ensures
        unique_ids(handle_forest(s, a, new_id)),
{
    assert forall|id: u128| forest_count(handle_forest(s, a, new_id), id) <= 1 by {
        lemma_step_count(s, a, new_id, id);
    }
}

/// No list of the forest — the top one or any block's children — holds two
/// entries with one id.
pub open spec fn lists_distinct(s: Seq<BlockModel>) -> bool
    decreases s,
{
    (forall|i: int, j: int|
        0 <= i < s.len() && 0 <= j < s.len() && i != j ==> s[i].id != s[j].id) && (forall|i: int|
        0 <= i < s.len() ==> lists_distinct(#[trigger] s[i].children))
}

/// Two distinct entries of one list each contribute their whole subtree's
/// occurrences to the forest's count.
pub proof fn lemma_two_positions(s: Seq<BlockModel>, i: int, j: int, id: u128)
    requires
        0 <= i < j < s.len(),
    ensures
        forest_count(s, id) >= block_count(s[i], id) + block_count(s[j], id),
{
    lemma_count_at(s, id, i);
    lemma_count_at(s.skip(i + 1), id, j - i - 1);
    assert(s.skip(i + 1)[j - i - 1] == s[j]);
}

/// Tree-wide uniqueness makes every single list free of duplicate ids.
pub proof fn lemma_unique_local(s: Seq<BlockModel>)
    requires
        unique_ids(s),
    ensures
        lists_distinct(s),
    decreases s,
{
    assert forall|i: int, j: int|
        0 <= i < s.len() && 0 <= j < s.len() && i != j implies s[i].id != s[j].id by {
        if s[i].id == s[j].id {
            let lo = if i < j {
                i
            } else {
                j
            };
            let hi = if i < j {
                j
            } else {
                i
            };
            lemma_two_positions(s, lo, hi, s[i].id);
            assert(block_count(s[lo], s[i].id) >= 1);
            assert(block_count(s[hi], s[i].id) >= 1);
        }
    }
    assert forall|i: int| 0 <= i < s.len() implies lists_distinct(#[trigger] s[i].children) by {
        assert forall|id: u128| forest_count(s[i].children, id) <= 1 by {
            lemma_count_at(s, id, i);
        }
        lemma_unique_local(s[i].children);
    }
}

/// Uniqueness, as observed: after handling any action over a forest with
/// unique ids — the id a `Split` would add being fresh — ids stay unique
/// tree-wide, so no list, roots or children, ever holds two blocks with one
/// id.
pub proof fn lemma_no_list_holds_duplicates(s: Seq<BlockModel>, a: BlockAction, new_id: u128)
    requires
        unique_ids(s),
        a matches BlockAction::Split { .. } ==> !deep_has_id(s, new_id),
    ensures
        unique_ids(handle_forest(s, a, new_id)),
        lists_distinct(handle_forest(s, a, new_id)),
{
    lemma_handle_keeps_unique(s, a, new_id);
    lemma_unique_local(handle_forest(s, a, new_id));
}

/// A split inserts exactly one block: on a list that holds the source id at
/// position p, the result is one entry longer; the entry at p + 1 is the new
/// block — carrying the given id, empty, expanded, in edit mode — and every
/// old entry keeps its place and order around it.
pub proof fn lemma_split_inserts_one(s: Seq<BlockModel>, src: u128, new_id: u128)
    requires
        has_id(s, src),
    ensures
        split_list(s, src, new_id).len() == s.len() + 1,
        split_list(s, src, new_id)[index_of_id(s, src) + 1] == fresh_model(new_id),
        fresh_model(new_id).id == new_id && fresh_model(new_id).is_editing,
        forall|j: int| 0 <= j <= index_of_id(s, src) ==> split_list(s, src, new_id)[j] == s[j],
        forall|j: int|
            index_of_id(s, src) < j < s.len() ==> split_list(s, src, new_id)[j + 1] == s[j],
{
    lemma_index_of_id(s, src);
}

/// A merge at position 0 is a no-op: there is nothing to merge into.
pub proof fn lemma_merge_up_at_zero(s: Seq<BlockModel>, src: u128)
    requires
        s.len() > 0,
        s[0].id == src,
    ensures
        merge_up_list(s, src) == s,
{
    assert(has_id(s, src));
}

/// A merge beyond position 0 removes the source block and refocuses its
/// preceding sibling: a list [A, B, C] under a merge on B becomes
/// [A in edit mode, C].
pub proof fn lemma_merge_up_removes(a: BlockModel, b: BlockModel, c: BlockModel)
    requires
        a.id != b.id,
    ensures
        merge_up_list(seq![a, b, c], b.id) == seq![refocus(a), c],
{
    let s = seq![a, b, c];
    lemma_index_of_id(s, b.id);
    assert(s[1].id == b.id);
    assert(has_id(s, b.id));
    assert(index_of_id(s, b.id) == 1);
    assert(merge_up_list(s, b.id) =~= seq![refocus(a), c]);
}

/// An indent moves the source block into its previous sibling's children: a
/// list [A, B] under an indent on B becomes [A'], where A' is A forced open
/// with B — same id, now in edit mode — appended as its last child.
pub proof fn lemma_indent_moves(a: BlockModel, b: BlockModel)
    requires
        a.id != b.id,
    ensures
        indent_list(seq![a, b], b.id).len() == 1,
        indent_list(seq![a, b], b.id)[0] == (BlockModel {
            children: a.children.push(refocus(b)),
            collapsed: false,
            ..a
        }),
        refocus(b).id == b.id && refocus(b).is_editing,
{
    let s = seq![a, b];
    lemma_index_of_id(s, b.id);
    assert(s[1].id == b.id);
    assert(has_id(s, b.id));
    assert(index_of_id(s, b.id) == 1);
    assert(indent_list(s, b.id) =~= seq![
        BlockModel { children: a.children.push(refocus(b)), collapsed: false, ..a },
    ]);
}

/// An outdent is forwarded, never resolved by the list that holds the source
/// block: that list answers `Forwarded`, untouched, and the level above — the
/// one owning the place after the former parent — applies it.
pub proof fn lemma_outdent_forwarded(s: Seq<BlockModel>, src: u128, new_id: u128)
    requires
        has_id(s, src),
    ensures
        step_forest(s, BlockAction::Outdent { id: src }, new_id).0 == s,
        step_forest(s, BlockAction::Outdent { id: src }, new_id).1 == Outcome::Forwarded,
{
}

/// `indent_list` applied over and over.
pub open spec fn iterate_indent(s: Seq<BlockModel>, src: u128, n: nat) -> Seq<BlockModel>
    decreases n,
{
    if n == 0 {
        s
    } else {
        indent_list(iterate_indent(s, src, (n - 1) as nat), src)
    }
}

/// The idempotence boundary: an indent on the first entry of a list has no
/// preceding sibling to move into, so repeating it any number of times never
/// changes the list.
pub proof fn lemma_indent_at_zero_idempotent(s: Seq<BlockModel>, src: u128, n: nat)
    requires
        s.len() > 0,
        s[0].id == src,
    ensures
        iterate_indent(s, src, n) == s,
    decreases n,
{
    if n > 0 {
        lemma_indent_at_zero_idempotent(s, src, (n - 1) as nat);
        assert(has_id(s, src));
    }
}

} // verus!
