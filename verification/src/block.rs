//! The outline's tree node and the intents it can raise, together with the
//! mathematical model that every contract of this crate speaks over.

use vstd::prelude::*;

verus! {

/// A node of the outline: identity, editable text, ordered children owned
/// exclusively by this block, and the two display flags.
pub struct Block {
    /// Globally unique identifier, immutable for the block's lifetime; blocks
    /// are located inside a list by this id, never by content.
    pub id: u128,
    /// The block's editable text.
    pub content: String,
    /// Ordered child blocks; insertion order is document order.
    pub children: Vec<Block>,
    /// When true the children are not shown; they stay in the model.
    pub collapsed: bool,
    /// Edit-focus flag; the handler of a mutation sets it on the block that
    /// is to receive the keyboard next.
    pub is_editing: bool,
}

/// An intent raised by a block toward the list that owns it. Every variant
/// carries the id of the block that raised it.
pub enum BlockAction {
    /// A new empty block, in edit mode, should follow the source block.
    Split { id: u128, content_after: String },
    /// The source block should be removed and its preceding sibling focused.
    MergeUp { id: u128 },
    /// The source block should become the last child of its preceding sibling.
    Indent { id: u128 },
    /// The source block should leave its child list and become a sibling
    /// immediately after its former parent.
    Outdent { id: u128 },
    /// Focus should move to the block below the source block.
    Next { id: u128 },
    /// Focus should move to the block above the source block.
    Prev { id: u128 },
}

/// Mathematical image of a `Block`: the same fields over `Seq`.
pub ghost struct BlockModel {
    pub id: u128,
    pub content: Seq<char>,
    pub children: Seq<BlockModel>,
    pub collapsed: bool,
    pub is_editing: bool,
}

/// The model of one block, children modelled recursively.
pub open spec fn block_model(b: Block) -> BlockModel
    decreases b,
{
    BlockModel {
        id: b.id,
        content: b.content@,
        children: forest_model(b.children@),
        collapsed: b.collapsed,
        is_editing: b.is_editing,
    }
}

/// The model of an ordered list of blocks, element by element.
pub open spec fn forest_model(s: Seq<Block>) -> Seq<BlockModel>
    decreases s,
{
    if s.len() == 0 {
        Seq::empty()
    } else {
        seq![block_model(s[0])] + forest_model(s.drop_first())
    }
}

impl View for Block {
    type V = BlockModel;

    open spec fn view(&self) -> BlockModel {
        block_model(*self)
    }
}

/// `forest_model` maps the list pointwise.
pub proof fn lemma_forest_model(s: Seq<Block>)
    ensures
        forest_model(s).len() == s.len(),
        forall|i: int| 0 <= i < s.len() ==> forest_model(s)[i] == block_model(s[i]),
    decreases s,
{
    if s.len() > 0 {
        lemma_forest_model(s.drop_first());
        assert forall|i: int| 0 <= i < s.len() implies forest_model(s)[i] == block_model(s[i]) by {
            if i > 0 {
                assert(s.drop_first()[i - 1] == s[i]);
            }
        }
    }
}

/// Inserting into the list inserts the block's model at the same place.
pub proof fn lemma_forest_model_insert(s: Seq<Block>, p: int, b: Block)
    requires
        0 <= p <= s.len(),
    ensures
        forest_model(s.insert(p, b)) == forest_model(s).insert(p, block_model(b)),
{
    lemma_forest_model(s);
    lemma_forest_model(s.insert(p, b));
    assert(forest_model(s.insert(p, b)) =~= forest_model(s).insert(p, block_model(b)));
}

/// Removing from the list removes the block's model at the same place.
pub proof fn lemma_forest_model_remove(s: Seq<Block>, p: int)
    requires
        0 <= p < s.len(),
    ensures
        forest_model(s.remove(p)) == forest_model(s).remove(p),
{
    lemma_forest_model(s);
    lemma_forest_model(s.remove(p));
    assert(forest_model(s.remove(p)) =~= forest_model(s).remove(p));
}

/// Appending to the list appends the block's model.
pub proof fn lemma_forest_model_push(s: Seq<Block>, b: Block)
    ensures
        forest_model(s.push(b)) == forest_model(s).push(block_model(b)),
{
    lemma_forest_model(s);
    lemma_forest_model(s.push(b));
    assert(forest_model(s.push(b)) =~= forest_model(s).push(block_model(b)));
}

/// Relies on `uuid::Uuid::new_v4` for a fresh random identifier, read out as
/// an integer with `Uuid::as_u128`. The draw is random, so no contract relates
/// one result to another or to the tree; callers check freshness themselves.
#[verifier::external_body]
pub(crate) fn fresh_id() -> u128 {
    uuid::Uuid::new_v4().as_u128()
}

impl Block {
    /// A block with the given id and text, no children, expanded, not editing.
    pub fn with_id(id: u128, text: String) -> (b: Block)
        ensures
            b@.id == id,
            b@.content == text@,
            b@.children == Seq::<BlockModel>::empty(),
            !b@.collapsed,
            !b@.is_editing,
    {
        Block { id, content: text, children: Vec::new(), collapsed: false, is_editing: false }
    }

    /// A block with a freshly generated id: the given text, no children,
    /// expanded, not editing. The id is drawn at random, so nothing is
    /// promised of it.
    pub fn new(text: &str) -> (b: Block)
        ensures
            b@.content == text@,
            b@.children == Seq::<BlockModel>::empty(),
            !b@.collapsed,
            !b@.is_editing,
    {
        Block::with_id(fresh_id(), text.to_string())
    }
}

} // verus!
