use otzar::Block;
use otzar::BlockAction;
use otzar::BlockTree;
use otzar::Outcome;
use otzar::tree::step_in_list;

fn block(id: u128, text: &str) -> Block {
    Block::with_id(id, text.to_string())
}

fn split(id: u128) -> BlockAction {
    BlockAction::Split { id, content_after: String::new() }
}

fn two_roots() -> BlockTree {
    BlockTree { roots: vec![block(1, "a"), block(2, "b")] }
}

fn check_no_duplicates(list: &Vec<Block>, seen: &mut Vec<u128>) {
    for b in list.iter() {
        assert!(!seen.contains(&b.id), "duplicate id in the tree");
        seen.push(b.id);
        check_no_duplicates(&b.children, seen);
    }
}

#[test]
fn new_block_defaults() {
    let b = Block::new("hello");
    assert_eq!(b.content, "hello");
    assert!(b.children.is_empty());
    assert!(!b.collapsed);
    assert!(!b.is_editing);
}

#[test]
fn new_blocks_get_distinct_ids() {
    let a = Block::new("a");
    let b = Block::new("b");
    assert_ne!(a.id, b.id);
}

#[test]
fn block_tree_new_is_empty() {
    let t = BlockTree::new();
    assert!(t.roots.is_empty());
}

#[test]
fn split_inserts_new_editing_block() {
    let mut t = two_roots();
    t.handle_with_id(&split(1), 99);
    assert_eq!(t.roots.len(), 3);
    assert_eq!(t.roots[0].id, 1);
    assert_eq!(t.roots[1].id, 99);
    assert_eq!(t.roots[2].id, 2);
    assert!(t.roots[1].is_editing);
    assert_eq!(t.roots[1].content, "");
    assert!(t.roots[1].children.is_empty());
    assert!(!t.roots[1].collapsed);
}

#[test]
fn split_with_stale_id_is_noop() {
    let mut t = two_roots();
    t.handle_with_id(&split(77), 99);
    assert_eq!(t.roots.len(), 2);
    assert_eq!(t.roots[0].id, 1);
    assert_eq!(t.roots[1].id, 2);
}

#[test]
fn split_refuses_colliding_id() {
    let mut t = two_roots();
    t.handle_with_id(&split(1), 2);
    assert_eq!(t.roots.len(), 2);
    assert_eq!(t.roots[0].id, 1);
    assert_eq!(t.roots[1].id, 2);
}

#[test]
fn handle_split_uses_an_unseen_id() {
    let mut t = two_roots();
    t.handle(&split(2));
    assert_eq!(t.roots.len(), 3);
    assert_ne!(t.roots[2].id, 1);
    assert_ne!(t.roots[2].id, 2);
    assert!(t.roots[2].is_editing);
}

#[test]
fn merge_up_at_zero_is_noop() {
    let mut t = two_roots();
    t.handle(&BlockAction::MergeUp { id: 1 });
    assert_eq!(t.roots.len(), 2);
    assert_eq!(t.roots[0].id, 1);
    assert_eq!(t.roots[1].id, 2);
    assert!(!t.roots[0].is_editing);
    assert!(!t.roots[1].is_editing);
}

#[test]
fn merge_up_removes_and_refocuses() {
    let mut t = BlockTree { roots: vec![block(1, "a"), block(2, "b"), block(3, "c")] };
    t.handle(&BlockAction::MergeUp { id: 2 });
    assert_eq!(t.roots.len(), 2);
    assert_eq!(t.roots[0].id, 1);
    assert_eq!(t.roots[1].id, 3);
    assert!(t.roots[0].is_editing);
    assert!(!t.roots[1].is_editing);
}

#[test]
fn merge_up_with_stale_id_is_noop() {
    let mut t = two_roots();
    t.handle(&BlockAction::MergeUp { id: 42 });
    assert_eq!(t.roots.len(), 2);
}

#[test]
fn indent_moves_into_previous_sibling() {
    let mut t = two_roots();
    t.handle(&BlockAction::Indent { id: 2 });
    assert_eq!(t.roots.len(), 1);
    assert_eq!(t.roots[0].id, 1);
    assert!(!t.roots[0].collapsed);
    assert_eq!(t.roots[0].children.len(), 1);
    assert_eq!(t.roots[0].children[0].id, 2);
    assert_eq!(t.roots[0].children[0].content, "b");
    assert!(t.roots[0].children[0].is_editing);
}

#[test]
fn indent_reopens_a_collapsed_target() {
    let mut a = block(1, "a");
    a.collapsed = true;
    let mut t = BlockTree { roots: vec![a, block(2, "b")] };
    t.handle(&BlockAction::Indent { id: 2 });
    assert_eq!(t.roots.len(), 1);
    assert!(!t.roots[0].collapsed);
    assert_eq!(t.roots[0].children.len(), 1);
}

#[test]
fn indent_at_zero_is_noop_any_number_of_times() {
    let mut t = two_roots();
    for _ in 0..5 {
        t.handle(&BlockAction::Indent { id: 1 });
        assert_eq!(t.roots.len(), 2);
        assert_eq!(t.roots[0].id, 1);
        assert_eq!(t.roots[1].id, 2);
        assert!(t.roots[0].children.is_empty());
        assert!(!t.roots[0].is_editing);
    }
}

#[test]
fn outdent_is_forwarded_not_resolved_by_parent() {
    let mut list = vec![block(5, "child")];
    let oc = step_in_list(&mut list, &BlockAction::Outdent { id: 5 }, 0);
    assert_eq!(oc, Outcome::Forwarded);
    assert_eq!(list.len(), 1);
    assert_eq!(list[0].id, 5);
}

#[test]
fn outdent_moves_block_after_former_parent() {
    let mut a = block(1, "a");
    a.children.push(block(2, "b"));
    a.children.push(block(3, "c"));
    let mut t = BlockTree { roots: vec![a, block(4, "d")] };
    t.handle(&BlockAction::Outdent { id: 2 });
    assert_eq!(t.roots.len(), 3);
    assert_eq!(t.roots[0].id, 1);
    assert_eq!(t.roots[1].id, 2);
    assert_eq!(t.roots[2].id, 4);
    assert_eq!(t.roots[0].children.len(), 1);
    assert_eq!(t.roots[0].children[0].id, 3);
}

#[test]
fn outdent_of_a_root_is_noop() {
    let mut t = two_roots();
    t.handle(&BlockAction::Outdent { id: 1 });
    assert_eq!(t.roots.len(), 2);
    assert_eq!(t.roots[0].id, 1);
    assert_eq!(t.roots[1].id, 2);
}

#[test]
fn end_to_end_indent_then_outdent_restores_roots() {
    let mut t = two_roots();
    t.handle(&BlockAction::Indent { id: 2 });
    assert_eq!(t.roots.len(), 1);
    assert_eq!(t.roots[0].children.len(), 1);
    t.handle(&BlockAction::Outdent { id: 2 });
    assert_eq!(t.roots.len(), 2);
    assert_eq!(t.roots[0].id, 1);
    assert_eq!(t.roots[1].id, 2);
    assert_eq!(t.roots[0].content, "a");
    assert_eq!(t.roots[1].content, "b");
    assert!(t.roots[0].children.is_empty());
}

#[test]
fn next_and_prev_leave_the_tree_unchanged() {
    let mut t = two_roots();
    t.handle(&BlockAction::Next { id: 1 });
    t.handle(&BlockAction::Prev { id: 2 });
    assert_eq!(t.roots.len(), 2);
    assert_eq!(t.roots[0].id, 1);
    assert_eq!(t.roots[1].id, 2);
    assert!(!t.roots[0].is_editing);
    assert!(!t.roots[1].is_editing);
}

#[test]
fn split_resolves_inside_a_child_list() {
    let mut a = block(1, "a");
    a.children.push(block(2, "b"));
    a.children.push(block(3, "c"));
    let mut t = BlockTree { roots: vec![a] };
    t.handle_with_id(&split(2), 9);
    assert_eq!(t.roots.len(), 1);
    assert_eq!(t.roots[0].children.len(), 3);
    assert_eq!(t.roots[0].children[0].id, 2);
    assert_eq!(t.roots[0].children[1].id, 9);
    assert_eq!(t.roots[0].children[2].id, 3);
    assert!(t.roots[0].children[1].is_editing);
}

#[test]
fn merge_up_resolves_inside_a_child_list() {
    let mut a = block(1, "a");
    a.children.push(block(2, "b"));
    a.children.push(block(3, "c"));
    let mut t = BlockTree { roots: vec![a] };
    t.handle(&BlockAction::MergeUp { id: 3 });
    assert_eq!(t.roots[0].children.len(), 1);
    assert_eq!(t.roots[0].children[0].id, 2);
    assert!(t.roots[0].children[0].is_editing);
}

#[test]
fn contains_id_searches_the_whole_tree() {
    let mut a = block(1, "a");
    let mut b = block(2, "b");
    b.children.push(block(3, "c"));
    a.children.push(b);
    let t = BlockTree { roots: vec![a] };
    assert!(t.contains_id(1));
    assert!(t.contains_id(2));
    assert!(t.contains_id(3));
    assert!(!t.contains_id(4));
}

#[test]
fn ids_stay_unique_under_action_sequences() {
    let mut t = BlockTree { roots: vec![Block::new("a"), Block::new("b"), Block::new("c")] };
    let ids: Vec<u128> = t.roots.iter().map(|b| b.id).collect();
    t.handle(&split(ids[0]));
    t.handle(&BlockAction::Indent { id: ids[1] });
    t.handle(&split(ids[1]));
    t.handle(&BlockAction::Outdent { id: ids[1] });
    t.handle(&BlockAction::MergeUp { id: ids[2] });
    t.handle(&split(ids[0]));
    t.handle(&BlockAction::Indent { id: ids[0] });
    let mut seen: Vec<u128> = Vec::new();
    check_no_duplicates(&t.roots, &mut seen);
    assert!(!seen.is_empty());
}
