use exprkit::tree::Tree;

fn sample() -> Tree<i32> {
    let mut tree: Tree<i32> = Tree::new();
    for key in [50, 30, 70, 20, 40, 60, 80, 35] {
        assert!(tree.insert(key));
    }
    tree
}

#[test]
fn tree_new_is_empty() {
    let tree: Tree<i32> = Tree::new();
    assert_eq!(tree, Tree { key: None, left: None, right: None });
    assert!(!tree.find(&0));
    assert!(tree.preorder().is_empty());
    assert!(tree.inorder().is_empty());
    assert!(tree.postorder().is_empty());
}

#[test]
fn tree_insert_says_whether_the_key_is_new() {
    let mut tree: Tree<i32> = Tree::new();
    assert!(tree.insert(5));
    assert!(!tree.insert(5));
    assert!(tree.insert(3));
    assert!(tree.insert(8));
    assert!(!tree.insert(3));
    assert!(!tree.insert(8));
}

#[test]
fn tree_insert_of_a_known_key_changes_nothing() {
    let mut tree = sample();
    assert!(!tree.insert(40));
    assert_eq!(tree, sample());
}

#[test]
fn tree_insert_puts_the_key_where_the_search_ends() {
    let mut tree: Tree<i32> = Tree::new();
    tree.insert(2);
    tree.insert(1);
    tree.insert(3);
    assert_eq!(
        tree,
        Tree {
            key: Some(2),
            left: Some(Box::new(Tree { key: Some(1), left: None, right: None })),
            right: Some(Box::new(Tree { key: Some(3), left: None, right: None })),
        }
    );
}

#[test]
fn tree_find_after_insert() {
    let tree = sample();
    for key in [50, 30, 70, 20, 40, 60, 80, 35] {
        assert!(tree.find(&key));
    }
    for key in [0, 25, 34, 36, 45, 55, 65, 75, 90] {
        assert!(!tree.find(&key));
    }
}

#[test]
fn tree_traversals() {
    let tree = sample();
    assert_eq!(tree.preorder(), vec![&50, &30, &20, &40, &35, &70, &60, &80]);
    assert_eq!(tree.inorder(), vec![&20, &30, &35, &40, &50, &60, &70, &80]);
    assert_eq!(tree.postorder(), vec![&20, &35, &40, &30, &60, &80, &70, &50]);
}

#[test]
fn tree_inorder_is_ascending() {
    let mut tree: Tree<i32> = Tree::new();
    for key in [9, -3, 14, 0, 7, 7, -3, 22, 1] {
        tree.insert(key);
    }
    let keys = tree.inorder();
    assert_eq!(keys, vec![&-3, &0, &1, &7, &9, &14, &22]);
    for pair in keys.windows(2) {
        assert!(pair[0] < pair[1]);
    }
}

#[test]
fn tree_traversals_list_the_same_keys() {
    let tree = sample();
    let mut pre: Vec<i32> = tree.preorder().into_iter().copied().collect();
    let mut post: Vec<i32> = tree.postorder().into_iter().copied().collect();
    let inorder: Vec<i32> = tree.inorder().into_iter().copied().collect();
    pre.sort();
    post.sort();
    assert_eq!(pre, inorder);
    assert_eq!(post, inorder);
}

#[test]
fn tree_of_descending_keys_leans_left() {
    let mut tree: Tree<i32> = Tree::new();
    tree.insert(3);
    tree.insert(2);
    tree.insert(1);
    assert_eq!(tree.preorder(), vec![&3, &2, &1]);
    assert_eq!(tree.postorder(), vec![&1, &2, &3]);
    assert!(tree.right.is_none());
}

#[test]
fn tree_of_texts() {
    let mut tree: Tree<String> = Tree::new();
    assert!(tree.insert("pear".to_string()));
    assert!(tree.insert("apple".to_string()));
    assert!(tree.insert("quince".to_string()));
    assert!(!tree.insert("apple".to_string()));
    assert!(tree.find(&"quince".to_string()));
    assert!(!tree.find(&"plum".to_string()));
    let keys: Vec<&str> = tree.inorder().into_iter().map(|k| k.as_str()).collect();
    assert_eq!(keys, vec!["apple", "pear", "quince"]);
}
