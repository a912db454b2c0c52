use cart_route::{vec_matches, BinaryTree};

#[test]
fn bt_const() {
    let tree: BinaryTree<char> = BinaryTree::new();

    assert!(tree.root.val().is_none());
    assert!(tree.root.left().is_none());
    assert!(tree.root.right().is_none());
}

#[test]
fn bt_ins_1_num() {
    let mut tree = BinaryTree::new();
    tree.insert(1);
    assert_eq!(tree.root.val().unwrap(), &1);
}

#[test]
fn bt_ins_1_alpha() {
    let mut tree = BinaryTree::new();
    tree.insert('a');
    assert_eq!(tree.root.val().unwrap(), &'a');
}

#[test]
fn bt_ins_3_balanced_num() {
    let mut tree = BinaryTree::new();
    tree.insert(2);
    tree.insert(1);
    tree.insert(3);
    assert_eq!(tree.root.val().unwrap(), &2);
    assert_eq!(tree.root.left().unwrap().val().unwrap(), &1);
    assert_eq!(tree.root.right().unwrap().val().unwrap(), &3);
}

#[test]
fn bt_has() {
    let mut tree = BinaryTree::new();
    tree.insert('a');
    tree.insert('h');
    tree.insert('l');
    tree.insert('0');
    tree.insert('A');

    assert!(tree.has(&'a'));
    assert!(tree.has(&'l'));
    assert!(!tree.has(&'z'));
}

#[test]
fn bt_len() {
    let mut tree = BinaryTree::new();
    tree.insert('p');
    tree.insert('q');
    tree.insert('r');
    tree.insert('b');
    tree.insert('3');

    assert_eq!(tree.len(), 5);
}

#[test]
fn bt_height_0() {
    let tree = BinaryTree::<char>::new();

    assert_eq!(tree.height(), 0);
}

#[test]
fn bt_height_1() {
    let mut tree = BinaryTree::new();
    tree.insert('a');

    assert_eq!(tree.height(), 1);
}

#[test]
fn bt_height_n_degen() {
    let mut tree = BinaryTree::new();
    tree.insert('p');
    tree.insert('q');
    tree.insert('r');

    assert_eq!(tree.height(), 3);
}

#[test]
fn bt_height_n() {
    let mut tree = BinaryTree::new();
    tree.insert('p');
    tree.insert('q');
    tree.insert('r');
    tree.insert('a');
    tree.insert('b');
    tree.insert('s');

    assert_eq!(tree.height(), 4);
}

#[test]
fn bt_lum_0() {
    let tree = BinaryTree::<char>::new();

    assert_eq!(tree.lum(), 0);
}

#[test]
fn bt_lum_1() {
    let mut tree = BinaryTree::new();
    tree.insert('a');

    assert_eq!(tree.lum(), 1);
}

#[test]
fn bt_lum_n_sm() {
    let mut tree = BinaryTree::new();
    tree.insert('c');
    tree.insert('d');
    tree.insert('b');

    assert_eq!(tree.lum(), 2);
}

#[test]
fn bt_lum_n_lg() {
    let mut tree = BinaryTree::new();
    tree.insert('c');
    tree.insert('e');
    tree.insert('b');
    tree.insert('f');
    tree.insert('d');

    assert_eq!(tree.lum(), 3);
}

#[test]
fn bt_leaves_0() {
    let tree = BinaryTree::<char>::new();

    let mut v = Vec::<&char>::new();
    tree.leaves(&mut v);

    assert!(v.is_empty());
}

#[test]
fn bt_leaves_1() {
    let mut tree = BinaryTree::new();
    tree.insert('a');

    let mut v = Vec::<&char>::new();
    tree.leaves(&mut v);

    let mut w = Vec::<&char>::new();
    w.push(&'a');

    assert!(vec_matches(&v, &w))
}

#[test]
fn bt_leaves_n_sm() {
    let mut tree = BinaryTree::new();
    tree.insert('c');
    tree.insert('d');
    tree.insert('b');

    let mut v = Vec::<&char>::new();
    tree.leaves(&mut v);

    let mut w = Vec::<&char>::new();
    w.push(&'d');
    w.push(&'b');

    assert!(vec_matches(&v, &w))
}

#[test]
fn bt_leaves_n_lg() {
    let mut tree = BinaryTree::new();
    tree.insert('c');
    tree.insert('e');
    tree.insert('b');
    tree.insert('f');
    tree.insert('d');

    let mut v = Vec::<&char>::new();
    tree.leaves(&mut v);

    let mut w = Vec::<&char>::new();
    w.push(&'f');
    w.push(&'b');
    w.push(&'d');

    assert!(vec_matches(&v, &w))
}

#[test]
fn bt_disassemble() {
    let mut tree = BinaryTree::new();
    tree.insert('b');
    tree.insert('a');
    tree.insert('c');

    let (val, left, right) = tree.disassemble();

    assert_eq!(val, 'b');
    assert_eq!(left.val().unwrap(), &'a');
    assert_eq!(right.val().unwrap(), &'c');
    assert_eq!(tree.len(), 0);
}

#[test]
fn bt_assemble() {
    let mut tree = BinaryTree::new();
    let mut left = BinaryTree::new();
    let mut right = BinaryTree::new();

    left.insert('a');
    left.insert('3');
    right.insert('d');
    right.insert('c');

    tree.root.assemble('4', left.root, right.root)
}

#[test]
fn bt_infix() {
    let mut tree = BinaryTree::new();
    tree.insert('3');
    tree.insert('2');
    tree.insert('1');
    tree.insert('4');

    let _right = BinaryTree::<char>::new();
    tree.insert('a');
    tree.insert('B');
    tree.insert('3');

    assert!(tree.has(&'B'));
}

#[test]
fn bt_reconstruct() {
    let mut tree = BinaryTree::new();
    tree.insert('b');
    tree.insert('c');
    tree.insert('z');

    let (val, left, right) = tree.disassemble();
    tree.assemble(val, left, right);

    assert_eq!(tree.root.val().unwrap(), &'b');
    assert!(tree.root.left().is_none());
}

#[test]
fn bt_assemble_keeps_parts() {
    let mut left = BinaryTree::new();
    left.insert('a');
    let mut right = BinaryTree::new();
    right.insert('c');
    let tree = BinaryTree::from_all('b', left, right);

    assert_eq!(tree.val().unwrap(), &'b');
    assert_eq!(tree.left().unwrap().val().unwrap(), &'a');
    assert_eq!(tree.right().unwrap().val().unwrap(), &'c');
    assert_eq!(tree.len(), 3);
    assert_eq!(tree.lum(), 2);
}

#[test]
fn bt_insert_duplicate_keeps_size() {
    let mut tree = BinaryTree::from_val(5u8);
    tree.insert(5u8);
    tree.insert(3u8);
    tree.insert(3u8);

    assert_eq!(tree.len(), 2);
    assert!(tree.has(&3u8));
    assert!(!tree.has(&4u8));
}

#[test]
fn bt_for_each_visits_in_order() {
    let mut tree = BinaryTree::new();
    tree.insert(20u64);
    tree.insert(10u64);
    tree.insert(30u64);
    let seen = std::cell::RefCell::new(Vec::new());
    tree.for_each(|x: &u64| seen.borrow_mut().push(*x));

    assert_eq!(seen.into_inner(), vec![10u64, 20, 30]);
}

#[test]
fn vec_matches_needs_every_element() {
    let v = vec![1i32, 2, 3];
    let w = vec![3i32, 2, 1, 7];
    assert!(vec_matches(&v, &w));
    assert!(!vec_matches(&w, &v));
    assert!(vec_matches(&Vec::<i32>::new(), &v));
}

#[test]
fn bt_compute_pre_order() {
    let mut tree = BinaryTree::new();
    tree.insert(2u8);
    tree.insert(1u8);
    tree.insert(3u8);
    let mut v = Vec::new();
    tree.root.compute(&|x: &u8| *x as u32 * 10, &mut v);
    assert_eq!(v, vec![20, 10, 30]);
}
