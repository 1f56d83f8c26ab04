use ctree::CTree;

#[test]
fn test_search() {
    let mut ctree = CTree::new();
    ctree.insert(5, 20);
    ctree.insert(4, 10);
    assert_eq!(ctree.search(&5), Some(&20));
    assert_eq!(ctree.search(&6), None);
}

#[test]
fn test_recursive_search() {
    let mut ctree = CTree::new();
    ctree.insert(5, 20);
    ctree.insert(4, 10);
    assert_eq!(ctree.search(&5), Some(&20));
    assert_eq!(ctree.search(&4), Some(&10));
}

#[test]
fn test_insert() {
    let mut ctree = CTree::new();
    ctree.insert(5, 20);
    assert_eq!(ctree.search(&5), Some(&20));
}
