use zed_text_editor::tree::{Count, Item, SumTree};

#[derive(Clone, Debug, PartialEq)]
struct TestItem(usize);

impl Item for TestItem {
    type Summary = Count;

    fn summarize_spec(self) -> Count {
        Count { value: self.0 }
    }

    fn summary(&self) -> Count {
        Count { value: self.0 }
    }
}

#[test]
fn test_empty_tree() {
    let tree: SumTree<TestItem> = SumTree::new();
    assert!(tree.is_empty());
    assert_eq!(tree.summary().value, 0);
}

#[test]
fn test_push_single_item() {
    let mut tree = SumTree::new();
    tree.push(TestItem(42));

    assert!(!tree.is_empty());
    assert_eq!(tree.summary().value, 42);
}

#[test]
fn test_push_multiple_items() {
    let mut tree = SumTree::new();
    tree.push(TestItem(10));
    tree.push(TestItem(20));
    tree.push(TestItem(30));

    assert_eq!(tree.summary().value, 60);
}

#[test]
fn test_from_items_keeps_order() {
    let items = vec![TestItem(1), TestItem(2), TestItem(3), TestItem(4)];
    let tree = SumTree::from_items(items);
    assert_eq!(tree.summary().value, 10);
    let back = tree.to_vec();
    assert_eq!(back, vec![TestItem(1), TestItem(2), TestItem(3), TestItem(4)]);
}

#[test]
fn test_iter_yields_in_order() {
    let mut tree = SumTree::new();
    tree.push(TestItem(5));
    tree.push(TestItem(6));
    let mut it = tree.iter();
    assert_eq!(it.next(), Some(TestItem(5)));
    assert_eq!(it.next(), Some(TestItem(6)));
    assert_eq!(it.next(), None);
}
