use ad::heap::min_heap::MinHeap;
use ad::linear_data_structures::array_stack::ArrayStack;
use ad::linear_data_structures::list_stack::ListStack;
use ad::tree::binary_search_tree::BinarySearchTree;

#[test]
pub fn array_stack_push_test() {
    let mut stack = ArrayStack::new();
    assert_eq!(stack.stack_pointer, 0);
    stack.push(1);
    assert_eq!(stack.stack_pointer, 1);
    assert_eq!(stack.array[0], 1);
    stack.push(2);
    assert_eq!(stack.stack_pointer, 2);
    assert_eq!(stack.array[0], 1);
    assert_eq!(stack.array[1], 2);
}

#[test]
pub fn array_stack_pop_test() {
    let mut stack = ArrayStack::new();
    stack.push(1);
    stack.push(2);
    stack.push(3);
    assert_eq!(stack.stack_pointer, 3);
    assert_eq!(stack.pop().unwrap(), 3);
    assert_eq!(stack.stack_pointer, 2);
    assert_eq!(stack.pop().unwrap(), 2);
    assert_eq!(stack.stack_pointer, 1);
    assert_eq!(stack.pop().unwrap(), 1);
    assert_eq!(stack.stack_pointer, 0);
    assert_eq!(stack.pop(), None);
    assert_eq!(stack.stack_pointer, 0);
}

#[test]
pub fn array_stack_is_empty_test() {
    let mut stack = ArrayStack::new();
    assert!(stack.is_empty());
    stack.push(1);
    assert!(!stack.is_empty());
    stack.pop();
    assert!(stack.is_empty());
    stack.pop();
    assert!(stack.is_empty());
}

#[test]
pub fn list_stack_push_test() {
    let mut stack = ListStack::new();
    assert_eq!(stack.head.next, None);
    stack.push(13);
    assert_eq!(stack.head.next.clone().unwrap().value.unwrap(), 13);
    assert_eq!(stack.head.next.clone().unwrap().next, None);
    stack.push(14);
    assert_eq!(stack.head.next.clone().unwrap().value.unwrap(), 14);
    assert_eq!(stack.head.next.clone().unwrap().next.unwrap().value.unwrap(), 13);
    assert_eq!(stack.head.next.clone().unwrap().next.unwrap().next, None);
    stack.push(15);
    assert_eq!(stack.head.next.clone().unwrap().value.unwrap(), 15);
    assert_eq!(stack.head.next.clone().unwrap().next.unwrap().value.unwrap(), 14);
    assert_eq!(
        stack.head.next.clone().unwrap().next.unwrap().next.unwrap().value.unwrap(),
        13
    );
    assert_eq!(
        stack.head.next.clone().unwrap().next.unwrap().next.unwrap().next,
        None
    );
}

#[test]
pub fn list_stack_pop_test() {
    let mut stack = ListStack::new();
    assert_eq!(stack.pop(), None);
    stack.push(13);
    stack.push(14);
    stack.push(15);
    assert_eq!(stack.pop().unwrap(), 15);
    assert_eq!(stack.pop().unwrap(), 14);
    assert_eq!(stack.pop().unwrap(), 13);
    assert_eq!(stack.pop(), None);
}

#[test]
pub fn list_stack_is_empty_test() {
    let mut stack = ListStack::new();
    assert!(stack.is_empty());
    stack.push(1);
    assert!(!stack.is_empty());
    stack.pop();
    assert!(stack.is_empty());
    stack.pop();
    assert!(stack.is_empty());
}

#[test]
pub fn min_heap_test() {
    let mut heap = MinHeap::new();
    assert_eq!(heap.remove_root(), None);

    heap.insert(5);
    heap.insert(42);
    heap.insert(26);
    heap.insert(99);
    heap.insert(1);

    assert_eq!(heap.remove_root(), Some(1));
    assert_eq!(heap.remove_root(), Some(5));
    assert_eq!(heap.remove_root(), Some(26));
    assert_eq!(heap.remove_root(), Some(42));
    assert_eq!(heap.remove_root(), Some(99));
    assert_eq!(heap.remove_root(), None);
}

#[test]
pub fn min_heap_from_elements_test() {
    let mut elements: Vec<i64> = vec![3, 1, 2, 1];
    let mut heap = MinHeap::from_elements(&mut elements);
    assert!(elements.is_empty());
    assert_eq!(heap.size(), 4);
    assert_eq!(heap.remove_root(), Some(1));
    assert_eq!(heap.remove_root(), Some(1));
    assert_eq!(heap.remove_root(), Some(2));
    assert_eq!(heap.remove_root(), Some(3));
    assert_eq!(heap.size(), 0);
}

#[test]
pub fn insert_test() {
    let mut tree = BinarySearchTree::new();
    assert!(matches!(tree.root, None));

    tree.insert(3);
    assert_eq!(tree.root.as_ref().unwrap().value, 3);
    assert!(matches!(tree.root.as_ref().unwrap().left, None));
    assert!(matches!(tree.root.as_ref().unwrap().right, None));

    tree.insert(6);
    assert_eq!(tree.root.as_ref().unwrap().right.as_ref().unwrap().value, 6);
}

#[test]
pub fn traverse_test() {
    let mut tree = BinarySearchTree::new();
    tree.insert(40);
    tree.insert(30);
    tree.insert(50);
    tree.insert(25);
    tree.insert(35);
    tree.insert(45);
    tree.insert(60);

    assert_eq!(tree.traverse_inorder(), vec![25, 30, 35, 40, 45, 50, 60]);
    assert_eq!(tree.traverse_preorder(), vec![40, 30, 25, 35, 50, 45, 60]);
    assert_eq!(tree.traverse_postorder(), vec![25, 35, 30, 45, 60, 50, 40]);
    assert_eq!(tree.traverse_levelorder(), vec![40, 30, 50, 25, 35, 45, 60]);
}

#[test]
pub fn traverse_empty_test() {
    let tree = BinarySearchTree::new();
    assert_eq!(tree.traverse_inorder(), Vec::<i32>::new());
    assert_eq!(tree.traverse_preorder(), Vec::<i32>::new());
    assert_eq!(tree.traverse_postorder(), Vec::<i32>::new());
    assert_eq!(tree.traverse_levelorder(), Vec::<i32>::new());
}

#[test]
pub fn insert_duplicates_test() {
    let mut tree = BinarySearchTree::new();
    tree.insert(5);
    tree.insert(5);
    tree.insert(3);
    tree.insert(7);
    assert_eq!(tree.traverse_inorder(), vec![3, 5, 5, 7]);
}

#[test]
pub fn static_hashmap_test() {
    let mut map = ad::hash::static_hashmap::StaticHashMap::new(101);
    map.put(10, "Hello, World!");
    map.put(20, "Bye!");
    assert_eq!(map.get(10), Some(&"Hello, World!"));
    assert_eq!(map.get(20), Some(&"Bye!"));
    assert_eq!(map.get(30), None);
}

#[test]
pub fn static_hashmap_replace_test() {
    let mut map = ad::hash::static_hashmap::StaticHashMap::new(7);
    map.put(3, 1u8);
    map.put(10, 2u8);
    map.put(3, 3u8);
    assert_eq!(map.get(3), Some(&3u8));
    assert_eq!(map.get(10), Some(&2u8));
    assert_eq!(map.get(-4), None);
}
