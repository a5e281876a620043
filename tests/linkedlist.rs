use alphametics::linkedlist::LinkedList;

#[test]
fn test_push_back() {
    let mut linked_list = LinkedList::<i32>::new();
    linked_list.push_back(1);
    linked_list.push_back(2);
    linked_list.push_back(3);
    linked_list.push_back(4);
}

#[test]
fn test_length_empty() {
    let linked_list = LinkedList::<i32>::new();
    assert_eq!(linked_list.length(), 0);
    assert!(linked_list.is_empty());
}

#[test]
fn test_length_not_empty() {
    let mut linked_list = LinkedList::<i32>::new();
    linked_list.push_back(2);
    assert_eq!(linked_list.length(), 1);
    assert!(!linked_list.is_empty());
}

#[test]
fn test_length() {
    let mut linked_list = LinkedList::<i32>::new();
    linked_list.push_back(11);
    linked_list.push_back(12);
    linked_list.push_back(23);
    assert_eq!(linked_list.length(), 3);
}

#[test]
fn test_to_string() {
    let mut linked_list = LinkedList::<i32>::new();
    linked_list.push_back(1);
    linked_list.push_back(2);
    assert_eq!(linked_list.to_string(), "[1 -> 2]");
    linked_list.push_back(3);
    linked_list.push_back(4);
    assert_eq!(linked_list.to_string(), "[1 -> 2 -> 3 -> 4]");
}

#[test]
fn empty_and_negative_values_are_written_out() {
    let mut linked_list = LinkedList::<i32>::new();
    assert_eq!(linked_list.to_string(), "[]");
    linked_list.push_back(-17);
    linked_list.push_back(250);
    assert_eq!(linked_list.to_string(), "[-17 -> 250]");
    assert_eq!(linked_list.length(), 2);
}

#[test]
fn default_list_is_empty() {
    let linked_list: LinkedList<i32> = LinkedList::default();
    assert!(linked_list.is_empty());
    assert_eq!(linked_list.to_string(), "[]");
}
