use sorted_merge_list::render::join_parts;
use sorted_merge_list::{LinkedList, Node};

#[test]
fn create_numeric_list() {
    let mut list = LinkedList::<i32>::new();
    list.add(1);
    list.add(2);
    list.add(3);
    println!("Linked List is {}", list.render());
    assert_eq!(3, list.len());
}

#[test]
fn create_string_list() {
    let mut list_str = LinkedList::<String>::new();
    list_str.add("A".to_string());
    list_str.add("B".to_string());
    list_str.add("C".to_string());
    println!("Linked List is {}", list_str.render());
    assert_eq!(3, list_str.len());
}

#[test]
fn new_list_is_empty() {
    let list = LinkedList::<i32>::new();
    assert_eq!(0, list.len());
    assert_eq!(None, list.get(0));
}

#[test]
fn default_list_is_empty() {
    let list: LinkedList<u8> = LinkedList::default();
    assert_eq!(0, list.len());
    assert_eq!(None, list.get(0));
}

#[test]
fn node_new_holds_value_and_no_link() {
    let node = Node::new(7u32);
    assert_eq!(7, node.val);
    assert_eq!(None, node.next);
}

#[test]
fn get_reads_each_position_in_order() {
    let mut list = LinkedList::<i32>::new();
    for v in [10, 20, 30, 40] {
        list.add(v);
    }
    assert_eq!(Some(&10), list.get(0));
    assert_eq!(Some(&20), list.get(1));
    assert_eq!(Some(&30), list.get(2));
    assert_eq!(Some(&40), list.get(3));
}

#[test]
fn get_out_of_range_is_none() {
    let mut list = LinkedList::<i32>::new();
    list.add(5);
    list.add(6);
    assert_eq!(None, list.get(2));
    assert_eq!(None, list.get(100));
    assert_eq!(None, list.get(-1));
    assert_eq!(None, list.get(i32::MIN));
    assert_eq!(None, list.get(i32::MAX));
}

#[test]
fn add_string_values_are_kept() {
    let mut list = LinkedList::<String>::new();
    list.add("A".to_string());
    list.add("B".to_string());
    assert_eq!(Some(&"A".to_string()), list.get(0));
    assert_eq!(Some(&"B".to_string()), list.get(1));
}

#[test]
fn render_separates_values_with_comma_and_space() {
    let mut list = LinkedList::<i32>::new();
    list.add(1);
    list.add(2);
    list.add(3);
    assert_eq!("1, 2, 3", list.render());
}

#[test]
fn render_single_and_empty() {
    let mut list = LinkedList::<i32>::new();
    assert_eq!("", list.render());
    list.add(-4);
    assert_eq!("-4", list.render());
}

#[test]
fn join_parts_of_strings() {
    assert_eq!("", join_parts(&vec![]));
    assert_eq!("a", join_parts(&vec!["a".to_string()]));
    assert_eq!(
        "a, bc, ",
        join_parts(&vec!["a".to_string(), "bc".to_string(), "".to_string()])
    );
}
