use sorted_merge_list::LinkedList;

fn list_of(values: &[i32]) -> LinkedList<i32> {
    let mut list = LinkedList::<i32>::new();
    for v in values {
        list.add(*v);
    }
    list
}

fn values_of<T: Clone>(list: &LinkedList<T>) -> Vec<T> {
    let mut out = Vec::new();
    let mut i: i32 = 0;
    while let Some(v) = list.get(i) {
        out.push(v.clone());
        i += 1;
    }
    out
}

#[test]
fn test_merge_linked_list_1() {
    let mut list_a = LinkedList::<i32>::new();
    let mut list_b = LinkedList::<i32>::new();
    let vec_a = vec![1, 3, 5, 7];
    let vec_b = vec![2, 4, 6, 8];
    let target_vec = vec![1, 2, 3, 4, 5, 6, 7, 8];

    for i in 0..vec_a.len() {
        list_a.add(vec_a[i]);
    }
    for i in 0..vec_b.len() {
        list_b.add(vec_b[i]);
    }
    println!("list a {} list b {}", list_a.render(), list_b.render());
    let list_c = LinkedList::<i32>::merge(list_a, list_b);
    println!("merged List is {}", list_c.render());
    for i in 0..target_vec.len() {
        assert_eq!(target_vec[i], *list_c.get(i as i32).unwrap());
    }
}

#[test]
fn test_merge_linked_list_2() {
    let mut list_a = LinkedList::<i32>::new();
    let mut list_b = LinkedList::<i32>::new();
    let vec_a = vec![11, 33, 44, 88, 89, 90, 100];
    let vec_b = vec![1, 22, 30, 45];
    let target_vec = vec![1, 11, 22, 30, 33, 44, 45, 88, 89, 90, 100];

    for i in 0..vec_a.len() {
        list_a.add(vec_a[i]);
    }
    for i in 0..vec_b.len() {
        list_b.add(vec_b[i]);
    }
    println!("list a {} list b {}", list_a.render(), list_b.render());
    let list_c = LinkedList::<i32>::merge(list_a, list_b);
    println!("merged List is {}", list_c.render());
    for i in 0..target_vec.len() {
        assert_eq!(target_vec[i], *list_c.get(i as i32).unwrap());
    }
}

#[test]
fn merge_lengths_add_up() {
    let merged = LinkedList::merge(list_of(&[1, 3, 5, 7]), list_of(&[2, 4, 6, 8]));
    assert_eq!(8, merged.len());
    assert_eq!(None, merged.get(8));
}

#[test]
fn merge_empty_first_gives_second() {
    let merged = LinkedList::merge(list_of(&[]), list_of(&[5, 6]));
    assert_eq!(2, merged.len());
    assert_eq!(vec![5, 6], values_of(&merged));
}

#[test]
fn merge_empty_second_gives_first() {
    let merged = LinkedList::merge(list_of(&[3, 9]), list_of(&[]));
    assert_eq!(2, merged.len());
    assert_eq!(vec![3, 9], values_of(&merged));
}

#[test]
fn merge_both_empty() {
    let merged = LinkedList::merge(list_of(&[]), list_of(&[]));
    assert_eq!(0, merged.len());
    assert_eq!(None, merged.get(0));
    assert_eq!("", merged.render());
}

#[test]
fn merge_duplicate_keys() {
    let merged = LinkedList::merge(list_of(&[2, 2]), list_of(&[2]));
    assert_eq!(3, merged.len());
    assert_eq!(vec![2, 2, 2], values_of(&merged));
}

#[test]
fn merge_single_elements() {
    let merged = LinkedList::merge(list_of(&[4]), list_of(&[1]));
    assert_eq!(vec![1, 4], values_of(&merged));
    let merged = LinkedList::merge(list_of(&[1]), list_of(&[4]));
    assert_eq!(vec![1, 4], values_of(&merged));
}

#[test]
fn merge_result_is_sorted_and_keeps_all_values() {
    let a = [-5, -5, 0, 3, 3, 8, 12, 40];
    let b = [-7, -5, 1, 3, 9, 9, 41, 42, 43];
    let merged = values_of(&LinkedList::merge(list_of(&a), list_of(&b)));
    assert_eq!(a.len() + b.len(), merged.len());
    for k in 1..merged.len() {
        assert!(merged[k - 1] <= merged[k]);
    }
    let mut expected: Vec<i32> = a.iter().chain(b.iter()).copied().collect();
    expected.sort();
    assert_eq!(expected, merged);
}

#[test]
fn merge_then_add_appends_after_tail() {
    let mut merged = LinkedList::merge(list_of(&[1, 5]), list_of(&[2, 3, 4]));
    merged.add(6);
    merged.add(7);
    assert_eq!(vec![1, 2, 3, 4, 5, 6, 7], values_of(&merged));
    assert_eq!("1, 2, 3, 4, 5, 6, 7", merged.render());
}

#[test]
fn merge_of_merges() {
    let left = LinkedList::merge(list_of(&[1, 9]), list_of(&[4]));
    let right = LinkedList::merge(list_of(&[2]), list_of(&[3, 10]));
    let all = LinkedList::merge(left, right);
    assert_eq!(vec![1, 2, 3, 4, 9, 10], values_of(&all));
}

#[test]
fn merge_strings() {
    let mut a = LinkedList::<String>::new();
    a.add("apple".to_string());
    a.add("cherry".to_string());
    let mut b = LinkedList::<String>::new();
    b.add("banana".to_string());
    let merged = LinkedList::merge(a, b);
    assert_eq!("apple, banana, cherry", merged.render());
}

/// A value compared by its key alone, carrying a tag that tells where it came from.
#[derive(Clone, Debug)]
struct Keyed {
    key: i32,
    tag: char,
}

impl PartialEq for Keyed {
    fn eq(&self, other: &Keyed) -> bool {
        self.key == other.key
    }
}

impl PartialOrd for Keyed {
    fn partial_cmp(&self, other: &Keyed) -> Option<std::cmp::Ordering> {
        self.key.partial_cmp(&other.key)
    }
}

fn keyed_list(items: &[(i32, char)]) -> LinkedList<Keyed> {
    let mut list = LinkedList::new();
    for (key, tag) in items {
        list.add(Keyed { key: *key, tag: *tag });
    }
    list
}

#[test]
fn merge_ties_take_second_list_first() {
    let a = keyed_list(&[(2, 'a')]);
    let b = keyed_list(&[(2, 'b')]);
    let merged = values_of(&LinkedList::merge(a, b));
    let tags: Vec<char> = merged.iter().map(|k| k.tag).collect();
    assert_eq!(vec!['b', 'a'], tags);
}

#[test]
fn merge_ties_keep_runs_of_second_before_first() {
    let a = keyed_list(&[(1, 'p'), (2, 'q'), (2, 'r'), (5, 's')]);
    let b = keyed_list(&[(2, 'x'), (2, 'y'), (3, 'z')]);
    let merged = values_of(&LinkedList::merge(a, b));
    let tags: Vec<char> = merged.iter().map(|k| k.tag).collect();
    assert_eq!(vec!['p', 'x', 'y', 'q', 'r', 'z', 's'], tags);
    let keys: Vec<i32> = merged.iter().map(|k| k.key).collect();
    assert_eq!(vec![1, 2, 2, 2, 2, 3, 5], keys);
}
