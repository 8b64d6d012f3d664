use elise::list::List;

fn entries(list: &List) -> Vec<usize> {
    let mut iter = list.iter();
    let mut out = Vec::new();
    while let Some(node) = iter.next(list) {
        out.push(node);
    }
    out
}

#[test]
fn a_new_list_is_empty() {
    let list = List::default();
    assert_eq!(list.len(), 0);
    assert_eq!(entries(&list), Vec::<usize>::new());
    assert!(!list.contains(0));
    assert!(list.is_head(0));
}

#[test]
fn insert_puts_the_entry_behind_the_head() {
    let mut list = List::default();
    list.insert(4);
    list.insert(0);
    list.insert(9);
    assert_eq!(entries(&list), vec![9, 0, 4]);
    assert_eq!(list.len(), 3);
    assert!(!list.is_head(9));
    assert!(!list.is_head(0));
    assert!(!list.is_head(4));
    assert!(list.is_head(5));
    assert!(list.contains(4));
    assert!(!list.contains(5));
}

#[test]
fn inserting_an_entry_twice_changes_nothing() {
    let mut list = List::default();
    list.insert(1);
    list.insert(2);
    list.insert(1);
    assert_eq!(entries(&list), vec![2, 1]);
    assert_eq!(list.len(), 2);
}

#[test]
fn remove_joins_the_neighbours() {
    let mut list = List::default();
    for node in [1, 2, 3, 4, 5] {
        list.insert(node);
    }
    assert_eq!(entries(&list), vec![5, 4, 3, 2, 1]);
    list.remove(3);
    assert_eq!(entries(&list), vec![5, 4, 2, 1]);
    list.remove(5);
    assert_eq!(entries(&list), vec![4, 2, 1]);
    assert!(!list.is_head(4));
    assert!(list.is_head(5));
    assert!(list.is_head(3));
    list.remove(1);
    assert_eq!(entries(&list), vec![4, 2]);
    list.remove(7);
    list.remove(3);
    assert_eq!(entries(&list), vec![4, 2]);
    list.remove(4);
    list.remove(2);
    assert_eq!(entries(&list), Vec::<usize>::new());
    assert_eq!(list.len(), 0);
    list.insert(3);
    assert_eq!(entries(&list), vec![3]);
}

#[test]
fn an_iterator_outlives_the_removal_of_what_it_handed_out() {
    let mut list = List::default();
    for node in [10, 20, 30, 40] {
        list.insert(node);
    }
    let mut iter = list.iter();
    let mut kept = Vec::new();
    while let Some(node) = iter.next(&list) {
        if node == 40 || node == 20 {
            list.remove(node);
        } else {
            kept.push(node);
        }
    }
    assert_eq!(kept, vec![30, 10]);
    assert_eq!(entries(&list), vec![30, 10]);
}

#[test]
fn an_iterator_does_not_see_what_enters_behind_it() {
    let mut list = List::default();
    list.insert(1);
    list.insert(2);
    let mut iter = list.iter();
    assert_eq!(iter.next(&list), Some(2));
    list.insert(3);
    assert_eq!(iter.next(&list), Some(1));
    assert_eq!(iter.next(&list), None);
    assert_eq!(iter.next(&list), None);
    assert_eq!(entries(&list), vec![3, 2, 1]);
}
