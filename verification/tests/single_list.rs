#![allow(non_snake_case)]

use bplus_tree::single_list::memory::point::List;

#[test]
fn pushbackTest() {
    let mut list = List::new();
    list.push_back(String::from("1"));
    list.push_back(String::from("2"));
    list.push_back(String::from("3"));
    list.push_back(String::from("4"));
    list.push_back(String::from("5"));
    list.iter();
}

#[test]
fn point_insertTest() {
    let mut list = List::new();
    list.insert(0, String::from("1"));
    list.insert(1, String::from("3"));
    list.insert(1, String::from("2"));
    list.iter();
}

#[test]
fn removeTest() {
    let mut list = List::new();
    list.insert(0, String::from("1"));
    list.insert(1, String::from("3"));
    list.insert(1, String::from("2"));
    list.iter();
    println!("------------------------");
    list.remove(1);
    list.iter();
    println!("------------------------");
    list.remove(0);
    list.iter();
    println!("------------------------");
    list.remove(0);
    list.iter();
}

#[test]
fn push_back_appends_in_order() {
    let mut list = List::new();
    for i in 1..6 {
        list.push_back(i.to_string());
    }
    assert_eq!(list.iter(), vec!["1", "2", "3", "4", "5"]);
    assert_eq!(list.len(), 5);
}

#[test]
fn insert_places_at_index_or_end() {
    let mut list = List::new();
    list.insert(0, String::from("1"));
    list.insert(1, String::from("3"));
    list.insert(1, String::from("2"));
    assert_eq!(list.iter(), vec!["1", "2", "3"]);
    list.insert(10, String::from("4"));
    assert_eq!(list.iter(), vec!["1", "2", "3", "4"]);
    list.insert(0, String::from("0"));
    assert_eq!(list.iter(), vec!["0", "1", "2", "3", "4"]);
    assert_eq!(list.len(), 5);
}

#[test]
fn insert_past_end_of_empty_list() {
    let mut list = List::new();
    list.insert(3, String::from("x"));
    assert_eq!(list.iter(), vec!["x"]);
}

#[test]
fn remove_takes_out_one_value() {
    let mut list = List::new();
    list.insert(0, String::from("1"));
    list.insert(1, String::from("3"));
    list.insert(1, String::from("2"));
    list.remove(1);
    assert_eq!(list.iter(), vec!["1", "3"]);
    list.remove(5);
    assert_eq!(list.iter(), vec!["1", "3"]);
    list.remove(0);
    assert_eq!(list.iter(), vec!["3"]);
    list.remove(0);
    assert!(list.iter().is_empty());
    assert_eq!(list.len(), 0);
}

#[test]
fn push_back_then_remove_first_repeatedly() {
    let mut list = List::new();
    for _ in 0..100 {
        list.push_back(String::from("1"));
        list.remove(0);
    }
    assert_eq!(list.len(), 0);
}

#[test]
fn remove_from_empty_list_changes_nothing() {
    let mut list = List::new();
    list.remove(0);
    assert_eq!(list.len(), 0);
    assert!(list.iter().is_empty());
    list.remove(3);
    assert_eq!(list.len(), 0);
}
