use std::collections::HashMap;

use pgbtree::{parent_child_mapping, Item, Page};

#[test]
pub fn test_get_parent_child_mapping() {
    let leaf_a = Page {
        id: 0,
        level: 0,
        is_leaf: true,
        is_root: false,
        items: vec![],
        prev_page_id: None,
        next_page_id: None,
        high_key: None,
        prev_item: None,
        nb_items: None,
    };
    let leaf_b = Page {
        id: 1,
        level: 0,
        is_leaf: true,
        is_root: false,
        items: vec![],
        prev_page_id: None,
        next_page_id: None,
        high_key: None,
        prev_item: None,
        nb_items: None,
    };
    let leaf_c = Page {
        id: 2,
        level: 0,
        is_leaf: true,
        is_root: false,
        items: vec![],
        prev_page_id: None,
        next_page_id: None,
        high_key: None,
        prev_item: None,
        nb_items: None,
    };
    let par_ab = Page {
        id: 3,
        level: 1,
        is_leaf: false,
        is_root: false,
        items: vec![Item {
            value: "abc".to_string(),
            child: Some(Box::new(leaf_a.clone())),
            pointer: None,
            obj_id: None,
        }, Item {
            value: "def".to_string(),
            child: Some(Box::new(leaf_b.clone())),
            pointer: None,
            obj_id: None,
        }],
        prev_page_id: None,
        next_page_id: None,
        high_key: None,
        prev_item: None,
        nb_items: None,
    };
    let par_c = Page {
        id: 4,
        level: 1,
        is_leaf: false,
        is_root: false,
        items: vec![Item {
            value: "ghi".to_string(),
            child: Some(Box::new(leaf_c.clone())),
            pointer: None,
            obj_id: None,
        }],
        prev_page_id: None,
        next_page_id: None,
        high_key: None,
        prev_item: None,
        nb_items: None,
    };
    let root = Page {
        id: 5,
        level: 2,
        is_leaf: false,
        is_root: true,
        items: vec![Item {
            value: "jkl".to_string(),
            child: Some(Box::new(par_ab.clone())),
            pointer: None,
            obj_id: None,
        }, Item {
            value: "mno".to_string(),
            child: Some(Box::new(par_c.clone())),
            pointer: None,
            obj_id: None,
        }],
        prev_page_id: None,
        next_page_id: None,
        high_key: None,
        prev_item: None,
        nb_items: None,
    };
    let mut expected_map = std::collections::HashMap::new();
    expected_map.insert("5".to_string(), vec![par_ab, par_c]);
    expected_map.insert("3".to_string(), vec![leaf_a, leaf_b]);
    expected_map.insert("4".to_string(), vec![leaf_c]);
    let parent_child_map: HashMap<String, Vec<Page>> = parent_child_mapping(&root)
        .into_iter()
        .map(|(k, v)| (k, v.into_iter().cloned().collect()))
        .collect();
    assert_eq!(parent_child_map, expected_map);
}

#[test]
fn mapping_of_a_leaf_root_is_empty() {
    let leaf = Page::new(1, 0, true, true, 0, 0);
    assert!(parent_child_mapping(&leaf).is_empty());
}

#[test]
fn mapping_lists_pages_below_before_pages_above_and_signed_ids() {
    let leaf = Page::new(2, 0, true, false, 0, 0);
    let mut mid = Page::new(-7, 1, false, false, 0, 0);
    mid.items.push(Item::new("x".to_string(), Some(Box::new(leaf.clone())), Some(2), None));
    let mut root = Page::new(9, 2, false, true, 0, 0);
    root.items.push(Item::new("y".to_string(), Some(Box::new(mid.clone())), Some(-7), None));
    let m = parent_child_mapping(&root);
    assert_eq!(m.len(), 2);
    assert_eq!(m[0].0, "-7");
    assert_eq!(m[0].1, vec![&leaf]);
    assert_eq!(m[1].0, "9");
    assert_eq!(m[1].1, vec![&mid]);
}

#[test]
fn clone_copies_the_whole_subtree() {
    let leaf = Page::new(2, 0, true, false, 0, 0);
    let mut root = Page::new(9, 1, false, true, 0, 0);
    root.items.push(Item::new("k".to_string(), Some(Box::new(leaf)), Some(2), None));
    root.high_key = Some("h".to_string());
    let copy = root.clone();
    assert_eq!(copy, root);
}
