use terragen::open_list::OpenList;
use terragen::vector2::Vector2;

#[test]
fn cheapest_leaves_first() {
    let mut list = OpenList::new();
    assert_eq!(list.min(), None);
    list.add(Vector2::new(1, 1), 30);
    list.add(Vector2::new(2, 2), 10);
    list.add(Vector2::new(3, 3), 20);
    assert!(list.contains(&Vector2::new(1, 1)));
    assert!(!list.contains(&Vector2::new(9, 9)));
    assert_eq!(list.min(), Some(Vector2::new(2, 2)));
    assert!(!list.contains(&Vector2::new(2, 2)));
    assert_eq!(list.min(), Some(Vector2::new(3, 3)));
    assert_eq!(list.min(), Some(Vector2::new(1, 1)));
    assert_eq!(list.min(), None);
}

#[test]
fn equally_cheap_leave_in_the_order_queued() {
    let mut list = OpenList::new();
    list.add(Vector2::new(5, 0), 7);
    list.add(Vector2::new(0, 5), 7);
    list.add(Vector2::new(2, 2), 7);
    assert_eq!(list.min(), Some(Vector2::new(5, 0)));
    assert_eq!(list.min(), Some(Vector2::new(0, 5)));
    assert_eq!(list.min(), Some(Vector2::new(2, 2)));
}

#[test]
fn queued_again_changes_the_price() {
    let mut list = OpenList::new();
    list.add(Vector2::new(1, 0), 50);
    list.add(Vector2::new(0, 1), 40);
    list.add(Vector2::new(1, 0), 5);
    assert_eq!(list.min(), Some(Vector2::new(1, 0)));
    assert_eq!(list.min(), Some(Vector2::new(0, 1)));
    assert_eq!(list.min(), None);
    list.add(Vector2::new(0, 1), 1);
    list.add(Vector2::new(0, 1), 90);
    list.add(Vector2::new(4, 4), 60);
    assert_eq!(list.min(), Some(Vector2::new(4, 4)));
    assert_eq!(list.min(), Some(Vector2::new(0, 1)));
}
