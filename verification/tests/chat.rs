use slowclaw::chat::{
    belongs_to_thread, join_tags, order_by_creation, order_newest_first, record_url, records_url,
    wants_next_page, LIST_MAX_PAGES, LIST_PAGE_SIZE,
};
use slowclaw::order::{first_in_order, stable_order, Newest, Ranked, TextKey};

fn key(s: &str) -> TextKey {
    TextKey(s.chars().collect())
}

#[test]
fn thread_membership_is_exact() {
    assert!(belongs_to_thread(Some("t1"), "t1"));
    assert!(!belongs_to_thread(Some("t1 "), "t1"));
    assert!(!belongs_to_thread(Some("T1"), "t1"));
    assert!(!belongs_to_thread(None, "t1"));
    assert!(!belongs_to_thread(None, ""));
}

#[test]
fn listing_pages() {
    assert_eq!(LIST_PAGE_SIZE, 100);
    assert_eq!(LIST_MAX_PAGES, 5);
    assert!(wants_next_page(1, 100, 10, 200));
    assert!(!wants_next_page(1, 99, 10, 200));
    assert!(!wants_next_page(1, 100, 200, 200));
    assert!(wants_next_page(4, 100, 0, 1));
    assert!(!wants_next_page(5, 100, 0, 1));
    assert!(!wants_next_page(1, 100, 0, 0));
}

#[test]
fn creation_order_is_stable_and_limited() {
    let created: Vec<String> = ["2024-03-02", "2024-03-01", "", "2024-03-02", "2024-03-01T10", "2024-03-01"]
        .iter()
        .map(|s| s.to_string())
        .collect();
    assert_eq!(order_by_creation(&created, 500), vec![2, 1, 5, 4, 0, 3]);
    assert_eq!(order_by_creation(&created, 3), vec![2, 1, 5]);
    assert_eq!(order_by_creation(&created, 0), Vec::<usize>::new());
    assert_eq!(order_by_creation(&vec![], 10), Vec::<usize>::new());
}

#[test]
fn text_order_matches_string_order() {
    let words = ["", "a", "A", "ab", "b", "é", "z", "aa", "🦀", "~", "a\u{0}"];
    for a in words {
        for b in words {
            assert_eq!(key(a).comes_no_later(&key(b)), a <= b, "{a:?} {b:?}");
        }
    }
}

#[test]
fn newest_first_order() {
    let modified = vec![10i64, 30, 20, 30, 0, -5];
    assert_eq!(order_newest_first(&modified, 1000), vec![1, 3, 2, 0, 4, 5]);
    assert_eq!(order_newest_first(&modified, 2), vec![1, 3]);
    assert!(Newest(5).comes_no_later(&Newest(5)));
    assert!(Newest(6).comes_no_later(&Newest(5)));
    assert!(!Newest(4).comes_no_later(&Newest(5)));
}

#[test]
fn stable_order_lists_every_position_once() {
    let keys: Vec<Newest> = [3i64, 1, 3, 2, 1, 3].iter().map(|t| Newest(*t)).collect();
    let order = stable_order(&keys);
    assert_eq!(order, vec![0, 2, 5, 3, 1, 4]);
    assert_eq!(first_in_order(&keys, 4), vec![0, 2, 5, 3]);
    assert_eq!(first_in_order(&keys, 60), order);
}

#[test]
fn record_addresses() {
    assert_eq!(
        records_url("http://127.0.0.1:8090//", " chat_messages "),
        "http://127.0.0.1:8090/api/collections/chat_messages/records"
    );
    assert_eq!(
        record_url("http://127.0.0.1:8090", "chat_messages", "abc"),
        "http://127.0.0.1:8090/api/collections/chat_messages/records/abc"
    );
}

#[test]
fn tags_are_joined_by_commas() {
    assert_eq!(join_tags(&vec![]), "");
    assert_eq!(join_tags(&vec!["a".into()]), "a");
    assert_eq!(join_tags(&vec!["a".into(), "b c".into(), "".into()]), "a,b c,");
}
