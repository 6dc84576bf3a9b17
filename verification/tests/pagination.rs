use bestof::msg::{Emoji, Message, Reaction};
use bestof::paginate::Paginator;

fn plain_message(id: &str) -> Message {
    Message {
        id: String::from(id),
        content: String::new(),
        reactions: vec![
            Reaction { count: 1, emoji: Emoji { name: String::from("\u{1f44d}") } },
        ],
        timestamp: 1_000,
        edited_timestamp: None,
    }
}

fn page_of(range: std::ops::Range<usize>) -> Vec<Message> {
    range.map(|i| plain_message(&format!("{i}"))).collect()
}

#[test]
fn three_pages_fetch_all_messages_without_duplicates() {
    let pages = vec![page_of(0..100), page_of(100..200), page_of(200..237)];
    let mut paginator = Paginator::new(100);
    let mut requests = 0;
    let mut supplied = pages.into_iter();
    while !paginator.done {
        let page = supplied.next().expect("the source has no further page");
        requests += 1;
        paginator.accept_page(page);
        if requests == 1 {
            assert_eq!(paginator.cursor.as_deref(), Some("99"));
        }
        if requests == 2 {
            assert_eq!(paginator.cursor.as_deref(), Some("199"));
        }
    }
    assert_eq!(requests, 3);
    assert_eq!(paginator.messages.len(), 237);
    let mut seen: Vec<String> = paginator.messages.iter().map(|m| m.id.clone()).collect();
    seen.sort();
    seen.dedup();
    assert_eq!(seen.len(), 237);
}

#[test]
fn short_first_page_ends_after_one_request() {
    let mut paginator = Paginator::new(100);
    let mut requests = 0;
    paginator.accept_page(page_of(0..37));
    requests += 1;
    assert!(paginator.done);
    assert_eq!(requests, 1);
    assert_eq!(paginator.messages.len(), 37);
    assert_eq!(paginator.cursor, None);
}

#[test]
fn empty_first_page_ends_with_nothing() {
    let mut paginator = Paginator::new(100);
    paginator.accept_page(Vec::new());
    assert!(paginator.done);
    assert_eq!(paginator.messages.len(), 0);
}

#[test]
fn full_last_page_takes_one_more_empty_page() {
    let mut paginator = Paginator::new(2);
    paginator.accept_page(page_of(0..2));
    assert!(!paginator.done);
    assert_eq!(paginator.cursor.as_deref(), Some("1"));
    paginator.accept_page(Vec::new());
    assert!(paginator.done);
    assert_eq!(paginator.messages.len(), 2);
}

#[test]
fn messages_accumulate_in_fetch_order() {
    let mut paginator = Paginator::new(2);
    paginator.accept_page(page_of(0..2));
    paginator.accept_page(page_of(2..3));
    assert!(paginator.done);
    let ids: Vec<&str> = paginator.messages.iter().map(|m| m.id.as_str()).collect();
    assert_eq!(ids, vec!["0", "1", "2"]);
}
