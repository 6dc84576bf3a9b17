use bestof::msg::{Emoji, Message, Reaction};
use bestof::order::Sort;
use bestof::rank::rank;

const THUMBS_UP: &str = "\u{1f44d}";

fn message(id: &str, reactions: u64, timestamp: u64, edited: Option<u64>) -> Message {
    Message {
        id: String::from(id),
        content: format!("message {id}"),
        reactions: vec![
            Reaction { count: reactions, emoji: Emoji { name: String::from(THUMBS_UP) } },
        ],
        timestamp,
        edited_timestamp: edited,
    }
}

fn ids(messages: &[Message]) -> Vec<String> {
    messages.iter().map(|m| m.id.clone()).collect()
}

#[test]
fn reactions_count_sums_matching_only() {
    let m = Message {
        id: String::from("a"),
        content: String::new(),
        reactions: vec![
            Reaction { count: 5, emoji: Emoji { name: String::from(THUMBS_UP) } },
            Reaction { count: 3, emoji: Emoji { name: String::from("heart") } },
            Reaction { count: 2, emoji: Emoji { name: String::from(THUMBS_UP) } },
        ],
        timestamp: 0,
        edited_timestamp: None,
    };
    assert_eq!(m.reactions_count(), 7);
}

#[test]
fn reactions_count_zero_when_none_match() {
    let m = Message {
        id: String::from("a"),
        content: String::new(),
        reactions: vec![
            Reaction { count: 9, emoji: Emoji { name: String::from("heart") } },
            Reaction { count: 4, emoji: Emoji { name: String::from("laugh") } },
        ],
        timestamp: 0,
        edited_timestamp: None,
    };
    assert_eq!(m.reactions_count(), 0);
}

#[test]
fn reactions_count_zero_without_reactions() {
    let m = Message {
        id: String::from("a"),
        content: String::new(),
        reactions: vec![],
        timestamp: 0,
        edited_timestamp: None,
    };
    assert_eq!(m.reactions_count(), 0);
}

#[test]
fn rank_never_returns_edited_messages() {
    let now: u64 = 1_000_000;
    let input = vec![
        message("a", 10, now - 3600, None),
        message("b", 50, now - 3600, Some(now - 120)),
        message("c", 5, now - 7200, Some(now - 60)),
        message("d", 1, now - 7200, None),
    ];
    for sort in [Sort::ByScore, Sort::ByReactions, Sort::ByReactionsThroughput] {
        let out = rank(input.clone(), now, sort);
        let out_ids = ids(&out);
        assert_eq!(out_ids.len(), 2);
        assert!(out_ids.contains(&String::from("a")));
        assert!(out_ids.contains(&String::from("d")));
    }
}

#[test]
fn rank_keeps_only_unedited_twin() {
    let now: u64 = 1_000_000;
    let unedited = message("original", 7, now - 7200, None);
    let edited = message("edited", 7, now - 7200, Some(now - 60));
    for sort in [Sort::ByScore, Sort::ByReactions, Sort::ByReactionsThroughput] {
        let out = rank(vec![unedited.clone(), edited.clone()], now, sort);
        assert_eq!(ids(&out), vec![String::from("original")]);
    }
}

#[test]
fn by_score_prefers_recent_at_equal_reactions() {
    let now: u64 = 1_000_000_000;
    let recent = message("recent", 100, now - 3600, None);
    let old = message("old", 100, now - 100 * 3600, None);
    let out = rank(vec![old, recent], now, Sort::ByScore);
    assert_eq!(ids(&out), vec![String::from("recent"), String::from("old")]);
}

#[test]
fn by_reactions_ignores_timestamps() {
    let now: u64 = 1_000_000_000;
    let popular_old = message("popular", 50, now - 500_000, None);
    let fresh_quiet = message("quiet", 10, now - 60, None);
    let out = rank(vec![fresh_quiet, popular_old], now, Sort::ByReactions);
    assert_eq!(ids(&out), vec![String::from("popular"), String::from("quiet")]);
}

#[test]
fn rank_is_deterministic() {
    let now: u64 = 1_000_000;
    let input = vec![
        message("a", 10, now - 3600, None),
        message("b", 10, now - 3600, None),
        message("c", 10, now - 7200, None),
        message("d", 3, now - 60, None),
    ];
    for sort in [Sort::ByScore, Sort::ByReactions, Sort::ByReactionsThroughput] {
        let first = rank(input.clone(), now, sort);
        let second = rank(input.clone(), now, sort);
        assert_eq!(ids(&first), ids(&second));
    }
}

#[test]
fn throughput_rates_messages_per_minute() {
    let now: u64 = 1_000_000_000;
    // 60 reactions over 120 minutes: one half per minute.
    let slow = message("slow", 60, now - 7200, None);
    // 30 reactions over 30 minutes: one per minute.
    let fast = message("fast", 30, now - 1800, None);
    let out = rank(vec![slow, fast], now, Sort::ByReactionsThroughput);
    assert_eq!(ids(&out), vec![String::from("fast"), String::from("slow")]);
}

#[test]
fn throughput_brand_new_message_with_reactions_ranks_first() {
    let now: u64 = 1_000_000_000;
    let brand_new = message("new", 1, now, None);
    let steady = message("steady", 1000, now - 3600, None);
    let out = rank(vec![steady, brand_new], now, Sort::ByReactionsThroughput);
    assert_eq!(ids(&out), vec![String::from("new"), String::from("steady")]);
}

#[test]
fn throughput_no_reactions_ranks_last() {
    let now: u64 = 1_000_000_000;
    let silent_new = message("silent", 0, now, None);
    let steady = message("steady", 5, now - 3600, None);
    let out = rank(vec![silent_new, steady], now, Sort::ByReactionsThroughput);
    assert_eq!(ids(&out), vec![String::from("steady"), String::from("silent")]);
}

#[test]
fn by_score_strict_comparison_of_equal_counts() {
    let now: u64 = 1_000_000_000;
    let recent = message("recent", 100, now - 3600, None);
    let old = message("old", 100, now - 360_000, None);
    assert!(bestof::order::msg_le(&old, &recent, now, Sort::ByScore));
    assert!(!bestof::order::msg_le(&recent, &old, now, Sort::ByScore));
}

#[test]
fn by_score_decay_outweighs_raw_count() {
    // 100 reactions one hour old score 100 / 2^1.8 (about 28.7); 50
    // reactions fresh score 50 / 1^1.8 = 50: decay lets the smaller
    // count win. Under gravity one the old message would tie at 50, so
    // this pins the exponent.
    let now: u64 = 1_000_000_000;
    let old_popular = message("old", 100, now - 3600, None);
    let fresh_half = message("fresh", 50, now, None);
    let out = rank(vec![old_popular, fresh_half], now, Sort::ByScore);
    assert_eq!(ids(&out), vec![String::from("fresh"), String::from("old")]);
}

#[test]
fn by_score_handles_enormous_counts_and_ages() {
    let now: u64 = u64::MAX;
    let fresh = message("fresh", u64::MAX, now, None);
    let ancient = message("ancient", u64::MAX, 0, None);
    let out = rank(vec![ancient, fresh], now, Sort::ByScore);
    assert_eq!(ids(&out), vec![String::from("fresh"), String::from("ancient")]);
}

#[test]
fn by_score_equal_messages_compare_both_ways() {
    let now: u64 = 1_000_000_000;
    let a = message("a", 42, now - 7200, None);
    let b = message("b", 42, now - 7200, None);
    assert!(bestof::order::msg_le(&a, &b, now, Sort::ByScore));
    assert!(bestof::order::msg_le(&b, &a, now, Sort::ByScore));
}
