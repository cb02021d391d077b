use todui::sync_transport::{has_new_heads, merge_step, url_host};

#[test]
fn test_url_host() {
    assert_eq!(url_host("wss://sync.todui.com/sync/default"), "sync.todui.com");
    assert_eq!(url_host("ws://localhost:8787/sync/default"), "localhost:8787");
}

#[test]
fn new_heads_are_those_we_lack() {
    let ours = vec![vec![1u8, 2], vec![3u8]];
    assert!(!has_new_heads(&ours, &vec![vec![3u8], vec![1u8, 2]]));
    assert!(!has_new_heads(&ours, &vec![]));
    assert!(has_new_heads(&ours, &vec![vec![1u8, 2], vec![1u8]]));
    assert!(has_new_heads(&vec![], &vec![vec![9u8]]));
}

#[test]
fn a_merge_is_taken_only_with_news_that_read() {
    assert_eq!(merge_step(true, true, false), (true, true));
    assert_eq!(merge_step(true, true, true), (true, false));
    assert_eq!(merge_step(true, false, false), (false, false));
    assert_eq!(merge_step(false, true, false), (false, false));
}
