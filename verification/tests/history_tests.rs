use automerge::transaction::Transactable;
use automerge::{AutoCommit, ROOT};
use todui::history::{load_document, merge_server_message};

fn history_with(key: &str) -> AutoCommit {
    let mut doc = AutoCommit::new();
    doc.put(ROOT, key, 1i64).unwrap();
    doc
}

#[test]
fn bytes_that_hold_no_history_load_to_none() {
    assert!(load_document(b"not an automerge file").is_none());
    let mut doc = history_with("a");
    let bytes = doc.save();
    let mut loaded = load_document(&bytes).unwrap();
    assert_eq!(loaded.get_heads(), doc.get_heads());
}

#[test]
fn a_message_with_changes_we_lack_brings_news() {
    let mut ours = history_with("a");
    let mut theirs = ours.fork();
    theirs.put(ROOT, "b", 2i64).unwrap();
    let m = merge_server_message(&mut ours, &theirs.save()).unwrap();
    assert!(m.news);
    assert!(m.our_heads.iter().all(|h| h.len() == 32));
    assert!(m.merged_heads.iter().all(|h| h.len() == 32));
    assert_ne!(m.our_heads, m.merged_heads);
}

#[test]
fn a_message_we_already_have_brings_no_news() {
    let mut ours = history_with("a");
    let mut copy = ours.fork();
    let m = merge_server_message(&mut ours, &copy.save()).unwrap();
    assert!(!m.news);
    assert_eq!(m.our_heads, m.merged_heads);
}

#[test]
fn a_message_that_holds_no_history_is_dropped() {
    let mut ours = history_with("a");
    assert!(merge_server_message(&mut ours, &[1, 2, 3]).is_none());
}
