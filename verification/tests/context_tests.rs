use semantic_memory::context::{format_injection, ContextWindow, Message, Role};
use semantic_memory::int_to_usize;
use semantic_memory::similarity::Vector;
use semantic_memory::store::{Embeddings, MemoryStore};

#[test]
fn window_opens_with_the_system_prompt() {
    let w = ContextWindow::new("be helpful".to_string(), 256, 50);
    let msgs = w.get();
    assert_eq!(msgs.len(), 1);
    assert_eq!(msgs[0].role, Role::System);
    assert_eq!(msgs[0].content, "be helpful");
}

#[test]
fn add_appends_and_never_rejects_past_budget() {
    let mut w = ContextWindow::new("sys".to_string(), 1, 50);
    for i in 0..5 {
        w.add(Message { role: Role::User, content: format!("turn {}", i) });
    }
    let msgs = w.get();
    assert_eq!(msgs.len(), 6);
    assert_eq!(msgs[5].content, "turn 4");
}

#[test]
fn edit_injects_without_replacing_history() {
    let mut w = ContextWindow::new("sys".to_string(), 256, 50);
    w.add(Message { role: Role::User, content: "hello".to_string() });
    w.edit("remembered fact\n\t".to_string());
    w.add(Message { role: Role::User, content: "next".to_string() });
    let msgs = w.get();
    assert_eq!(msgs.len(), 4);
    assert_eq!(msgs[0].content, "sys");
    assert_eq!(msgs[1].content, "hello");
    assert_eq!(msgs[2].role, Role::System);
    assert_eq!(msgs[2].content, "remembered fact\n\t");
    assert_eq!(msgs[3].content, "next");
}

#[test]
fn augment_switch_latches_once_store_exceeds_threshold() {
    let mut w = ContextWindow::new("sys".to_string(), 256, 2);
    assert!(!w.augment_due(2));
    assert!(w.augment_due(3));
    // the switch is monotonic: it stays on even if asked about a smaller size
    assert!(w.augment_due(0));
}

#[test]
fn format_injection_appends_newline_tab_after_each_text() {
    let texts = vec!["one".to_string(), "two".to_string()];
    assert_eq!(format_injection(&texts), "one\n\ttwo\n\t");
    assert_eq!(format_injection(&Vec::new()), "");
}

#[test]
fn int_to_usize_maps_only_non_negative_values() {
    assert_eq!(int_to_usize(5), Some(5));
    assert_eq!(int_to_usize(0), Some(0));
    assert_eq!(int_to_usize(-1), None);
}

#[test]
fn accumulate_then_augment_session_flow() {
    // a compressed session: below the threshold turns accumulate, above it
    // retrieval is due before each turn
    let mut store = MemoryStore::new();
    let mut w = ContextWindow::new("sys".to_string(), 256, 1);
    assert!(!w.augment_due(store.len()));
    w.add(Message { role: Role::User, content: "first".to_string() });
    let r = store.add_memory(
        &vec!["a".to_string(), "b".to_string()],
        Embeddings::Many(vec![
            Vector { coords: vec![1_000_000, 0], finite: true },
            Vector { coords: vec![0, 1_000_000], finite: true },
        ]),
    );
    assert!(r.is_ok());
    assert!(w.augment_due(store.len()));
}
