use highway::chain::Chain;
use highway::pothole::{Pothole, PotholeResult, BLOCK_PROPOSE_MILLIS};

#[test]
fn first_node_is_dictator_and_schedules_timer() {
    let (pothole, effects) = Pothole::<String>::new(1, &[3, 1, 2], 500);
    assert!(matches!(pothole, Pothole::Dictator { block_timer: 0, .. }));
    assert_eq!(effects.len(), 1);
    assert!(matches!(effects[0], PotholeResult::ScheduleTimer(0, at) if at == 500 + BLOCK_PROPOSE_MILLIS));
    let (pothole, effects) = Pothole::<String>::new(2, &[3, 1, 2], 500);
    assert!(matches!(pothole, Pothole::Follower { .. }));
    assert!(effects.is_empty());
}

#[test]
fn dictator_timer_and_proposals() {
    let (mut pothole, _) = Pothole::<String>::new(1, &[1, 2], 0);
    let effects = pothole.handle_timer(0, 1000);
    assert_eq!(effects.len(), 2);
    assert!(matches!(effects[0], PotholeResult::CreateNewBlock));
    assert!(matches!(effects[1], PotholeResult::ScheduleTimer(0, 11000)));
    assert!(pothole.handle_timer(5, 1000).is_empty());
    let effects = pothole.propose_block("first".to_string());
    assert!(matches!(&effects[0], PotholeResult::FinalizedBlock(0, b) if b == "first"));
    let effects = pothole.propose_block("second".to_string());
    assert!(matches!(&effects[0], PotholeResult::FinalizedBlock(1, b) if b == "second"));
    assert_eq!(pothole.chain().num_blocks(), 2);
    assert_eq!(pothole.chain().get_last_block(), Some(&"second".to_string()));
    // The dictator ignores blocks from others.
    assert!(pothole.handle_new_block(5, "other".to_string()).is_empty());
}

#[test]
fn follower_records_new_blocks_once() {
    let (mut pothole, _) = Pothole::<String>::new(2, &[1, 2], 0);
    assert!(pothole.handle_timer(0, 0).is_empty());
    assert!(pothole.propose_block("x".to_string()).is_empty());
    let effects = pothole.handle_new_block(3, "b3".to_string());
    assert!(matches!(&effects[0], PotholeResult::FinalizedBlock(3, b) if b == "b3"));
    assert!(pothole.handle_new_block(3, "again".to_string()).is_empty());
    let chain = pothole.chain();
    assert_eq!(chain.num_blocks(), 4);
    assert_eq!(chain.get_block(3), Some(&"again".to_string()));
    assert_eq!(chain.get_block(0), None);
    assert_eq!(chain.get_last_block(), Some(&"again".to_string()));
}

#[test]
fn chain_append_and_insert() {
    let mut chain: Chain<u32> = Chain::new();
    assert_eq!(chain.get_last_block(), None);
    assert_eq!(chain.append(10), 0);
    assert_eq!(chain.append(11), 1);
    assert_eq!(chain.insert(5, 15), None);
    assert_eq!(chain.num_blocks(), 6);
    assert_eq!(chain.get_last_block(), Some(&15));
    assert_eq!(chain.insert(1, 21), Some(11));
    assert_eq!(chain.num_blocks(), 6);
    assert_eq!(chain.append(16), 6);
    let all: Vec<(u64, u32)> = chain.blocks_iterator().map(|(i, b)| (*i, *b)).collect();
    assert_eq!(all, vec![(0, 10), (1, 21), (5, 15), (6, 16)]);
}
