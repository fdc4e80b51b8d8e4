use highway::deploy_buffer::{BlockHash, Deploy, DeployBuffer};

#[test]
fn add_and_take_deploys() {
    let no_blocks = Vec::new();
    let mut buffer = DeployBuffer::new();
    let deploy1 = Deploy(vec![1]);
    let deploy2 = Deploy(vec![2]);
    let deploy3 = Deploy(vec![3]);
    let deploy4 = Deploy(vec![4]);

    assert!(buffer.remaining_deploys(&no_blocks).is_empty());

    // add two deploys
    buffer.add_deploy(deploy1.clone());
    buffer.add_deploy(deploy2.clone());

    // take the deploys out
    let deploys = buffer.remaining_deploys(&no_blocks);

    assert_eq!(deploys.len(), 2);
    assert!(deploys.contains(&deploy1));
    assert!(deploys.contains(&deploy2));

    assert!(buffer.remaining_deploys(&no_blocks).is_empty());

    // the two deploys will be included in block 1
    let block_hash1 = BlockHash([0; 32]);
    buffer.added_block(block_hash1, deploys);

    let mut blocks = Vec::new();
    blocks.push(block_hash1);

    assert!(buffer.remaining_deploys(&blocks).is_empty());

    // try adding the same deploy again
    buffer.add_deploy(deploy2);

    // it shouldn't be returned if we include block 1 in the past blocks
    assert!(buffer.remaining_deploys(&blocks).is_empty());

    // finalize the block
    buffer.finalized_block(block_hash1);

    // add more deploys
    buffer.add_deploy(deploy3.clone());
    buffer.add_deploy(deploy4.clone());

    let deploys = buffer.remaining_deploys(&blocks);

    assert_eq!(deploys.len(), 2);
    assert!(deploys.contains(&deploy3));
    assert!(deploys.contains(&deploy4));
}

#[test]
fn duplicate_deploys_are_kept_once() {
    let mut buffer = DeployBuffer::new();
    buffer.add_deploy(Deploy(vec![7, 7]));
    buffer.add_deploy(Deploy(vec![7, 7]));
    buffer.add_deploy(Deploy(vec![7]));
    let deploys = buffer.remaining_deploys(&Vec::new());
    assert_eq!(deploys.len(), 2);
    assert!(deploys.contains(&Deploy(vec![7, 7])));
    assert!(deploys.contains(&Deploy(vec![7])));
}

#[test]
fn orphaned_block_returns_its_deploys() {
    let mut buffer = DeployBuffer::new();
    let block = BlockHash([9; 32]);
    let other = BlockHash([8; 32]);
    buffer.add_deploy(Deploy(vec![1]));
    buffer.add_deploy(Deploy(vec![2]));
    buffer.added_block(block, vec![Deploy(vec![1]), Deploy(vec![3])]);
    // Deploy 1 was taken into the block; deploy 2 stays collected.
    let remaining = buffer.remaining_deploys(&vec![other]);
    assert_eq!(remaining, vec![Deploy(vec![2])]);
    buffer.orphaned_block(block);
    let remaining = buffer.remaining_deploys(&vec![block]);
    assert_eq!(remaining.len(), 2);
    assert!(remaining.contains(&Deploy(vec![1])));
    assert!(remaining.contains(&Deploy(vec![3])));
}

#[test]
fn deploys_in_finalized_blocks_stay_collected() {
    let mut buffer = DeployBuffer::new();
    let block = BlockHash([1; 32]);
    buffer.added_block(block, vec![Deploy(vec![5])]);
    buffer.finalized_block(block);
    buffer.add_deploy(Deploy(vec![5]));
    buffer.add_deploy(Deploy(vec![6]));
    assert_eq!(buffer.remaining_deploys(&vec![block]), vec![Deploy(vec![6])]);
    // Deploy 5 is still collected, and comes out for another past.
    assert_eq!(buffer.remaining_deploys(&Vec::new()), vec![Deploy(vec![5])]);
}
