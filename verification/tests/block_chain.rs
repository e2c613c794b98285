use trin::block_chain::{next_block_number, nothing_to_do, ChainError, HashChain};

#[test]
fn test_next_block_number_and_nothing_to_do() {
    assert_eq!(next_block_number(None), 0);
    assert_eq!(next_block_number(Some(41)), 42);
    assert!(nothing_to_do(10, 10));
    assert!(nothing_to_do(11, 10));
    assert!(!nothing_to_do(9, 10));
}

#[test]
fn test_hash_chain_checks_parents() {
    let mut chain = HashChain::new(None);
    assert_eq!(chain.accept(&[9u8; 32], &[1u8; 32]), Ok(()));
    assert_eq!(chain.accept(&[1u8; 32], &[2u8; 32]), Ok(()));
    assert_eq!(chain.accept(&[1u8; 32], &[3u8; 32]), Err(ChainError::InvalidParent));
    assert_eq!(chain.accept(&[2u8; 32], &[3u8; 32]), Ok(()));
    let mut stored = HashChain::new(Some([5u8; 32]));
    assert_eq!(stored.accept(&[6u8; 32], &[7u8; 32]), Err(ChainError::InvalidParent));
    assert_eq!(stored.accept(&[5u8; 32], &[7u8; 32]), Ok(()));
}
