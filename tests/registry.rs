use echomint_nft::identity::Identity;
use echomint_nft::naming::display_name;
use echomint_nft::registry::EchoMintNFT;
use echomint_nft::types::{Error, Event, MoodState};

fn alice() -> Identity {
    Identity::new([1u8; 20])
}

fn bob() -> Identity {
    Identity::new([2u8; 20])
}

fn charlie() -> Identity {
    Identity::new([3u8; 20])
}

#[test]
fn test_mint() {
    let mut contract = EchoMintNFT::new(alice());
    let token_id = contract.mint(0, alice(), String::from("SOL"), MoodState::Bullish).unwrap();

    assert_eq!(token_id, 0);
    assert_eq!(contract.total_supply(), 1);
    assert_eq!(contract.owner_of(token_id), Some(alice()));
    assert_eq!(contract.balance_of(alice()), 1);
}

#[test]
fn test_transfer() {
    let mut contract = EchoMintNFT::new(alice());
    let token_id = contract.mint(0, alice(), String::from("DOT"), MoodState::Neutral).unwrap();

    contract.transfer(alice(), bob(), token_id).unwrap();

    assert_eq!(contract.owner_of(token_id), Some(bob()));
    assert_eq!(contract.balance_of(alice()), 0);
    assert_eq!(contract.balance_of(bob()), 1);
}

#[test]
fn test_mood_update() {
    let mut contract = EchoMintNFT::new(alice());
    let token_id = contract.mint(0, alice(), String::from("BTC"), MoodState::Bullish).unwrap();

    contract.update_mood(alice(), 0, token_id, MoodState::Bearish).unwrap();

    let metadata = contract.get_metadata(token_id).unwrap();
    assert_eq!(metadata.mood, MoodState::Bearish);
}

#[test]
fn mint_assigns_sequential_ids() {
    let mut c = EchoMintNFT::new(alice());
    for expected in 0u64..5 {
        let id = c.mint(10, bob(), String::from("ETH"), MoodState::Volatile).unwrap();
        assert_eq!(id, expected);
        assert_eq!(c.total_supply(), expected + 1);
    }
    assert_eq!(c.balance_of(bob()), 5);
    assert_eq!(c.tokens_of_owner(bob()), vec![0, 1, 2, 3, 4]);
}

#[test]
fn mint_builds_metadata() {
    let mut c = EchoMintNFT::new(alice());
    let id = c.mint(77, bob(), String::from("SOL"), MoodState::PositiveSentiment).unwrap();
    let m = c.get_metadata(id).unwrap();
    assert_eq!(m.name, "SOL Echo #000");
    assert_eq!(m.coin, "SOL");
    assert_eq!(m.mood, MoodState::PositiveSentiment);
    assert_eq!(m.image_url, "ipfs://placeholder");
    assert_eq!(m.created_at, 77);
    assert_eq!(m.last_updated, 77);
}

#[test]
fn display_name_pads_to_three_digits() {
    assert_eq!(display_name("SOL", 0), "SOL Echo #000");
    assert_eq!(display_name("DOT", 7), "DOT Echo #007");
    assert_eq!(display_name("BTC", 42), "BTC Echo #042");
    assert_eq!(display_name("ETH", 999), "ETH Echo #999");
    assert_eq!(display_name("ETH", 1234), "ETH Echo #1234");
    assert_eq!(display_name("", 5), " Echo #005");
    assert_eq!(display_name("X", u64::MAX), "X Echo #18446744073709551615");
}

#[test]
fn unminted_token_has_no_owner_or_metadata() {
    let mut c = EchoMintNFT::new(alice());
    assert_eq!(c.owner_of(0), None);
    assert!(c.get_metadata(0).is_none());
    c.mint(0, alice(), String::from("SOL"), MoodState::Bullish).unwrap();
    assert_eq!(c.owner_of(0), Some(alice()));
    assert!(c.get_metadata(0).is_some());
    assert_eq!(c.owner_of(1), None);
    assert!(c.get_metadata(1).is_none());
}

#[test]
fn balances_follow_ownership() {
    let mut c = EchoMintNFT::new(alice());
    for _ in 0..3 {
        c.mint(0, alice(), String::from("SOL"), MoodState::Neutral).unwrap();
    }
    c.mint(0, bob(), String::from("SOL"), MoodState::Neutral).unwrap();
    c.transfer(alice(), bob(), 1).unwrap();
    c.transfer(bob(), charlie(), 3).unwrap();
    for who in [alice(), bob(), charlie()] {
        let owned = (0..c.total_supply())
            .filter(|id| c.owner_of(*id) == Some(who))
            .count() as u64;
        assert_eq!(c.balance_of(who), owned);
    }
    assert_eq!(c.balance_of(alice()), 2);
    assert_eq!(c.balance_of(bob()), 1);
    assert_eq!(c.balance_of(charlie()), 1);
}

#[test]
fn transfer_to_self_keeps_balance() {
    let mut c = EchoMintNFT::new(alice());
    c.mint(0, alice(), String::from("SOL"), MoodState::Neutral).unwrap();
    c.transfer(alice(), alice(), 0).unwrap();
    assert_eq!(c.owner_of(0), Some(alice()));
    assert_eq!(c.balance_of(alice()), 1);
    assert_eq!(c.tokens_of_owner(alice()), vec![0]);
}

#[test]
fn transfer_by_stranger_is_refused() {
    let mut c = EchoMintNFT::new(alice());
    c.mint(0, alice(), String::from("SOL"), MoodState::Neutral).unwrap();
    c.take_events();
    assert_eq!(c.transfer(charlie(), bob(), 0), Err(Error::NotApproved));
    assert_eq!(c.owner_of(0), Some(alice()));
    assert_eq!(c.balance_of(alice()), 1);
    assert_eq!(c.balance_of(bob()), 0);
    assert!(c.take_events().is_empty());
}

#[test]
fn transfer_by_single_approval() {
    let mut c = EchoMintNFT::new(alice());
    c.mint(0, alice(), String::from("SOL"), MoodState::Neutral).unwrap();
    c.approve(alice(), charlie(), 0).unwrap();
    assert_eq!(c.get_approved(0), Some(charlie()));
    c.transfer(charlie(), bob(), 0).unwrap();
    assert_eq!(c.owner_of(0), Some(bob()));
}

#[test]
fn transfer_by_operator() {
    let mut c = EchoMintNFT::new(alice());
    c.mint(0, alice(), String::from("SOL"), MoodState::Neutral).unwrap();
    c.set_approval_for_all(alice(), charlie(), true).unwrap();
    assert!(c.is_approved_for_all(alice(), charlie()));
    assert!(!c.is_approved_for_all(charlie(), alice()));
    c.transfer(charlie(), bob(), 0).unwrap();
    assert_eq!(c.owner_of(0), Some(bob()));
}

#[test]
fn revoked_operator_cannot_transfer() {
    let mut c = EchoMintNFT::new(alice());
    c.mint(0, alice(), String::from("SOL"), MoodState::Neutral).unwrap();
    c.set_approval_for_all(alice(), charlie(), true).unwrap();
    c.set_approval_for_all(alice(), charlie(), false).unwrap();
    assert!(!c.is_approved_for_all(alice(), charlie()));
    assert_eq!(c.transfer(charlie(), bob(), 0), Err(Error::NotApproved));
}

#[test]
fn transfer_clears_single_approval() {
    let mut c = EchoMintNFT::new(alice());
    c.mint(0, alice(), String::from("SOL"), MoodState::Neutral).unwrap();
    c.approve(alice(), charlie(), 0).unwrap();
    c.transfer(alice(), bob(), 0).unwrap();
    assert_eq!(c.get_approved(0), None);
    assert_eq!(c.transfer(charlie(), alice(), 0), Err(Error::NotApproved));
}

#[test]
fn transfer_to_zero_address_is_refused() {
    let mut c = EchoMintNFT::new(alice());
    c.mint(0, alice(), String::from("SOL"), MoodState::Neutral).unwrap();
    assert_eq!(c.transfer(alice(), Identity::zero(), 0), Err(Error::TransferToZeroAddress));
    assert_eq!(c.owner_of(0), Some(alice()));
    assert_eq!(c.balance_of(alice()), 1);
}

#[test]
fn missing_token_is_reported() {
    let mut c = EchoMintNFT::new(alice());
    assert_eq!(c.transfer(alice(), bob(), 0), Err(Error::TokenNotFound));
    assert_eq!(c.approve(alice(), bob(), 0), Err(Error::TokenNotFound));
    assert_eq!(c.update_mood(alice(), 0, 0, MoodState::Bearish), Err(Error::TokenNotFound));
    assert_eq!(
        c.update_image(alice(), 0, 0, String::from("ipfs://x")),
        Err(Error::TokenNotFound)
    );
}

#[test]
fn approve_requires_owner_or_operator() {
    let mut c = EchoMintNFT::new(alice());
    c.mint(0, alice(), String::from("SOL"), MoodState::Neutral).unwrap();
    assert_eq!(c.approve(bob(), bob(), 0), Err(Error::NotApproved));
    assert_eq!(c.get_approved(0), None);
    c.set_approval_for_all(alice(), bob(), true).unwrap();
    c.approve(bob(), charlie(), 0).unwrap();
    assert_eq!(c.get_approved(0), Some(charlie()));
    c.approve(alice(), Identity::zero(), 0).unwrap();
    assert_eq!(c.get_approved(0), Some(Identity::zero()));
}

#[test]
fn only_curator_updates_metadata() {
    let mut c = EchoMintNFT::new(alice());
    c.mint(5, bob(), String::from("SOL"), MoodState::Bullish).unwrap();
    assert_eq!(c.update_mood(bob(), 9, 0, MoodState::Bearish), Err(Error::NotOwner));
    assert_eq!(
        c.update_image(bob(), 9, 0, String::from("ipfs://new")),
        Err(Error::NotOwner)
    );
    let m = c.get_metadata(0).unwrap();
    assert_eq!(m.mood, MoodState::Bullish);
    assert_eq!(m.image_url, "ipfs://placeholder");
    assert_eq!(m.last_updated, 5);
}

#[test]
fn mood_update_advances_timestamp() {
    let mut c = EchoMintNFT::new(alice());
    c.mint(100, bob(), String::from("SOL"), MoodState::Bullish).unwrap();
    c.update_mood(alice(), 250, 0, MoodState::Bearish).unwrap();
    let m = c.get_metadata(0).unwrap();
    assert_eq!(m.mood, MoodState::Bearish);
    assert_eq!(m.created_at, 100);
    assert_eq!(m.last_updated, 250);
    assert!(m.last_updated >= m.created_at);
}

#[test]
fn image_update_sets_url_without_event() {
    let mut c = EchoMintNFT::new(alice());
    c.mint(1, bob(), String::from("SOL"), MoodState::Bullish).unwrap();
    c.take_events();
    c.update_image(alice(), 3, 0, String::from("ipfs://generated")).unwrap();
    let m = c.get_metadata(0).unwrap();
    assert_eq!(m.image_url, "ipfs://generated");
    assert_eq!(m.last_updated, 3);
    assert!(c.take_events().is_empty());
}

#[test]
fn events_are_recorded_in_order() {
    let mut c = EchoMintNFT::new(alice());
    c.mint(0, alice(), String::from("SOL"), MoodState::Bullish).unwrap();
    c.transfer(alice(), bob(), 0).unwrap();
    c.update_mood(alice(), 1, 0, MoodState::Neutral).unwrap();
    let events = c.take_events();
    assert_eq!(events.len(), 4);
    match &events[0] {
        Event::Transfer(t) => {
            assert_eq!(t.from, None);
            assert_eq!(t.to, Some(alice()));
            assert_eq!(t.token_id, 0);
        }
        other => panic!("unexpected {:?}", other),
    }
    match &events[1] {
        Event::Minted(m) => {
            assert_eq!(m.token_id, 0);
            assert_eq!(m.owner, alice());
            assert_eq!(m.coin, "SOL");
        }
        other => panic!("unexpected {:?}", other),
    }
    match &events[2] {
        Event::Transfer(t) => {
            assert_eq!(t.from, Some(alice()));
            assert_eq!(t.to, Some(bob()));
        }
        other => panic!("unexpected {:?}", other),
    }
    match &events[3] {
        Event::MoodUpdated(m) => {
            assert_eq!(m.token_id, 0);
            assert_eq!(m.new_mood, MoodState::Neutral);
        }
        other => panic!("unexpected {:?}", other),
    }
    assert!(c.take_events().is_empty());
}

#[test]
fn removal_does_not_compact_the_list() {
    let mut c = EchoMintNFT::new(alice());
    c.mint(0, alice(), String::from("SOL"), MoodState::Bullish).unwrap();
    c.mint(0, alice(), String::from("SOL"), MoodState::Bullish).unwrap();
    c.transfer(alice(), bob(), 1).unwrap();
    assert_eq!(c.tokens_of_owner(alice()), vec![0]);
    assert_eq!(c.tokens_of_owner(bob()), vec![1]);
    c.transfer(alice(), bob(), 0).unwrap();
    assert_eq!(c.tokens_of_owner(alice()), Vec::<u64>::new());
    assert_eq!(c.tokens_of_owner(bob()), vec![1, 0]);
    c.transfer(bob(), charlie(), 1).unwrap();
    // bob's list loses its last position, which holds token 0
    assert_eq!(c.tokens_of_owner(bob()), vec![1]);
    assert_eq!(c.owner_of(0), Some(bob()));
}

#[test]
fn identity_zero_and_equality() {
    assert!(Identity::zero().is_zero());
    assert!(!alice().is_zero());
    assert_eq!(alice(), Identity::new([1u8; 20]));
    assert_ne!(alice(), bob());
    let mut bytes = [0u8; 20];
    bytes[19] = 1;
    assert!(!Identity::new(bytes).is_zero());
    assert_eq!(Identity::new(bytes).as_bytes(), bytes);
}

#[test]
fn fresh_registry_is_empty() {
    let c = EchoMintNFT::new(alice());
    assert_eq!(c.total_supply(), 0);
    for id in 0u64..3 {
        assert_eq!(c.owner_of(id), None);
        assert!(c.get_metadata(id).is_none());
        assert_eq!(c.get_approved(id), None);
    }
    assert_eq!(c.balance_of(alice()), 0);
    assert!(c.tokens_of_owner(alice()).is_empty());
    assert!(!c.is_approved_for_all(alice(), bob()));
}

#[test]
fn minted_token_has_no_approval() {
    let mut c = EchoMintNFT::new(alice());
    let id = c.mint(0, bob(), String::from("SOL"), MoodState::Bullish).unwrap();
    assert_eq!(c.get_approved(id), None);
}

#[test]
fn token_lists_match_balances() {
    let mut c = EchoMintNFT::new(alice());
    for _ in 0..4 {
        c.mint(0, alice(), String::from("SOL"), MoodState::Neutral).unwrap();
    }
    assert_eq!(c.tokens_of_owner(alice()), vec![0, 1, 2, 3]);
    c.mint(0, alice(), String::from("SOL"), MoodState::Neutral).unwrap();
    // the new id sits at the index given by the balance before the mint
    assert_eq!(c.tokens_of_owner(alice())[4], 4);
    c.transfer(alice(), bob(), 2).unwrap();
    c.transfer(alice(), charlie(), 0).unwrap();
    for who in [alice(), bob(), charlie()] {
        let list = c.tokens_of_owner(who);
        assert_eq!(list.len() as u64, c.balance_of(who));
        assert!(list.iter().all(|id| *id < c.total_supply()));
    }
    assert_eq!(c.tokens_of_owner(alice()).len(), 3);
}

#[test]
fn display_name_kept_after_updates() {
    let mut c = EchoMintNFT::new(alice());
    for _ in 0..12 {
        c.mint(0, bob(), String::from("DOT"), MoodState::Neutral).unwrap();
    }
    c.update_mood(alice(), 5, 11, MoodState::Volatile).unwrap();
    c.update_image(alice(), 6, 11, String::from("ipfs://img")).unwrap();
    c.transfer(bob(), charlie(), 11).unwrap();
    let m = c.get_metadata(11).unwrap();
    assert_eq!(m.name, "DOT Echo #011");
    assert_eq!(m.coin, "DOT");
}
