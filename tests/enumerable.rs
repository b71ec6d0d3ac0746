use token_registry::address::Address;
use token_registry::uint256::Uint256;
use token_registry::enumerable::{
    ERC721EnumerableForbiddenBatchMint, ERC721OutOfBoundsIndex, Erc721Enumerable, Error,
    IErc721Enumerable,
};

fn alice() -> Address {
    Address { high: 0xA11C_E000, low: 0x0000_0000_0000_0000_0000_0000_0000_A11C }
}

fn bob() -> Address {
    Address { high: 0xF4EA_CDAB, low: 0xEF3C_8F1E_DE91_B6F2_A684_0BC2_E4DD_3526 }
}

fn token_ids(n: u128) -> Vec<Uint256> {
    // Ids past 2^128, as ids derived from hashes are.
    (0..n)
        .map(|i| Uint256 { high: 0x9C22_FF5F_21F0_B81B_1137_3B8C_7E4D_2A11 + i, low: i * 7919 + 1 })
        .collect()
}

fn out_of_bounds(owner: Address, index: usize) -> Error {
    Error::OutOfBoundsIndex(ERC721OutOfBoundsIndex { owner, index })
}

#[test]
fn total_supply_no_tokens() {
    let contract = Erc721Enumerable::new();
    assert_eq!(0, contract.total_supply());
}

#[test]
fn token_by_index_errors_when_index_out_of_bound() {
    let contract = Erc721Enumerable::new();
    assert_eq!(0, contract.total_supply());

    let token_idx: usize = 2024;

    let err = contract.token_by_index(token_idx).unwrap_err();
    assert!(matches!(err, Error::OutOfBoundsIndex(_)));
    assert_eq!(err, out_of_bounds(Address::zero(), 2024));
}

#[test]
fn add_token_to_all_tokens_enumeration_works() {
    let mut contract = Erc721Enumerable::new();
    assert_eq!(0, contract.total_supply());

    let tokens_len: usize = 10;
    let tokens_ids = token_ids(tokens_len as u128);
    for token_id in &tokens_ids {
        contract._add_token_to_all_tokens_enumeration(*token_id);
    }

    assert_eq!(tokens_len, contract.total_supply());

    for (idx, expected_token_id) in tokens_ids.iter().enumerate() {
        let token_id = contract.token_by_index(idx).expect("should return token id for");
        assert_eq!(*expected_token_id, token_id);
    }

    let err = contract.token_by_index(tokens_len).unwrap_err();
    assert!(matches!(err, Error::OutOfBoundsIndex(_)));
}

#[test]
fn remove_token_from_all_tokens_enumeration_works() {
    let mut contract = Erc721Enumerable::new();
    assert_eq!(0, contract.total_supply());

    let initial_tokens_len: usize = 10;
    let mut tokens_ids = token_ids(initial_tokens_len as u128);
    for token_id in &tokens_ids {
        contract._add_token_to_all_tokens_enumeration(*token_id);
    }
    assert_eq!(initial_tokens_len, contract.total_supply());

    // Remove the last token.
    let last_token_id = tokens_ids.swap_remove(initial_tokens_len - 1);
    contract._remove_token_from_all_tokens_enumeration(last_token_id);
    assert_eq!(initial_tokens_len - 1, contract.total_supply());

    // Remove the second element, so that the swap takes place.
    let token_to_remove = tokens_ids.swap_remove(1);
    contract._remove_token_from_all_tokens_enumeration(token_to_remove);
    assert_eq!(initial_tokens_len - 2, contract.total_supply());

    // Add a new token.
    let token_id = Uint256 { high: 7, low: 0x0BAD_CAFE };
    tokens_ids.push(token_id);
    contract._add_token_to_all_tokens_enumeration(token_id);
    assert_eq!(initial_tokens_len - 1, contract.total_supply());

    for (idx, expected_token_id) in tokens_ids.iter().enumerate() {
        let token_id = contract.token_by_index(idx).expect("should return token id");
        assert_eq!(*expected_token_id, token_id);
    }

    let err = contract.token_by_index(initial_tokens_len - 1).unwrap_err();
    assert!(matches!(err, Error::OutOfBoundsIndex(_)));
}

#[test]
fn check_increase_balance() {
    assert!(Erc721Enumerable::_check_increase_balance(0).is_ok());
    let err = Erc721Enumerable::_check_increase_balance(1).unwrap_err();
    assert!(matches!(err, Error::EnumerableForbiddenBatchMint(_)));
}

#[test]
fn token_of_owner_by_index_works() {
    let mut contract = Erc721Enumerable::new();
    let token_id = token_ids(1)[0];

    // ALICE's balance after the mint.
    contract._add_token_to_owner_enumeration(alice(), token_id, 1);

    let test_token_id = contract
        .token_of_owner_by_index(alice(), 0)
        .expect("should return `token_id`");
    assert_eq!(token_id, test_token_id);
}

#[test]
fn token_of_owner_errors_index_out_of_bound() {
    let mut contract = Erc721Enumerable::new();
    let token_id = token_ids(1)[0];

    contract._add_token_to_owner_enumeration(alice(), token_id, 1);

    let err = contract.token_of_owner_by_index(alice(), 1).unwrap_err();
    assert!(matches!(err, Error::OutOfBoundsIndex(_)));
    assert_eq!(err, out_of_bounds(alice(), 1));
}

#[test]
fn token_of_owner_errors_owner_does_not_own_any_token() {
    let contract = Erc721Enumerable::new();

    let err = contract.token_of_owner_by_index(bob(), 0).unwrap_err();
    assert!(matches!(err, Error::OutOfBoundsIndex(_)));
    assert_eq!(err, out_of_bounds(bob(), 0));
}

#[test]
fn token_of_owner_by_index_after_transfer_works() {
    let mut contract = Erc721Enumerable::new();
    let token_id = token_ids(1)[0];

    contract._add_token_to_owner_enumeration(alice(), token_id, 1);

    // Transfer the token from ALICE (balance 1 before it leaves) to BOB
    // (balance 1 after it arrives).
    contract._remove_token_from_owner_enumeration(alice(), token_id, 1);
    contract._add_token_to_owner_enumeration(bob(), token_id, 1);

    let test_token_id = contract
        .token_of_owner_by_index(bob(), 0)
        .expect("should return `token_id`");
    assert_eq!(token_id, test_token_id);

    let err = contract.token_of_owner_by_index(alice(), 0).unwrap_err();
    assert!(matches!(err, Error::OutOfBoundsIndex(_)));
    assert_eq!(err, out_of_bounds(alice(), 0));
}

#[test]
fn batch_mint_is_forbidden_for_any_positive_amount() {
    let forbidden = Err(Error::EnumerableForbiddenBatchMint(ERC721EnumerableForbiddenBatchMint {}));
    assert_eq!(Erc721Enumerable::_check_increase_balance(0), Ok(()));
    assert_eq!(Erc721Enumerable::_check_increase_balance(2), forbidden);
    assert_eq!(Erc721Enumerable::_check_increase_balance(u128::MAX), forbidden);
}

#[test]
fn global_query_at_supply_fails_with_null_owner() {
    let mut contract = Erc721Enumerable::new();
    for token_id in token_ids(3) {
        contract._add_token_to_all_tokens_enumeration(token_id);
    }
    let supply = contract.total_supply();
    assert_eq!(supply, 3);
    assert_eq!(contract.token_by_index(supply), Err(out_of_bounds(Address::zero(), 3)));
}

#[test]
fn swap_removal_moves_last_into_freed_slot() {
    let mut contract = Erc721Enumerable::new();
    let ids = token_ids(10);
    for token_id in &ids {
        contract._add_token_to_all_tokens_enumeration(*token_id);
    }
    assert_eq!(contract.total_supply(), 10);

    contract._remove_token_from_all_tokens_enumeration(ids[9]);
    assert_eq!(contract.total_supply(), 9);
    for idx in 0..9 {
        assert_eq!(contract.token_by_index(idx), Ok(ids[idx]));
    }

    contract._remove_token_from_all_tokens_enumeration(ids[1]);
    assert_eq!(contract.total_supply(), 8);
    assert_eq!(contract.token_by_index(1), Ok(ids[8]));
    assert_eq!(contract.token_by_index(0), Ok(ids[0]));
    for idx in 2..8 {
        assert_eq!(contract.token_by_index(idx), Ok(ids[idx]));
    }
    assert_eq!(contract.token_by_index(8), Err(out_of_bounds(Address::zero(), 8)));
    for idx in 0..8 {
        assert_ne!(contract.token_by_index(idx), Ok(ids[1]));
    }
}

#[test]
fn removing_the_only_token_empties_the_list() {
    let mut contract = Erc721Enumerable::new();
    contract._add_token_to_all_tokens_enumeration(Uint256::from_u128(42));
    contract._remove_token_from_all_tokens_enumeration(Uint256::from_u128(42));
    assert_eq!(contract.total_supply(), 0);
    assert_eq!(contract.token_by_index(0), Err(out_of_bounds(Address::zero(), 0)));
}

#[test]
fn owner_removal_swaps_within_the_owner_list() {
    let mut contract = Erc721Enumerable::new();
    let ids = token_ids(3);
    for (i, token_id) in ids.iter().enumerate() {
        contract._add_token_to_owner_enumeration(alice(), *token_id, i + 1);
    }
    contract._remove_token_from_owner_enumeration(alice(), ids[0], 3);
    assert_eq!(contract.token_of_owner_by_index(alice(), 0), Ok(ids[2]));
    assert_eq!(contract.token_of_owner_by_index(alice(), 1), Ok(ids[1]));
    assert_eq!(contract.token_of_owner_by_index(alice(), 2), Err(out_of_bounds(alice(), 2)));

    // The moved token can itself be removed by its new position.
    contract._remove_token_from_owner_enumeration(alice(), ids[2], 2);
    assert_eq!(contract.token_of_owner_by_index(alice(), 0), Ok(ids[1]));
    assert_eq!(contract.token_of_owner_by_index(alice(), 1), Err(out_of_bounds(alice(), 1)));
}

#[test]
fn owners_do_not_see_each_others_tokens() {
    let mut contract = Erc721Enumerable::new();
    let ids = token_ids(4);
    contract._add_token_to_owner_enumeration(alice(), ids[0], 1);
    contract._add_token_to_owner_enumeration(bob(), ids[1], 1);
    contract._add_token_to_owner_enumeration(alice(), ids[2], 2);
    assert_eq!(contract.token_of_owner_by_index(alice(), 0), Ok(ids[0]));
    assert_eq!(contract.token_of_owner_by_index(alice(), 1), Ok(ids[2]));
    assert_eq!(contract.token_of_owner_by_index(bob(), 0), Ok(ids[1]));
    assert_eq!(contract.token_of_owner_by_index(bob(), 1), Err(out_of_bounds(bob(), 1)));
}

#[test]
fn owner_slot_holding_id_zero_reads_as_empty() {
    let mut contract = Erc721Enumerable::new();
    contract._add_token_to_owner_enumeration(alice(), Uint256::zero(), 1);
    assert_eq!(contract.token_of_owner_by_index(alice(), 0), Err(out_of_bounds(alice(), 0)));
}

#[test]
fn address_zero_is_null() {
    assert!(Address::zero().is_zero());
    assert!(!alice().is_zero());
    assert!(!Address { high: 1, low: 0 }.is_zero());
}

#[test]
fn ids_differing_only_in_the_high_half_are_distinct() {
    let mut contract = Erc721Enumerable::new();
    let a = Uint256 { high: 1, low: 5 };
    let b = Uint256 { high: 2, low: 5 };
    contract._add_token_to_all_tokens_enumeration(a);
    contract._add_token_to_all_tokens_enumeration(b);
    assert!(contract.contains_token(a));
    assert!(contract.contains_token(b));
    assert!(!contract.contains_token(Uint256::from_u128(5)));
    contract._remove_token_from_all_tokens_enumeration(a);
    assert_eq!(contract.token_by_index(0), Ok(b));
    assert!(!contract.contains_token(a));
    assert!(contract.contains_token(b));
}

#[test]
fn membership_queries_follow_the_hooks() {
    let mut contract = Erc721Enumerable::new();
    let ids = token_ids(2);
    assert_eq!(contract.owned_count(alice()), 0);
    contract._add_token_to_owner_enumeration(alice(), ids[0], 1);
    assert_eq!(contract.owned_count(alice()), 1);
    assert!(contract.owns_token(alice(), ids[0]));
    assert!(!contract.owns_token(bob(), ids[0]));
    assert!(contract.is_owned_by_anyone(ids[0]));
    assert!(!contract.is_owned_by_anyone(ids[1]));
    contract._remove_token_from_owner_enumeration(alice(), ids[0], 1);
    assert_eq!(contract.owned_count(alice()), 0);
    assert!(!contract.is_owned_by_anyone(ids[0]));
}
