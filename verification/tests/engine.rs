use module_arena::engine::{
    decode_move, decode_owner, encode_selector, owner_call, play_call, OWNER_GAS_LIMIT,
    PLAY_GAS_LIMIT, PLAY_STORAGE_LIMIT,
};
use module_arena::{Action, Address, Error, ExecutionFailure, ExecutionMode, Reply, Word};

fn address(byte: u8) -> Address {
    Address { bytes: [byte; 20] }
}

fn selector_of(signature: &str) -> u32 {
    let hash = <sp_core::KeccakHasher as sp_core::Hasher>::hash(signature.as_bytes());
    u32::from_be_bytes([hash.0[0], hash.0[1], hash.0[2], hash.0[3]])
}

#[test]
fn selectors_are_the_hashes_of_the_signatures() {
    assert_eq!(Action::Owner.selector(), selector_of("owner()"));
    assert_eq!(Action::Play.selector(), selector_of("play(uint256,uint256,uint256)"));
    assert_eq!(Action::Owner.selector(), 0x8da5cb5b);
    assert_eq!(Action::Play.selector(), 0xab2e5a1f);
}

#[test]
fn selectors_name_their_actions() {
    assert_eq!(Action::try_from_primitive(0x8da5cb5b), Some(Action::Owner));
    assert_eq!(Action::try_from_primitive(0xab2e5a1f), Some(Action::Play));
    assert_eq!(Action::try_from_primitive(0), None);
    assert_eq!(Action::try_from_primitive(0xab2e5a1e), None);
}

#[test]
fn selector_bytes_are_big_endian() {
    assert_eq!(encode_selector(0x8da5cb5b), vec![0x8d, 0xa5, 0xcb, 0x5b]);
    assert_eq!(encode_selector(1), vec![0, 0, 0, 1]);
    assert_eq!(encode_selector(0x01020304), 0x01020304u32.to_be_bytes().to_vec());
}

#[test]
fn play_call_carries_round_and_previous_moves() {
    let call = play_call(address(9), address(4), 2, Word::from_u32(258), Word::from_u32(7));
    assert_eq!(call.contract, address(4));
    assert_eq!(call.sender, address(9));
    assert_eq!(call.origin, address(9));
    assert_eq!(call.value, 0);
    assert_eq!(call.gas_limit, 10_000_000);
    assert_eq!(call.gas_limit, PLAY_GAS_LIMIT);
    assert_eq!(call.storage_limit, 1280);
    assert_eq!(call.storage_limit, PLAY_STORAGE_LIMIT);
    assert_eq!(call.mode, ExecutionMode::Execute);
    let mut input = vec![0xab, 0x2e, 0x5a, 0x1f];
    let mut round = vec![0u8; 32];
    round[0] = 2;
    let mut prev = vec![0u8; 32];
    prev[0] = 2;
    prev[1] = 1;
    let mut other = vec![0u8; 32];
    other[0] = 7;
    input.extend(round);
    input.extend(prev);
    input.extend(other);
    assert_eq!(call.input.len(), 100);
    assert_eq!(call.input, input);
}

#[test]
fn owner_call_only_reads() {
    let call = owner_call(address(4));
    assert_eq!(call.contract, address(4));
    assert_eq!(call.sender, address(0));
    assert_eq!(call.origin, address(0));
    assert_eq!(call.input, vec![0x8d, 0xa5, 0xcb, 0x5b]);
    assert_eq!(call.value, 0);
    assert_eq!(call.gas_limit, 2_100_000);
    assert_eq!(call.gas_limit, OWNER_GAS_LIMIT);
    assert_eq!(call.storage_limit, 0);
    assert_eq!(call.mode, ExecutionMode::View);
}

#[test]
fn a_failed_call_is_the_move_zero() {
    let reply: Reply = Err(ExecutionFailure);
    assert_eq!(decode_move(&reply), Word::zero());
}

#[test]
fn a_short_output_is_the_move_zero() {
    assert_eq!(decode_move(&Ok(vec![])), Word::zero());
    assert_eq!(decode_move(&Ok(vec![1])), Word::zero());
    assert_eq!(decode_move(&Ok(vec![1; 31])), Word::zero());
}

#[test]
fn a_full_output_is_read_as_a_big_endian_word() {
    let mut output = vec![0u8; 32];
    output[31] = 2;
    assert_eq!(decode_move(&Ok(output.clone())), Word::from_u32(2));
    output[30] = 1;
    assert_eq!(decode_move(&Ok(output.clone())), Word::from_u32(258));
    output[0] = 1;
    assert_eq!(decode_move(&Ok(output)), Word { limbs: [258, 0, 0, 1 << 56] });
}

#[test]
fn a_long_output_is_read_by_its_first_word() {
    let mut output = vec![0u8; 64];
    output[31] = 5;
    output[63] = 9;
    assert_eq!(decode_move(&Ok(output)), Word::from_u32(5));
}

#[test]
fn the_owner_is_read_from_the_low_20_bytes_of_the_first_word() {
    let mut output = vec![0u8; 32];
    for i in 0..20 {
        output[12 + i] = i as u8 + 1;
    }
    let mut bytes = [0u8; 20];
    for i in 0..20 {
        bytes[i] = i as u8 + 1;
    }
    assert_eq!(decode_owner(&Ok(output.clone())), Ok(Address { bytes }));
    output.push(0xff);
    output[0] = 0xee;
    assert_eq!(decode_owner(&Ok(output)), Ok(Address { bytes }));
}

#[test]
fn a_reply_without_an_owner_is_an_invalid_owner() {
    assert_eq!(decode_owner(&Err(ExecutionFailure)), Err(Error::InvalidOwner));
    assert_eq!(decode_owner(&Ok(vec![])), Err(Error::InvalidOwner));
    assert_eq!(decode_owner(&Ok(vec![1; 11])), Err(Error::InvalidOwner));
    assert_eq!(decode_owner(&Ok(vec![1; 20])), Err(Error::InvalidOwner));
    assert_eq!(decode_owner(&Ok(vec![1; 31])), Err(Error::InvalidOwner));
}

#[test]
fn addresses_compare_by_their_bytes() {
    assert_eq!(address(1), address(1));
    assert_ne!(address(1), address(2));
    let mut bytes = [1u8; 20];
    bytes[19] = 0;
    assert_ne!(address(1), Address { bytes });
    assert_eq!(Address::zero(), address(0));
}
