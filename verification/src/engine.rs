//! The calls that the arena asks the execution engine to make, and what it
//! reads from the replies.
//!
//! The engine runs a program at an address on some input bytes, within a gas
//! limit, and answers with output bytes or with a failure. The arena never
//! makes the call itself: it builds an [`EngineCall`], and whoever drives it
//! hands back the [`Reply`].

use crate::address::Address;
use crate::contender::Error;
use crate::word::{be_value, le_bytes, Word};
use vstd::prelude::*;

verus! {

/// The gas that a program may spend on one move.
pub const PLAY_GAS_LIMIT: u64 = 10_000_000;

/// The storage that a program may claim while it makes one move.
pub const PLAY_STORAGE_LIMIT: u32 = 64 * 20;

/// The gas that a program may spend on naming its owner.
pub const OWNER_GAS_LIMIT: u64 = 2_100_000;

/// The functions of a program that the arena calls.
#[derive(Clone, Copy, Debug, PartialEq, Eq, Structural)]
pub enum Action {
    /// `owner()`: the address that owns the program.
    Owner,
    /// `play(uint256,uint256,uint256)`: the move for a round, given the round
    /// and both previous moves.
    Play,
}

impl Action {
    /// The selector of the function: the first four bytes of the Keccak-256
    /// hash of its signature, read as a big-endian number.
    pub open spec fn spec_selector(self) -> u32 {
        match self {
            Action::Owner => 0x8da5_cb5b,
            Action::Play => 0xab2e_5a1f,
        }
    }

    #[verifier::when_used_as_spec(spec_selector)]
    pub fn selector(self) -> (s: u32)
        ensures
            s == self.spec_selector(),
    {
        match self {
            Action::Owner => 0x8da5_cb5b,
            Action::Play => 0xab2e_5a1f,
        }
    }

    /// The function with the selector `number`, if the arena calls one.
    pub fn try_from_primitive(number: u32) -> (action: Option<Action>)
        ensures
            action matches Some(a) ==> a.spec_selector() == number,
            action is None ==> number != Action::Owner.spec_selector() && number
                != Action::Play.spec_selector(),
    {
        if number == 0x8da5_cb5b {
            Some(Action::Owner)
        } else if number == 0xab2e_5a1f {
            Some(Action::Play)
        } else {
            None
        }
    }
}

/// Whether a call may change the engine's state.
#[derive(Clone, Copy, Debug, PartialEq, Eq, Structural)]
pub enum ExecutionMode {
    /// The call runs for its effects and its answer.
    Execute,
    /// The call only reads.
    View,
}

/// One call for the execution engine to make.
#[derive(Clone, Debug, PartialEq, Eq)]
pub struct EngineCall {
    /// The program to run.
    pub contract: Address,
    /// The address in whose name the call is made.
    pub sender: Address,
    /// The address at which the chain of calls began.
    pub origin: Address,
    /// The selector of the function and its encoded arguments.
    pub input: Vec<u8>,
    /// The amount transferred with the call.
    pub value: u128,
    /// The most gas that the call may use.
    pub gas_limit: u64,
    /// The most storage that the call may claim.
    pub storage_limit: u32,
    pub mode: ExecutionMode,
}

/// An [`EngineCall`] with its input as a sequence of bytes.
pub struct EngineCallView {
    pub contract: Address,
    pub sender: Address,
    pub origin: Address,
    pub input: Seq<u8>,
    pub value: u128,
    pub gas_limit: u64,
    pub storage_limit: u32,
    pub mode: ExecutionMode,
}

impl View for EngineCall {
    type V = EngineCallView;

    open spec fn view(&self) -> EngineCallView {
        EngineCallView {
            contract: self.contract,
            sender: self.sender,
            origin: self.origin,
            input: self.input@,
            value: self.value,
            gas_limit: self.gas_limit,
            storage_limit: self.storage_limit,
            mode: self.mode,
        }
    }
}

/// The engine could not run a call to its end: the program reverted, trapped
/// or ran out of gas.
#[derive(Clone, Copy, Debug, PartialEq, Eq, Structural)]
pub struct ExecutionFailure;

/// What the engine answers to a call: the output bytes, or a failure.
pub type Reply = Result<Vec<u8>, ExecutionFailure>;

/// The output bytes of a reply, where the call succeeded.
pub open spec fn reply_output(reply: Reply) -> Option<Seq<u8>> {
    match reply {
        Ok(output) => Some(output@),
        Err(_) => None,
    }
}

/// The four bytes of a selector, most significant first.
pub open spec fn selector_bytes(selector: u32) -> Seq<u8> {
    seq![
        (selector / 0x100_0000) as u8,
        (selector / 0x1_0000 % 0x100) as u8,
        (selector / 0x100 % 0x100) as u8,
        (selector % 0x100) as u8,
    ]
}

/// The input of a `play` call: the selector, then the round and the two
/// previous moves, each as the 32 bytes of a word, least significant first.
pub open spec fn play_input(round: u32, prev_play: nat, other_prev_play: nat) -> Seq<u8> {
    selector_bytes(Action::Play.spec_selector()) + le_bytes(round as nat, 32) + le_bytes(
        prev_play,
        32,
    ) + le_bytes(other_prev_play, 32)
}

/// The call that asks the program at `contract` for its move.
pub open spec fn play_call_spec(
    invoker: Address,
    contract: Address,
    round: u32,
    prev_play: nat,
    other_prev_play: nat,
) -> EngineCallView {
    EngineCallView {
        contract,
        sender: invoker,
        origin: invoker,
        input: play_input(round, prev_play, other_prev_play),
        value: 0,
        gas_limit: PLAY_GAS_LIMIT,
        storage_limit: PLAY_STORAGE_LIMIT,
        mode: ExecutionMode::Execute,
    }
}

/// The call that asks the program at `contract` for its owner.
pub open spec fn owner_call_spec(contract: Address) -> EngineCallView {
    EngineCallView {
        contract,
        sender: Address::spec_zero(),
        origin: Address::spec_zero(),
        input: selector_bytes(Action::Owner.spec_selector()),
        value: 0,
        gas_limit: OWNER_GAS_LIMIT,
        storage_limit: 0,
        mode: ExecutionMode::View,
    }
}

/// The move that a reply stands for. A failed call counts as zero, and so does
/// an output of fewer than 32 bytes; otherwise the first 32 bytes are read as
/// a big-endian number.
pub open spec fn move_of_reply(reply: Option<Seq<u8>>) -> nat {
    match reply {
        Some(output) => if output.len() >= 32 {
            be_value(output.subrange(0, 32))
        } else {
            0
        },
        None => 0,
    }
}

/// The address that an answer to `owner()` names: bytes 12 to 31 of an output
/// of at least 32 bytes.
pub open spec fn owner_of_reply(reply: Option<Seq<u8>>) -> Option<Seq<u8>> {
    match reply {
        Some(output) => if output.len() >= 32 {
            Some(output.subrange(12, 32))
        } else {
            None
        },
        None => None,
    }
}

/// The bytes of `selector`, most significant first.
pub fn encode_selector(selector: u32) -> (bytes: Vec<u8>)
    ensures
        bytes@ == selector_bytes(selector),
{
    let mut bytes: Vec<u8> = Vec::new();
    bytes.push((selector / 0x100_0000) as u8);
    bytes.push((selector / 0x1_0000 % 0x100) as u8);
    bytes.push((selector / 0x100 % 0x100) as u8);
    bytes.push((selector % 0x100) as u8);
    assert(bytes@ =~= selector_bytes(selector));
    bytes
}

/// Builds the call that asks the program at `contract` for its move in
/// `round`, after it played `prev_play` and its opponent `other_prev_play`.
pub fn play_call(
    invoker: Address,
    contract: Address,
    round: u32,
    prev_play: Word,
    other_prev_play: Word,
) -> (call: EngineCall)
    ensures
        call@ == play_call_spec(invoker, contract, round, prev_play@, other_prev_play@),
{
    let mut input = encode_selector(Action::Play.selector());
    let mut round_bytes = Word::from_u32(round).encode();
    let mut prev_bytes = prev_play.encode();
    let mut other_bytes = other_prev_play.encode();
    input.append(&mut round_bytes);
    input.append(&mut prev_bytes);
    input.append(&mut other_bytes);
    EngineCall {
        contract,
        sender: invoker,
        origin: invoker,
        input,
        value: 0,
        gas_limit: PLAY_GAS_LIMIT,
        storage_limit: PLAY_STORAGE_LIMIT,
        mode: ExecutionMode::Execute,
    }
}

/// Builds the call that asks the program at `contract` for its owner.
pub fn owner_call(contract: Address) -> (call: EngineCall)
    ensures
        call@ == owner_call_spec(contract),
{
    EngineCall {
        contract,
        sender: Address::zero(),
        origin: Address::zero(),
        input: encode_selector(Action::Owner.selector()),
        value: 0,
        gas_limit: OWNER_GAS_LIMIT,
        storage_limit: 0,
        mode: ExecutionMode::View,
    }
}

/// Reads a move from the reply to a `play` call. The call never fails the
/// caller: whatever the program did, a move comes out.
pub fn decode_move(reply: &Reply) -> (word: Word)
    ensures
        word@ == move_of_reply(reply_output(*reply)),
        reply is Err ==> word@ == 0,
{
    match reply {
        Ok(output) => {
            let bytes = output.as_slice();
            if bytes.len() >= 32 {
                let head = vstd::slice::slice_subrange(bytes, 0, 32);
                match Word::from_be_bytes(head) {
                    Some(word) => word,
                    None => Word::zero(),
                }
            } else {
                Word::zero()
            }
        },
        Err(_) => Word::zero(),
    }
}

/// Reads the owner from the reply to an `owner()` call. The reply names an
/// owner exactly when the call succeeded with at least 32 bytes of output;
/// any other reply cannot show who owns the program.
pub fn decode_owner(reply: &Reply) -> (owner: Result<Address, Error>)
    ensures
        owner is Ok <==> owner_of_reply(reply_output(*reply)) is Some,
        owner matches Ok(address) ==> Some(address.bytes@) == owner_of_reply(
            reply_output(*reply),
        ),
        owner matches Err(e) ==> e == Error::InvalidOwner,
{
    match reply {
        Ok(output) => {
            if output.len() >= 32 {
                let mut bytes = [0u8; 20];
                let mut i: usize = 0;
                while i < 20
                    invariant
                        i <= 20,
                        output@.len() >= 32,
                        forall|k: int| 0 <= k < i ==> bytes[k] == output@[12 + k],
                    decreases 20 - i,
                {
                    bytes[i] = output[12 + i];
                    i += 1;
                }
                assert(bytes@ =~= output@.subrange(12, 32));
                Ok(Address { bytes })
            } else {
                Err(Error::InvalidOwner)
            }
        },
        Err(_) => Err(Error::InvalidOwner),
    }
}

} // verus!
