//! Executable contract code.

use vstd::prelude::*;

verus! {

/// The executable code of `revm`, which is made from the bytes of a contract.
#[verifier::external_type_specification]
#[verifier::external_body]
pub struct ExBytecode(revm::state::Bytecode);

/// The bytes start with the magic number of EIP-7702.
pub open spec fn has_eip7702_magic(bytes: Seq<u8>) -> bool {
    bytes.len() >= 2 && bytes[0] == 0xef && bytes[1] == 0x01
}

/// The bytes are contract code: they do not start with the magic number of EIP-7702, or they are a
/// delegation of version 0 to an address.
pub open spec fn is_contract_code(bytes: Seq<u8>) -> bool {
    has_eip7702_magic(bytes) ==> bytes.len() == 23 && bytes[2] == 0
}

/// The executable code that `revm::state::Bytecode::new_raw` makes of `bytes`.
pub uninterp spec fn executable_code(bytes: Seq<u8>) -> revm::state::Bytecode;

/// The bytes that `revm::state::Bytecode::original_bytes` gives back of executable code.
pub uninterp spec fn original_code(code: revm::state::Bytecode) -> Seq<u8>;

/// Calls `revm::state::Bytecode::new_raw`, a function of the bytes alone, whose result is named
/// [`executable_code`]. The code keeps the bytes that it was made from.
///
/// The call panics on bytes that start with the magic number of EIP-7702 and are no delegation of
/// version 0; these are left out.
#[verifier::external_body]
pub(crate) fn new_raw(bytes: Vec<u8>) -> (r: revm::state::Bytecode)
    requires
        is_contract_code(bytes@),
    ensures
        r == executable_code(bytes@),
        original_code(r) == bytes@,
{
    revm::state::Bytecode::new_raw(bytes.into())
}

/// Calls `revm::state::Bytecode::original_bytes`, a function of the code alone, whose result is named
/// [`original_code`].
#[verifier::external_body]
pub(crate) fn original_bytes(code: &revm::state::Bytecode) -> (r: Vec<u8>)
    ensures
        r@ == original_code(*code),
{
    code.original_bytes().to_vec()
}

/// `clone` of `revm::state::Bytecode`, which is derived, gives the same code.
pub assume_specification[ <revm::state::Bytecode as Clone>::clone ](
    code: &revm::state::Bytecode,
) -> (r: revm::state::Bytecode)
    ensures
        r == *code,
;

/// Whether `bytes` are contract code.
pub fn check_contract_code(bytes: &Vec<u8>) -> (r: bool)
    ensures
        r == is_contract_code(bytes@),
{
    if bytes.len() >= 2 && bytes[0] == 0xef && bytes[1] == 0x01 {
        bytes.len() == 23 && bytes[2] == 0
    } else {
        true
    }
}

/// Bytes are contract code exactly if they start with anything but the magic number of EIP-7702, or
/// are 23 bytes long and name version 0 behind it.
pub proof fn lemma_contract_code(bytes: Seq<u8>)
    ensures
        bytes.len() < 2 ==> is_contract_code(bytes),
        bytes.len() >= 2 && bytes[0] != 0xef ==> is_contract_code(bytes),
        bytes.len() >= 2 && bytes[1] != 0x01 ==> is_contract_code(bytes),
        bytes.len() >= 2 && bytes[0] == 0xef && bytes[1] == 0x01 ==> (is_contract_code(bytes) <==>
        bytes.len() == 23 && bytes[2] == 0),
{
}

} // verus!
