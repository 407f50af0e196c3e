//! The guest's view of the host functions it may call. Which implementation
//! answers is a capability that the caller holds and hands in, rather than a
//! global.
use vstd::prelude::*;

verus! {

broadcast use vstd::string::to_string_from_display_ensures_for_str;

pub const IDK_NOT_REGISTERED: &'static str = "IDK not registered";

/// An error that crosses the guest/host boundary.
#[derive(Clone, Debug)]
pub enum WasmError {
    /// Raised on the guest side.
    Guest(String),
    /// Raised on the host side.
    Host(String),
}

/// The result of a host function as the guest sees it.
pub type ExternResult<T> = Result<T, WasmError>;

/// The host functions, each taking its input and giving its output in the
/// serialized form in which they cross the guest/host boundary.
pub trait IdkT {
    // Ed25519
    fn verify_signature(&self, verify_signature: Vec<u8>) -> ExternResult<bool>;

    fn hash(&self, hash_input: Vec<u8>) -> ExternResult<Vec<u8>>;

    fn must_get_entry(&self, must_get_entry_input: Vec<u8>) -> ExternResult<Vec<u8>>;

    fn must_get_header(&self, must_get_header_input: Vec<u8>) -> ExternResult<Vec<u8>>;

    fn must_get_valid_element(&self, must_get_valid_element_input: Vec<u8>) -> ExternResult<Vec<u8>>;

    // Info
    fn dna_info(&self) -> ExternResult<Vec<u8>>;

    fn zome_info(&self) -> ExternResult<Vec<u8>>;

    // Trace
    fn trace(&self, trace_msg: Vec<u8>) -> ExternResult<()>;

    // XSalsa20Poly1305
    fn x_salsa20_poly1305_decrypt(&self, x_salsa20_poly1305_decrypt: Vec<u8>) -> ExternResult<Option<Vec<u8>>>;

    fn x_25519_x_salsa20_poly1305_decrypt(&self, x_25519_x_salsa20_poly1305_decrypt: Vec<u8>) -> ExternResult<
        Option<Vec<u8>>,
    >;
}

/// Used as a placeholder before any other Idk is registered.
/// Generally only useful for testing but technically can be set any time.
pub struct ErrIdk;

impl ErrIdk {
    /// The error that every call of the placeholder gives.
    pub fn err<T>() -> (r: ExternResult<T>)
        ensures
            r matches Err(WasmError::Guest(s)) && s@ == IDK_NOT_REGISTERED@,
    {
        Err(WasmError::Guest(IDK_NOT_REGISTERED.to_string()))
    }
}

/// Every call is an error for the ErrIdk.
impl IdkT for ErrIdk {
    fn verify_signature(&self, _input: Vec<u8>) -> ExternResult<bool> {
        Self::err()
    }

    fn hash(&self, _input: Vec<u8>) -> ExternResult<Vec<u8>> {
        Self::err()
    }

    fn must_get_entry(&self, _input: Vec<u8>) -> ExternResult<Vec<u8>> {
        Self::err()
    }

    fn must_get_header(&self, _input: Vec<u8>) -> ExternResult<Vec<u8>> {
        Self::err()
    }

    fn must_get_valid_element(&self, _input: Vec<u8>) -> ExternResult<Vec<u8>> {
        Self::err()
    }

    fn dna_info(&self) -> ExternResult<Vec<u8>> {
        Self::err()
    }

    fn zome_info(&self) -> ExternResult<Vec<u8>> {
        Self::err()
    }

    fn trace(&self, _input: Vec<u8>) -> ExternResult<()> {
        Self::err()
    }

    fn x_salsa20_poly1305_decrypt(&self, _input: Vec<u8>) -> ExternResult<Option<Vec<u8>>> {
        Self::err()
    }

    fn x_25519_x_salsa20_poly1305_decrypt(&self, _input: Vec<u8>) -> ExternResult<Option<Vec<u8>>> {
        Self::err()
    }
}

/// The IDK implemented as externs provided by the host; only a Wasm guest
/// has those externs to call.
pub struct HostIdk;

impl HostIdk {
    pub fn new() -> (r: Self) {
        HostIdk
    }
}

/// Put `idk` in the caller's slot and hand back the one it replaces.
pub fn set_idk<H: IdkT>(slot: &mut H, idk: H) -> (prev: H)
    ensures
        *final(slot) == idk,
        prev == *old(slot),
{
    let mut idk = idk;
    core::mem::swap(slot, &mut idk);
    idk
}

} // verus!
