//! The errors of the library.
use vstd::prelude::*;

verus! {

/// Why a block or a transaction was refused.
#[derive(Clone, Copy, Debug, PartialEq, Eq, Structural)]
pub enum BtcError {
    InvalidTransection,
    InvalidBlock,
    InvalidBlockHeader,
    InvalidInputTransection,
    InvalidOutputTransection,
    InvalidMerkeleRoot,
    InvalidHash,
    InvalidSignature,
    InvalidPublicKey,
    InvalidPrivateKey,
}

impl BtcError {
    /// The text that describes the error.
    pub open spec fn text(self) -> Seq<char> {
        match self {
            BtcError::InvalidTransection => "Invalid Transection"@,
            BtcError::InvalidBlock => "Invalid Block"@,
            BtcError::InvalidBlockHeader => "Invalid Block header"@,
            BtcError::InvalidInputTransection => "Invalid input transection"@,
            BtcError::InvalidOutputTransection => "Invalid output transection"@,
            BtcError::InvalidMerkeleRoot => "Invalid merkele root"@,
            BtcError::InvalidHash => "Invalid hash"@,
            BtcError::InvalidSignature => "Invalid signature"@,
            BtcError::InvalidPublicKey => "Invalid public key"@,
            BtcError::InvalidPrivateKey => "Invalid private key"@,
        }
    }

    /// The text that describes the error.
    pub fn to_string(&self) -> (r: String)
        ensures
            r@ == self.text(),
    {
        match self {
            BtcError::InvalidTransection => "Invalid Transection".to_owned(),
            BtcError::InvalidBlock => "Invalid Block".to_owned(),
            BtcError::InvalidBlockHeader => "Invalid Block header".to_owned(),
            BtcError::InvalidInputTransection => "Invalid input transection".to_owned(),
            BtcError::InvalidOutputTransection => "Invalid output transection".to_owned(),
            BtcError::InvalidMerkeleRoot => "Invalid merkele root".to_owned(),
            BtcError::InvalidHash => "Invalid hash".to_owned(),
            BtcError::InvalidSignature => "Invalid signature".to_owned(),
            BtcError::InvalidPublicKey => "Invalid public key".to_owned(),
            BtcError::InvalidPrivateKey => "Invalid private key".to_owned(),
        }
    }
}

} // verus!
