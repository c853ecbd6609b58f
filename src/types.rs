use vstd::prelude::*;
use crate::identity::Identity;

verus! {

/// The mood tag carried by a token. The registry stores it and never reads it.
#[derive(Clone, Copy, Debug, PartialEq, Eq, Structural)]
pub enum MoodState {
    Bullish,
    Bearish,
    Neutral,
    Volatile,
    PositiveSentiment,
    NegativeSentiment,
}

/// What the registry keeps about one token.
#[derive(Clone, Debug)]
pub struct NFTMetadata {
    pub name: String,
    pub coin: String,
    pub mood: MoodState,
    pub image_url: String,
    pub created_at: u64,
    pub last_updated: u64,
}

impl NFTMetadata {
    /// A field-by-field copy, with every field known to be kept.
    pub fn duplicate(&self) -> (r: NFTMetadata)
        ensures
            r == *self,
    {
        NFTMetadata {
            name: self.name.clone(),
            coin: self.coin.clone(),
            mood: self.mood,
            image_url: self.image_url.clone(),
            created_at: self.created_at,
            last_updated: self.last_updated,
        }
    }
}

/// Why an operation was refused. A refused operation changes nothing.
#[derive(Clone, Copy, Debug, PartialEq, Eq, Structural)]
pub enum Error {
    /// A curator-only operation was called by someone else.
    NotOwner,
    /// The caller may not act on the token.
    NotApproved,
    /// No token has the given id.
    TokenNotFound,
    /// The id that a mint would assign is not free.
    TokenAlreadyExists,
    /// Reserved; no operation returns it.
    NotAllowed,
    /// A transfer named the reserved "no one" identity as receiver.
    TransferToZeroAddress,
}

/// A token changed hands; `from` is `None` for a mint.
#[derive(Clone, Copy, Debug)]
pub struct Transfer {
    pub from: Option<Identity>,
    pub to: Option<Identity>,
    pub token_id: u64,
}

/// The owner (or an operator) set the single approval of a token.
#[derive(Clone, Copy, Debug)]
pub struct Approval {
    pub owner: Identity,
    pub approved: Identity,
    pub token_id: u64,
}

/// An owner granted or revoked an operator's standing approval.
#[derive(Clone, Copy, Debug)]
pub struct ApprovalForAll {
    pub owner: Identity,
    pub operator: Identity,
    pub approved: bool,
}

/// A token was created.
#[derive(Clone, Debug)]
pub struct Minted {
    pub token_id: u64,
    pub owner: Identity,
    pub coin: String,
}

/// The curator changed a token's mood.
#[derive(Clone, Copy, Debug, PartialEq, Eq, Structural)]
pub struct MoodUpdated {
    pub token_id: u64,
    pub new_mood: MoodState,
}

/// Every notification that the registry records, in the order of the calls.
#[derive(Clone, Debug)]
pub enum Event {
    Transfer(Transfer),
    Approval(Approval),
    ApprovalForAll(ApprovalForAll),
    Minted(Minted),
    MoodUpdated(MoodUpdated),
}

} // verus!
