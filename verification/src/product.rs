//! The market's product domain: the product lifecycle state, its typed
//! events, and validated command input.
//!
//! The string-bearing fields of these records travel as opaque values; the
//! engine never reads them. Command input is validated here, so an invalid
//! name never reaches the store.

use vstd::prelude::*;

verus! {

/// Where a product stands in its lifecycle.
#[derive(Clone, Copy, PartialEq, Eq, Structural, Debug)]
pub enum ProductState {
    Checking,
    Failed,
    Ready,
}

/// The stable byte a state is stored as.
pub open spec fn spec_state_byte(s: ProductState) -> u8 {
    match s {
        ProductState::Checking => 0u8,
        ProductState::Failed => 1u8,
        ProductState::Ready => 2u8,
    }
}

/// The state a stored byte decodes to.
pub open spec fn spec_state_from_byte(b: u8) -> Option<ProductState> {
    if b == 0u8 {
        Some(ProductState::Checking)
    } else if b == 1u8 {
        Some(ProductState::Failed)
    } else if b == 2u8 {
        Some(ProductState::Ready)
    } else {
        None
    }
}

impl ProductState {
    /// Encode this state as its stable byte.
    pub fn to_byte(&self) -> (r: u8)
        ensures
            r == spec_state_byte(*self),
    {
        match self {
            ProductState::Checking => 0u8,
            ProductState::Failed => 1u8,
            ProductState::Ready => 2u8,
        }
    }

    /// Decode a state from its stable byte.
    pub fn from_byte(b: u8) -> (r: Option<ProductState>)
        ensures
            r == spec_state_from_byte(b),
    {
        if b == 0u8 {
            Some(ProductState::Checking)
        } else if b == 1u8 {
            Some(ProductState::Failed)
        } else if b == 2u8 {
            Some(ProductState::Ready)
        } else {
            None
        }
    }
}

/// The state byte codec round-trips.
pub proof fn lemma_state_byte_round_trip(s: ProductState)
    ensures
        spec_state_from_byte(spec_state_byte(s)) == Some(s),
{
}

/// A product as its aggregate sees it.
#[derive(Debug, Clone)]
pub struct Product {
    pub name: String,
    pub state: ProductState,
    pub failed_reason: String,
}

/// A product creation was asked for and is being checked.
#[derive(Debug, Clone)]
pub struct CreateRequested {
    pub name: String,
    pub state: ProductState,
}

/// The product passed its checks and is ready.
#[derive(Clone, Copy, PartialEq, Eq, Structural, Debug)]
pub struct Created {
    pub state: ProductState,
}

/// The product failed its checks.
#[derive(Debug, Clone)]
pub struct CreateFailed {
    pub state: ProductState,
    pub failed_reason: String,
}

/// The smallest name a product command accepts, in characters.
pub const NAME_MIN_CHARS: usize = 3;

/// The largest name a product command accepts, in characters.
pub const NAME_MAX_CHARS: usize = 25;

/// The input of the product-creation command.
#[derive(Debug, Clone)]
pub struct CreateInput {
    pub name: String,
}

/// Whether a creation input is acceptable: its name holds 3 to 25 characters.
pub open spec fn spec_input_valid(input: CreateInput) -> bool {
    NAME_MIN_CHARS as int <= input.name@.len() <= NAME_MAX_CHARS as int
}

impl CreateInput {
    /// Validate this input: the name must hold 3 to 25 characters.
    pub fn validate(&self) -> (r: bool)
        ensures
            r == spec_input_valid(*self),
    {
        let n = self.name.as_str().unicode_len();
        NAME_MIN_CHARS <= n && n <= NAME_MAX_CHARS
    }
}

/// Turn a validated creation input into the first event of a new product:
/// rejected input yields `None` and nothing reaches the store.
pub fn create(input: CreateInput) -> (r: Option<CreateRequested>)
    ensures
        match r {
            Some(ev) => spec_input_valid(input) && ev.name == input.name && ev.state
                == ProductState::Checking,
            None => !spec_input_valid(input),
        },
{
    if input.validate() {
        Some(CreateRequested { name: input.name, state: ProductState::Checking })
    } else {
        None
    }
}

/// One row of the product projection, as its view table holds it.
#[derive(Debug, Clone)]
pub struct QueryProduct {
    pub id: String,
    pub name: String,
    pub failed_reason: String,
    pub state: ProductState,
    pub created_at: String,
}

/// The keyset cursor of the product projection: creation time, then id.
#[derive(Debug, Clone)]
pub struct QueryProductCursor {
    pub i: String,
    pub c: String,
}

} // verus!
