//! The plain request and response shapes of the engine's interface, and the
//! parsing of the side field of a submission.
//!
//! These are the values that cross the engine's boundary; the transport
//! that carries them is not the engine's concern.

use vstd::prelude::*;

use crate::orders::Side;

verus! {

/// A limit-order submission: price, quantity, the side as text ("buy" or
/// "sell", case-insensitively), and the owner's public key.
pub struct OrderRequest {
    pub price: u32,
    pub quantity: u32,
    pub side: String,
    pub user_pubkey: String,
}

/// A market-order submission: quantity and owner only; the side is fixed by
/// the operation.
pub struct MarketOrderRequest {
    pub quantity: u32,
    pub user_pubkey: String,
}

/// The engine's configuration: whether confidential mode is on.
pub struct OrderbookConfig {
    pub use_encryption: bool,
}

/// The current confidential-mode flag, as reported to a caller.
pub struct ConfigResponse {
    pub use_encryption: bool,
}

/// A request to change the confidential-mode flag.
pub struct ConfigRequest {
    pub use_encryption: bool,
}

/// The outcome of a configuration change.
pub struct ConfigUpdateResponse {
    pub success: bool,
    pub message: String,
    pub error: Option<String>,
}

/// What `str::to_lowercase` returns: the lowercase equivalent of a string,
/// a function of its characters alone.
pub uninterp spec fn lower_of(s: Seq<char>) -> Seq<char>;

/// Relies on `str::to_lowercase`: the result depends on the characters
/// alone.
#[verifier::external_body]
fn lowercase(s: &str) -> (r: String)
    ensures
        r@ == lower_of(s@),
{
    s.to_lowercase()
}

/// Relies on `str`'s `==`: string slices compare equal exactly when their
/// characters do.
#[verifier::external_body]
fn str_eq(a: &str, b: &str) -> (r: bool)
    ensures
        r == (a@ == b@),
{
    a == b
}

/// Parse the side field of an order request, case-insensitively: "buy" and
/// "sell" are the only valid sides, anything else is rejected.
pub fn parse_side(side: &str) -> (r: Option<Side>)
    ensures
        r == Some(Side::Buy) <==> lower_of(side@) == "buy"@,
        r == Some(Side::Sell) <==> lower_of(side@) == "sell"@,
        r is None <==> (lower_of(side@) != "buy"@ && lower_of(side@) != "sell"@),
{
    proof {
        reveal_strlit("buy");
        reveal_strlit("sell");
        assert("buy"@.len() == 3);
        assert("sell"@.len() == 4);
    }
    let lower = lowercase(side);
    if str_eq(lower.as_str(), "buy") {
        Some(Side::Buy)
    } else if str_eq(lower.as_str(), "sell") {
        Some(Side::Sell)
    } else {
        None
    }
}

} // verus!
