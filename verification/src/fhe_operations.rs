//! The confidential-value boundary.
//!
//! The engine does not implement cryptography. Encryption, decryption and
//! the ordering comparison of ciphertexts are performed by the `tfhe`
//! library behind the trusted wrappers of this module; everything that
//! decides *when* to call them, and what their results mean for matching,
//! is verified code.
//!
//! Ciphertexts are carried as opaque serialized byte vectors, exactly as
//! they are stored inside an [`Order`]. Nothing is promised of the bytes a
//! ciphertext serializes to (encryption is randomized), and nothing is
//! promised of a decrypted value (it depends on the opaque key), so every
//! caller in this crate states what holds of its own behaviour whatever
//! these wrappers return.

use vstd::prelude::*;

use crate::orders::{Order, Side};

verus! {

/// The client key of the external confidential-value service, treated as an
/// opaque value. Relies on tfhe's `ClientKey` type.
#[verifier::external_type_specification]
#[verifier::external_body]
pub struct ExClientKey(tfhe::ClientKey);

/// The most bytes a serialized ciphertext may occupy, on writing and on
/// reading one back.
const CIPHERTEXT_BYTES_LIMIT: u64 = 16777216;

/// Relies on tfhe's `FheUint32::encrypt` (encryption of a 32-bit value under
/// the client key) and tfhe's `safe_serialize` (turning the ciphertext into
/// bytes with a version and type header). Encryption is randomized, so
/// nothing is promised of the bytes; `None` is returned when serialization
/// fails.
#[verifier::external_body]
pub fn encrypt_u32(value: u32, client_key: &tfhe::ClientKey) -> (r: Option<Vec<u8>>) {
    let encrypted = <tfhe::FheUint32 as tfhe::prelude::FheEncrypt<u32, tfhe::ClientKey>>::encrypt(
        value,
        client_key,
    );
    let mut bytes: Vec<u8> = Vec::new();
    tfhe::safe_deserialization::safe_serialize(&encrypted, &mut bytes, CIPHERTEXT_BYTES_LIMIT)
        .ok()?;
    Some(bytes)
}

/// Relies on tfhe's `safe_deserialize_conformant` (reading a ciphertext back
/// from bytes and checking it conformant with the client key's parameter
/// set, so that decryption cannot be fed a ciphertext of mismatched
/// dimensions or moduli) and tfhe's `FheUint32` decryption. Returns `None`
/// when the bytes do not deserialize to a conformant ciphertext. The
/// decrypted value depends on the opaque key, so nothing is promised of it.
#[verifier::external_body]
pub fn decrypt_u32(encrypted_bytes: &Vec<u8>, client_key: &tfhe::ClientKey) -> (r: Option<u32>) {
    let integer_key = <tfhe::ClientKey as AsRef<tfhe::integer::ClientKey>>::as_ref(client_key);
    let params = tfhe::FheUint32ConformanceParams::from(integer_key.parameters());
    let encrypted = tfhe::safe_deserialization::safe_deserialize_conformant::<tfhe::FheUint32>(
        encrypted_bytes.as_slice(),
        CIPHERTEXT_BYTES_LIMIT,
        &params,
    ).ok()?;
    Some(tfhe::prelude::FheDecrypt::<u32>::decrypt(&encrypted, client_key))
}

/// The ordering comparison of the confidential-value service: whether the
/// value hidden in `price1` is at least the value hidden in `price2`.
///
/// Both ciphertexts are decrypted and the plain values compared; a
/// ciphertext that cannot be read yields `false` (no match) rather than an
/// error, since a failed comparison only means the pair is not eligible.
/// The result depends on the opaque key, so no more is stated.
pub fn compare_prices(price1: &Vec<u8>, price2: &Vec<u8>, client_key: &tfhe::ClientKey) -> (r:
    bool) {
    match (decrypt_u32(price1, client_key), decrypt_u32(price2, client_key)) {
        (Some(p1), Some(p2)) => p1 >= p2,
        _ => false,
    }
}

/// The confidential eligibility test: whether `buy_order` may match
/// `sell_order`, judged on their ciphertexts.
///
/// A pair is never eligible unless `buy_order` really is a buy, `sell_order`
/// really is a sell, and both carry an encrypted price; otherwise the
/// comparison capability decides.
pub fn match_orders(buy_order: &Order, sell_order: &Order, client_key: &tfhe::ClientKey) -> (r:
    bool)
    ensures
        !(buy_order@.side == Side::Buy && sell_order@.side == Side::Sell
            && buy_order@.enc_price is Some && sell_order@.enc_price is Some) ==> !r,
{
    if !(matches!(buy_order.side, Side::Buy) && matches!(sell_order.side, Side::Sell)) {
        return false;
    }
    match (&buy_order.encrypted_price, &sell_order.encrypted_price) {
        (Some(buy_price), Some(sell_price)) => compare_prices(buy_price, sell_price, client_key),
        _ => false,
    }
}

/// Encrypt an order's price and quantity in place, leaving the plain fields
/// untouched. Returns whether both values were encrypted; on failure the
/// order is unchanged. The encrypted flag is not touched here: the caller
/// decides when the order counts as confidential.
pub fn encrypt_order(order: &mut Order, client_key: &tfhe::ClientKey) -> (r: bool)
    ensures
        !r ==> final(order)@ == old(order)@,
        r ==> final(order)@.enc_price is Some && final(order)@.enc_quantity is Some,
        final(order)@.id == old(order)@.id,
        final(order)@.price == old(order)@.price,
        final(order)@.quantity == old(order)@.quantity,
        final(order)@.side == old(order)@.side,
        final(order)@.owner == old(order)@.owner,
        final(order)@.encrypted == old(order)@.encrypted,
{
    let encrypted_price = match encrypt_u32(order.price, client_key) {
        Some(bytes) => bytes,
        None => {
            return false;
        },
    };
    let encrypted_quantity = match encrypt_u32(order.quantity, client_key) {
        Some(bytes) => bytes,
        None => {
            return false;
        },
    };
    order.encrypted_price = Some(encrypted_price);
    order.encrypted_quantity = Some(encrypted_quantity);
    true
}

/// Decrypt an order's price and quantity, falling back to the plain fields
/// where no ciphertext is present. Returns `None` when a ciphertext is
/// present but cannot be read.
pub fn decrypt_order(order: &Order, client_key: &tfhe::ClientKey) -> (r: Option<(u32, u32)>)
    ensures
        order@.enc_price is None && order@.enc_quantity is None ==> r == Some(
            (order@.price, order@.quantity),
        ),
        r is Some && order@.enc_price is None ==> r.unwrap().0 == order@.price,
        r is Some && order@.enc_quantity is None ==> r.unwrap().1 == order@.quantity,
{
    let price = match &order.encrypted_price {
        Some(bytes) => match decrypt_u32(bytes, client_key) {
            Some(p) => p,
            None => {
                return None;
            },
        },
        None => order.price,
    };
    let quantity = match &order.encrypted_quantity {
        Some(bytes) => match decrypt_u32(bytes, client_key) {
            Some(q) => q,
            None => {
                return None;
            },
        },
        None => order.quantity,
    };
    Some((price, quantity))
}

} // verus!
