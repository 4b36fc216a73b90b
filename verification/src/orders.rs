//! The order and fill data model.
//!
//! An `Order` is immutable after creation: the engine never changes an
//! order's identity or quantities once it rests in the book. A `Fill` is the
//! immutable record of one match between exactly one buy and one sell order.

use vstd::prelude::*;

verus! {

/// Which side of the book an order belongs to.
#[derive(Debug, Clone, Copy, PartialEq, Eq, Structural)]
pub enum Side {
    Buy,
    Sell,
}

/// Mathematical value of an [`Order`]: the same fields over `Seq` views.
pub ghost struct OrderView {
    pub id: u128,
    pub price: u32,
    pub quantity: u32,
    pub side: Side,
    pub owner: Seq<char>,
    pub enc_price: Option<Seq<u8>>,
    pub enc_quantity: Option<Seq<u8>>,
    pub encrypted: bool,
}

/// One resting or incoming order.
///
/// `price` and `quantity` are always present as plain integers; when
/// `is_encrypted` is true the order additionally carries opaque ciphertexts
/// of both, and matching in confidential mode goes through those ciphertexts
/// rather than the plain fields.
#[derive(Debug)]
pub struct Order {
    pub id: u128,
    pub price: u32,
    pub quantity: u32,
    pub side: Side,
    pub user_pubkey: String,
    pub encrypted_price: Option<Vec<u8>>,
    pub encrypted_quantity: Option<Vec<u8>>,
    pub is_encrypted: bool,
}

impl View for Order {
    type V = OrderView;

    open spec fn view(&self) -> OrderView {
        OrderView {
            id: self.id,
            price: self.price,
            quantity: self.quantity,
            side: self.side,
            owner: self.user_pubkey@,
            enc_price: match self.encrypted_price {
                Some(v) => Some(v@),
                None => None,
            },
            enc_quantity: match self.encrypted_quantity {
                Some(v) => Some(v@),
                None => None,
            },
            encrypted: self.is_encrypted,
        }
    }
}

impl OrderView {
    /// An order is either fully plaintext-comparable or fully
    /// confidential-comparable: ciphertexts are present exactly when the
    /// order is marked encrypted.
    pub open spec fn wf(self) -> bool {
        self.encrypted <==> (self.enc_price is Some && self.enc_quantity is Some)
    }
}

/// Copy a byte vector element by element.
fn clone_bytes(v: &Vec<u8>) -> (r: Vec<u8>)
    ensures
        r@ == v@,
{
    let mut r: Vec<u8> = Vec::new();
    let mut i: usize = 0;
    while i < v.len()
        invariant
            i <= v.len(),
            r@ == v@.take(i as int),
        decreases v.len() - i,
    {
        r.push(v[i]);
        i += 1;
    }
    assert(v@.take(v.len() as int) == v@);
    r
}

/// Copy an optional byte vector.
fn clone_bytes_opt(o: &Option<Vec<u8>>) -> (r: Option<Vec<u8>>)
    ensures
        r is Some <==> *o is Some,
        *o is Some ==> r.unwrap()@ == (*o).unwrap()@,
{
    match o {
        Some(v) => Some(clone_bytes(v)),
        None => None,
    }
}

impl Clone for Order {
    fn clone(&self) -> (r: Self)
        ensures
            r@ == self@,
    {
        Order {
            id: self.id,
            price: self.price,
            quantity: self.quantity,
            side: self.side,
            user_pubkey: self.user_pubkey.clone(),
            encrypted_price: clone_bytes_opt(&self.encrypted_price),
            encrypted_quantity: clone_bytes_opt(&self.encrypted_quantity),
            is_encrypted: self.is_encrypted,
        }
    }
}

impl Order {
    /// A plaintext order: no ciphertexts, not marked encrypted.
    pub fn new(id: u128, price: u32, quantity: u32, side: Side, user_pubkey: String) -> (r: Self)
        ensures
            r@ == (OrderView {
                id,
                price,
                quantity,
                side,
                owner: user_pubkey@,
                enc_price: None,
                enc_quantity: None,
                encrypted: false,
            }),
            r@.wf(),
    {
        Order {
            id,
            price,
            quantity,
            side,
            user_pubkey,
            encrypted_price: None,
            encrypted_quantity: None,
            is_encrypted: false,
        }
    }

    /// A confidential order: carries ciphertexts of its price and quantity
    /// and is marked encrypted.
    pub fn new_encrypted(
        id: u128,
        price: u32,
        quantity: u32,
        side: Side,
        user_pubkey: String,
        encrypted_price: Vec<u8>,
        encrypted_quantity: Vec<u8>,
    ) -> (r: Self)
        ensures
            r@ == (OrderView {
                id,
                price,
                quantity,
                side,
                owner: user_pubkey@,
                enc_price: Some(encrypted_price@),
                enc_quantity: Some(encrypted_quantity@),
                encrypted: true,
            }),
            r@.wf(),
    {
        Order {
            id,
            price,
            quantity,
            side,
            user_pubkey,
            encrypted_price: Some(encrypted_price),
            encrypted_quantity: Some(encrypted_quantity),
            is_encrypted: true,
        }
    }
}

/// Mathematical value of a [`Fill`].
pub ghost struct FillView {
    pub buy_order_id: u128,
    pub sell_order_id: u128,
    pub price: u32,
    pub quantity: u32,
    pub buyer: Seq<char>,
    pub seller: Seq<char>,
}

/// Immutable record of one match between a buy and a sell order.
///
/// The execution price is always the sell order's price, and the quantity is
/// the lesser of the two sides' quantities at match time.
#[derive(Debug)]
pub struct Fill {
    pub buy_order_id: u128,
    pub sell_order_id: u128,
    pub price: u32,
    pub quantity: u32,
    pub buyer_pubkey: String,
    pub seller_pubkey: String,
}

impl View for Fill {
    type V = FillView;

    open spec fn view(&self) -> FillView {
        FillView {
            buy_order_id: self.buy_order_id,
            sell_order_id: self.sell_order_id,
            price: self.price,
            quantity: self.quantity,
            buyer: self.buyer_pubkey@,
            seller: self.seller_pubkey@,
        }
    }
}

impl Clone for Fill {
    fn clone(&self) -> (r: Self)
        ensures
            r@ == self@,
    {
        Fill {
            buy_order_id: self.buy_order_id,
            sell_order_id: self.sell_order_id,
            price: self.price,
            quantity: self.quantity,
            buyer_pubkey: self.buyer_pubkey.clone(),
            seller_pubkey: self.seller_pubkey.clone(),
        }
    }
}

/// The views of a sequence of orders.
pub open spec fn order_views(s: Seq<Order>) -> Seq<OrderView> {
    s.map_values(|o: Order| o@)
}

/// The views of a sequence of fills.
pub open spec fn fill_views(s: Seq<Fill>) -> Seq<FillView> {
    s.map_values(|f: Fill| f@)
}

/// Copy a vector of orders, order by order.
pub(crate) fn clone_orders(v: &Vec<Order>) -> (r: Vec<Order>)
    ensures
        order_views(r@) == order_views(v@),
{
    let mut r: Vec<Order> = Vec::new();
    let mut i: usize = 0;
    while i < v.len()
        invariant
            i <= v.len(),
            r@.len() == i as int,
            forall|k: int| 0 <= k < i ==> r@[k]@ == v@[k]@,
        decreases v.len() - i,
    {
        r.push(v[i].clone());
        i += 1;
    }
    proof {
        assert forall|k: int| 0 <= k < order_views(r@).len() implies order_views(r@)[k]
            == order_views(v@)[k] by {
            assert(r@[k]@ == v@[k]@);
        }
        assert(order_views(r@) =~= order_views(v@));
    }
    r
}

/// Copy a vector of fills, fill by fill.
pub(crate) fn clone_fills(v: &Vec<Fill>) -> (r: Vec<Fill>)
    ensures
        fill_views(r@) == fill_views(v@),
{
    let mut r: Vec<Fill> = Vec::new();
    let mut i: usize = 0;
    while i < v.len()
        invariant
            i <= v.len(),
            r@.len() == i as int,
            forall|k: int| 0 <= k < i ==> r@[k]@ == v@[k]@,
        decreases v.len() - i,
    {
        r.push(v[i].clone());
        i += 1;
    }
    proof {
        assert forall|k: int| 0 <= k < fill_views(r@).len() implies fill_views(r@)[k]
            == fill_views(v@)[k] by {
            assert(r@[k]@ == v@[k]@);
        }
        assert(fill_views(r@) =~= fill_views(v@));
    }
    r
}

} // verus!
