//! The market snapshot as the library holds it.

use vstd::prelude::*;

verus! {

/// A price in whole price units. The library compares and subtracts prices
/// and never scales them, so what one unit is worth is the caller's choice.
pub type Price = i64;

/// One row of an order book.
#[derive(Debug, Clone)]
pub struct OrderSummary {
    pub amount: i64,
    pub price_per_unit: Price,
    pub orders: i64,
}

/// The summary figures of one product.
#[derive(Debug, Clone)]
pub struct QuickStatus {
    pub product_id: String,
    pub sell_price: Price,
    pub sell_volume: i64,
    pub sell_moving_week: i64,
    pub sell_orders: i64,
    pub buy_price: Price,
    pub buy_volume: i64,
    pub buy_moving_week: i64,
    pub buy_orders: i64,
}

/// One product of a snapshot.
#[derive(Debug, Clone)]
pub struct Product {
    pub product_id: String,
    pub sell_summary: Vec<OrderSummary>,
    pub buy_summary: Vec<OrderSummary>,
    pub quick_status: QuickStatus,
}

/// One fetched snapshot. The products come as pairs of id and product, in
/// the order in which they are to be indexed; where an id comes twice, the
/// later product stands for it.
#[derive(Debug, Clone)]
pub struct BazaarResponse {
    pub success: bool,
    pub cause: Option<String>,
    pub last_updated: i64,
    pub products: Vec<(String, Product)>,
}

/// The product that stands for an id in a list of pairs: the last one that
/// comes under the id.
pub open spec fn product_of(pairs: Seq<(String, Product)>, id: Seq<char>) -> Option<Product>
    decreases pairs.len(),
{
    if pairs.len() == 0 {
        None
    } else if pairs.last().0@ == id {
        Some(pairs.last().1)
    } else {
        product_of(pairs.drop_last(), id)
    }
}

impl BazaarResponse {
    /// Takes the product that stands for an id out of the snapshot.
    pub fn take_product(self, product_id: &str) -> (found: Option<Product>)
        ensures
            found == product_of(self.products@, product_id@),
    {
        let id = String::from_str(product_id);
        let mut products = self.products;
        while products.len() > 0
            invariant
                id@ == product_id@,
                product_of(self.products@, product_id@) == product_of(products@, product_id@),
            decreases products.len(),
        {
            let ghost before = products@;
            match products.pop() {
                Some((key, product)) => {
                    proof {
                        assert(before.last() == (key, product));
                        assert(before.drop_last() == products@);
                    }
                    if key == id {
                        return Some(product);
                    }
                },
                None => {},
            }
        }
        None
    }
}

impl QuickStatus {
    /// Sell price minus buy price.
    pub open spec fn spread(self) -> int {
        self.sell_price - self.buy_price
    }

    /// Sell price minus buy price.
    pub fn get_spread(&self) -> (s: i128)
        ensures
            s == self.spread(),
    {
        self.sell_price as i128 - self.buy_price as i128
    }
}

} // verus!
