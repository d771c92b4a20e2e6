//! The data model: a price point (one quote) and a snapshot (one coherent
//! fetch cycle's results, stamped with the time it was fetched).

use vstd::prelude::*;

verus! {

/// One quote: a symbol and its price, kept as decimal text so that no
/// floating-point round trip can distort what the remote source sent.
pub struct PricePoint {
    pub symbol: String,
    pub price: String,
}

/// The results of one fetch cycle: the unix time (in seconds) at which it
/// ran, and the points that were fetched, in request order.
pub struct Snapshot {
    pub fetched_at: u64,
    pub points: Vec<PricePoint>,
}

/// Characters that may stand unescaped inside a JSON string: anything but
/// the quote, the backslash and the control characters.
pub open spec fn plain_char(c: char) -> bool {
    c != '"' && c != '\\' && c as u32 >= 32
}

pub open spec fn plain_text(s: Seq<char>) -> bool {
    forall|i: int| 0 <= i < s.len() ==> plain_char(s[i])
}

impl PricePoint {
    /// The mathematical model of a point: its two fields as character
    /// sequences.
    pub open spec fn model(self) -> (Seq<char>, Seq<char>) {
        (self.symbol@, self.price@)
    }

    /// A point is well formed when both fields can stand verbatim inside a
    /// JSON string.
    pub open spec fn wf(self) -> bool {
        plain_text(self.symbol@) && plain_text(self.price@)
    }
}

impl Clone for PricePoint {
    fn clone(&self) -> (r: Self)
        ensures
            r == *self,
    {
        PricePoint { symbol: self.symbol.clone(), price: self.price.clone() }
    }
}

/// The model of a point list: each point as a (symbol, price) pair.
pub open spec fn points_model(pts: Seq<PricePoint>) -> Seq<(Seq<char>, Seq<char>)> {
    pts.map_values(|p: PricePoint| p.model())
}

impl Snapshot {
    pub open spec fn wf(self) -> bool {
        forall|i: int| 0 <= i < self.points@.len() ==> (#[trigger] self.points@[i]).wf()
    }
}

} // verus!
