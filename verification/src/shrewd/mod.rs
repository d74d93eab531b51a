pub mod sizes;
pub mod codec;
pub mod compressors;

pub use compressors::{Shrewd, SizeCompressor, OffsetCompressor, DictionaryCompressor};

use vstd::prelude::*;

verus! {

/// A packed, read-only vector of `i64` values with random access.
pub trait Compressor: Sized {
    /// The values held, in order.
    spec fn elements(&self) -> Seq<i64>;

    /// Bytes the packed vector occupies: its buffers plus its own inline size.
    spec fn footprint(&self) -> nat;

    /// Name of the packing strategy.
    spec fn strategy_name(&self) -> Seq<char>;

    /// Packs `v`; the packed vector holds exactly the values of `v`.
    fn pack(v: Vec<i64>) -> (packed: Self)
        ensures
            packed.elements() == v@,
    ;

    /// The value at `index`, or `None` past the end.
    fn get(&self, index: usize) -> (value: Option<i64>)
        ensures
            value == (if index < self.elements().len() {
                Some(self.elements()[index as int])
            } else {
                None
            }),
    ;

    /// Bytes the packed vector occupies.
    fn size(&self) -> (bytes: usize)
        requires
            self.footprint() <= usize::MAX,
        ensures
            bytes == self.footprint(),
    ;

    /// Number of values held.
    fn length(&self) -> (len: usize)
        ensures
            len == self.elements().len(),
    ;

    /// Name of the packing strategy.
    fn compressor_type(&self) -> (name: String)
        ensures
            name@ == self.strategy_name(),
    ;
}

} // verus!
