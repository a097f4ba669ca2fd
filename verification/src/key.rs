//! What a table asks of its keys and of the strategy that hashes them.
use vstd::prelude::*;

verus! {

/// A key of the table: it can be compared with another key, and it has a 64-bit
/// code from which a hashing strategy computes its hash.
pub trait TableKey: Sized {
    /// The code of the key. Equal keys have equal codes.
    spec fn code(&self) -> u64;

    /// The code of the key.
    fn to_code(&self) -> (c: u64)
        ensures
            c == self.code(),
    ;

    /// Whether the two keys are the same key.
    fn same(&self, other: &Self) -> (b: bool)
        ensures
            b == (*self == *other),
    ;
}

/// A way to turn the code of a key into its hash. The hash of a code is the same
/// whenever it is asked for.
pub trait HashStrategy: Sized {
    /// The hash that the strategy gives to `code`.
    spec fn spec_hash(&self, code: u64) -> u64;

    /// The hash that the strategy gives to `code`.
    fn hash(&self, code: u64) -> (h: u64)
        ensures
            h == self.spec_hash(code),
    ;

    /// The strategy that a new table starts with.
    fn fresh() -> Self;
}

impl TableKey for u32 {
    open spec fn code(&self) -> u64 {
        *self as u64
    }

    fn to_code(&self) -> (c: u64) {
        *self as u64
    }

    fn same(&self, other: &Self) -> (b: bool) {
        *self == *other
    }
}

impl TableKey for u64 {
    open spec fn code(&self) -> u64 {
        *self
    }

    fn to_code(&self) -> (c: u64) {
        *self
    }

    fn same(&self, other: &Self) -> (b: bool) {
        *self == *other
    }
}

impl TableKey for usize {
    open spec fn code(&self) -> u64 {
        *self as u64
    }

    fn to_code(&self) -> (c: u64) {
        *self as u64
    }

    fn same(&self, other: &Self) -> (b: bool) {
        *self == *other
    }
}

impl TableKey for i32 {
    open spec fn code(&self) -> u64 {
        *self as u64
    }

    fn to_code(&self) -> (c: u64) {
        #[verifier::truncate]
        (*self as u64)
    }

    fn same(&self, other: &Self) -> (b: bool) {
        *self == *other
    }
}

impl TableKey for i64 {
    open spec fn code(&self) -> u64 {
        *self as u64
    }

    fn to_code(&self) -> (c: u64) {
        #[verifier::truncate]
        (*self as u64)
    }

    fn same(&self, other: &Self) -> (b: bool) {
        *self == *other
    }
}

impl TableKey for isize {
    open spec fn code(&self) -> u64 {
        *self as u64
    }

    fn to_code(&self) -> (c: u64) {
        #[verifier::truncate]
        (*self as u64)
    }

    fn same(&self, other: &Self) -> (b: bool) {
        *self == *other
    }
}

impl TableKey for char {
    open spec fn code(&self) -> u64 {
        *self as u64
    }

    fn to_code(&self) -> (c: u64) {
        *self as u64
    }

    fn same(&self, other: &Self) -> (b: bool) {
        *self == *other
    }
}

/// What the default strategy makes of a code: the code folded onto itself and
/// multiplied by an odd constant, so that its topmost bits depend on all its bits.
pub open spec fn mixed(code: u64) -> u64 {
    (code ^ (code >> 32)).wrapping_mul(0x9E37_79B9_7F4A_7C15)
}

/// The strategy that a table has unless it is given another.
#[derive(Clone, Copy, Debug)]
pub struct DefaultState {}

impl HashStrategy for DefaultState {
    open spec fn spec_hash(&self, code: u64) -> u64 {
        mixed(code)
    }

    fn hash(&self, code: u64) -> (h: u64) {
        (code ^ (code >> 32)).wrapping_mul(0x9E37_79B9_7F4A_7C15)
    }

    fn fresh() -> Self {
        DefaultState {  }
    }
}

/// The strategy that gives every key the hash 7, so that all keys want to be in
/// the same bucket.
#[derive(Clone, Copy, Debug)]
pub struct CollisionHash {}

impl HashStrategy for CollisionHash {
    open spec fn spec_hash(&self, code: u64) -> u64 {
        7
    }

    fn hash(&self, code: u64) -> (h: u64) {
        7
    }

    fn fresh() -> Self {
        CollisionHash {  }
    }
}

/// The hash of `key` under `strategy`.
pub open spec fn hash_of<K: TableKey, S: HashStrategy>(strategy: &S, key: &K) -> u64 {
    strategy.spec_hash(key.code())
}

/// Computes the hash of `key` under `strategy`.
pub fn make_hash<K: TableKey, S: HashStrategy>(strategy: &S, key: &K) -> (h: u64)
    ensures
        h == hash_of(strategy, key),
{
    strategy.hash(key.to_code())
}

} // verus!
