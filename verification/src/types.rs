//! Identifiers and the keys of the transaction columns.

use vstd::prelude::*;
use crate::column::ColumnKey;

verus! {

/// A slot: the place of a block in the ledger.
pub type Slot = u64;

/// Seconds since the epoch.
pub type UnixTimestamp = i64;

/// A 64-byte signature, as four big-endian words, most significant first.
#[derive(Clone, Copy, PartialEq, Eq, Structural, Debug)]
pub struct Signature {
    pub w0: u128,
    pub w1: u128,
    pub w2: u128,
    pub w3: u128,
}

/// A 32-byte address, as two big-endian words, most significant first.
#[derive(Clone, Copy, PartialEq, Eq, Structural, Debug)]
pub struct Pubkey {
    pub w0: u128,
    pub w1: u128,
}

/// A 32-byte hash, as two big-endian words, most significant first.
#[derive(Clone, Copy, PartialEq, Eq, Structural, Debug)]
pub struct Blockhash {
    pub w0: u128,
    pub w1: u128,
}

/// The signature whose bytes are all zero.
pub open spec fn zero_signature() -> Signature {
    Signature { w0: 0, w1: 0, w2: 0, w3: 0 }
}

/// The hash whose bytes are all zero.
pub open spec fn zero_hash() -> Blockhash {
    Blockhash { w0: 0, w1: 0 }
}

impl Default for Signature {
    fn default() -> (result: Self)
        ensures
            result == zero_signature(),
    {
        Signature { w0: 0, w1: 0, w2: 0, w3: 0 }
    }
}

impl Default for Blockhash {
    fn default() -> (result: Self)
        ensures
            result == zero_hash(),
    {
        Blockhash { w0: 0, w1: 0 }
    }
}

impl Default for Pubkey {
    fn default() -> (result: Self)
        ensures
            result == (Pubkey { w0: 0, w1: 0 }),
    {
        Pubkey { w0: 0, w1: 0 }
    }
}

/// The key of a transaction status: primary index, signature, slot.
#[derive(Clone, Copy, PartialEq, Eq, Structural, Debug)]
pub struct StatusKey {
    pub primary_index: u64,
    pub signature: Signature,
    pub slot: Slot,
}

/// The key of an address signature: primary index, address, slot, signature.
#[derive(Clone, Copy, PartialEq, Eq, Structural, Debug)]
pub struct AddressKey {
    pub primary_index: u64,
    pub address: Pubkey,
    pub slot: Slot,
    pub signature: Signature,
}

impl View for Signature {
    type V = Signature;

    open spec fn view(&self) -> Signature {
        *self
    }
}

impl View for Blockhash {
    type V = Blockhash;

    open spec fn view(&self) -> Blockhash {
        *self
    }
}

/// In the order of their bytes.
impl ColumnKey for Signature {
    open spec fn before(self, other: Self) -> bool {
        self.w0 < other.w0 || (self.w0 == other.w0 && (self.w1 < other.w1 || (self.w1 == other.w1
            && (self.w2 < other.w2 || (self.w2 == other.w2 && self.w3 < other.w3)))))
    }

    proof fn lemma_irreflexive(a: Self) {
    }

    proof fn lemma_transitive(a: Self, b: Self, c: Self) {
    }

    proof fn lemma_total(a: Self, b: Self) {
    }

    fn is_before(&self, other: &Self) -> (result: bool) {
        self.w0 < other.w0 || (self.w0 == other.w0 && (self.w1 < other.w1 || (self.w1 == other.w1
            && (self.w2 < other.w2 || (self.w2 == other.w2 && self.w3 < other.w3)))))
    }
}

/// In the order of their bytes.
impl ColumnKey for Pubkey {
    open spec fn before(self, other: Self) -> bool {
        self.w0 < other.w0 || (self.w0 == other.w0 && self.w1 < other.w1)
    }

    proof fn lemma_irreflexive(a: Self) {
    }

    proof fn lemma_transitive(a: Self, b: Self, c: Self) {
    }

    proof fn lemma_total(a: Self, b: Self) {
    }

    fn is_before(&self, other: &Self) -> (result: bool) {
        self.w0 < other.w0 || (self.w0 == other.w0 && self.w1 < other.w1)
    }
}

/// By primary index, then signature, then slot.
impl ColumnKey for StatusKey {
    open spec fn before(self, other: Self) -> bool {
        self.primary_index < other.primary_index || (self.primary_index == other.primary_index && (
        self.signature.before(other.signature) || (self.signature == other.signature && self.slot
            < other.slot)))
    }

    proof fn lemma_irreflexive(a: Self) {
    }

    proof fn lemma_transitive(a: Self, b: Self, c: Self) {
    }

    proof fn lemma_total(a: Self, b: Self) {
    }

    fn is_before(&self, other: &Self) -> (result: bool) {
        self.primary_index < other.primary_index || (self.primary_index == other.primary_index && (
        self.signature.is_before(&other.signature) || (self.signature == other.signature
            && self.slot < other.slot)))
    }
}

/// By primary index, then address, then slot, then signature.
impl ColumnKey for AddressKey {
    open spec fn before(self, other: Self) -> bool {
        self.primary_index < other.primary_index || (self.primary_index == other.primary_index && (
        self.address.before(other.address) || (self.address == other.address && (self.slot
            < other.slot || (self.slot == other.slot && self.signature.before(other.signature))))))
    }

    proof fn lemma_irreflexive(a: Self) {
    }

    proof fn lemma_transitive(a: Self, b: Self, c: Self) {
    }

    proof fn lemma_total(a: Self, b: Self) {
    }

    fn is_before(&self, other: &Self) -> (result: bool) {
        self.primary_index < other.primary_index || (self.primary_index == other.primary_index && (
        self.address.is_before(&other.address) || (self.address == other.address && (self.slot
            < other.slot || (self.slot == other.slot && self.signature.is_before(
            &other.signature,
        ))))))
    }
}

} // verus!
