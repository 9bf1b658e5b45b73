//! Entries as bytes.

use vstd::prelude::*;
use crate::column::Duplicate;
use crate::records::{
    entry_views, transaction_views, Entry, EntryView, VersionedTransaction,
    VersionedTransactionView,
};
use crate::types::{Blockhash, Signature};

verus! {

/// A transaction as it is encoded: its first signature, the others, whether its message is of
/// the unversioned format, and the message.
pub type EncodedTransaction = (
    (u128, u128, u128, u128),
    Vec<(u128, u128, u128, u128)>,
    bool,
    Vec<u8>,
);

/// An entry as it is encoded: its number of hashes, its hash and its transactions.
pub type EncodedEntry = (u64, (u128, u128), Vec<EncodedTransaction>);

/// The model of an `EncodedTransaction`.
pub type EncodedTransactionView = (
    (u128, u128, u128, u128),
    Seq<(u128, u128, u128, u128)>,
    bool,
    Seq<u8>,
);

/// The model of an `EncodedEntry`.
pub type EncodedEntryView = (u64, (u128, u128), Seq<EncodedTransactionView>);

/// What `bincode::deserialize` makes of `bytes`, read as a vector of encoded entries. `None`
/// where it returns an error.
pub uninterp spec fn bincode_entries(bytes: Seq<u8>) -> Option<Seq<EncodedEntryView>>;

/// What `bincode::serialize` makes of a vector of encoded entries. `None` where it returns an
/// error.
pub uninterp spec fn bincode_bytes(entries: Seq<EncodedEntryView>) -> Option<Seq<u8>>;

/// Calls `bincode::deserialize`. Its result depends on the bytes alone; bytes after the last
/// entry are not looked at.
#[verifier::external_body]
fn decode_with_bincode(bytes: &Vec<u8>) -> (result: Option<Vec<EncodedEntry>>)
    ensures
        (match result {
            Some(entries) => Some(entries.deep_view()),
            None => None,
        }) == bincode_entries(bytes@),
{
    bincode::deserialize::<Vec<EncodedEntry>>(bytes).ok()
}

/// Calls `bincode::serialize`. Its result depends on the entries alone. It does not fail: there
/// is no limit on the size, and every sequence has a known length. The bytes start with the
/// number of entries, so there are some, and `bincode::deserialize` reads the entries back from
/// them.
#[verifier::external_body]
fn encode_with_bincode(entries: &Vec<EncodedEntry>) -> (result: Option<Vec<u8>>)
    ensures
        (match result {
            Some(bytes) => Some(bytes@),
            None => None,
        }) == bincode_bytes(entries.deep_view()),
        result is Some,
        result->0@.len() > 0,
        bincode_entries(result->0@) == Some(entries.deep_view()),
{
    bincode::serialize(entries).ok()
}

/// The signature of four words.
pub open spec fn signature_of(words: (u128, u128, u128, u128)) -> Signature {
    Signature { w0: words.0, w1: words.1, w2: words.2, w3: words.3 }
}

/// The four words of a signature.
pub open spec fn words_of(s: Signature) -> (u128, u128, u128, u128) {
    (s.w0, s.w1, s.w2, s.w3)
}

/// The transaction that is encoded so.
pub open spec fn transaction_of(t: EncodedTransactionView) -> VersionedTransactionView {
    VersionedTransactionView {
        signature: signature_of(t.0),
        other_signatures: Seq::new(t.1.len(), |i: int| signature_of(t.1[i])),
        is_legacy: t.2,
        message: t.3,
    }
}

/// The entry that is encoded so.
pub open spec fn entry_of(e: EncodedEntryView) -> EntryView {
    EntryView {
        num_hashes: e.0,
        hash: Blockhash { w0: e.1.0, w1: e.1.1 },
        transactions: Seq::new(e.2.len(), |i: int| transaction_of(e.2[i])),
    }
}

/// The encoded form of a transaction.
pub open spec fn encoded_transaction(t: VersionedTransactionView) -> EncodedTransactionView {
    (
        words_of(t.signature),
        Seq::new(t.other_signatures.len(), |i: int| words_of(t.other_signatures[i])),
        t.is_legacy,
        t.message,
    )
}

/// The encoded form of an entry.
pub open spec fn encoded_entry(e: EntryView) -> EncodedEntryView {
    (
        e.num_hashes,
        (e.hash.w0, e.hash.w1),
        Seq::new(e.transactions.len(), |i: int| encoded_transaction(e.transactions[i])),
    )
}

/// The encoded form of entries.
pub open spec fn encoded_entries(entries: Seq<EntryView>) -> Seq<EncodedEntryView> {
    Seq::new(entries.len(), |i: int| encoded_entry(entries[i]))
}

/// The entries that `bytes` hold, if they hold any.
pub open spec fn decoded_entries(bytes: Seq<u8>) -> Option<Seq<EntryView>> {
    match bincode_entries(bytes) {
        Some(encoded) => Some(Seq::new(encoded.len(), |i: int| entry_of(encoded[i]))),
        None => None,
    }
}

/// Encoding keeps a transaction.
pub proof fn lemma_transaction_round_trip(t: VersionedTransactionView)
    ensures
        transaction_of(encoded_transaction(t)) == t,
{
    assert(transaction_of(encoded_transaction(t)).other_signatures =~= t.other_signatures);
}

/// Encoding keeps an entry.
pub proof fn lemma_entry_round_trip(e: EntryView)
    ensures
        entry_of(encoded_entry(e)) == e,
{
    assert forall|i: int| 0 <= i < e.transactions.len() implies transaction_of(
        encoded_transaction(e.transactions[i]),
    ) == #[trigger] e.transactions[i] by {
        lemma_transaction_round_trip(e.transactions[i]);
    }
    assert(entry_of(encoded_entry(e)).transactions =~= e.transactions);
}

fn signature_from(words: &(u128, u128, u128, u128)) -> (result: Signature)
    ensures
        result == signature_of(*words),
{
    Signature { w0: words.0, w1: words.1, w2: words.2, w3: words.3 }
}

fn signatures_from(words: &Vec<(u128, u128, u128, u128)>) -> (result: Vec<Signature>)
    ensures
        result@ == Seq::new(words@.len(), |i: int| signature_of(words@[i])),
{
    let mut result: Vec<Signature> = Vec::with_capacity(words.len());
    let mut i: usize = 0;
    while i < words.len()
        invariant
            0 <= i <= words@.len(),
            result@ == Seq::new(i as nat, |i: int| signature_of(words@[i])),
        decreases words@.len() - i,
    {
        result.push(signature_from(&words[i]));
        assert(result@ =~= Seq::new((i + 1) as nat, |i: int| signature_of(words@[i])));
        i += 1;
    }
    result
}

fn transaction_from(t: &EncodedTransaction) -> (result: VersionedTransaction)
    ensures
        result@ == transaction_of(t.deep_view()),
{
    let signature = signature_from(&t.0);
    let other_signatures = signatures_from(&t.1);
    let message = t.3.duplicate();
    proof {
        assert(t.1.deep_view() =~= t.1@);
        assert(t.3.deep_view() =~= t.3@);
        assert(t.deep_view() == (t.0.deep_view(), t.1.deep_view(), t.2, t.3.deep_view()));
        assert(other_signatures@ =~= transaction_of(t.deep_view()).other_signatures);
    }
    VersionedTransaction { signature, other_signatures, is_legacy: t.2, message }
}

fn entry_from(e: &EncodedEntry) -> (result: Entry)
    ensures
        result@ == entry_of(e.deep_view()),
{
    let mut transactions: Vec<VersionedTransaction> = Vec::with_capacity(e.2.len());
    let ghost expected = entry_of(e.deep_view()).transactions;
    let mut i: usize = 0;
    assert(transaction_views(transactions@) =~= expected.take(0));
    while i < e.2.len()
        invariant
            0 <= i <= e.2@.len(),
            expected == entry_of(e.deep_view()).transactions,
            transaction_views(transactions@) == expected.take(i as int),
        decreases e.2@.len() - i,
    {
        let ghost so_far = transaction_views(transactions@);
        let t = transaction_from(&e.2[i]);
        proof {
            assert(e.deep_view().2[i as int] == e.2@[i as int].deep_view());
            assert(t@ == expected[i as int]);
        }
        transactions.push(t);
        assert(transaction_views(transactions@) =~= so_far.push(t@));
        assert(transaction_views(transactions@) =~= expected.take(i + 1));
        i += 1;
    }
    assert(expected.take(e.2@.len() as int) =~= expected);
    Entry {
        num_hashes: e.0,
        hash: Blockhash { w0: e.1.0, w1: e.1.1 },
        transactions,
    }
}

/// Reads `bytes` as entries.
pub fn decode_entries(bytes: &Vec<u8>) -> (result: Option<Vec<Entry>>)
    ensures
        (match result {
            Some(entries) => Some(entry_views(entries@)),
            None => None,
        }) == decoded_entries(bytes@),
{
    match decode_with_bincode(bytes) {
        None => None,
        Some(encoded) => Some(entries_from(&encoded)),
    }
}

/// The entries that are encoded so.
pub fn entries_from(encoded: &Vec<EncodedEntry>) -> (result: Vec<Entry>)
    ensures
        entry_views(result@) == Seq::new(
            encoded@.len(),
            |i: int| entry_of(encoded.deep_view()[i]),
        ),
{
    let mut result: Vec<Entry> = Vec::with_capacity(encoded.len());
    let ghost expected = Seq::new(encoded@.len(), |i: int| entry_of(encoded.deep_view()[i]));
    let mut i: usize = 0;
    assert(entry_views(result@) =~= expected.take(0));
    while i < encoded.len()
        invariant
            0 <= i <= encoded@.len(),
            expected == Seq::new(encoded@.len(), |i: int| entry_of(encoded.deep_view()[i])),
            entry_views(result@) == expected.take(i as int),
        decreases encoded@.len() - i,
    {
        let ghost so_far = entry_views(result@);
        let e = entry_from(&encoded[i]);
        proof {
            assert(encoded.deep_view()[i as int] == encoded@[i as int].deep_view());
            assert(e@ == expected[i as int]);
        }
        result.push(e);
        assert(entry_views(result@) =~= so_far.push(e@));
        assert(entry_views(result@) =~= expected.take(i + 1));
        i += 1;
    }
    assert(expected.take(encoded@.len() as int) =~= expected);
    result
}

fn encode_transaction(t: &VersionedTransaction) -> (result: EncodedTransaction)
    ensures
        result.deep_view() == encoded_transaction(t@),
{
    let mut others: Vec<(u128, u128, u128, u128)> = Vec::new();
    let ghost expected = encoded_transaction(t@).1;
    let mut i: usize = 0;
    while i < t.other_signatures.len()
        invariant
            0 <= i <= t.other_signatures@.len(),
            expected == encoded_transaction(t@).1,
            others@ == expected.take(i as int),
        decreases t.other_signatures@.len() - i,
    {
        let s = t.other_signatures[i];
        others.push((s.w0, s.w1, s.w2, s.w3));
        assert(others@ =~= expected.take(i + 1));
        i += 1;
    }
    let s = t.signature;
    let result = ((s.w0, s.w1, s.w2, s.w3), others, t.is_legacy, t.message.duplicate());
    proof {
        assert(result.1.deep_view() =~= expected);
        assert(result.3.deep_view() =~= t.message@);
        assert(result.deep_view() == (
            result.0.deep_view(),
            result.1.deep_view(),
            result.2,
            result.3.deep_view(),
        ));
    }
    result
}

fn encode_entry(e: &Entry) -> (result: EncodedEntry)
    ensures
        result.deep_view() == encoded_entry(e@),
{
    let mut transactions: Vec<EncodedTransaction> = Vec::new();
    let ghost expected = encoded_entry(e@).2;
    let mut i: usize = 0;
    assert(transactions.deep_view() =~= expected.take(0));
    while i < e.transactions.len()
        invariant
            0 <= i <= e.transactions@.len(),
            expected == encoded_entry(e@).2,
            transactions.deep_view() == expected.take(i as int),
        decreases e.transactions@.len() - i,
    {
        let ghost so_far = transactions.deep_view();
        let t = encode_transaction(&e.transactions[i]);
        proof {
            assert(e@.transactions[i as int] == e.transactions@[i as int]@);
        }
        transactions.push(t);
        assert(transactions.deep_view() =~= so_far.push(t.deep_view()));
        assert(transactions.deep_view() =~= expected.take(i + 1));
        i += 1;
    }
    assert(expected.take(e.transactions@.len() as int) =~= expected);
    let result = (e.num_hashes, (e.hash.w0, e.hash.w1), transactions);
    assert(result.deep_view() == (result.0, result.1.deep_view(), result.2.deep_view()));
    result
}

/// Writes entries as bytes that `decode_entries` reads back.
pub fn encode_entries(entries: &Vec<Entry>) -> (result: Option<Vec<u8>>)
    ensures
        (match result {
            Some(bytes) => Some(bytes@),
            None => None,
        }) == bincode_bytes(encoded_entries(entry_views(entries@))),
        result is Some,
        result->0@.len() > 0,
        decoded_entries(result->0@) == Some(entry_views(entries@)),
{
    let mut encoded: Vec<EncodedEntry> = Vec::new();
    let ghost views = entry_views(entries@);
    let ghost expected = encoded_entries(views);
    let mut i: usize = 0;
    assert(encoded.deep_view() =~= expected.take(0));
    while i < entries.len()
        invariant
            0 <= i <= entries@.len(),
            views == entry_views(entries@),
            expected == encoded_entries(views),
            encoded.deep_view() == expected.take(i as int),
        decreases entries@.len() - i,
    {
        let ghost so_far = encoded.deep_view();
        let e = encode_entry(&entries[i]);
        assert(views[i as int] == entries@[i as int]@);
        encoded.push(e);
        assert(encoded.deep_view() =~= so_far.push(e.deep_view()));
        assert(encoded.deep_view() =~= expected.take(i + 1));
        i += 1;
    }
    assert(expected.take(entries@.len() as int) =~= expected);
    let result = encode_with_bincode(&encoded);
    proof {
        if result is Some {
            let d = decoded_entries(result->0@)->0;
            assert forall|i: int| 0 <= i < views.len() implies (#[trigger] d[i]) == views[i] by {
                lemma_entry_round_trip(views[i]);
            }
            assert(d =~= views);
        }
    }
    result
}

} // verus!
