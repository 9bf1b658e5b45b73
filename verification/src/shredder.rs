//! Cutting entries into data shreds.

use vstd::prelude::*;
use crate::column::SlotIndex;
use crate::entries::{bincode_bytes, decoded_entries, encode_entries, encoded_entries};
use crate::ledger::LedgerView;
use crate::records::{entry_views, Entry, EntryView, InvalidShredData};
use crate::shred::{
    data_flags, deshredded, joined_data, law_data_shred_round_trip, new_data_shred, parse_shred,
    shred_views, Shred, ShredView, DATA_COMPLETE_SHRED, LAST_SHRED_IN_SLOT,
    MAX_DATA_SHREDS_PER_FEC_BLOCK, SHRED_TICK_REFERENCE_MASK, SIZE_OF_DATA_SHRED_PAYLOAD,
};
use crate::slot_entries::{block_entries, shreds_from};
use crate::types::Slot;

verus! {

/// How many shreds `len` bytes take.
pub open spec fn num_data_shreds(len: int) -> int {
    (len + SIZE_OF_DATA_SHRED_PAYLOAD - 1) / SIZE_OF_DATA_SHRED_PAYLOAD as int
}

/// The part of `bytes` that goes into shred `i`.
pub open spec fn chunk(bytes: Seq<u8>, i: int) -> Seq<u8> {
    let from = i * SIZE_OF_DATA_SHRED_PAYLOAD;
    let to = from + SIZE_OF_DATA_SHRED_PAYLOAD;
    bytes.subrange(
        from,
        if to < bytes.len() {
            to
        } else {
            bytes.len() as int
        },
    )
}

/// Cuts the entries of a slot into shreds.
#[derive(Clone, Copy, PartialEq, Eq, Structural, Debug)]
pub struct Shredder {
    pub slot: Slot,
    pub parent_slot: Slot,
    pub reference_tick: u8,
    pub version: u16,
}

/// Encoded, the entries take more shreds than there are indexes from `start` on.
pub open spec fn too_long(entries: Seq<EntryView>, start: u32) -> bool {
    exists|bytes: Seq<u8>| #[trigger]
        decoded_entries(bytes) == Some(entries) && start + num_data_shreds(bytes.len() as int)
            > u32::MAX
}

impl Shredder {
    /// The parent is not above the slot, and not too far below it.
    pub open spec fn valid(self) -> bool {
        self.parent_slot <= self.slot && self.slot - self.parent_slot <= u16::MAX
    }

    /// Shred `i` of the `n` shreds that `bytes` are cut into, the first of which has the index
    /// `start`.
    pub open spec fn shred_at(
        self,
        bytes: Seq<u8>,
        is_last_in_slot: bool,
        start: u32,
        n: int,
        i: int,
    ) -> ShredView {
        new_data_shred(
            self.slot,
            (start + i) as u32,
            (self.slot - self.parent_slot) as u16,
            chunk(bytes, i),
            data_flags(self.reference_tick, i == n - 1, i == n - 1 && is_last_in_slot),
            self.version,
            (start + i - i % (MAX_DATA_SHREDS_PER_FEC_BLOCK as int)) as u32,
        )
    }

    /// The shreds that `bytes` are cut into.
    pub open spec fn shreds_of(self, bytes: Seq<u8>, is_last_in_slot: bool, start: u32) -> Seq<
        ShredView,
    > {
        let n = num_data_shreds(bytes.len() as int);
        Seq::new(n as nat, |i: int| self.shred_at(bytes, is_last_in_slot, start, n, i))
    }

    /// A shredder for a slot, unless the parent is above the slot or too far below it.
    pub fn new(slot: Slot, parent_slot: Slot, reference_tick: u8, version: u16) -> (result: Option<
        Self,
    >)
        ensures
            ({
                let shredder = Shredder { slot, parent_slot, reference_tick, version };
                result == if shredder.valid() {
                    Some(shredder)
                } else {
                    None
                }
            }),
    {
        if slot < parent_slot || slot - parent_slot > 0xffff {
            None
        } else {
            Some(Shredder { slot, parent_slot, reference_tick, version })
        }
    }

    /// Cuts `bytes` into data shreds, the first of which has the index `start`.
    pub fn bytes_to_shreds(&self, bytes: &Vec<u8>, is_last_in_slot: bool, start: u32) -> (result:
        Vec<Shred>)
        requires
            self.valid(),
            start + num_data_shreds(bytes@.len() as int) <= u32::MAX,
        ensures
            shred_views(result@) == self.shreds_of(bytes@, is_last_in_slot, start),
    {
        let len: usize = bytes.len();
        let ghost n = num_data_shreds(len as int);
        let ghost all = self.shreds_of(bytes@, is_last_in_slot, start);
        let mut result: Vec<Shred> = Vec::new();
        let mut from: usize = 0;
        let mut i: u32 = 0;
        let parent_offset: u16 = (self.slot - self.parent_slot) as u16;
        assert(shred_views(result@) =~= all.take(0));
        while from < len
            invariant
                self.valid(),
                len == bytes@.len(),
                n == num_data_shreds(len as int),
                start + n <= u32::MAX,
                all == self.shreds_of(bytes@, is_last_in_slot, start),
                all.len() == n,
                parent_offset == self.slot - self.parent_slot,
                0 <= i <= n,
                from == i * SIZE_OF_DATA_SHRED_PAYLOAD || (from == len && i == n),
                from <= len,
                from < len ==> i < n,
                from == len ==> i == n,
                shred_views(result@) == all.take(i as int),
            decreases len - from,
        {
            let to: usize = if len - from > SIZE_OF_DATA_SHRED_PAYLOAD {
                from + SIZE_OF_DATA_SHRED_PAYLOAD
            } else {
                len
            };
            let is_last_data = to == len;
            assert(is_last_data == (i == n - 1));
            let mut data: Vec<u8> = Vec::new();
            data.extend_from_slice(vstd::slice::slice_subrange(bytes.as_slice(), from, to));
            assert(data@ =~= chunk(bytes@, i as int));
            let shred = Shred::new_from_data(
                self.slot,
                start + i,
                parent_offset,
                &data,
                is_last_data,
                is_last_data && is_last_in_slot,
                self.reference_tick,
                self.version,
                start + i - i % MAX_DATA_SHREDS_PER_FEC_BLOCK,
            );
            let ghost so_far = shred_views(result@);
            assert(shred@ == all[i as int]);
            result.push(shred);
            assert(shred_views(result@) =~= so_far.push(shred@));
            assert(shred_views(result@) =~= all.take(i + 1));
            i = i + 1;
            from = to;
        }
        assert(all.take(n) =~= all);
        result
    }

    /// Cuts entries into data shreds, the first of which has the index `start`. `None` where
    /// the entries take more shreds than there are indexes.
    pub fn entries_to_data_shreds(
        &self,
        entries: &Vec<Entry>,
        is_last_in_slot: bool,
        start: u32,
    ) -> (result: Option<Vec<Shred>>)
        requires
            self.valid(),
        ensures
            (match result {
                Some(shreds) => Some(shred_views(shreds@)),
                None => None,
            }) == self.shredded(entry_views(entries@), is_last_in_slot, start),
            result is Some ==> result->0@.len() > 0 && exists|bytes: Seq<u8>|
                bytes.len() > 0 && decoded_entries(bytes) == Some(entry_views(entries@))
                    && shred_views(result->0@) == #[trigger] self.shreds_of(
                    bytes,
                    is_last_in_slot,
                    start,
                ) && start + num_data_shreds(bytes.len() as int) <= u32::MAX,
            result is None ==> too_long(entry_views(entries@), start),
    {
        match encode_entries(entries) {
            None => None,
            Some(bytes) => {
                let room: usize = (0xffff_ffff - start) as usize;
                let len: usize = bytes.len();
                let full: usize = len / SIZE_OF_DATA_SHRED_PAYLOAD;
                let count: usize = if len % SIZE_OF_DATA_SHRED_PAYLOAD == 0 {
                    full
                } else {
                    full + 1
                };
                assert(count == num_data_shreds(len as int));
                if count > room {
                    assert(decoded_entries(bytes@) == Some(entry_views(entries@)));
                    None
                } else {
                    let shreds = self.bytes_to_shreds(&bytes, is_last_in_slot, start);
                    assert(shred_views(shreds@) == self.shreds_of(bytes@, is_last_in_slot, start));
                    assert(shred_views(shreds@).len() == count);
                    Some(shreds)
                }
            },
        }
    }

    /// The data shreds that entries are cut into.
    pub open spec fn shredded(
        self,
        entries: Seq<EntryView>,
        is_last_in_slot: bool,
        start: u32,
    ) -> Option<Seq<ShredView>> {
        match bincode_bytes(encoded_entries(entries)) {
            None => None,
            Some(bytes) => if start + num_data_shreds(bytes.len() as int) > u32::MAX {
                None
            } else {
                Some(self.shreds_of(bytes, is_last_in_slot, start))
            },
        }
    }
}

pub proof fn lemma_flags(tick: u8, complete: bool, last: bool)
    ensures
        complete ==> data_flags(tick, complete, last) & DATA_COMPLETE_SHRED == DATA_COMPLETE_SHRED,
        data_flags(tick, complete, last) & LAST_SHRED_IN_SLOT == LAST_SHRED_IN_SLOT <==> last,
        !complete && !last ==> data_flags(tick, complete, last) & DATA_COMPLETE_SHRED
            != DATA_COMPLETE_SHRED && data_flags(tick, complete, last) & LAST_SHRED_IN_SLOT
            != LAST_SHRED_IN_SLOT,
{
    let t = if tick < SHRED_TICK_REFERENCE_MASK {
        tick
    } else {
        SHRED_TICK_REFERENCE_MASK
    };
    assert(t <= 0x3f);
    assert((t | 0x40u8) & 0x40u8 == 0x40u8) by (bit_vector);
    assert(((t | 0x40u8) | 0x80u8) & 0x40u8 == 0x40u8) by (bit_vector);
    assert((t | 0x80u8) & 0x80u8 == 0x80u8 && ((t | 0x40u8) | 0x80u8) & 0x80u8 == 0x80u8)
        by (bit_vector);
    assert(t <= 0x3fu8 ==> (t | 0x40u8) & 0x80u8 != 0x80u8) by (bit_vector);
    assert(t <= 0x3fu8 ==> t & 0x40u8 != 0x40u8 && t & 0x80u8 != 0x80u8) by (bit_vector);
}

/// The shreds of a slot's entries, put together again, are the bytes that were cut.
pub proof fn law_shreds_join_to_bytes(
    shredder: Shredder,
    bytes: Seq<u8>,
    is_last_in_slot: bool,
    start: u32,
)
    requires
        shredder.valid(),
        bytes.len() > 0,
        start + num_data_shreds(bytes.len() as int) <= u32::MAX,
    ensures
        deshredded(shredder.shreds_of(bytes, is_last_in_slot, start)) == Some(bytes),
{
    let shreds = shredder.shreds_of(bytes, is_last_in_slot, start);
    let n = num_data_shreds(bytes.len() as int);
    assert(n > 0);
    assert forall|i: int| 0 <= i < shreds.len() implies (#[trigger] shreds[i]).data() == chunk(
        bytes,
        i,
    ) by {
        lemma_shred_reads_back(shredder, bytes, is_last_in_slot, start, i);
    }
    lemma_joined(shreds, bytes, n);
    assert(shreds.take(n) =~= shreds);
    assert(bytes.take(bytes.len() as int) =~= bytes);
    assert forall|i: int| 0 <= i < shreds.len() implies (#[trigger] shreds[i]).payload.len()
        == shreds[0].payload.len() && shreds[i].index() == shreds[0].index() + i by {
        assert(shreds[i] == shredder.shred_at(bytes, is_last_in_slot, start, n, i));
        assert(shreds[0] == shredder.shred_at(bytes, is_last_in_slot, start, n, 0));
    }
    lemma_flags(shredder.reference_tick, true, is_last_in_slot);
    assert(shreds.last() == shredder.shred_at(bytes, is_last_in_slot, start, n, n - 1));
    assert(shreds.last().data_complete());
}

/// Where the first `k` chunks of `bytes` end.
spec fn chunks_end(bytes: Seq<u8>, k: int) -> int {
    if k * SIZE_OF_DATA_SHRED_PAYLOAD < bytes.len() {
        k * SIZE_OF_DATA_SHRED_PAYLOAD
    } else {
        bytes.len() as int
    }
}

proof fn lemma_joined(shreds: Seq<ShredView>, bytes: Seq<u8>, k: int)
    requires
        0 <= k <= shreds.len(),
        shreds.len() == num_data_shreds(bytes.len() as int),
        forall|i: int| 0 <= i < shreds.len() ==> (#[trigger] shreds[i]).data() == chunk(bytes, i),
    ensures
        joined_data(shreds.take(k)) == bytes.take(chunks_end(bytes, k)),
    decreases k,
{
    if k == 0 {
        assert(joined_data(shreds.take(0)) =~= bytes.take(0));
    } else {
        lemma_joined(shreds, bytes, k - 1);
        assert(shreds.take(k).drop_last() =~= shreds.take(k - 1));
        assert(shreds.take(k).last() == shreds[k - 1]);
        let c = chunk(bytes, k - 1);
        let from = (k - 1) * SIZE_OF_DATA_SHRED_PAYLOAD;
        assert(from < bytes.len());
        assert(k * SIZE_OF_DATA_SHRED_PAYLOAD == from + SIZE_OF_DATA_SHRED_PAYLOAD)
            by (nonlinear_arith)
            requires
                from == (k - 1) * SIZE_OF_DATA_SHRED_PAYLOAD,
        ;
        assert(bytes.take(from) + c =~= bytes.take(chunks_end(bytes, k)));
    }
}

/// Stored shreds that read back are what `shreds_from` reads.
proof fn lemma_stored_shreds(
    ledger: LedgerView,
    slot: Slot,
    start: u32,
    shreds: Seq<ShredView>,
    k: int,
)
    requires
        0 <= k <= shreds.len(),
        stores_all(ledger, slot, start, shreds),
        forall|i: int|
            0 <= i < shreds.len() ==> parse_shred((#[trigger] shreds[i]).stored()) == Some(
                shreds[i],
            ),
    ensures
        shreds_from(ledger, slot, start as int, k) == Ok::<Seq<ShredView>, InvalidShredData>(
            shreds.take(k),
        ),
    decreases k,
{
    if k == 0 {
        assert(shreds.take(0) =~= Seq::empty());
    } else {
        lemma_stored_shreds(ledger, slot, start, shreds, k - 1);
        let shred = shreds[k - 1];
        assert(parse_shred(shred.stored()) == Some(shred));
        assert(shreds.take(k - 1).push(shred) =~= shreds.take(k));
    }
}

pub proof fn lemma_shred_reads_back(
    shredder: Shredder,
    bytes: Seq<u8>,
    is_last_in_slot: bool,
    start: u32,
    i: int,
)
    requires
        shredder.valid(),
        start + num_data_shreds(bytes.len() as int) <= u32::MAX,
        0 <= i < num_data_shreds(bytes.len() as int),
    ensures
        ({
            let shred = shredder.shreds_of(bytes, is_last_in_slot, start)[i];
            &&& parse_shred(shred.stored()) == Some(shred)
            &&& parse_shred(shred.payload) == Some(shred)
            &&& shred.data_header.size <= shred.payload.len()
            &&& shred.data() == chunk(bytes, i)
        }),
{
    let n = num_data_shreds(bytes.len() as int);
    let shred = shredder.shred_at(bytes, is_last_in_slot, start, n, i);
    assert(i * SIZE_OF_DATA_SHRED_PAYLOAD < bytes.len());
    law_data_shred_round_trip(
        shredder.slot,
        (start + i) as u32,
        (shredder.slot - shredder.parent_slot) as u16,
        chunk(bytes, i),
        shred.data_header.flags,
        shredder.version,
        shred.common_header.fec_set_index,
    );
}

/// The ledger stores a shred at a key.
pub open spec fn stores_at(ledger: LedgerView, key: SlotIndex, shred: ShredView) -> bool {
    ledger.data_shreds.contains_key(key) && ledger.data_shreds[key] == shred.stored()
}

/// The ledger stores `shreds` at the indexes of `slot` from `start` on.
pub open spec fn stores_all(
    ledger: LedgerView,
    slot: Slot,
    start: u32,
    shreds: Seq<ShredView>,
) -> bool {
    forall|i: int|
        0 <= i < shreds.len() ==> stores_at(
            ledger,
            SlotIndex { slot, index: (start + i) as u64 },
            #[trigger] shreds[i],
        )
}

proof fn lemma_block_of(
    ledger: LedgerView,
    slot: Slot,
    start: u32,
    end: u32,
    shreds: Seq<ShredView>,
    bytes: Seq<u8>,
    entries: Seq<EntryView>,
)
    requires
        shreds_from(ledger, slot, start as int, end - start + 1) == Ok::<
            Seq<ShredView>,
            InvalidShredData,
        >(shreds),
        deshredded(shreds) == Some(bytes),
        decoded_entries(bytes) == Some(entries),
    ensures
        block_entries(ledger, slot, start, end) == Ok::<Seq<EntryView>, InvalidShredData>(entries),
{
}

/// Entries that were cut into shreds are read back from a ledger that stores these shreds.
pub proof fn law_block_reads_back(
    ledger: LedgerView,
    shredder: Shredder,
    bytes: Seq<u8>,
    entries: Seq<EntryView>,
    is_last_in_slot: bool,
    start: u32,
)
    requires
        shredder.valid(),
        bytes.len() > 0,
        decoded_entries(bytes) == Some(entries),
        start + num_data_shreds(bytes.len() as int) <= u32::MAX,
        stores_all(
            ledger,
            shredder.slot,
            start,
            shredder.shreds_of(bytes, is_last_in_slot, start),
        ),
    ensures
        block_entries(
            ledger,
            shredder.slot,
            start,
            (start + num_data_shreds(bytes.len() as int) - 1) as u32,
        ) == Ok::<Seq<EntryView>, InvalidShredData>(entries),
{
    let n = num_data_shreds(bytes.len() as int);
    let shreds = shredder.shreds_of(bytes, is_last_in_slot, start);
    assert forall|i: int| 0 <= i < shreds.len() implies parse_shred(
        (#[trigger] shreds[i]).stored(),
    ) == Some(shreds[i]) by {
        lemma_shred_reads_back(shredder, bytes, is_last_in_slot, start, i);
    }
    lemma_stored_shreds(ledger, shredder.slot, start, shreds, n);
    assert(shreds.take(n) =~= shreds);
    law_shreds_join_to_bytes(shredder, bytes, is_last_in_slot, start);
    lemma_block_of(
        ledger,
        shredder.slot,
        start,
        (start + n - 1) as u32,
        shreds,
        bytes,
        entries,
    );
}

} // verus!
