//! Generation-gated copy of the signed distance field toward the GPU: the
//! render world copies the packed bytes only when the field's generation
//! changed, then uploads the fresh copy once.

use vstd::prelude::*;
use crate::distance_field::GRID_LEN;

verus! {

/// Render-world scratch copy of the newest signed distance field.
#[derive(Debug)]
pub struct ExtractedField {
    /// Generation of the copy currently held; `u64::MAX` = "never copied",
    /// distinct from the field's 0-based counter.
    pub generation: u64,
    /// Byte scratch (at most `MASK_SIZE²` bytes).
    pub bytes: Vec<u8>,
    /// A fresh copy is waiting for upload.
    pub dirty: bool,
}

impl Default for ExtractedField {
    /// The never-copied sentinel, empty scratch, nothing pending.
    fn default() -> (f: Self)
        ensures
            f.generation == u64::MAX,
            f.bytes@.len() == 0,
            !f.dirty,
    {
        ExtractedField { generation: u64::MAX, bytes: Vec::with_capacity(GRID_LEN), dirty: false }
    }
}

/// What an extract of `signed` at `field_generation` leaves: the same
/// generation changes nothing; a new one copies the first `MASK_SIZE²`
/// bytes, records the generation, and marks the copy for upload.
pub open spec fn extracted(before: ExtractedField, field_generation: u64, signed: Seq<u8>, after: ExtractedField) -> bool {
    &&& field_generation == before.generation ==> after == before
    &&& field_generation != before.generation ==> {
        &&& after.generation == field_generation
        &&& after.dirty
        &&& after.bytes@ == signed.take(
            if signed.len() < GRID_LEN {
                signed.len() as int
            } else {
                GRID_LEN as int
            },
        )
    }
}

impl ExtractedField {
    /// Copy the main-world field when (and only when) its generation
    /// changed, truncated to `MASK_SIZE²` bytes, and mark it for upload.
    pub fn extract(&mut self, field_generation: u64, signed: &[u8])
        ensures
            extracted(*old(self), field_generation, signed@, *final(self)),
    {
        if field_generation == self.generation {
            return;
        }
        self.bytes.clear();
        let take = if signed.len() < GRID_LEN {
            signed.len()
        } else {
            GRID_LEN
        };
        let mut i: usize = 0;
        while i < take
            invariant
                i <= take,
                take <= signed@.len(),
                self.bytes@ == signed@.take(i as int),
            decreases take - i,
        {
            self.bytes.push(signed[i]);
            assert(signed@.take(i + 1) =~= signed@.take(i as int).push(signed@[i as int]));
            i = i + 1;
        }
        self.generation = field_generation;
        self.dirty = true;
    }

    /// Consume the pending copy: returns whether the bytes should be written
    /// to the GPU buffer now (a fresh, non-empty copy); afterwards nothing is
    /// pending.
    pub fn take_upload(&mut self) -> (write: bool)
        ensures
            write == (old(self).dirty && old(self).bytes@.len() > 0),
            !final(self).dirty,
            final(self).bytes == old(self).bytes,
            final(self).generation == old(self).generation,
    {
        if !self.dirty {
            return false;
        }
        let write = self.bytes.len() > 0;
        self.dirty = false;
        write
    }
}

/// The first computed field always uploads: a fresh scratch holds the
/// never-copied sentinel, which no 0-based counter value short of wrapping
/// all the way around can equal, and an extract of a new generation always
/// leaves a copy pending.
pub proof fn lemma_first_field_uploads(fresh: ExtractedField, field_generation: u64)
    requires
        fresh.generation == u64::MAX,
        field_generation < u64::MAX,
    ensures
        field_generation != fresh.generation,
{
}

/// A generation uploads at most once: once its copy has been uploaded,
/// extracting the same generation again leaves nothing pending, so the next
/// upload writes nothing.
pub proof fn lemma_generation_uploads_once(
    uploaded: ExtractedField,
    field_generation: u64,
    signed: Seq<u8>,
    after: ExtractedField,
)
    requires
        uploaded.generation == field_generation,
        !uploaded.dirty,
        extracted(uploaded, field_generation, signed, after),
    ensures
        !after.dirty,
        after.bytes == uploaded.bytes,
{
}

} // verus!
