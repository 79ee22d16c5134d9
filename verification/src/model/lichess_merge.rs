//! The merge operator of the store for entries: the value that is there
//! and the operands are read into one entry, which is written anew.

use crate::model::lichess::{spec_extend, spec_write_entry, EntryModel, LichessEntry};
use crate::model::reader::{ByteReader, CodecError};
use vstd::prelude::*;

verus! {

/// Reads the byte strings `operands` into `e`, one after the other.
pub open spec fn spec_extend_all(e: EntryModel, operands: Seq<Vec<u8>>) -> Result<
    EntryModel,
    CodecError,
>
    decreases operands.len(),
{
    if operands.len() == 0 {
        Ok(e)
    } else {
        match spec_extend(e, operands[0]@) {
            Ok(e2) => spec_extend_all(e2, operands.skip(1)),
            Err(err) => Err(err),
        }
    }
}

/// What the store holds after `operands` were merged into `existing`: the
/// bytes of the entry that all of them, read one after the other, come to.
pub open spec fn spec_merge(existing: Option<Vec<u8>>, operands: Seq<Vec<u8>>) -> Result<
    Seq<u8>,
    CodecError,
> {
    let start = match existing {
        Some(bytes) => spec_extend(EntryModel::spec_empty(), bytes@),
        None => Ok(EntryModel::spec_empty()),
    };
    match start {
        Err(err) => Err(err),
        Ok(e) => match spec_extend_all(e, operands) {
            Ok(merged) => Ok(spec_write_entry(merged)),
            Err(err) => Err(err),
        },
    }
}

/// Reading `operands` from the one at `i` on starts with reading that one.
proof fn lemma_extend_all_step(e: EntryModel, operands: Seq<Vec<u8>>, i: int)
    requires
        0 <= i < operands.len(),
    ensures
        spec_extend_all(e, operands.skip(i)) == (match spec_extend(e, operands[i]@) {
            Ok(e2) => spec_extend_all(e2, operands.skip(i + 1)),
            Err(err) => Err(err),
        }),
{
    assert(operands.skip(i).skip(1) == operands.skip(i + 1));
    assert(operands.skip(i)[0] == operands[i]);
}

/// The merge operator of the store for entries: reads the value that is
/// there, if any, and the operands in their order into one entry, and
/// writes that entry. The first byte string that cannot be read gives its
/// error.
pub fn merge_operands(existing: &Option<Vec<u8>>, operands: &Vec<Vec<u8>>) -> (r: Result<
    Vec<u8>,
    CodecError,
>)
    ensures
        match spec_merge(*existing, operands@) {
            Ok(bytes) => r matches Ok(merged) && merged@ == bytes,
            Err(err) => r matches Err(e) && e == err,
        },
{
    let mut entry = LichessEntry::new();
    if let Some(bytes) = existing {
        let mut reader = ByteReader::new(bytes.as_slice());
        if let Err(err) = entry.extend_from_reader(&mut reader) {
            return Err(err);
        }
    }
    let ghost expected = spec_extend_all(entry@, operands@);
    let mut i: usize = 0;
    assert(operands@.skip(0) == operands@);
    while i < operands.len()
        invariant
            i <= operands@.len(),
            entry.wf(),
            spec_extend_all(entry@, operands@.skip(i as int)) === expected,
            spec_merge(*existing, operands@) === (match expected {
                Ok(merged) => Ok(spec_write_entry(merged)),
                Err(err) => Err(err),
            }),
        decreases operands@.len() - i,
    {
        let ghost before = entry@;
        let mut reader = ByteReader::new(operands[i].as_slice());
        proof {
            lemma_extend_all_step(before, operands@, i as int);
        }
        match entry.extend_from_reader(&mut reader) {
            Ok(()) => {},
            Err(err) => {
                return Err(err);
            },
        }
        i = i + 1;
    }
    assert(operands@.skip(i as int).len() == 0);
    let mut merged: Vec<u8> = Vec::new();
    entry.write(&mut merged);
    assert(merged@ == spec_write_entry(entry@)) by {
        assert(Seq::<u8>::empty() + spec_write_entry(entry@) == spec_write_entry(entry@));
    }
    Ok(merged)
}

} // verus!
