//! The journal's row form: what one persisted spreadsheet row holds, how
//! entries are written as rows, and how loaded rows are read back.
//!
//! A row holds the commit hash verbatim, the duration and the timestamp
//! as decimal digit strings, and the label verbatim (empty cell: no
//! label). Loading marks every entry as loaded from storage.

use vstd::prelude::*;

use crate::digits::{all_digits, dec_str, digits_value, check_digits, digits_value_checked,
    lemma_dec_str_value};
use crate::model::{JournalEntry, Origin, SpecEntry, clone_bytes};

verus! {

/// One row of the persisted journal, as raw cell contents.
#[derive(Clone, Debug, PartialEq, Eq)]
pub struct RawRow {
    pub hash: Vec<u8>,
    pub minutes: Vec<u8>,
    pub label: Vec<u8>,
    pub timestamp: Vec<u8>,
}

/// Mathematical model of a [`RawRow`].
pub struct SpecRow {
    pub hash: Seq<u8>,
    pub minutes: Seq<u8>,
    pub label: Seq<u8>,
    pub timestamp: Seq<u8>,
}

impl View for RawRow {
    type V = SpecRow;

    open spec fn view(&self) -> SpecRow {
        SpecRow {
            hash: self.hash@,
            minutes: self.minutes@,
            label: self.label@,
            timestamp: self.timestamp@,
        }
    }
}

/// Why a loaded row is corrupt.
#[derive(Clone, Copy, PartialEq, Eq, Structural, Debug)]
pub enum RowError {
    /// The duration cell is not a decimal number of minutes that fits.
    BadMinutes,
    /// The timestamp cell is not a decimal number of seconds that fits.
    BadTimestamp,
}

/// The row an entry is persisted as.
pub open spec fn spec_row_of(e: SpecEntry) -> SpecRow {
    SpecRow {
        hash: e.hash,
        minutes: dec_str(e.minutes as nat),
        label: match e.label {
            Some(l) => l,
            None => Seq::empty(),
        },
        timestamp: dec_str(e.timestamp as nat),
    }
}

/// The entry a loaded row stands for, or the corruption found in it.
pub open spec fn spec_row_entry(r: SpecRow) -> Result<SpecEntry, RowError> {
    if !(r.minutes.len() > 0 && all_digits(r.minutes)) || digits_value(r.minutes) > u64::MAX {
        Err(RowError::BadMinutes)
    } else if !(r.timestamp.len() > 0 && all_digits(r.timestamp)) || digits_value(r.timestamp)
        > u64::MAX {
        Err(RowError::BadTimestamp)
    } else {
        Ok(
            SpecEntry {
                hash: r.hash,
                minutes: digits_value(r.minutes) as u64,
                label: if r.label.len() == 0 {
                    None
                } else {
                    Some(r.label)
                },
                timestamp: digits_value(r.timestamp) as u64,
                origin: Origin::Loaded,
            },
        )
    }
}

/// Writes the journal entries as rows, in their given order, ready for
/// persistence.
pub fn write_entries(entries: &Vec<JournalEntry>) -> (rows: Vec<RawRow>)
    ensures
        rows@.len() == entries@.len(),
        forall|i: int| 0 <= i < rows@.len() ==> #[trigger] rows@[i]@ == spec_row_of(entries@[i]@),
{
    let mut rows: Vec<RawRow> = Vec::new();
    let mut i: usize = 0;
    while i < entries.len()
        invariant
            i <= entries@.len(),
            rows@.len() == i,
            forall|k: int| 0 <= k < i ==> #[trigger] rows@[k]@ == spec_row_of(entries@[k]@),
        decreases entries@.len() - i,
    {
        let e = &entries[i];
        let row = RawRow {
            hash: clone_bytes(&e.hash),
            minutes: crate::digits::render_u64(e.minutes),
            label: match &e.label {
                Some(l) => clone_bytes(l),
                None => Vec::new(),
            },
            timestamp: crate::digits::render_u64(e.timestamp),
        };
        proof {
            assert(row@ == spec_row_of(entries@[i as int]@));
        }
        rows.push(row);
        i += 1;
    }
    rows
}

/// Reads one loaded row back into an entry, marked as loaded, or
/// reports the corruption found in it.
pub fn entry_from_row(row: &RawRow) -> (r: Result<JournalEntry, RowError>)
    ensures
        match r {
            Ok(e) => spec_row_entry(row@) == Ok::<SpecEntry, RowError>(e@),
            Err(er) => spec_row_entry(row@) == Err::<SpecEntry, RowError>(er),
        },
{
    if !check_digits(&row.minutes) {
        return Err(RowError::BadMinutes);
    }
    let minutes = match digits_value_checked(&row.minutes) {
        Some(v) => v,
        None => {
            return Err(RowError::BadMinutes);
        },
    };
    if !check_digits(&row.timestamp) {
        return Err(RowError::BadTimestamp);
    }
    let timestamp = match digits_value_checked(&row.timestamp) {
        Some(v) => v,
        None => {
            return Err(RowError::BadTimestamp);
        },
    };
    let label = if row.label.len() == 0 {
        None
    } else {
        Some(clone_bytes(&row.label))
    };
    Ok(
        JournalEntry {
            hash: clone_bytes(&row.hash),
            minutes,
            label,
            timestamp,
            origin: Origin::Loaded,
        },
    )
}

/// Writing an entry and reading the row back gives the entry, marked as
/// loaded.
pub proof fn lemma_row_round_trip(e: SpecEntry)
    requires
        e.label matches Some(l) ==> l.len() > 0,
    ensures
        spec_row_entry(spec_row_of(e)) == Ok::<SpecEntry, RowError>(
            SpecEntry { origin: Origin::Loaded, ..e },
        ),
{
    lemma_dec_str_value(e.minutes as nat);
    lemma_dec_str_value(e.timestamp as nat);
}

} // verus!
