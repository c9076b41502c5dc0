//! Rows of the index store: a record laid out as five texts, and read back.

use crate::entry::{kind_text, ItemFS, ItemType, ItemView};
use crate::text::{
    decimal, decimal_text, digits_value, is_decimal, lemma_decimal_is_decimal,
    lemma_decimal_of_value, parse_decimal,
};
use vstd::prelude::*;

verus! {

/// A record as the store keeps it: five texts.
#[derive(Debug)]
pub struct IndexRow {
    pub abs_path: String,
    pub name: String,
    pub size: String,
    pub last_edit: String,
    pub kind: String,
}

/// The five texts of a stored record, as mathematical values.
pub struct RowView {
    pub abs_path: Seq<char>,
    pub name: Seq<char>,
    pub size: Seq<char>,
    pub last_edit: Seq<char>,
    pub kind: Seq<char>,
}

impl View for IndexRow {
    type V = RowView;

    open spec fn view(&self) -> RowView {
        RowView {
            abs_path: self.abs_path@,
            name: self.name@,
            size: self.size@,
            last_edit: self.last_edit@,
            kind: self.kind@,
        }
    }
}

/// The row that stands for a record: path, name, size in decimal notation,
/// date, and the tag of the kind.
pub open spec fn row_of(item: ItemView) -> RowView {
    RowView {
        abs_path: item.abs_path,
        name: item.name,
        size: decimal(item.size),
        last_edit: item.last_edit,
        kind: kind_text(item.f_type),
    }
}

/// Lays a record out as the row that the store keeps for it.
pub fn to_row(item: &ItemFS) -> (row: IndexRow)
    ensures
        row@ == row_of(item@),
{
    IndexRow {
        abs_path: item.abs_path().clone(),
        name: item.name().clone(),
        size: decimal_text(item.get_size()),
        last_edit: item.last_edit().clone(),
        kind: item.f_type().to_string(),
    }
}

/// The kind that a tag stands for.
pub open spec fn kind_of_text(text: Seq<char>) -> Option<ItemType> {
    if text == kind_text(ItemType::DIR) {
        Some(ItemType::DIR)
    } else if text == kind_text(ItemType::FILE) {
        Some(ItemType::FILE)
    } else {
        None
    }
}

/// The record that a stored row stands for; `None` where its size is not a
/// 128-bit number in decimal notation or its kind is no known tag.
pub open spec fn record_of(row: RowView) -> Option<ItemView> {
    match kind_of_text(row.kind) {
        Some(f_type) => if is_decimal(row.size) && digits_value(row.size) <= u128::MAX {
            Some(
                ItemView {
                    abs_path: row.abs_path,
                    name: row.name,
                    f_type,
                    size: digits_value(row.size),
                    last_edit: row.last_edit,
                },
            )
        } else {
            None
        },
        None => None,
    }
}

/// Reads a stored row back into the record it stands for.
pub fn from_row(row: &IndexRow) -> (res: Option<ItemFS>)
    ensures
        match res {
            Some(item) => record_of(row@) == Some(item@),
            None => record_of(row@) is None,
        },
{
    let f_type = if row.kind == ItemType::DIR.to_string() {
        ItemType::DIR
    } else if row.kind == ItemType::FILE.to_string() {
        ItemType::FILE
    } else {
        return None;
    };
    match parse_decimal(row.size.as_str()) {
        Some(size) => {
            proof {
                lemma_decimal_is_decimal(size as nat);
            }
            Some(
                ItemFS::new(
                    row.abs_path.clone(),
                    row.name.clone(),
                    f_type,
                    size,
                    row.last_edit.clone(),
                ),
            )
        },
        None => {
            proof {
                if is_decimal(row.size@) && digits_value(row.size@) <= u128::MAX {
                    lemma_decimal_of_value(row.size@);
                }
            }
            None
        },
    }
}

/// Reads stored rows back into records, in order. Fails with the place of
/// the first row that stands for no record.
pub fn read_records(rows: &Vec<IndexRow>) -> (res: Result<Vec<ItemFS>, usize>)
    ensures
        match res {
            Ok(records) => {
                &&& records@.len() == rows@.len()
                &&& forall|i: int|
                    0 <= i < rows@.len() ==> record_of(#[trigger] rows@[i]@) == Some(records@[i]@)
            },
            Err(place) => {
                &&& place < rows@.len()
                &&& record_of(rows@[place as int]@) is None
                &&& forall|i: int| 0 <= i < place ==> record_of(#[trigger] rows@[i]@) is Some
            },
        },
{
    let mut records: Vec<ItemFS> = Vec::new();
    let mut i: usize = 0;
    while i < rows.len()
        invariant
            i <= rows.len(),
            records@.len() == i,
            forall|j: int| 0 <= j < i ==> record_of(#[trigger] rows@[j]@) == Some(records@[j]@),
        decreases rows.len() - i,
    {
        match from_row(&rows[i]) {
            Some(item) => {
                records.push(item);
            },
            None => {
                return Err(i);
            },
        }
        i = i + 1;
    }
    Ok(records)
}

/// A record that was laid out as a row is read back as it was.
pub proof fn lemma_row_round_trip(item: ItemView)
    requires
        item.size <= u128::MAX,
    ensures
        record_of(row_of(item)) == Some(item),
{
    reveal_strlit("directory");
    reveal_strlit("file");
    assert("directory"@.len() != "file"@.len());
    lemma_decimal_is_decimal(item.size);
}

} // verus!
