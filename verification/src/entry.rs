//! Entry records and the classifier that makes one from a listed entry.

use crate::dates::{convert_sys_time, utc_text, SysTime, DATE_FORMAT};
use crate::paths::{format_path, formatted};
use crate::text::{decimal, push_decimal};
use vstd::prelude::*;
use vstd::string::StringExecFns;

verus! {

/// Error text of an entry whose modification time has no date.
pub const BAD_TIME: &'static str = "Invalid modification time";

/// Kind of a file system item.
#[derive(Clone, Copy, Debug, PartialEq, Eq, Structural)]
pub enum ItemType {
    DIR,
    FILE,
}

/// The tag under which a kind is printed and stored.
pub open spec fn kind_text(kind: ItemType) -> Seq<char> {
    match kind {
        ItemType::DIR => "directory"@,
        ItemType::FILE => "file"@,
    }
}

impl ItemType {
    /// The textual tag of the kind: `directory` or `file`.
    pub fn to_string(&self) -> (res: String)
        ensures
            res@ == kind_text(*self),
    {
        match self {
            ItemType::DIR => String::from_str("directory"),
            ItemType::FILE => String::from_str("file"),
        }
    }
}

/// What an entry record says, as mathematical values.
pub struct ItemView {
    pub abs_path: Seq<char>,
    pub name: Seq<char>,
    pub f_type: ItemType,
    pub size: nat,
    pub last_edit: Seq<char>,
}

/// One file or directory of a snapshot. For a file `size` is its length in
/// bytes; for a directory it is the sum over the files beneath it.
#[derive(Debug)]
pub struct ItemFS {
    abs_path: String,
    name: String,
    f_type: ItemType,
    size: u128,
    last_edit: String,
}

impl View for ItemFS {
    type V = ItemView;

    closed spec fn view(&self) -> ItemView {
        ItemView {
            abs_path: self.abs_path@,
            name: self.name@,
            f_type: self.f_type,
            size: self.size as nat,
            last_edit: self.last_edit@,
        }
    }
}

impl Clone for ItemFS {
    fn clone(&self) -> (res: Self)
        ensures
            res@ == self@,
    {
        ItemFS {
            abs_path: self.abs_path.clone(),
            name: self.name.clone(),
            f_type: self.f_type,
            size: self.size,
            last_edit: self.last_edit.clone(),
        }
    }
}

/// The records as mathematical values.
pub open spec fn views(items: Seq<ItemFS>) -> Seq<ItemView> {
    items.map_values(|item: ItemFS| item@)
}

/// What the file system reports of an entry's metadata.
#[derive(Debug)]
pub struct RawMetadata {
    /// Length in bytes as reported; for a directory it carries no meaning.
    pub len: u64,
    /// Time of the last modification, or the text of the error met reading it.
    pub modified: Result<SysTime, String>,
}

/// One entry of a directory listing, as plain values.
#[derive(Debug)]
pub struct RawEntry {
    /// Full path of the entry as the system displays it.
    pub path: String,
    /// Base name of the entry.
    pub file_name: String,
    /// Whether the path leads to a directory.
    pub is_dir: bool,
    /// The entry's metadata, or the text of the error met reading it.
    pub metadata: Result<RawMetadata, String>,
}

/// The kind that the classifier gives an entry.
pub open spec fn kind_of(is_dir: bool) -> ItemType {
    if is_dir {
        ItemType::DIR
    } else {
        ItemType::FILE
    }
}

/// The record for `entry` once its length and the date text of its
/// modification time are known; an error where the time has no date.
pub open spec fn dated(entry: RawEntry, windows: bool, len: u64, date: Option<Seq<char>>) -> Result<
    ItemView,
    Seq<char>,
> {
    match date {
        Some(last_edit) => Ok(
            ItemView {
                abs_path: formatted(entry.path@, windows),
                name: entry.file_name@,
                f_type: kind_of(entry.is_dir),
                size: len as nat,
                last_edit,
            },
        ),
        None => Err(BAD_TIME@),
    }
}

/// The outcome of classifying `entry`: its record, or the text of the error
/// that kept its metadata or its modification time from being read.
pub open spec fn classify(entry: RawEntry, windows: bool) -> Result<ItemView, Seq<char>> {
    match entry.metadata {
        Err(reason) => Err(reason@),
        Ok(meta) => match meta.modified {
            Err(reason) => Err(reason@),
            Ok(t) => dated(
                entry,
                windows,
                meta.len,
                utc_text(t.secs as int, t.nanos as int, DATE_FORMAT@),
            ),
        },
    }
}

/// Whether the outcome `res` says what `expected` says.
pub open spec fn same_outcome(
    res: Result<ItemFS, String>,
    expected: Result<ItemView, Seq<char>>,
) -> bool {
    match res {
        Ok(item) => expected == Ok::<ItemView, Seq<char>>(item@),
        Err(reason) => expected == Err::<ItemView, Seq<char>>(reason@),
    }
}

/// How a record is printed.
pub open spec fn item_text(v: ItemView) -> Seq<char> {
    kind_text(v.f_type) + ": "@ + v.abs_path + "\n"@ + v.name + ": "@ + v.last_edit + " - "@
        + decimal(v.size) + " bytes"@
}

impl ItemFS {
    /// Makes a record from its five fields.
    pub fn new(
        abs_path: String,
        name: String,
        f_type: ItemType,
        size: u128,
        last_edit: String,
    ) -> (res: ItemFS)
        ensures
            res@ == (ItemView {
                abs_path: abs_path@,
                name: name@,
                f_type,
                size: size as nat,
                last_edit: last_edit@,
            }),
    {
        ItemFS { abs_path, name, f_type, size, last_edit }
    }

    /// Classifies one listed entry: its path is formatted, its kind follows
    /// `is_dir`, its size is the reported length and its date is the UTC day
    /// of its modification time. Fails with the text of the error where the
    /// metadata or the modification time could not be read, and with
    /// [`BAD_TIME`] where the time has no date.
    pub fn from_dir_entry(entry: &RawEntry, windows: bool) -> (res: Result<ItemFS, String>)
        ensures
            same_outcome(res, classify(*entry, windows)),
    {
        match &entry.metadata {
            Err(reason) => Err(reason.clone()),
            Ok(meta) => match &meta.modified {
                Err(reason) => Err(reason.clone()),
                Ok(t) => ItemFS::with_date(entry, windows, meta.len, convert_sys_time(*t)),
            },
        }
    }

    /// The record for `entry` given its length and the date text of its
    /// modification time; fails with [`BAD_TIME`] where there is no date.
    pub fn with_date(
        entry: &RawEntry,
        windows: bool,
        len: u64,
        date: Option<String>,
    ) -> (res: Result<ItemFS, String>)
        ensures
            same_outcome(
                res,
                dated(
                    *entry,
                    windows,
                    len,
                    match date {
                        Some(text) => Some(text@),
                        None => None,
                    },
                ),
            ),
    {
        match date {
            Some(last_edit) => Ok(
                ItemFS {
                    abs_path: format_path(entry.path.as_str(), windows),
                    name: entry.file_name.clone(),
                    f_type: if entry.is_dir {
                        ItemType::DIR
                    } else {
                        ItemType::FILE
                    },
                    size: len as u128,
                    last_edit,
                },
            ),
            None => Err(String::from_str(BAD_TIME)),
        }
    }

    /// Size in bytes.
    pub fn get_size(&self) -> (res: u128)
        ensures
            res as nat == self@.size,
    {
        self.size
    }

    /// Absolute path, the key of the record.
    pub fn abs_path(&self) -> (res: &String)
        ensures
            res@ == self@.abs_path,
    {
        &self.abs_path
    }

    /// Base name.
    pub fn name(&self) -> (res: &String)
        ensures
            res@ == self@.name,
    {
        &self.name
    }

    /// Kind: file or directory.
    pub fn f_type(&self) -> (res: ItemType)
        ensures
            res == self@.f_type,
    {
        self.f_type
    }

    /// Date of the last modification, day-month-year.
    pub fn last_edit(&self) -> (res: &String)
        ensures
            res@ == self@.last_edit,
    {
        &self.last_edit
    }

    /// The same record with another size.
    pub fn with_size(self, size: u128) -> (res: ItemFS)
        ensures
            res@ == (ItemView { size: size as nat, ..self@ }),
    {
        ItemFS {
            abs_path: self.abs_path,
            name: self.name,
            f_type: self.f_type,
            size,
            last_edit: self.last_edit,
        }
    }

    /// The record as printed: kind and path on one line, then name, date
    /// and size in bytes on the next.
    pub fn to_string(&self) -> (res: String)
        ensures
            res@ == item_text(self@),
    {
        let mut out = self.f_type.to_string();
        out.append(": ");
        out.append(self.abs_path.as_str());
        out.append("\n");
        out.append(self.name.as_str());
        out.append(": ");
        out.append(self.last_edit.as_str());
        out.append(" - ");
        push_decimal(&mut out, self.size);
        out.append(" bytes");
        out
    }
}

} // verus!
