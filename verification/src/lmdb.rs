//! Ordered key/value environments: named tables, snapshots for readers and a single writer.
//!
//! An environment holds its tables in memory. Readers keep the tables they began with; the
//! writer works on a copy that replaces them at commit. Keys are sorted bytewise, and tables
//! opened with [`DbiFlags::dup_sort`] keep several sorted values per key. Counted tables answer
//! counts and ranks by binary search.

use std::cmp::Ordering;
use std::sync::Arc;
use vstd::prelude::*;
use crate::bytes::{bytes_copy, lex_compare, lex_lt, same_bytes, Rank};
use crate::rows::{
    before_cut, del_row, front, has_row, lookup, put_row, rank, rank_past, rear, rows_of, slot,
    sorted_rows, Cut, Pair, Row,
};
use crate::rows::{drop_pairs, find_cut, pairs_copy};
use crate::rows::{lemma_cut, lemma_cut_pair, lemma_del_sorted, lemma_put_sorted};
use crate::text::{chars_of, same_text};

verus! {

// ── Return codes and flag bits ───────────────────────────────────────────────

pub const MDB_NOSUBDIR: u32 = 0x4000;

pub const MDB_RDONLY: u32 = 0x20000;

pub const MDB_NOTLS: u32 = 0x200000;

pub const MDB_INMEMORY: u32 = 0x400_0000;

pub const MDB_DUPSORT: u32 = 0x04;

pub const MDB_COUNTED: u32 = 0x80;

pub const MDB_PREFIX_COMPRESSION: u32 = 0x100;

pub const MDB_CREATE: u32 = 0x40000;

pub const MDB_KEYEXIST: i32 = -30799;

pub const MDB_NOTFOUND: i32 = -30798;

/// The environment already has as many tables as it may.
pub const MDB_DBS_FULL: i32 = -30791;

/// The table exists with another kind of rows than asked for.
pub const MDB_INCOMPATIBLE: i32 = -30784;

/// Invalid argument.
pub const EINVAL: i32 = 22;

/// A write on a read-only environment.
pub const EACCES: i32 = 13;

/// One return code surfaced as an error.
#[derive(Debug, Clone, Copy, PartialEq, Eq, Structural)]
pub struct Error(pub i32);

impl Error {
    #[must_use]
    pub fn is_not_found(self) -> (r: bool)
        ensures
            r == (self.0 == MDB_NOTFOUND),
    {
        self.0 == MDB_NOTFOUND
    }

    #[must_use]
    pub fn is_key_exist(self) -> (r: bool)
        ensures
            r == (self.0 == MDB_KEYEXIST),
    {
        self.0 == MDB_KEYEXIST
    }
}

/// Environment open flags.
#[derive(Debug, Clone, Copy, PartialEq, Eq, Structural)]
pub struct EnvFlags(pub u32);

impl EnvFlags {
    /// The path names a file, not a directory.
    #[must_use]
    pub fn no_sub_dir() -> (r: EnvFlags)
        ensures
            r.0 == MDB_NOSUBDIR,
    {
        EnvFlags(MDB_NOSUBDIR)
    }

    /// Open read-only.
    #[must_use]
    pub fn read_only() -> (r: EnvFlags)
        ensures
            r.0 == MDB_RDONLY,
    {
        EnvFlags(MDB_RDONLY)
    }

    /// Untie read slots from threads.
    #[must_use]
    pub fn no_tls() -> (r: EnvFlags)
        ensures
            r.0 == MDB_NOTLS,
    {
        EnvFlags(MDB_NOTLS)
    }

    /// Keep the whole database in memory.
    #[must_use]
    pub fn in_memory() -> (r: EnvFlags)
        ensures
            r.0 == MDB_INMEMORY,
    {
        EnvFlags(MDB_INMEMORY)
    }

    /// No flags set.
    #[must_use]
    pub fn empty() -> (r: Self)
        ensures
            r.0 == 0,
    {
        EnvFlags(0)
    }

    /// The raw flag bits.
    #[must_use]
    pub fn bits(self) -> (r: u32)
        ensures
            r == self.0,
    {
        self.0
    }
}

impl std::ops::BitOr for EnvFlags {
    type Output = EnvFlags;

    fn bitor(self, rhs: EnvFlags) -> (r: EnvFlags) {
        EnvFlags(self.0 | rhs.0)
    }
}

impl vstd::std_specs::ops::BitOrSpecImpl for EnvFlags {
    open spec fn obeys_bitor_spec() -> bool {
        true
    }

    open spec fn bitor_req(self, rhs: EnvFlags) -> bool {
        true
    }

    open spec fn bitor_spec(self, rhs: EnvFlags) -> EnvFlags {
        EnvFlags(self.0 | rhs.0)
    }
}

/// Table open flags.
#[derive(Debug, Clone, Copy, PartialEq, Eq, Structural)]
pub struct DbiFlags(pub u32);

impl DbiFlags {
    /// Create the named table if absent.
    #[must_use]
    pub fn create() -> (r: DbiFlags)
        ensures
            r.0 == MDB_CREATE,
    {
        DbiFlags(MDB_CREATE)
    }

    /// Sorted duplicate values per key.
    #[must_use]
    pub fn dup_sort() -> (r: DbiFlags)
        ensures
            r.0 == MDB_DUPSORT,
    {
        DbiFlags(MDB_DUPSORT)
    }

    /// Maintain counts, enabling `count_range`, `count_all` and the rank lookups.
    #[must_use]
    pub fn counted() -> (r: DbiFlags)
        ensures
            r.0 == MDB_COUNTED,
    {
        DbiFlags(MDB_COUNTED)
    }

    /// Prefix-compress leaf keys.
    #[must_use]
    pub fn prefix_compression() -> (r: DbiFlags)
        ensures
            r.0 == MDB_PREFIX_COMPRESSION,
    {
        DbiFlags(MDB_PREFIX_COMPRESSION)
    }

    /// No flags set.
    #[must_use]
    pub fn empty() -> (r: Self)
        ensures
            r.0 == 0,
    {
        DbiFlags(0)
    }

    /// The raw flag bits.
    #[must_use]
    pub fn bits(self) -> (r: u32)
        ensures
            r == self.0,
    {
        self.0
    }
}

impl std::ops::BitOr for DbiFlags {
    type Output = DbiFlags;

    fn bitor(self, rhs: DbiFlags) -> (r: DbiFlags) {
        DbiFlags(self.0 | rhs.0)
    }
}

impl vstd::std_specs::ops::BitOrSpecImpl for DbiFlags {
    open spec fn obeys_bitor_spec() -> bool {
        true
    }

    open spec fn bitor_req(self, rhs: DbiFlags) -> bool {
        true
    }

    open spec fn bitor_spec(self, rhs: DbiFlags) -> DbiFlags {
        DbiFlags(self.0 | rhs.0)
    }
}

// ── Tables ───────────────────────────────────────────────────────────────────

/// One named table.
pub struct Table {
    pub name: String,
    pub flags: DbiFlags,
    pub rows: Vec<Pair>,
}

/// What a [`Table`] holds.
pub struct TableView {
    pub name: Seq<char>,
    pub flags: u32,
    pub rows: Seq<Row>,
}

impl TableView {
    /// Several values per key.
    pub open spec fn dup(self) -> bool {
        self.flags & MDB_DUPSORT != 0
    }

    /// Counts and ranks are kept.
    pub open spec fn counted(self) -> bool {
        self.flags & MDB_COUNTED != 0
    }

    /// The rows are sorted.
    pub open spec fn wf(self) -> bool {
        sorted_rows(self.rows, self.dup())
    }
}

impl View for Table {
    type V = TableView;

    open spec fn view(&self) -> TableView {
        TableView { name: self.name@, flags: self.flags.0, rows: rows_of(self.rows@) }
    }
}

impl Table {
    fn is_dup(&self) -> (r: bool)
        ensures
            r == self@.dup(),
    {
        self.flags.0 & MDB_DUPSORT != 0
    }

    fn is_counted(&self) -> (r: bool)
        ensures
            r == self@.counted(),
    {
        self.flags.0 & MDB_COUNTED != 0
    }

    /// A copy of the table.
    fn copy(&self) -> (r: Table)
        ensures
            r@ == self@,
    {
        Table { name: self.name.clone(), flags: self.flags, rows: pairs_copy(&self.rows) }
    }

    /// Store `value` under `key`.
    fn put(&mut self, key: &[u8], value: &[u8])
        requires
            old(self)@.wf(),
        ensures
            final(self)@.wf(),
            final(self)@ == (TableView {
                rows: put_row(old(self)@.rows, old(self)@.dup(), key@, value@),
                ..old(self)@
            }),
    {
        let ghost before = self@;
        let ghost at = slot(before.dup(), Some(value@));
        let dup = self.is_dup();
        let place: Option<&[u8]> = if dup {
            Some(value)
        } else {
            None
        };
        let lo = find_cut(&self.rows, key, place, false);
        let hi = find_cut(&self.rows, key, place, true);
        proof {
            lemma_cut_pair(before.rows, before.dup(), key@, at);
            lemma_put_sorted(before.rows, before.dup(), key@, value@);
        }
        let ghost start = self.rows@;
        drop_pairs(&mut self.rows, lo, hi);
        self.rows.insert(lo, (bytes_copy(key), bytes_copy(value)));
        assert(rows_of(self.rows@) =~= put_row(before.rows, before.dup(), key@, value@));
    }

    /// Drop the rows of `key`, or one of its duplicates; whether there were any.
    fn del(&mut self, key: &[u8], value: Option<&[u8]>) -> (r: bool)
        requires
            old(self)@.wf(),
        ensures
            final(self)@.wf(),
            final(self)@ == (TableView {
                rows: del_row(old(self)@.rows, old(self)@.dup(), key@, opt_view(value)),
                ..old(self)@
            }),
            r == (final(self)@.rows != old(self)@.rows),
    {
        let ghost before = self@;
        let ghost at = slot(before.dup(), opt_view(value));
        let dup = self.is_dup();
        let place: Option<&[u8]> = if dup {
            value
        } else {
            None
        };
        let lo = find_cut(&self.rows, key, place, false);
        let hi = find_cut(&self.rows, key, place, true);
        proof {
            lemma_cut_pair(before.rows, before.dup(), key@, at);
            lemma_del_sorted(before.rows, before.dup(), key@, opt_view(value));
        }
        drop_pairs(&mut self.rows, lo, hi);
        proof {
            assert(rows_of(self.rows@) =~= del_row(
                before.rows,
                before.dup(),
                key@,
                opt_view(value),
            ));
            if lo == hi {
                assert(self@.rows =~= before.rows);
            } else {
                assert(self@.rows.len() < before.rows.len());
            }
        }
        lo < hi
    }
}

/// What an optional byte slice holds.
pub open spec fn opt_view(value: Option<&[u8]>) -> Option<Seq<u8>> {
    match value {
        Some(v) => Some(v@),
        None => None,
    }
}

/// A named table handle. Copyable; valid for the life of the [`Env`].
#[derive(Debug, Clone, Copy, PartialEq, Eq, Structural)]
pub struct Dbi(pub u32);

/// One entry: a key and a value.
pub type Entry<'t> = (&'t [u8], &'t [u8]);

/// What an optional entry holds.
pub open spec fn entry_view(e: Option<Entry<'_>>) -> Option<Row> {
    match e {
        Some((k, v)) => Some((k@, v@)),
        None => None,
    }
}

/// The row at `at`, if there is one.
pub open spec fn row_at(rows: Seq<Row>, at: int) -> Option<Row> {
    if 0 <= at < rows.len() {
        Some(rows[at])
    } else {
        None
    }
}

/// How many rows have a key from `low` through `high`; open bounds count from either end.
pub open spec fn rows_between(
    rows: Seq<Row>,
    low: Option<Seq<u8>>,
    high: Option<Seq<u8>>,
) -> nat {
    let from: nat = match low {
        Some(k) => rank(rows, k),
        None => 0,
    };
    let to: nat = match high {
        Some(k) => rank_past(rows, k),
        None => rows.len(),
    };
    if from < to {
        (to - from) as nat
    } else {
        0
    }
}

/// The tables of an environment at one moment.
pub struct Snapshot {
    pub tables: Vec<Table>,
}

impl View for Snapshot {
    type V = Seq<TableView>;

    open spec fn view(&self) -> Seq<TableView> {
        Seq::new(self.tables@.len(), |i: int| self.tables@[i]@)
    }
}

/// Every table is sorted.
pub open spec fn tables_wf(tables: Seq<TableView>) -> bool {
    &&& forall|i: int| 0 <= i < tables.len() ==> (#[trigger] tables[i]).wf()
    &&& tables.len() <= u32::MAX
}

/// The index of the first table named `name`.
pub open spec fn table_named(tables: Seq<TableView>, name: Seq<char>) -> Option<nat>
    decreases tables.len(),
{
    if tables.len() == 0 {
        None
    } else {
        match table_named(tables.drop_last(), name) {
            Some(i) => Some(i),
            None => if tables.last().name == name {
                Some((tables.len() - 1) as nat)
            } else {
                None
            },
        }
    }
}

impl Snapshot {
    /// The table of a handle.
    fn table(&self, dbi: Dbi) -> (r: Result<&Table, Error>)
        ensures
            match r {
                Ok(t) => dbi.0 < self@.len() && t@ == self@[dbi.0 as int],
                Err(e) => dbi.0 >= self@.len() && e == Error(EINVAL),
            },
    {
        if (dbi.0 as usize) < self.tables.len() {
            Ok(&self.tables[dbi.0 as usize])
        } else {
            Err(Error(EINVAL))
        }
    }

    /// A copy of all tables.
    fn copy(&self) -> (r: Snapshot)
        ensures
            r@ == self@,
    {
        let mut tables: Vec<Table> = Vec::new();
        let mut i: usize = 0;
        while i < self.tables.len()
            invariant
                i <= self.tables.len(),
                tables@.len() == i,
                forall|j: int| 0 <= j < i ==> (#[trigger] tables@[j])@ == self.tables@[j]@,
            decreases self.tables.len() - i,
        {
            tables.push(self.tables[i].copy());
            i = i + 1;
        }
        let r = Snapshot { tables };
        assert(r@ =~= self@);
        r
    }

    /// The index of the first table named `name`.
    fn find(&self, name: &str) -> (r: Option<u32>)
        requires
            tables_wf(self@),
        ensures
            match r {
                Some(i) => table_named(self@, name@) == Some(i as nat) && i < self@.len()
                    && self@[i as int].name == name@,
                None => table_named(self@, name@) is None,
            },
    {
        let mut i: usize = 0;
        let mut found: Option<u32> = None;
        while i < self.tables.len()
            invariant
                i <= self.tables.len(),
                self.tables.len() <= u32::MAX,
                match found {
                    Some(n) => table_named(self@.take(i as int), name@) == Some(n as nat) && n < i
                        && self@[n as int].name == name@,
                    None => table_named(self@.take(i as int), name@) is None,
                },
            decreases self.tables.len() - i,
        {
            proof {
                assert(self@.take(i + 1).drop_last() =~= self@.take(i as int));
                assert(self@.take(i + 1).last() == self@[i as int]);
            }
            match found {
                Some(_) => {},
                None => {
                    if same_text(self.tables[i].name.as_str(), name) {
                        found = Some(i as u32);
                    }
                },
            }
            i = i + 1;
        }
        assert(self@.take(self@.len() as int) =~= self@);
        found
    }

    /// Look up `key`: the value of its first row.
    ///
    /// # Errors
    ///
    /// Returns an error for an unknown handle.
    pub fn get(&self, dbi: Dbi, key: &[u8]) -> (r: Result<Option<&[u8]>, Error>)
        requires
            tables_wf(self@),
        ensures
            match r {
                Ok(v) => dbi.0 < self@.len() && opt_view(v) == lookup(self@[dbi.0 as int].rows, key@),
                Err(e) => dbi.0 >= self@.len() && e == Error(EINVAL),
            },
    {
        let t = match self.table(dbi) {
            Ok(t) => t,
            Err(e) => return Err(e),
        };
        let at = find_cut(&t.rows, key, None, false);
        if at < t.rows.len() && same_bytes(t.rows[at].0.as_slice(), key) {
            Ok(Some(t.rows[at].1.as_slice()))
        } else {
            Ok(None)
        }
    }

    /// Open a cursor over `dbi`.
    ///
    /// # Errors
    ///
    /// Returns an error for an unknown handle.
    pub fn cursor(&self, dbi: Dbi) -> (r: Result<Cursor<'_>, Error>)
        requires
            tables_wf(self@),
        ensures
            match r {
                Ok(c) => dbi.0 < self@.len() && c.wf() && c.table() == self@[dbi.0 as int]
                    && c.at() is None,
                Err(e) => dbi.0 >= self@.len() && e == Error(EINVAL),
            },
    {
        match self.table(dbi) {
            Ok(t) => Ok(Cursor { table: t, at: None }),
            Err(e) => Err(e),
        }
    }

    /// Ascending iterator over the entries from `low` through `high`; `None` is open.
    ///
    /// # Errors
    ///
    /// Returns an error for an unknown handle.
    pub fn range(&self, dbi: Dbi, low: Option<&[u8]>, high: Option<&[u8]>) -> (r: Result<
        RangeIter<'_>,
        Error,
    >)
        requires
            tables_wf(self@),
        ensures
            match r {
                Ok(it) => dbi.0 < self@.len() && it.wf() && it.remaining() == between(
                    self@[dbi.0 as int].rows,
                    opt_view(low),
                    opt_view(high),
                ),
                Err(e) => dbi.0 >= self@.len() && e == Error(EINVAL),
            },
    {
        let t = match self.table(dbi) {
            Ok(t) => t,
            Err(e) => return Err(e),
        };
        let from: usize = match low {
            Some(k) => find_cut(&t.rows, k, None, false),
            None => 0,
        };
        let to: usize = match high {
            Some(k) => find_cut(&t.rows, k, None, true),
            None => t.rows.len(),
        };
        Ok(RangeIter { table: t, from, to })
    }

    /// Total entries in a counted table.
    ///
    /// # Errors
    ///
    /// Returns an error for an unknown handle or a table that is not counted.
    pub fn count_all(&self, dbi: Dbi) -> (r: Result<u64, Error>)
        ensures
            match r {
                Ok(n) => countable(self@, dbi) && n as nat == self@[dbi.0 as int].rows.len(),
                Err(e) => !countable(self@, dbi) && e == Error(EINVAL),
            },
    {
        let t = match self.table(dbi) {
            Ok(t) => t,
            Err(e) => return Err(e),
        };
        if t.is_counted() {
            Ok(t.rows.len() as u64)
        } else {
            Err(Error(EINVAL))
        }
    }

    /// Entries from `low` through `high` in a counted table. Open bounds count from either end.
    ///
    /// # Errors
    ///
    /// Returns an error for an unknown handle or a table that is not counted.
    pub fn count_range(&self, dbi: Dbi, low: Option<&[u8]>, high: Option<&[u8]>) -> (r: Result<
        u64,
        Error,
    >)
        requires
            tables_wf(self@),
        ensures
            match r {
                Ok(n) => countable(self@, dbi) && n as nat == rows_between(
                    self@[dbi.0 as int].rows,
                    opt_view(low),
                    opt_view(high),
                ),
                Err(e) => !countable(self@, dbi) && e == Error(EINVAL),
            },
    {
        let t = match self.table(dbi) {
            Ok(t) => t,
            Err(e) => return Err(e),
        };
        if !t.is_counted() {
            return Err(Error(EINVAL));
        }
        let from: usize = match low {
            Some(k) => find_cut(&t.rows, k, None, false),
            None => 0,
        };
        let to: usize = match high {
            Some(k) => find_cut(&t.rows, k, None, true),
            None => t.rows.len(),
        };
        if from < to {
            Ok((to - from) as u64)
        } else {
            Ok(0)
        }
    }

    /// Entries strictly below `key` in a counted table: the rank that the first entry at or
    /// above `key` has, whether or not `key` itself is present.
    ///
    /// # Errors
    ///
    /// Returns an error for an unknown handle or a table that is not counted.
    pub fn count_below(&self, dbi: Dbi, key: &[u8]) -> (r: Result<u64, Error>)
        requires
            tables_wf(self@),
        ensures
            match r {
                Ok(n) => countable(self@, dbi) && n as nat == rank(self@[dbi.0 as int].rows, key@),
                Err(e) => !countable(self@, dbi) && e == Error(EINVAL),
            },
    {
        let t = match self.table(dbi) {
            Ok(t) => t,
            Err(e) => return Err(e),
        };
        if t.is_counted() {
            Ok(find_cut(&t.rows, key, None, false) as u64)
        } else {
            Err(Error(EINVAL))
        }
    }

    /// The entry at `rank` (0-based, in key order) in a counted table; `None` past the end.
    ///
    /// # Errors
    ///
    /// Returns an error for an unknown handle or a table that is not counted.
    pub fn get_rank(&self, dbi: Dbi, rank: u64) -> (r: Result<Option<Entry<'_>>, Error>)
        ensures
            match r {
                Ok(e) => countable(self@, dbi) && entry_view(e) == row_at(
                    self@[dbi.0 as int].rows,
                    rank as int,
                ),
                Err(e) => !countable(self@, dbi) && e == Error(EINVAL),
            },
    {
        let t = match self.table(dbi) {
            Ok(t) => t,
            Err(e) => return Err(e),
        };
        if !t.is_counted() {
            return Err(Error(EINVAL));
        }
        if rank < t.rows.len() as u64 {
            let i: usize = rank as usize;
            Ok(Some((t.rows[i].0.as_slice(), t.rows[i].1.as_slice())))
        } else {
            Ok(None)
        }
    }

    /// The rank of `key` in a counted table; `None` where the key is absent.
    ///
    /// # Errors
    ///
    /// Returns an error for an unknown handle or a table that is not counted.
    pub fn key_rank(&self, dbi: Dbi, key: &[u8]) -> (r: Result<Option<u64>, Error>)
        requires
            tables_wf(self@),
        ensures
            match r {
                Ok(n) => countable(self@, dbi) && n == (if lookup(
                    self@[dbi.0 as int].rows,
                    key@,
                ) is Some {
                    Some(rank(self@[dbi.0 as int].rows, key@) as u64)
                } else {
                    None
                }),
                Err(e) => !countable(self@, dbi) && e == Error(EINVAL),
            },
    {
        let t = match self.table(dbi) {
            Ok(t) => t,
            Err(e) => return Err(e),
        };
        if !t.is_counted() {
            return Err(Error(EINVAL));
        }
        let at = find_cut(&t.rows, key, None, false);
        if at < t.rows.len() && same_bytes(t.rows[at].0.as_slice(), key) {
            Ok(Some(at as u64))
        } else {
            Ok(None)
        }
    }
}

/// The handle names a counted table.
pub open spec fn countable(tables: Seq<TableView>, dbi: Dbi) -> bool {
    dbi.0 < tables.len() && tables[dbi.0 as int].counted()
}

/// The rows whose key lies from `low` through `high`, in order.
pub open spec fn between(rows: Seq<Row>, low: Option<Seq<u8>>, high: Option<Seq<u8>>) -> Seq<Row> {
    let from = match low {
        Some(k) => rank(rows, k) as int,
        None => 0,
    };
    let to = match high {
        Some(k) => rank_past(rows, k) as int,
        None => rows.len() as int,
    };
    if from < to {
        rows.subrange(from, to)
    } else {
        Seq::empty()
    }
}

// ── Cursors ──────────────────────────────────────────────────────────────────

/// A cursor over one table. A seek that finds nothing leaves it unplaced; a step that finds
/// nothing leaves it where it is.
pub struct Cursor<'t> {
    table: &'t Table,
    at: Option<usize>,
}

impl<'t> Cursor<'t> {
    /// The table under the cursor.
    pub closed spec fn table(&self) -> TableView {
        self.table@
    }

    /// The index of the row under the cursor.
    pub closed spec fn at(&self) -> Option<int> {
        match self.at {
            Some(i) => Some(i as int),
            None => None,
        }
    }

    /// The rows are sorted and a placed cursor is on one of them.
    pub open spec fn wf(&self) -> bool {
        &&& self.table().wf()
        &&& self.at() matches Some(i) ==> 0 <= i < self.table().rows.len()
    }

    /// The cursor was placed on row `to`, or unplaced where there is no such row; `e` is that row.
    pub open spec fn placed(&self, before: &Cursor<'t>, to: int, e: Option<Entry<'t>>) -> bool {
        &&& self.wf()
        &&& self.table() == before.table()
        &&& entry_view(e) == row_at(self.table().rows, to)
        &&& self.at() == if 0 <= to < self.table().rows.len() {
            Some(to)
        } else {
            None
        }
    }

    /// The cursor moved to row `to`, or stayed where there is no such row; `e` is that row.
    pub open spec fn moved(&self, before: &Cursor<'t>, to: int, e: Option<Entry<'t>>) -> bool {
        &&& self.wf()
        &&& self.table() == before.table()
        &&& entry_view(e) == row_at(self.table().rows, to)
        &&& self.at() == if 0 <= to < self.table().rows.len() {
            Some(to)
        } else {
            before.at()
        }
    }

    fn entry(&self, i: usize) -> (e: Entry<'t>)
        requires
            i < self.table().rows.len(),
        ensures
            (e.0@, e.1@) == self.table().rows[i as int],
    {
        (self.table.rows[i].0.as_slice(), self.table.rows[i].1.as_slice())
    }

    fn place(&mut self, i: usize) -> (e: Option<Entry<'t>>)
        requires
            old(self).wf(),
        ensures
            final(self).placed(old(self), i as int, e),
    {
        if i < self.table.rows.len() {
            self.at = Some(i);
            Some(self.entry(i))
        } else {
            self.at = None;
            None
        }
    }

    fn step(&mut self, i: usize) -> (e: Option<Entry<'t>>)
        requires
            old(self).wf(),
        ensures
            final(self).moved(old(self), i as int, e),
    {
        if i < self.table.rows.len() {
            self.at = Some(i);
            Some(self.entry(i))
        } else {
            None
        }
    }

    /// Position at the first entry.
    ///
    /// # Errors
    ///
    /// None.
    pub fn first(&mut self) -> (r: Result<Option<Entry<'t>>, Error>)
        requires
            old(self).wf(),
        ensures
            r matches Ok(e) && final(self).placed(old(self), 0, e),
    {
        Ok(self.place(0))
    }

    /// Position at the last entry.
    ///
    /// # Errors
    ///
    /// None.
    pub fn last(&mut self) -> (r: Result<Option<Entry<'t>>, Error>)
        requires
            old(self).wf(),
        ensures
            r matches Ok(e) && final(self).placed(old(self), old(self).table().rows.len() - 1, e),
    {
        if self.table.rows.len() == 0 {
            self.at = None;
            Ok(None)
        } else {
            Ok(self.place(self.table.rows.len() - 1))
        }
    }

    /// Advance to the next entry (duplicates: next value, then next key); an unplaced cursor
    /// goes to the first.
    ///
    /// # Errors
    ///
    /// None.
    pub fn next(&mut self) -> (r: Result<Option<Entry<'t>>, Error>)
        requires
            old(self).wf(),
        ensures
            r matches Ok(e) && final(self).moved(
                old(self),
                match old(self).at() {
                    Some(i) => i + 1,
                    None => 0,
                },
                e,
            ),
    {
        match self.at {
            None => Ok(self.step(0)),
            Some(i) => {
                assert(i < self.table.rows.len());
                Ok(self.step(i + 1))
            },
        }
    }

    /// Step back to the previous entry; an unplaced cursor goes to the last.
    ///
    /// # Errors
    ///
    /// None.
    pub fn prev(&mut self) -> (r: Result<Option<Entry<'t>>, Error>)
        requires
            old(self).wf(),
        ensures
            r matches Ok(e) && final(self).moved(
                old(self),
                match old(self).at() {
                    Some(i) => i - 1,
                    None => old(self).table().rows.len() - 1,
                },
                e,
            ),
    {
        match self.at {
            None => if self.table.rows.len() == 0 {
                Ok(None)
            } else {
                Ok(self.step(self.table.rows.len() - 1))
            },
            Some(i) => if i == 0 {
                Ok(None)
            } else {
                Ok(self.step(i - 1))
            },
        }
    }

    /// Position at the first entry with a key at or above `key`.
    ///
    /// # Errors
    ///
    /// None.
    pub fn set_range(&mut self, key: &[u8]) -> (r: Result<Option<Entry<'t>>, Error>)
        requires
            old(self).wf(),
        ensures
            r matches Ok(e) && final(self).placed(
                old(self),
                rank(old(self).table().rows, key@) as int,
                e,
            ),
    {
        let i = find_cut(&self.table.rows, key, None, false);
        Ok(self.place(i))
    }

    /// Position at `key` exactly, on its first value.
    ///
    /// # Errors
    ///
    /// None.
    pub fn set(&mut self, key: &[u8]) -> (r: Result<Option<Entry<'t>>, Error>)
        requires
            old(self).wf(),
        ensures
            r matches Ok(e) && final(self).placed(
                old(self),
                if lookup(old(self).table().rows, key@) is Some {
                    rank(old(self).table().rows, key@) as int
                } else {
                    -1
                },
                e,
            ),
    {
        let i = find_cut(&self.table.rows, key, None, false);
        if i < self.table.rows.len() && same_bytes(self.table.rows[i].0.as_slice(), key) {
            Ok(self.place(i))
        } else {
            self.at = None;
            Ok(None)
        }
    }

    /// Duplicates: advance among the current key's values only; an unplaced cursor goes to the
    /// first entry.
    ///
    /// # Errors
    ///
    /// None.
    pub fn next_dup(&mut self) -> (r: Result<Option<Entry<'t>>, Error>)
        requires
            old(self).wf(),
        ensures
            r matches Ok(e) && final(self).moved(
                old(self),
                match old(self).at() {
                    Some(i) => if i + 1 < old(self).table().rows.len() && old(self).table().rows[i
                        + 1].0 == old(self).table().rows[i].0 {
                        i + 1
                    } else {
                        -1
                    },
                    None => 0,
                },
                e,
            ),
    {
        match self.at {
            None => Ok(self.step(0)),
            Some(i) => {
                assert(i < self.table.rows.len());
                if i + 1 < self.table.rows.len() && same_bytes(
                    self.table.rows[i + 1].0.as_slice(),
                    self.table.rows[i].0.as_slice(),
                ) {
                    Ok(self.step(i + 1))
                } else {
                    Ok(None)
                }
            },
        }
    }

    /// Duplicates: jump to the first value of the next key; an unplaced cursor goes to the first
    /// entry.
    ///
    /// # Errors
    ///
    /// None.
    pub fn next_nodup(&mut self) -> (r: Result<Option<Entry<'t>>, Error>)
        requires
            old(self).wf(),
        ensures
            r matches Ok(e) && final(self).moved(
                old(self),
                match old(self).at() {
                    Some(i) => rank_past(old(self).table().rows, old(self).table().rows[i].0)
                        as int,
                    None => 0,
                },
                e,
            ),
    {
        match self.at {
            None => Ok(self.step(0)),
            Some(i) => {
                let past = find_cut(&self.table.rows, self.table.rows[i].0.as_slice(), None, true);
                Ok(self.step(past))
            },
        }
    }

    /// Duplicates: number of values for the current key.
    ///
    /// # Errors
    ///
    /// Returns an error where the cursor is unplaced or the table keeps one value per key.
    pub fn dup_count(&mut self) -> (r: Result<u64, Error>)
        requires
            old(self).wf(),
        ensures
            *final(self) == *old(self),
            match r {
                Ok(n) => old(self).table().dup() && (old(self).at() matches Some(i) && n as int
                    == rank_past(old(self).table().rows, old(self).table().rows[i].0) - rank(
                    old(self).table().rows,
                    old(self).table().rows[i].0,
                )),
                Err(e) => (old(self).at() is None || !old(self).table().dup()) && e == Error(
                    EINVAL,
                ),
            },
    {
        match self.at {
            None => Err(Error(EINVAL)),
            Some(i) => {
                if !self.table.is_dup() {
                    return Err(Error(EINVAL));
                }
                let key = self.table.rows[i].0.as_slice();
                let lo = find_cut(&self.table.rows, key, None, false);
                let hi = find_cut(&self.table.rows, key, None, true);
                proof {
                    lemma_cut_pair(self.table@.rows, self.table@.dup(), key@, None);
                }
                Ok((hi - lo) as u64)
            },
        }
    }
}

/// Ascending inclusive-range iterator produced by [`RoTxn::range`].
pub struct RangeIter<'t> {
    table: &'t Table,
    from: usize,
    to: usize,
}

impl<'t> RangeIter<'t> {
    /// The rows still to come.
    pub closed spec fn remaining(&self) -> Seq<Row> {
        if self.from < self.to {
            self.table@.rows.subrange(self.from as int, self.to as int)
        } else {
            Seq::empty()
        }
    }

    /// The bounds lie inside the table.
    pub closed spec fn wf(&self) -> bool {
        self.to <= self.table@.rows.len()
    }

    /// The next entry in key order.
    pub fn next(&mut self) -> (r: Option<Entry<'t>>)
        requires
            old(self).wf(),
        ensures
            final(self).wf(),
            match r {
                Some((k, v)) => old(self).remaining().len() > 0 && (k@, v@) == old(
                    self,
                ).remaining()[0] && final(self).remaining() == old(self).remaining().skip(1),
                None => old(self).remaining().len() == 0 && final(self).remaining() == old(
                    self,
                ).remaining(),
            },
    {
        if self.from < self.to {
            let i = self.from;
            let ghost before = self.remaining();
            self.from = i + 1;
            assert(self.remaining() =~= before.skip(1));
            Some((self.table.rows[i].0.as_slice(), self.table.rows[i].1.as_slice()))
        } else {
            None
        }
    }
}

// ── Environments and transactions ────────────────────────────────────────────

/// Builder for [`Env`].
#[derive(Debug, Clone, Copy)]
pub struct EnvOptions {
    /// The size of the file's map in bytes; kept for the file, and no limit on the tables here.
    pub map_size: usize,
    pub max_dbs: u32,
    pub flags: EnvFlags,
}

impl Default for EnvOptions {
    fn default() -> (r: Self)
        ensures
            r.map_size == 0x4000_0000,
            r.max_dbs == 32,
            r.flags.0 == 0,
    {
        EnvOptions { map_size: 0x4000_0000, max_dbs: 32, flags: EnvFlags::empty() }
    }
}

/// The rows that result from storing `pairs` one after the other.
pub open spec fn stored(pairs: Seq<Row>, dup: bool) -> Seq<Row>
    decreases pairs.len(),
{
    if pairs.len() == 0 {
        Seq::empty()
    } else {
        put_row(stored(pairs.drop_last(), dup), dup, pairs.last().0, pairs.last().1)
    }
}

/// The tables that an environment opened over `image` has.
pub open spec fn loaded(image: Seq<Table>) -> Seq<TableView> {
    Seq::new(
        image.len(),
        |i: int| TableView { rows: stored(image[i]@.rows, image[i]@.dup()), ..image[i]@ },
    )
}

/// Loading rows that are sorted already gives these rows.
pub proof fn law_stored_sorted(rows: Seq<Row>, dup: bool)
    requires
        sorted_rows(rows, dup),
    ensures
        stored(rows, dup) == rows,
    decreases rows.len(),
{
    if rows.len() == 0 {
        assert(rows =~= Seq::empty());
    } else {
        let init = rows.drop_last();
        let last = rows.last();
        assert(sorted_rows(init, dup)) by {
            assert forall|i: int, j: int| #![trigger init[i], init[j]]
                0 <= i < j < init.len() implies crate::rows::row_lt(init[i], init[j]) && (!dup
                ==> lex_lt(init[i].0, init[j].0)) by {
                assert(init[i] == rows[i] && init[j] == rows[j]);
            }
        }
        law_stored_sorted(init, dup);
        let at = slot(dup, Some(last.1));
        let lo_cut = Cut { key: last.0, value: at, behind: false };
        let hi_cut = Cut { key: last.0, value: at, behind: true };
        lemma_cut_pair(init, dup, last.0, at);
        assert forall|i: int| 0 <= i < init.len() implies before_cut(
            #[trigger] init[i],
            lo_cut,
        ) by {
            assert(init[i] == rows[i]);
            assert(crate::rows::row_lt(rows[i], rows[rows.len() - 1]));
        }
        crate::rows::lemma_cut_unique(init, dup, lo_cut, init.len());
        assert(put_row(init, dup, last.0, last.1) =~= rows);
    }
}

/// A table built by storing `pairs` one after the other.
fn load_table(name: &str, flags: DbiFlags, pairs: &Vec<Pair>) -> (r: Table)
    ensures
        r@.wf(),
        r@ == (TableView {
            name: name@,
            flags: flags.0,
            rows: stored(rows_of(pairs@), flags.0 & MDB_DUPSORT != 0),
        }),
{
    let mut t = Table { name: name.to_owned(), flags, rows: Vec::new() };
    let ghost rows = rows_of(pairs@);
    let ghost dup = flags.0 & MDB_DUPSORT != 0;
    assert(rows_of(t.rows@) =~= Seq::empty());
    assert(rows.take(0) =~= Seq::empty());
    let mut i: usize = 0;
    while i < pairs.len()
        invariant
            i <= pairs.len(),
            rows == rows_of(pairs@),
            dup == (flags.0 & MDB_DUPSORT != 0),
            t@.wf(),
            t@ == (TableView { name: name@, flags: flags.0, rows: stored(rows.take(i as int), dup) }),
        decreases pairs.len() - i,
    {
        proof {
            assert(rows.take(i + 1).drop_last() =~= rows.take(i as int));
            assert(rows.take(i + 1).last() == rows[i as int]);
        }
        t.put(pairs[i].0.as_slice(), pairs[i].1.as_slice());
        i = i + 1;
    }
    assert(rows.take(rows.len() as int) =~= rows);
    t
}

impl EnvOptions {
    #[must_use]
    pub fn map_size(self, bytes: usize) -> (r: Self)
        ensures
            r == (EnvOptions { map_size: bytes, ..self }),
    {
        EnvOptions { map_size: bytes, max_dbs: self.max_dbs, flags: self.flags }
    }

    #[must_use]
    pub fn max_dbs(self, dbs: u32) -> (r: Self)
        ensures
            r == (EnvOptions { max_dbs: dbs, ..self }),
    {
        EnvOptions { map_size: self.map_size, max_dbs: dbs, flags: self.flags }
    }

    #[must_use]
    pub fn flags(self, flags: EnvFlags) -> (r: Self)
        ensures
            r == (EnvOptions { flags, ..self }),
    {
        EnvOptions { map_size: self.map_size, max_dbs: self.max_dbs, flags }
    }

    /// Open an environment over the tables that were stored for it.
    ///
    /// # Errors
    ///
    /// Returns an error where there are more tables than handles can name.
    pub fn open(self, image: &Vec<Table>) -> (r: Result<Env, Error>)
        ensures
            match r {
                Ok(env) => image@.len() <= u32::MAX && env.wf() && env@ == loaded(image@)
                    && env.settings() == self,
                Err(e) => image@.len() > u32::MAX && e == Error(MDB_DBS_FULL),
            },
    {
        if image.len() as u64 > u32::MAX as u64 {
            return Err(Error(MDB_DBS_FULL));
        }
        let mut tables: Vec<Table> = Vec::new();
        let mut i: usize = 0;
        while i < image.len()
            invariant
                i <= image.len(),
                tables@.len() == i,
                forall|j: int| #![trigger tables@[j]]
                    0 <= j < i ==> tables@[j]@ == loaded(image@)[j] && tables@[j]@.wf(),
            decreases image.len() - i,
        {
            let t = load_table(image[i].name.as_str(), image[i].flags, &image[i].rows);
            tables.push(t);
            i = i + 1;
        }
        let snapshot = Snapshot { tables };
        assert(snapshot@ =~= loaded(image@));
        Ok(Env { tables: Arc::new(snapshot), settings: self })
    }
}

/// One open environment.
///
/// There is one writer at a time: the write transaction borrows the environment until it is
/// committed or aborted. Readers hold on to the tables they began with.
pub struct Env {
    tables: Arc<Snapshot>,
    settings: EnvOptions,
}

impl View for Env {
    type V = Seq<TableView>;

    closed spec fn view(&self) -> Seq<TableView> {
        self.tables@
    }
}

/// No character of `name` is a NUL.
pub open spec fn nul_free(name: Seq<char>) -> bool {
    forall|i: int| 0 <= i < name.len() ==> #[trigger] name[i] != '\0'
}

fn is_nul_free(name: &str) -> (r: bool)
    ensures
        r == nul_free(name@),
{
    let chars = chars_of(name);
    let mut i: usize = 0;
    while i < chars.len()
        invariant
            i <= chars.len(),
            chars@ == name@,
            forall|j: int| 0 <= j < i ==> #[trigger] name@[j] != '\0',
        decreases chars.len() - i,
    {
        if chars[i] == '\0' {
            assert(name@[i as int] == '\0');
            return false;
        }
        i = i + 1;
    }
    true
}

impl Env {
    /// Every table is sorted.
    pub open spec fn wf(&self) -> bool {
        tables_wf(self@)
    }

    /// What the environment was opened with.
    pub closed spec fn settings(&self) -> EnvOptions {
        self.settings
    }

    /// The environment takes no writes.
    pub open spec fn read_only(&self) -> bool {
        self.settings().flags.0 & MDB_RDONLY != 0
    }

    #[must_use]
    pub fn options() -> (r: EnvOptions)
        ensures
            r.map_size == 0x4000_0000,
            r.max_dbs == 32,
            r.flags.0 == 0,
    {
        EnvOptions::default()
    }

    /// The tables as plain values, for keeping them elsewhere.
    pub fn image(&self) -> (r: Vec<Table>)
        ensures
            r@.len() == self@.len(),
            forall|i: int| 0 <= i < r@.len() ==> (#[trigger] r@[i])@ == self@[i],
    {
        let copy = self.tables.copy();
        proof {
            assert forall|i: int| 0 <= i < copy.tables@.len() implies (
            #[trigger] copy.tables@[i])@ == self@[i] by {
                assert(copy@[i] == copy.tables@[i]@);
            }
        }
        copy.tables
    }

    fn is_read_only(&self) -> (r: bool)
        ensures
            r == self.read_only(),
    {
        self.settings.flags.0 & MDB_RDONLY != 0
    }

    /// Open a named table, creating it when `flags` contains [`DbiFlags::create`].
    ///
    /// # Errors
    ///
    /// Returns an error where the environment is read-only, the name holds a NUL, the table is
    /// there with other rows than asked for, it is absent and not to be created, or there are as
    /// many tables as there may be.
    pub fn open_dbi(&mut self, name: &str, flags: DbiFlags) -> (r: Result<Dbi, Error>)
        requires
            old(self).wf(),
        ensures
            final(self).wf(),
            final(self).settings() == old(self).settings(),
            match (r, opening(old(self)@, old(self).settings(), name@, flags.0)) {
                (Ok(dbi), Ok((tables, want))) => dbi == want && final(self)@ == tables,
                (Err(e), Err(want)) => e == want && final(self)@ == old(self)@,
                _ => false,
            },
    {
        if self.is_read_only() {
            return Err(Error(EACCES));
        }
        if !is_nul_free(name) {
            return Err(Error(EINVAL));
        }
        match self.tables.find(name) {
            Some(i) => {
                let t = &self.tables.tables[i as usize];
                assert(t@ == self@[i as int]);
                if t.is_dup() == (flags.0 & MDB_DUPSORT != 0) && t.is_counted() == (flags.0
                    & MDB_COUNTED != 0) {
                    Ok(Dbi(i))
                } else {
                    Err(Error(MDB_INCOMPATIBLE))
                }
            },
            None => {
                if flags.0 & MDB_CREATE == 0 {
                    return Err(Error(MDB_NOTFOUND));
                }
                if self.tables.tables.len() as u64 >= self.settings.max_dbs as u64 {
                    return Err(Error(MDB_DBS_FULL));
                }
                let ghost before = self@;
                let mut work = self.tables.copy();
                let i = work.tables.len();
                let t = Table { name: name.to_owned(), flags, rows: Vec::new() };
                assert(rows_of(t.rows@) =~= Seq::empty());
                work.tables.push(t);
                assert(work@ =~= before.push(t@));
                self.tables = Arc::new(work);
                Ok(Dbi(i as u32))
            },
        }
    }

    /// Open an existing named table without writing, for read-only environments.
    ///
    /// # Errors
    ///
    /// Returns an error where the name holds a NUL or the table does not exist.
    pub fn open_dbi_read_only(&self, name: &str) -> (r: Result<Dbi, Error>)
        requires
            self.wf(),
        ensures
            match r {
                Ok(dbi) => nul_free(name@) && table_named(self@, name@) == Some(dbi.0 as nat),
                Err(e) => if nul_free(name@) {
                    table_named(self@, name@) is None && e == Error(MDB_NOTFOUND)
                } else {
                    e == Error(EINVAL)
                },
            },
    {
        if !is_nul_free(name) {
            return Err(Error(EINVAL));
        }
        match self.tables.find(name) {
            Some(i) => Ok(Dbi(i)),
            None => Err(Error(MDB_NOTFOUND)),
        }
    }

    /// Begin a read transaction: the tables as they are now.
    ///
    /// # Errors
    ///
    /// None.
    pub fn read_txn(&self) -> (r: Result<RoTxn, Error>)
        ensures
            r matches Ok(txn) && txn@ == self@,
    {
        Ok(RoTxn { tables: self.tables.clone() })
    }

    /// Begin the write transaction.
    ///
    /// # Errors
    ///
    /// Returns an error on a read-only environment.
    pub fn write_txn(&mut self) -> (r: Result<RwTxn<'_>, Error>)
        ensures
            match r {
                Ok(txn) => !old(self).read_only() && txn@ == old(self)@ && *txn.env == *old(self)
                    && *final(txn.env) == *final(self),
                Err(e) => old(self).read_only() && e == Error(EACCES) && *final(self) == *old(
                    self,
                ),
            },
    {
        if self.is_read_only() {
            return Err(Error(EACCES));
        }
        let work = self.tables.copy();
        Ok(RwTxn { env: self, work })
    }
}

/// Whether a table keeps its rows as `flags` ask: duplicates and counts.
pub open spec fn fits(table: TableView, flags: u32) -> bool {
    &&& table.dup() == (flags & MDB_DUPSORT != 0)
    &&& table.counted() == (flags & MDB_COUNTED != 0)
}

/// What opening a table does: gives the handle of the table with this name, which is a new
/// empty one at the end where there was none; or why it cannot.
pub open spec fn opening(
    tables: Seq<TableView>,
    settings: EnvOptions,
    name: Seq<char>,
    flags: u32,
) -> Result<(Seq<TableView>, Dbi), Error> {
    if settings.flags.0 & MDB_RDONLY != 0 {
        Err(Error(EACCES))
    } else if !nul_free(name) {
        Err(Error(EINVAL))
    } else {
        match table_named(tables, name) {
            Some(i) => if fits(tables[i as int], flags) {
                Ok((tables, Dbi(i as u32)))
            } else {
                Err(Error(MDB_INCOMPATIBLE))
            },
            None => if flags & MDB_CREATE == 0 {
                Err(Error(MDB_NOTFOUND))
            } else if tables.len() >= settings.max_dbs {
                Err(Error(MDB_DBS_FULL))
            } else {
                Ok(
                    (
                        tables.push(TableView { name, flags, rows: Seq::empty() }),
                        Dbi(tables.len() as u32),
                    ),
                )
            },
        }
    }
}

/// A found table has the name and is there.
pub proof fn lemma_table_named(tables: Seq<TableView>, name: Seq<char>)
    ensures
        table_named(tables, name) matches Some(i) ==> i < tables.len() && tables[i as int].name
            == name,
    decreases tables.len(),
{
    if tables.len() > 0 {
        lemma_table_named(tables.drop_last(), name);
    }
}

/// A read-only transaction: a consistent snapshot of the environment.
pub struct RoTxn {
    tables: Arc<Snapshot>,
}

impl View for RoTxn {
    type V = Seq<TableView>;

    closed spec fn view(&self) -> Seq<TableView> {
        self.tables@
    }
}

impl RoTxn {
    /// The tables that the transaction sees.
    pub fn snapshot(&self) -> (r: &Snapshot)
        ensures
            r@ == self@,
    {
        &self.tables
    }

    /// Look up `key`: the value of its first row.
    ///
    /// # Errors
    ///
    /// Returns an error for an unknown handle.
    pub fn get(&self, dbi: Dbi, key: &[u8]) -> (r: Result<Option<&[u8]>, Error>)
        requires
            tables_wf(self@),
        ensures
            match r {
                Ok(v) => dbi.0 < self@.len() && opt_view(v) == lookup(self@[dbi.0 as int].rows, key@),
                Err(e) => dbi.0 >= self@.len() && e == Error(EINVAL),
            },
    {
        self.tables.get(dbi, key)
    }

    /// Compare two keys as every table does.
    #[must_use]
    pub fn cmp(&self, dbi: Dbi, a: &[u8], b: &[u8]) -> (r: Ordering)
        ensures
            r == Ordering::Less <==> lex_lt(a@, b@),
            r == Ordering::Equal <==> a@ == b@,
            r == Ordering::Greater <==> lex_lt(b@, a@),
    {
        proof {
            crate::bytes::lemma_lex_total(a@, b@);
            crate::bytes::lemma_lex_irreflexive(a@);
            if lex_lt(a@, b@) {
                crate::bytes::lemma_lex_asymmetric(a@, b@);
            }
            if lex_lt(b@, a@) {
                crate::bytes::lemma_lex_asymmetric(b@, a@);
            }
        }
        match lex_compare(a, b) {
            Rank::Below => Ordering::Less,
            Rank::Same => Ordering::Equal,
            Rank::Above => Ordering::Greater,
        }
    }

    /// Open a cursor over `dbi` in this transaction.
    ///
    /// # Errors
    ///
    /// Returns an error for an unknown handle.
    pub fn cursor(&self, dbi: Dbi) -> (r: Result<Cursor<'_>, Error>)
        requires
            tables_wf(self@),
        ensures
            match r {
                Ok(c) => dbi.0 < self@.len() && c.wf() && c.table() == self@[dbi.0 as int]
                    && c.at() is None,
                Err(e) => dbi.0 >= self@.len() && e == Error(EINVAL),
            },
    {
        self.tables.cursor(dbi)
    }

    /// Ascending iterator over the entries from `low` through `high`; `None` is open.
    ///
    /// # Errors
    ///
    /// Returns an error for an unknown handle.
    pub fn range(&self, dbi: Dbi, low: Option<&[u8]>, high: Option<&[u8]>) -> (r: Result<
        RangeIter<'_>,
        Error,
    >)
        requires
            tables_wf(self@),
        ensures
            match r {
                Ok(it) => dbi.0 < self@.len() && it.wf() && it.remaining() == between(
                    self@[dbi.0 as int].rows,
                    opt_view(low),
                    opt_view(high),
                ),
                Err(e) => dbi.0 >= self@.len() && e == Error(EINVAL),
            },
    {
        self.tables.range(dbi, low, high)
    }

    /// Total entries in a counted table.
    ///
    /// # Errors
    ///
    /// Returns an error for an unknown handle or a table that is not counted.
    pub fn count_all(&self, dbi: Dbi) -> (r: Result<u64, Error>)
        ensures
            match r {
                Ok(n) => countable(self@, dbi) && n as nat == self@[dbi.0 as int].rows.len(),
                Err(e) => !countable(self@, dbi) && e == Error(EINVAL),
            },
    {
        self.tables.count_all(dbi)
    }

    /// Entries from `low` through `high` in a counted table. Open bounds count from either end.
    ///
    /// # Errors
    ///
    /// Returns an error for an unknown handle or a table that is not counted.
    pub fn count_range(&self, dbi: Dbi, low: Option<&[u8]>, high: Option<&[u8]>) -> (r: Result<
        u64,
        Error,
    >)
        requires
            tables_wf(self@),
        ensures
            match r {
                Ok(n) => countable(self@, dbi) && n as nat == rows_between(
                    self@[dbi.0 as int].rows,
                    opt_view(low),
                    opt_view(high),
                ),
                Err(e) => !countable(self@, dbi) && e == Error(EINVAL),
            },
    {
        self.tables.count_range(dbi, low, high)
    }

    /// Entries strictly below `key` in a counted table.
    ///
    /// # Errors
    ///
    /// Returns an error for an unknown handle or a table that is not counted.
    pub fn count_below(&self, dbi: Dbi, key: &[u8]) -> (r: Result<u64, Error>)
        requires
            tables_wf(self@),
        ensures
            match r {
                Ok(n) => countable(self@, dbi) && n as nat == rank(self@[dbi.0 as int].rows, key@),
                Err(e) => !countable(self@, dbi) && e == Error(EINVAL),
            },
    {
        self.tables.count_below(dbi, key)
    }

    /// The entry at `rank` (0-based, in key order) in a counted table; `None` past the end.
    ///
    /// # Errors
    ///
    /// Returns an error for an unknown handle or a table that is not counted.
    pub fn get_rank(&self, dbi: Dbi, rank: u64) -> (r: Result<Option<Entry<'_>>, Error>)
        ensures
            match r {
                Ok(e) => countable(self@, dbi) && entry_view(e) == row_at(
                    self@[dbi.0 as int].rows,
                    rank as int,
                ),
                Err(e) => !countable(self@, dbi) && e == Error(EINVAL),
            },
    {
        self.tables.get_rank(dbi, rank)
    }

    /// The rank of `key` in a counted table; `None` where the key is absent.
    ///
    /// # Errors
    ///
    /// Returns an error for an unknown handle or a table that is not counted.
    pub fn key_rank(&self, dbi: Dbi, key: &[u8]) -> (r: Result<Option<u64>, Error>)
        requires
            tables_wf(self@),
        ensures
            match r {
                Ok(n) => countable(self@, dbi) && n == (if lookup(
                    self@[dbi.0 as int].rows,
                    key@,
                ) is Some {
                    Some(rank(self@[dbi.0 as int].rows, key@) as u64)
                } else {
                    None
                }),
                Err(e) => !countable(self@, dbi) && e == Error(EINVAL),
            },
    {
        self.tables.key_rank(dbi, key)
    }
}

/// The write transaction: the environment it borrows and the tables it works on.
pub struct RwTxn<'e> {
    pub env: &'e mut Env,
    pub work: Snapshot,
}

impl<'e> View for RwTxn<'e> {
    type V = Seq<TableView>;

    open spec fn view(&self) -> Seq<TableView> {
        self.work@
    }
}

/// The tables with the rows of one of them replaced.
pub open spec fn with_rows(tables: Seq<TableView>, i: int, rows: Seq<Row>) -> Seq<TableView> {
    tables.update(i, TableView { rows, ..tables[i] })
}

impl Snapshot {
    /// Insert or replace `key` → `value`. The limit that the map's size sets is not modelled: it
    /// depends on the pages of the file, so a full map is reported where the tables are written to
    /// it, and no row is refused here.
    ///
    /// # Errors
    ///
    /// Returns an error for an unknown handle.
    pub fn put(&mut self, dbi: Dbi, key: &[u8], value: &[u8]) -> (r: Result<(), Error>)
        requires
            tables_wf(old(self)@),
        ensures
            tables_wf(final(self)@),
            match r {
                Ok(()) => dbi.0 < old(self)@.len() && final(self)@ == with_rows(
                    old(self)@,
                    dbi.0 as int,
                    put_row(
                        old(self)@[dbi.0 as int].rows,
                        old(self)@[dbi.0 as int].dup(),
                        key@,
                        value@,
                    ),
                ),
                Err(e) => dbi.0 >= old(self)@.len() && e == Error(EINVAL) && final(self)@ == old(
                    self,
                )@,
            },
    {
        let ghost before = self@;
        let i: usize = dbi.0 as usize;
        if i >= self.tables.len() {
            return Err(Error(EINVAL));
        }
        assert(before[i as int].wf());
        self.tables[i].put(key, value);
        assert(self@ =~= with_rows(
            before,
            i as int,
            put_row(before[i as int].rows, before[i as int].dup(), key@, value@),
        ));
        Ok(())
    }

    /// Delete `key` (all duplicates), or one specific pair in a table with duplicates. Returns
    /// whether anything was deleted.
    ///
    /// # Errors
    ///
    /// Returns an error for an unknown handle.
    pub fn del(&mut self, dbi: Dbi, key: &[u8], value: Option<&[u8]>) -> (r: Result<bool, Error>)
        requires
            tables_wf(old(self)@),
        ensures
            tables_wf(final(self)@),
            match r {
                Ok(gone) => dbi.0 < old(self)@.len() && final(self)@ == with_rows(
                    old(self)@,
                    dbi.0 as int,
                    del_row(
                        old(self)@[dbi.0 as int].rows,
                        old(self)@[dbi.0 as int].dup(),
                        key@,
                        opt_view(value),
                    ),
                ) && gone == (final(self)@[dbi.0 as int].rows != old(self)@[dbi.0 as int].rows),
                Err(e) => dbi.0 >= old(self)@.len() && e == Error(EINVAL) && final(self)@ == old(
                    self,
                )@,
            },
    {
        let ghost before = self@;
        let i: usize = dbi.0 as usize;
        if i >= self.tables.len() {
            return Err(Error(EINVAL));
        }
        assert(before[i as int].wf());
        let gone = self.tables[i].del(key, value);
        assert(self@ =~= with_rows(
            before,
            i as int,
            del_row(before[i as int].rows, before[i as int].dup(), key@, opt_view(value)),
        ));
        Ok(gone)
    }
}

impl<'e> RwTxn<'e> {
    /// The tables that the transaction works on.
    pub fn snapshot(&self) -> (r: &Snapshot)
        ensures
            r@ == self@,
    {
        &self.work
    }

    /// Look up `key` among the transaction's own tables.
    ///
    /// # Errors
    ///
    /// Returns an error for an unknown handle.
    pub fn get(&self, dbi: Dbi, key: &[u8]) -> (r: Result<Option<&[u8]>, Error>)
        requires
            tables_wf(self@),
        ensures
            match r {
                Ok(v) => dbi.0 < self@.len() && opt_view(v) == lookup(self@[dbi.0 as int].rows, key@),
                Err(e) => dbi.0 >= self@.len() && e == Error(EINVAL),
            },
    {
        self.work.get(dbi, key)
    }

    /// Insert or replace `key` → `value`. The limit that the map's size sets is not modelled: it
    /// depends on the pages of the file, so a full map is reported where the tables are written to
    /// it, and no row is refused here.
    ///
    /// # Errors
    ///
    /// Returns an error for an unknown handle.
    pub fn put(&mut self, dbi: Dbi, key: &[u8], value: &[u8]) -> (r: Result<(), Error>)
        requires
            tables_wf(old(self)@),
        ensures
            tables_wf(final(self)@),
            *final(self).env == *old(self).env,
            *final(final(self).env) == *final(old(self).env),
            match r {
                Ok(()) => dbi.0 < old(self)@.len() && final(self)@ == with_rows(
                    old(self)@,
                    dbi.0 as int,
                    put_row(
                        old(self)@[dbi.0 as int].rows,
                        old(self)@[dbi.0 as int].dup(),
                        key@,
                        value@,
                    ),
                ),
                Err(e) => dbi.0 >= old(self)@.len() && e == Error(EINVAL) && final(self)@ == old(
                    self,
                )@,
            },
    {
        self.work.put(dbi, key, value)
    }

    /// Delete `key` (all duplicates), or one specific pair in a table with duplicates. Returns
    /// whether anything was deleted.
    ///
    /// # Errors
    ///
    /// Returns an error for an unknown handle.
    pub fn del(&mut self, dbi: Dbi, key: &[u8], value: Option<&[u8]>) -> (r: Result<bool, Error>)
        requires
            tables_wf(old(self)@),
        ensures
            tables_wf(final(self)@),
            *final(self).env == *old(self).env,
            *final(final(self).env) == *final(old(self).env),
            match r {
                Ok(gone) => dbi.0 < old(self)@.len() && final(self)@ == with_rows(
                    old(self)@,
                    dbi.0 as int,
                    del_row(
                        old(self)@[dbi.0 as int].rows,
                        old(self)@[dbi.0 as int].dup(),
                        key@,
                        opt_view(value),
                    ),
                ) && gone == (final(self)@[dbi.0 as int].rows != old(self)@[dbi.0 as int].rows),
                Err(e) => dbi.0 >= old(self)@.len() && e == Error(EINVAL) && final(self)@ == old(
                    self,
                )@,
            },
    {
        self.work.del(dbi, key, value)
    }

    /// Commit the transaction: the environment takes its tables.
    ///
    /// # Errors
    ///
    /// None.
    pub fn commit(self) -> (r: Result<(), Error>)
        ensures
            r is Ok,
            final(self.env)@ == self@,
            final(self.env).settings() == old(self.env).settings(),
    {
        let RwTxn { env, work } = self;
        env.tables = Arc::new(work);
        Ok(())
    }

    /// Abort the transaction, discarding its writes: the environment stays as it is.
    pub fn abort(self)
        ensures
            *final(self.env) == *old(self.env),
    {
    }
}

// ── Laws ─────────────────────────────────────────────────────────────────────

/// A range scan gives exactly the rows whose key lies in the bounds, in order, and the range
/// count is how many those are.
pub proof fn law_range(
    rows: Seq<Row>,
    dup: bool,
    low: Option<Seq<u8>>,
    high: Option<Seq<u8>>,
    row: Row,
)
    requires
        sorted_rows(rows, dup),
    ensures
        sorted_rows(between(rows, low, high), dup),
        between(rows, low, high).len() == rows_between(rows, low, high),
        has_row(between(rows, low, high), row) <==> (has_row(rows, row) && (low matches Some(k)
            ==> !lex_lt(row.0, k)) && (high matches Some(k) ==> !lex_lt(k, row.0))),
{
    let part = between(rows, low, high);
    let from = match low {
        Some(k) => rank(rows, k) as int,
        None => 0,
    };
    let to = match high {
        Some(k) => rank_past(rows, k) as int,
        None => rows.len() as int,
    };
    if let Some(k) = low {
        lemma_cut(rows, dup, front(k));
    }
    if let Some(k) = high {
        lemma_cut(rows, dup, rear(k));
    }
    assert forall|i: int, j: int| #![trigger part[i], part[j]]
        0 <= i < j < part.len() implies crate::rows::row_lt(part[i], part[j]) && (!dup ==> lex_lt(
        part[i].0,
        part[j].0,
    )) by {
        assert(part[i] == rows[from + i] && part[j] == rows[from + j]);
    }
    if has_row(part, row) {
        let i = choose|i: int| 0 <= i < part.len() && #[trigger] part[i] == row;
        assert(rows[from + i] == row);
    }
    if has_row(rows, row) && (low matches Some(k) ==> !lex_lt(row.0, k)) && (high matches Some(k)
        ==> !lex_lt(k, row.0)) {
        let i = choose|i: int| 0 <= i < rows.len() && #[trigger] rows[i] == row;
        assert(from <= i < to);
        assert(part[i - from] == row);
    }
}

} // verus!
