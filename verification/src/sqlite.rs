//! The bookkeeping of the SQLite bridge: value tags, the cells a row is
//! copied into, the flags a database is opened with, and the state of
//! connections and prepared statements.
use vstd::prelude::*;
use crate::bytes::copy_bytes;
use crate::utf8::is_valid_utf8;
use vstd::utf8::valid_utf8;

verus! {

/// The SQLite result code for success.
pub const SQLITE_OK: i32 = 0;

/// The SQLite result code for a database that is busy.
pub const SQLITE_BUSY: i32 = 5;

/// The SQLite result code for a misuse of the interface.
pub const SQLITE_MISUSE: i32 = 21;

/// The SQLite result code for a row being ready.
pub const SQLITE_ROW: i32 = 100;

/// The SQLite result code for a statement that has finished.
pub const SQLITE_DONE: i32 = 101;

/// SQLite's fundamental datatype codes, as `sqlite3_column_type` gives them.
pub const SQLITE_INTEGER: i32 = 1;

pub const SQLITE_FLOAT: i32 = 2;

pub const SQLITE_TEXT: i32 = 3;

pub const SQLITE_BLOB: i32 = 4;

/// Tag describing a scalar SQLite value.
#[derive(Clone, Copy, Debug, PartialEq, Eq)]
pub enum EmacsSqliteValueTag {
    Null,
    Integer,
    Float,
    Text,
    Blob,
}

/// The tag of a column of the type SQLite reports; unknown types read as
/// `Null`.
pub open spec fn tag_for_column_type(column_type: i32) -> EmacsSqliteValueTag {
    if column_type == SQLITE_INTEGER {
        EmacsSqliteValueTag::Integer
    } else if column_type == SQLITE_FLOAT {
        EmacsSqliteValueTag::Float
    } else if column_type == SQLITE_TEXT {
        EmacsSqliteValueTag::Text
    } else if column_type == SQLITE_BLOB {
        EmacsSqliteValueTag::Blob
    } else {
        EmacsSqliteValueTag::Null
    }
}

/// The tag of a column of the type SQLite reports.
pub fn column_tag(column_type: i32) -> (r: EmacsSqliteValueTag)
    ensures
        r == tag_for_column_type(column_type),
{
    if column_type == SQLITE_INTEGER {
        EmacsSqliteValueTag::Integer
    } else if column_type == SQLITE_FLOAT {
        EmacsSqliteValueTag::Float
    } else if column_type == SQLITE_TEXT {
        EmacsSqliteValueTag::Text
    } else if column_type == SQLITE_BLOB {
        EmacsSqliteValueTag::Blob
    } else {
        EmacsSqliteValueTag::Null
    }
}

/// The value read from one column of a row; a float is held by its IEEE 754
/// bits.
pub enum ColumnValue {
    Null,
    Integer(i64),
    Float(u64),
    Text(Vec<u8>),
    Blob(Vec<u8>),
}

/// The cell a column of the current row is copied into; `float_bits` holds
/// the IEEE 754 bits of the float value.
pub struct ValueStorage {
    pub tag: EmacsSqliteValueTag,
    pub int_value: i64,
    pub float_bits: u64,
    pub bytes: Vec<u8>,
}

/// A cell as plain values.
pub struct StorageView {
    pub tag: EmacsSqliteValueTag,
    pub int_value: i64,
    pub float_bits: u64,
    pub bytes: Seq<u8>,
}

impl View for ValueStorage {
    type V = StorageView;

    open spec fn view(&self) -> StorageView {
        StorageView {
            tag: self.tag,
            int_value: self.int_value,
            float_bits: self.float_bits,
            bytes: self.bytes@,
        }
    }
}

/// The cell after a column value is stored in `old`: an integer clears the
/// float and the bytes; a float clears the bytes and keeps the integer as it
/// was; text and blobs clear both numbers; `Null` clears everything.
pub open spec fn stored(old: StorageView, value: ColumnValue) -> StorageView {
    match value {
        ColumnValue::Integer(i) => StorageView {
            tag: EmacsSqliteValueTag::Integer,
            int_value: i,
            float_bits: 0,
            bytes: Seq::empty(),
        },
        ColumnValue::Float(f) => StorageView {
            tag: EmacsSqliteValueTag::Float,
            int_value: old.int_value,
            float_bits: f,
            bytes: Seq::empty(),
        },
        ColumnValue::Text(b) => StorageView {
            tag: EmacsSqliteValueTag::Text,
            int_value: 0,
            float_bits: 0,
            bytes: b@,
        },
        ColumnValue::Blob(b) => StorageView {
            tag: EmacsSqliteValueTag::Blob,
            int_value: 0,
            float_bits: 0,
            bytes: b@,
        },
        ColumnValue::Null => StorageView {
            tag: EmacsSqliteValueTag::Null,
            int_value: 0,
            float_bits: 0,
            bytes: Seq::empty(),
        },
    }
}

impl ValueStorage {
    /// An empty cell: `Null`, both numbers zero, no bytes.
    pub fn new() -> (r: ValueStorage)
        ensures
            r@ == (StorageView {
                tag: EmacsSqliteValueTag::Null,
                int_value: 0,
                float_bits: 0,
                bytes: Seq::empty(),
            }),
    {
        ValueStorage {
            tag: EmacsSqliteValueTag::Null,
            int_value: 0,
            float_bits: 0,
            bytes: Vec::new(),
        }
    }

    /// Stores the value of a column of the current row.
    pub fn store(&mut self, value: ColumnValue)
        ensures
            final(self)@ == stored(old(self)@, value),
    {
        match value {
            ColumnValue::Integer(i) => {
                self.tag = EmacsSqliteValueTag::Integer;
                self.int_value = i;
                self.float_bits = 0;
                self.bytes.clear();
            },
            ColumnValue::Float(f) => {
                self.tag = EmacsSqliteValueTag::Float;
                self.float_bits = f;
                self.bytes.clear();
            },
            ColumnValue::Text(b) => {
                self.tag = EmacsSqliteValueTag::Text;
                self.int_value = 0;
                self.float_bits = 0;
                self.bytes = b;
            },
            ColumnValue::Blob(b) => {
                self.tag = EmacsSqliteValueTag::Blob;
                self.int_value = 0;
                self.float_bits = 0;
                self.bytes = b;
            },
            ColumnValue::Null => {
                self.tag = EmacsSqliteValueTag::Null;
                self.int_value = 0;
                self.float_bits = 0;
                self.bytes.clear();
            },
        }
    }

    /// Whether the cell's bytes are handed to C (text and blobs only).
    pub fn has_bytes(&self) -> (r: bool)
        ensures
            r == (self.tag == EmacsSqliteValueTag::Text || self.tag == EmacsSqliteValueTag::Blob),
    {
        match self.tag {
            EmacsSqliteValueTag::Text => true,
            EmacsSqliteValueTag::Blob => true,
            _ => false,
        }
    }
}

impl Default for ValueStorage {
    fn default() -> (r: ValueStorage)
        ensures
            r@ == (StorageView {
                tag: EmacsSqliteValueTag::Null,
                int_value: 0,
                float_bits: 0,
                bytes: Seq::empty(),
            }),
    {
        ValueStorage::new()
    }
}

/// The flags a database is opened with.
#[derive(Clone, Copy, Debug, PartialEq, Eq)]
pub struct SqliteOpenFlags {
    pub read_only: bool,
    pub read_write: bool,
    pub create: bool,
    pub full_mutex: bool,
    pub uri: bool,
    pub memory: bool,
}

/// Whether `s` begins with `:memory`.
pub open spec fn starts_with_memory(s: Seq<u8>) -> bool {
    s.len() >= 7 && s.take(7) == seq![
        ':' as u8,
        'm' as u8,
        'e' as u8,
        'm' as u8,
        'o' as u8,
        'r' as u8,
        'y' as u8,
    ]
}

/// The flags to open the database at `path` with: read-only, or read-write
/// and created when missing; always in serialized (full mutex) mode; with
/// URI file names unless disabled; in memory when the path is UTF-8 and
/// starts with `:memory`.
pub fn open_flags(readonly: bool, disable_uri: bool, path: &[u8]) -> (r: SqliteOpenFlags)
    ensures
        r.read_only == readonly,
        r.read_write == !readonly,
        r.create == !readonly,
        r.full_mutex,
        r.uri == !disable_uri,
        r.memory == (valid_utf8(path@) && starts_with_memory(path@)),
{
    let prefix: [u8; 7] = [
        ':' as u8,
        'm' as u8,
        'e' as u8,
        'm' as u8,
        'o' as u8,
        'r' as u8,
        'y' as u8,
    ];
    let mut memory = false;
    if is_valid_utf8(path) && path.len() >= 7 {
        let head = &path[0..7];
        assert(head@ =~= path@.take(7));
        assert(prefix@ =~= seq![
            ':' as u8,
            'm' as u8,
            'e' as u8,
            'm' as u8,
            'o' as u8,
            'r' as u8,
            'y' as u8,
        ]);
        memory = crate::bytes::bytes_equal(head, &prefix);
    }
    SqliteOpenFlags {
        read_only: readonly,
        read_write: !readonly,
        create: !readonly,
        full_mutex: true,
        uri: !disable_uri,
        memory,
    }
}

/// `SQLITE_OPEN_READONLY`.
pub const OPEN_READONLY: i32 = 0x1;

/// `SQLITE_OPEN_READWRITE`.
pub const OPEN_READWRITE: i32 = 0x2;

/// `SQLITE_OPEN_CREATE`.
pub const OPEN_CREATE: i32 = 0x4;

/// `SQLITE_OPEN_URI`.
pub const OPEN_URI: i32 = 0x40;

/// `SQLITE_OPEN_MEMORY`.
pub const OPEN_MEMORY: i32 = 0x80;

/// `SQLITE_OPEN_FULLMUTEX`.
pub const OPEN_FULLMUTEX: i32 = 0x10000;

/// The value of a flag bit that is set or not.
pub open spec fn bit_if(b: bool, v: i32) -> int {
    if b {
        v as int
    } else {
        0
    }
}

impl SqliteOpenFlags {
    /// The flags as the bit set `sqlite3_open_v2` takes.
    pub fn bits(&self) -> (r: i32)
        ensures
            r == bit_if(self.read_only, OPEN_READONLY) + bit_if(self.read_write, OPEN_READWRITE)
                + bit_if(self.create, OPEN_CREATE) + bit_if(self.uri, OPEN_URI) + bit_if(
                self.memory,
                OPEN_MEMORY,
            ) + bit_if(self.full_mutex, OPEN_FULLMUTEX),
    {
        let mut r: i32 = 0;
        if self.read_only {
            r = r + OPEN_READONLY;
        }
        if self.read_write {
            r = r + OPEN_READWRITE;
        }
        if self.create {
            r = r + OPEN_CREATE;
        }
        if self.uri {
            r = r + OPEN_URI;
        }
        if self.memory {
            r = r + OPEN_MEMORY;
        }
        if self.full_mutex {
            r = r + OPEN_FULLMUTEX;
        }
        r
    }
}

/// Why a connection cannot be closed yet.
#[derive(Clone, Copy, Debug, PartialEq, Eq)]
pub struct StatementsStillActive;

/// The bookkeeping of an open connection: how many of its prepared
/// statements are not yet finalized.
pub struct ConnectionState {
    pub statement_count: usize,
}

impl ConnectionState {
    /// A connection just opened, with no statement.
    pub fn new() -> (r: ConnectionState)
        ensures
            r.statement_count == 0,
    {
        ConnectionState { statement_count: 0 }
    }

    /// A connection can be closed only when all its statements are
    /// finalized; otherwise SQLite reports it busy.
    pub fn check_close(&self) -> (r: Result<(), StatementsStillActive>)
        ensures
            r is Ok <==> self.statement_count == 0,
    {
        if self.statement_count > 0 {
            Err(StatementsStillActive)
        } else {
            Ok(())
        }
    }

    /// Counts a statement prepared on this connection.
    pub fn statement_prepared(&mut self)
        requires
            old(self).statement_count < usize::MAX,
        ensures
            final(self).statement_count == count_after_prepare(old(self).statement_count),
    {
        self.statement_count = self.statement_count + 1;
    }

    /// Counts a statement finalized; the count does not go below zero.
    pub fn statement_finalized(&mut self)
        ensures
            final(self).statement_count == count_after_finalize(old(self).statement_count),
    {
        self.statement_count = self.statement_count.saturating_sub(1);
    }
}

/// The count of active statements after one more is prepared.
pub open spec fn count_after_prepare(count: usize) -> int {
    count + 1
}

/// The count of active statements after one is finalized; it does not go
/// below zero.
pub open spec fn count_after_finalize(count: usize) -> int {
    if count > 0 {
        count - 1
    } else {
        0
    }
}

/// Preparing a statement and then finalizing it leaves the count of active
/// statements as it was.
pub proof fn lemma_prepare_finalize_restores(count: usize)
    requires
        count < usize::MAX,
    ensures
        count_after_finalize(count_after_prepare(count) as usize) == count,
{
}

/// What one step of a statement gave.
#[derive(Clone, Copy, Debug, PartialEq, Eq)]
pub enum StepOutcome {
    /// A row is ready, with this many values.
    Row { count: usize },
    /// The statement has finished; no values.
    Done,
    /// SQLite reported this error code.
    Failed { code: i32 },
}

/// The bookkeeping of a prepared statement: how many columns its rows have,
/// and whether its last step finished it.
pub struct StatementState {
    pub column_count: usize,
    pub done: bool,
}

impl StatementState {
    /// A statement just prepared, not yet stepped.
    pub fn new(column_count: usize) -> (r: StatementState)
        ensures
            r.column_count == column_count,
            !r.done,
    {
        StatementState { column_count, done: false }
    }

    /// A step needs room for every column of a row; otherwise it is a misuse.
    pub fn has_room(&self, capacity: usize) -> (r: bool)
        ensures
            r == (capacity >= self.column_count),
    {
        capacity >= self.column_count
    }

    /// Records the result code of a step: a row keeps the statement going
    /// and hands out one value per column, the end finishes it, and an error
    /// leaves it as it was.
    pub fn after_step(&mut self, code: i32) -> (r: StepOutcome)
        ensures
            code == SQLITE_ROW ==> r == (StepOutcome::Row { count: old(self).column_count })
                && !final(self).done,
            code == SQLITE_DONE ==> r == StepOutcome::Done && final(self).done,
            code != SQLITE_ROW && code != SQLITE_DONE ==> r == (StepOutcome::Failed { code })
                && final(self).done == old(self).done,
            final(self).column_count == old(self).column_count,
    {
        if code == SQLITE_ROW {
            self.done = false;
            StepOutcome::Row { count: self.column_count }
        } else if code == SQLITE_DONE {
            self.done = true;
            StepOutcome::Done
        } else {
            StepOutcome::Failed { code }
        }
    }

    /// Whether more rows may follow: the last step did not finish the
    /// statement.
    pub fn more(&self) -> (r: bool)
        ensures
            r == !self.done,
    {
        !self.done
    }
}

/// How many column names fit in a buffer of `capacity` entries.
pub fn columns_to_copy(names: usize, capacity: usize) -> (r: usize)
    ensures
        r == if names < capacity {
            names
        } else {
            capacity
        },
{
    if names < capacity {
        names
    } else {
        capacity
    }
}

/// What happened in the course of running a statement to its end.
#[derive(Clone, Copy, Debug, PartialEq, Eq)]
pub enum ExecEvent {
    /// `sqlite3_prepare_v2` returned this code.
    Prepared { code: i32 },
    /// Binding the parameters returned this code.
    Bound { code: i32 },
    /// `sqlite3_step` returned this code.
    Stepped { code: i32 },
    /// `sqlite3_finalize` returned this code.
    Finalized { code: i32 },
}

/// What to do next while running a statement to its end.
#[derive(Clone, Copy, Debug, PartialEq, Eq)]
pub enum ExecAction {
    /// Bind the parameters.
    BindValues,
    /// Step the statement again.
    Step,
    /// Finalize the statement; it ran to its end.
    Finalize,
    /// Finalize the statement and report this error.
    FinalizeAndFail { code: i32 },
    /// Report this error; there is no statement to finalize.
    Fail { code: i32 },
    /// Report success with the count of changed rows.
    Succeed,
}

/// The next action of `sqlite-execute` after `event`: a failed prepare is
/// reported as it is; a prepared statement has its parameters bound when
/// there are any, then is stepped until it stops giving rows; binding and
/// stepping errors are reported after the statement is finalized; a finalize
/// error is reported; otherwise the run succeeds.
pub fn execute_next(event: ExecEvent, has_values: bool) -> (r: ExecAction)
    ensures
        match event {
            ExecEvent::Prepared { code } => if code != SQLITE_OK {
                r == (ExecAction::Fail { code })
            } else if has_values {
                r == ExecAction::BindValues
            } else {
                r == ExecAction::Step
            },
            ExecEvent::Bound { code } => if code != SQLITE_OK {
                r == (ExecAction::FinalizeAndFail { code })
            } else {
                r == ExecAction::Step
            },
            ExecEvent::Stepped { code } => if code == SQLITE_ROW {
                r == ExecAction::Step
            } else if code == SQLITE_DONE {
                r == ExecAction::Finalize
            } else {
                r == (ExecAction::FinalizeAndFail { code })
            },
            ExecEvent::Finalized { code } => if code != SQLITE_OK {
                r == (ExecAction::Fail { code })
            } else {
                r == ExecAction::Succeed
            },
        },
{
    match event {
        ExecEvent::Prepared { code } => {
            if code != SQLITE_OK {
                ExecAction::Fail { code }
            } else if has_values {
                ExecAction::BindValues
            } else {
                ExecAction::Step
            }
        },
        ExecEvent::Bound { code } => {
            if code != SQLITE_OK {
                ExecAction::FinalizeAndFail { code }
            } else {
                ExecAction::Step
            }
        },
        ExecEvent::Stepped { code } => {
            if code == SQLITE_ROW {
                ExecAction::Step
            } else if code == SQLITE_DONE {
                ExecAction::Finalize
            } else {
                ExecAction::FinalizeAndFail { code }
            }
        },
        ExecEvent::Finalized { code } => {
            if code != SQLITE_OK {
                ExecAction::Fail { code }
            } else {
                ExecAction::Succeed
            }
        },
    }
}

/// What happened in the course of preparing a statement for later steps.
#[derive(Clone, Copy, Debug, PartialEq, Eq)]
pub enum PrepareEvent {
    /// `sqlite3_prepare_v2` returned this code.
    Compiled { code: i32 },
    /// Binding the parameters returned this code.
    Bound { code: i32 },
}

/// What to do next while preparing a statement.
#[derive(Clone, Copy, Debug, PartialEq, Eq)]
pub enum PrepareAction {
    /// Bind the parameters.
    BindValues,
    /// Count the statement on its connection and hand out its handle.
    Register,
    /// Finalize the statement, uncounted, and report this error.
    FinalizeAndFail { code: i32 },
    /// Report this error; there is no statement to finalize.
    Fail { code: i32 },
}

/// The next action of `sqlite-prepare` after `event`: a failed compile is
/// reported as it is; a compiled statement has its parameters bound when there
/// are any; a binding error is reported after the statement is finalized; a
/// statement is counted on its connection only once it compiled and, when
/// there are parameters, they were bound.
pub fn prepare_next(event: PrepareEvent, has_values: bool) -> (r: PrepareAction)
    ensures
        match event {
            PrepareEvent::Compiled { code } => if code != SQLITE_OK {
                r == (PrepareAction::Fail { code })
            } else if has_values {
                r == PrepareAction::BindValues
            } else {
                r == PrepareAction::Register
            },
            PrepareEvent::Bound { code } => if code != SQLITE_OK {
                r == (PrepareAction::FinalizeAndFail { code })
            } else {
                r == PrepareAction::Register
            },
        },
        r == PrepareAction::Register ==> match event {
            PrepareEvent::Compiled { code } => code == SQLITE_OK && !has_values,
            PrepareEvent::Bound { code } => code == SQLITE_OK,
        },
{
    match event {
        PrepareEvent::Compiled { code } => {
            if code != SQLITE_OK {
                PrepareAction::Fail { code }
            } else if has_values {
                PrepareAction::BindValues
            } else {
                PrepareAction::Register
            }
        },
        PrepareEvent::Bound { code } => {
            if code != SQLITE_OK {
                PrepareAction::FinalizeAndFail { code }
            } else {
                PrepareAction::Register
            }
        },
    }
}

} // verus!
