use emacs_rust::sqlite::{prepare_next, PrepareAction, PrepareEvent};
use emacs_rust::sqlite::{
    column_tag, columns_to_copy, open_flags, ColumnValue, ConnectionState, EmacsSqliteValueTag,
    StatementState, StatementsStillActive, StepOutcome, ValueStorage, SQLITE_DONE, SQLITE_ROW,
};

#[test]
fn column_tags() {
    assert_eq!(column_tag(1), EmacsSqliteValueTag::Integer);
    assert_eq!(column_tag(2), EmacsSqliteValueTag::Float);
    assert_eq!(column_tag(3), EmacsSqliteValueTag::Text);
    assert_eq!(column_tag(4), EmacsSqliteValueTag::Blob);
    assert_eq!(column_tag(5), EmacsSqliteValueTag::Null);
    assert_eq!(column_tag(42), EmacsSqliteValueTag::Null);
}

#[test]
fn storage_updates() {
    let mut cell = ValueStorage::default();
    assert_eq!(cell.tag, EmacsSqliteValueTag::Null);
    assert!(!cell.has_bytes());
    cell.store(ColumnValue::Integer(7));
    assert_eq!((cell.tag, cell.int_value, cell.float_bits), (EmacsSqliteValueTag::Integer, 7, 0));
    cell.store(ColumnValue::Float(1.5f64.to_bits()));
    assert_eq!(cell.tag, EmacsSqliteValueTag::Float);
    assert_eq!(cell.int_value, 7);
    assert_eq!(f64::from_bits(cell.float_bits), 1.5);
    cell.store(ColumnValue::Text(b"hi".to_vec()));
    assert_eq!((cell.int_value, cell.float_bits), (0, 0));
    assert_eq!(cell.bytes, b"hi".to_vec());
    assert!(cell.has_bytes());
    cell.store(ColumnValue::Blob(vec![0, 1]));
    assert_eq!(cell.tag, EmacsSqliteValueTag::Blob);
    assert_eq!(cell.bytes, vec![0, 1]);
    cell.store(ColumnValue::Null);
    assert_eq!(cell.tag, EmacsSqliteValueTag::Null);
    assert!(cell.bytes.is_empty());
}

#[test]
fn open_flag_choices() {
    let f = open_flags(true, true, b"/tmp/db");
    assert!(f.read_only && !f.read_write && !f.create && f.full_mutex && !f.uri && !f.memory);
    assert_eq!(f.bits(), 0x1 | 0x10000);
    let f = open_flags(false, false, b":memory:");
    assert!(!f.read_only && f.read_write && f.create && f.uri && f.memory);
    assert_eq!(f.bits(), 0x2 | 0x4 | 0x40 | 0x80 | 0x10000);
    assert!(open_flags(false, false, b":memory1").memory);
    assert!(!open_flags(false, false, b":memor").memory);
    assert!(!open_flags(false, false, b":memory\xff").memory);
}

#[test]
fn connection_bookkeeping() {
    let mut conn = ConnectionState::new();
    assert_eq!(conn.check_close(), Ok(()));
    conn.statement_prepared();
    assert_eq!(conn.check_close(), Err(StatementsStillActive));
    conn.statement_finalized();
    assert_eq!(conn.check_close(), Ok(()));
    conn.statement_finalized();
    assert_eq!(conn.statement_count, 0);
}

#[test]
fn statement_steps() {
    let mut st = StatementState::new(3);
    assert!(st.more());
    assert!(!st.has_room(2));
    assert!(st.has_room(3));
    assert_eq!(st.after_step(SQLITE_ROW), StepOutcome::Row { count: 3 });
    assert!(st.more());
    assert_eq!(st.after_step(SQLITE_DONE), StepOutcome::Done);
    assert!(!st.more());
    assert_eq!(st.after_step(1), StepOutcome::Failed { code: 1 });
    assert!(!st.more());
    assert_eq!(columns_to_copy(3, 10), 3);
    assert_eq!(columns_to_copy(3, 2), 2);
}

#[test]
fn prepare_counts_only_statements_that_are_ready() {
    assert_eq!(prepare_next(PrepareEvent::Compiled { code: 1 }, true), PrepareAction::Fail { code: 1 });
    assert_eq!(prepare_next(PrepareEvent::Compiled { code: 0 }, true), PrepareAction::BindValues);
    assert_eq!(prepare_next(PrepareEvent::Compiled { code: 0 }, false), PrepareAction::Register);
    assert_eq!(prepare_next(PrepareEvent::Bound { code: 25 }, true), PrepareAction::FinalizeAndFail { code: 25 });
    assert_eq!(prepare_next(PrepareEvent::Bound { code: 0 }, true), PrepareAction::Register);
}
