use resp_kv::resp::command::{Command, CommandError};
use resp_kv::resp::value::RespValue;
use resp_kv::session::{dispatch, error_reply, execute, syntax_error_reply, Session, Step};
use resp_kv::store::Store;

const SET_FOO_BAR: &[u8] = b"*3\r\n$3\r\nSET\r\n$3\r\nfoo\r\n$3\r\nbar\r\n";
const GET_FOO: &[u8] = b"*2\r\n$3\r\nGET\r\n$3\r\nfoo\r\n";
const DEL_FOO: &[u8] = b"*2\r\n$3\r\nDEL\r\n$3\r\nfoo\r\n";

fn reply(session: &mut Session, store: &mut Store, bytes: &[u8]) -> Vec<Vec<u8>> {
    session.receive(store, bytes)
}

#[test]
fn set_then_get_end_to_end() {
    let mut store = Store::new();
    let mut session = Session::new();
    assert_eq!(
        reply(&mut session, &mut store, SET_FOO_BAR),
        vec![b"+OK\r\n".to_vec()]
    );
    assert_eq!(
        reply(&mut session, &mut store, GET_FOO),
        vec![b"$3\r\nbar\r\n".to_vec()]
    );
    assert!(!session.is_closed());
    assert_eq!(session.pending_len(), 0);
    assert_eq!(session.consumed_len(), 0);
}

#[test]
fn get_on_absent_key_is_null() {
    let mut store = Store::new();
    let mut session = Session::new();
    assert_eq!(
        reply(&mut session, &mut store, GET_FOO),
        vec![b"$-1\r\n".to_vec()]
    );
}

#[test]
fn del_end_to_end() {
    let mut store = Store::new();
    let mut session = Session::new();
    assert_eq!(
        reply(&mut session, &mut store, DEL_FOO),
        vec![b":0\r\n".to_vec()]
    );
    reply(&mut session, &mut store, SET_FOO_BAR);
    assert_eq!(
        reply(&mut session, &mut store, DEL_FOO),
        vec![b":1\r\n".to_vec()]
    );
    assert_eq!(
        reply(&mut session, &mut store, GET_FOO),
        vec![b"$-1\r\n".to_vec()]
    );
}

#[test]
fn malformed_frame_is_answered_and_closes() {
    let mut store = Store::new();
    let mut session = Session::new();
    let replies = reply(&mut session, &mut store, b"$3\r\nab\r\n");
    assert_eq!(replies, vec![b"-ERR protocol error\r\n".to_vec()]);
    assert!(session.is_closed());
    assert_eq!(session.pending_len(), 0);
}

#[test]
fn closed_session_ignores_input() {
    let mut store = Store::new();
    let mut session = Session::new();
    reply(&mut session, &mut store, b"?");
    assert!(session.is_closed());
    assert_eq!(reply(&mut session, &mut store, SET_FOO_BAR), Vec::<Vec<u8>>::new());
    assert_eq!(store.get(b"foo"), None);
    session.feed(GET_FOO);
    assert_eq!(session.pending_len(), 0);
    assert_eq!(session.step(&mut store), Step::NeedData);
    assert!(session.is_closed());
}

#[test]
fn commands_before_a_malformed_frame_are_answered() {
    let mut store = Store::new();
    let mut session = Session::new();
    let mut input = SET_FOO_BAR.to_vec();
    input.extend_from_slice(b"!oops\r\n");
    input.extend_from_slice(GET_FOO);
    let replies = reply(&mut session, &mut store, &input);
    assert_eq!(
        replies,
        vec![b"+OK\r\n".to_vec(), b"-ERR protocol error\r\n".to_vec()]
    );
    assert!(session.is_closed());
    assert_eq!(store.get(b"foo"), Some(&b"bar".to_vec()));
}

#[test]
fn two_pipelined_commands_in_one_read() {
    let mut store = Store::new();
    store.set(b"a".to_vec(), b"1".to_vec());
    let mut session = Session::new();
    let replies = reply(
        &mut session,
        &mut store,
        b"*2\r\n$3\r\nGET\r\n$1\r\na\r\n*2\r\n$3\r\nGET\r\n$1\r\nb\r\n",
    );
    assert_eq!(replies, vec![b"$1\r\n1\r\n".to_vec(), b"$-1\r\n".to_vec()]);
}

fn stream() -> Vec<u8> {
    let mut input = Vec::new();
    input.extend_from_slice(SET_FOO_BAR);
    input.extend_from_slice(GET_FOO);
    input.extend_from_slice(b"*1\r\n$4\r\nPING\r\n");
    input.extend_from_slice(b"*2\r\n$3\r\nSET\r\n$1\r\nk\r\n");
    input.extend_from_slice(DEL_FOO);
    input.extend_from_slice(DEL_FOO);
    input.extend_from_slice(b":5\r\n");
    input.extend_from_slice(b"*3\r\n$3\r\nSET\r\n$2\r\n\r\n\r\n$0\r\n\r\n");
    input.extend_from_slice(b"*2\r\n$3\r\nGET\r\n$2\r\n\r\n\r\n");
    input
}

fn expected_replies() -> Vec<Vec<u8>> {
    vec![
        b"+OK\r\n".to_vec(),
        b"$3\r\nbar\r\n".to_vec(),
        b"-ERR unknown command\r\n".to_vec(),
        b"-ERR wrong number of arguments\r\n".to_vec(),
        b":1\r\n".to_vec(),
        b":0\r\n".to_vec(),
        b"-ERR unknown command\r\n".to_vec(),
        b"+OK\r\n".to_vec(),
        b"$0\r\n\r\n".to_vec(),
    ]
}

fn run_in_chunks(input: &[u8], size: usize) -> (Vec<Vec<u8>>, bool, usize) {
    let mut store = Store::new();
    let mut session = Session::new();
    let mut replies = Vec::new();
    for chunk in input.chunks(size) {
        replies.extend(session.receive(&mut store, chunk));
    }
    (replies, session.is_closed(), session.pending_len())
}

#[test]
fn one_reply_per_command_in_order() {
    let input = stream();
    let (replies, closed, pending) = run_in_chunks(&input, input.len());
    assert_eq!(replies, expected_replies());
    assert!(!closed);
    assert_eq!(pending, 0);
}

#[test]
fn replies_do_not_depend_on_how_reads_are_cut() {
    let input = stream();
    for size in [1usize, 2, 3, 5, 7, 16, 64, 1000] {
        let (replies, closed, pending) = run_in_chunks(&input, size);
        assert_eq!(replies, expected_replies());
        assert!(!closed);
        assert_eq!(pending, 0);
    }
}

#[test]
fn malformed_stream_ends_alike_however_it_is_cut() {
    let mut input = stream();
    input.extend_from_slice(b"$3\r\nab\r\n");
    input.extend_from_slice(GET_FOO);
    let mut expected = expected_replies();
    expected.push(b"-ERR protocol error\r\n".to_vec());
    for size in [1usize, 4, 9, 1000] {
        let (replies, closed, pending) = run_in_chunks(&input, size);
        assert_eq!(replies, expected);
        assert!(closed);
        assert_eq!(pending, 0);
    }
}

#[test]
fn unfinished_command_stays_pending() {
    let mut store = Store::new();
    let mut session = Session::new();
    assert_eq!(
        reply(&mut session, &mut store, &SET_FOO_BAR[..10]),
        Vec::<Vec<u8>>::new()
    );
    assert_eq!(session.pending_len(), 10);
    assert!(!session.is_closed());
    assert_eq!(store.get(b"foo"), None);
    assert_eq!(
        reply(&mut session, &mut store, &SET_FOO_BAR[10..]),
        vec![b"+OK\r\n".to_vec()]
    );
    assert_eq!(session.pending_len(), 0);
}

#[test]
fn step_by_step() {
    let mut store = Store::new();
    let mut session = Session::new();
    assert_eq!(session.step(&mut store), Step::NeedData);
    session.feed(SET_FOO_BAR);
    session.feed(&GET_FOO[..5]);
    assert_eq!(session.pending_len(), SET_FOO_BAR.len() + 5);
    assert_eq!(session.step(&mut store), Step::Reply(b"+OK\r\n".to_vec()));
    assert_eq!(session.pending_len(), 5);
    assert_eq!(session.step(&mut store), Step::NeedData);
    assert_eq!(session.consumed_len(), SET_FOO_BAR.len());
    session.compact();
    assert_eq!(session.consumed_len(), 0);
    assert_eq!(session.pending_len(), 5);
    session.feed(&GET_FOO[5..]);
    assert_eq!(session.step(&mut store), Step::Reply(b"$3\r\nbar\r\n".to_vec()));
    assert_eq!(session.consumed_len(), GET_FOO.len());
    session.feed(b"x");
    assert_eq!(
        session.step(&mut store),
        Step::Close(b"-ERR protocol error\r\n".to_vec())
    );
    assert!(session.is_closed());
}

#[test]
fn command_errors_keep_the_session_open() {
    let mut store = Store::new();
    let mut session = Session::new();
    assert_eq!(
        reply(&mut session, &mut store, b"*1\r\n$3\r\nFOO\r\n"),
        vec![b"-ERR unknown command\r\n".to_vec()]
    );
    assert_eq!(
        reply(&mut session, &mut store, b"*2\r\n$3\r\nGET\r\n$-1\r\n"),
        vec![b"-ERR wrong number of arguments\r\n".to_vec()]
    );
    assert_eq!(
        reply(&mut session, &mut store, b"+PING\r\n"),
        vec![b"-ERR unknown command\r\n".to_vec()]
    );
    assert!(!session.is_closed());
    assert_eq!(
        reply(&mut session, &mut store, SET_FOO_BAR),
        vec![b"+OK\r\n".to_vec()]
    );
}

#[test]
fn deeply_nested_input_is_malformed() {
    let mut store = Store::new();
    let mut session = Session::new();
    let mut input = Vec::new();
    for _ in 0..40 {
        input.extend_from_slice(b"*1\r\n");
    }
    let replies = reply(&mut session, &mut store, &input);
    assert_eq!(replies, vec![b"-ERR protocol error\r\n".to_vec()]);
    assert!(session.is_closed());
}

#[test]
fn execute_builds_the_reply() {
    let mut store = Store::new();
    let set = Command::SetKey {
        key: b"k".to_vec(),
        value: b"v".to_vec(),
    };
    assert_eq!(
        execute(&mut store, set),
        RespValue::SimpleString("OK".to_string())
    );
    assert_eq!(
        execute(&mut store, Command::Get { key: b"k".to_vec() }),
        RespValue::BulkString(Some(b"v".to_vec()))
    );
    assert_eq!(
        execute(&mut store, Command::Get { key: b"x".to_vec() }),
        RespValue::BulkString(None)
    );
    assert_eq!(
        execute(&mut store, Command::Del { key: b"k".to_vec() }),
        RespValue::Integer(1)
    );
    assert_eq!(
        execute(&mut store, Command::Del { key: b"k".to_vec() }),
        RespValue::Integer(0)
    );
}

#[test]
fn error_replies_are_fixed() {
    assert_eq!(
        error_reply(CommandError::UnknownCommand),
        RespValue::Error("ERR unknown command".to_string())
    );
    assert_eq!(
        error_reply(CommandError::MissingArguments),
        RespValue::Error("ERR wrong number of arguments".to_string())
    );
    assert_eq!(
        syntax_error_reply(),
        RespValue::Error("ERR protocol error".to_string())
    );
}

#[test]
fn dispatch_answers_any_value() {
    let mut store = Store::new();
    let set = RespValue::Array(Some(vec![
        RespValue::BulkString(Some(b"SET".to_vec())),
        RespValue::BulkString(Some(b"k".to_vec())),
        RespValue::BulkString(Some(b"v".to_vec())),
    ]));
    assert_eq!(
        dispatch(&mut store, &set),
        RespValue::SimpleString("OK".to_string())
    );
    assert_eq!(store.get(b"k"), Some(&b"v".to_vec()));
    assert_eq!(
        dispatch(&mut store, &RespValue::Integer(1)),
        RespValue::Error("ERR unknown command".to_string())
    );
}
