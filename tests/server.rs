use kvserver::acl::AclCategory;
use kvserver::controller::Controller;
use kvserver::parser::{remove_non_command_values, FrameError, ParseError, ParsedValue, Parser};
use kvserver::reply::OutputValue;

fn run(server: &mut Controller, con: &kvserver::connection::ConnectionId, input: &[u8]) -> Vec<u8> {
    let mut parser = Parser::new();
    parser.extend(input);
    server.handle_batch(&mut parser, con).concat()
}

fn fresh() -> (Controller, kvserver::connection::ConnectionId) {
    let mut server = Controller::new(16);
    let con = server.connect(b"127.0.0.1:50000".to_vec());
    (server, con)
}

#[test]
fn scenario_ping() {
    let (mut server, con) = fresh();
    assert_eq!(run(&mut server, &con, b"*1\r\n$4\r\nPING\r\n"), b"+PONG\r\n".to_vec());
}

#[test]
fn scenario_ping_with_message() {
    let (mut server, con) = fresh();
    assert_eq!(
        run(&mut server, &con, b"*2\r\n$4\r\nPING\r\n$5\r\nhello\r\n"),
        b"$5\r\nhello\r\n".to_vec()
    );
}

#[test]
fn scenario_set_then_get() {
    let (mut server, con) = fresh();
    assert_eq!(
        run(
            &mut server,
            &con,
            b"*3\r\n$3\r\nSET\r\n$3\r\nfoo\r\n$3\r\nbar\r\n*2\r\n$3\r\nGET\r\n$3\r\nfoo\r\n"
        ),
        b"+OK\r\n$3\r\nbar\r\n".to_vec()
    );
}

#[test]
fn scenario_incr_then_overflow() {
    let (mut server, con) = fresh();
    assert_eq!(
        run(
            &mut server,
            &con,
            b"*2\r\n$4\r\nINCR\r\n$1\r\nk\r\n*3\r\n$6\r\nINCRBY\r\n$1\r\nk\r\n$19\r\n9223372036854775807\r\n"
        ),
        b":1\r\n-ERR integer overflow\r\n".to_vec()
    );
}

#[test]
fn scenario_incrby_to_max_is_fine() {
    let (mut server, con) = fresh();
    assert_eq!(
        run(
            &mut server,
            &con,
            b"*2\r\n$4\r\nINCR\r\n$1\r\nk\r\n*3\r\n$6\r\nINCRBY\r\n$1\r\nk\r\n$19\r\n9223372036854775806\r\n"
        ),
        b":1\r\n:9223372036854775807\r\n".to_vec()
    );
}

#[test]
fn scenario_select_out_of_range() {
    let (mut server, con) = fresh();
    assert_eq!(
        run(&mut server, &con, b"*2\r\n$6\r\nSELECT\r\n$2\r\n99\r\n"),
        b"-ERR DB index is out of range\r\n".to_vec()
    );
}

#[test]
fn scenario_unknown_command() {
    let (mut server, con) = fresh();
    assert_eq!(
        run(&mut server, &con, b"*1\r\n$7\r\nnosuchx\r\n"),
        b"-ERR unknown command 'nosuchx'\r\n".to_vec()
    );
}

#[test]
fn scenario_keys_pattern() {
    let (mut server, con) = fresh();
    run(&mut server, &con, b"*3\r\n$3\r\nSET\r\n$1\r\na\r\n$1\r\n1\r\n");
    run(&mut server, &con, b"*3\r\n$3\r\nSET\r\n$2\r\nab\r\n$1\r\n2\r\n");
    run(&mut server, &con, b"*3\r\n$3\r\nSET\r\n$1\r\nb\r\n$1\r\n3\r\n");
    let out = run(&mut server, &con, b"*2\r\n$4\r\nKEYS\r\n$2\r\na*\r\n");
    let one = b"*2\r\n$1\r\na\r\n$2\r\nab\r\n".to_vec();
    let other = b"*2\r\n$2\r\nab\r\n$1\r\na\r\n".to_vec();
    assert!(out == one || out == other);
}

#[test]
fn arity_errors() {
    let (mut server, con) = fresh();
    assert_eq!(
        run(&mut server, &con, b"*1\r\n$3\r\nGET\r\n"),
        b"-ERR wrong number of arguments for 'get'\r\n".to_vec()
    );
    assert_eq!(
        run(&mut server, &con, b"*2\r\n$6\r\nCLIENT\r\n$2\r\nID\r\n*3\r\n$6\r\nCLIENT\r\n$2\r\nid\r\n$1\r\nx\r\n"),
        b":0\r\n-ERR wrong number of arguments for 'client id'\r\n".to_vec()
    );
    assert_eq!(
        run(&mut server, &con, b"*1\r\n$3\r\nACL\r\n"),
        b"-ERR wrong number of arguments for 'acl'\r\n".to_vec()
    );
    assert_eq!(
        run(&mut server, &con, b"*2\r\n$6\r\nCLIENT\r\n$4\r\nnope\r\n"),
        b"-ERR unknown subcommand for 'client'\r\n".to_vec()
    );
    assert_eq!(
        run(&mut server, &con, b"*3\r\n$4\r\nMSET\r\n$1\r\na\r\n$1\r\nb\r\n*4\r\n$4\r\nMSET\r\n$1\r\na\r\n$1\r\nb\r\n$1\r\nc\r\n"),
        b"+OK\r\n-ERR wrong number of arguments for 'mset'\r\n".to_vec()
    );
}

#[test]
fn select_and_swapdb_twice() {
    let (mut server, con) = fresh();
    run(&mut server, &con, b"*3\r\n$3\r\nSET\r\n$1\r\nk\r\n$2\r\nv0\r\n");
    assert_eq!(run(&mut server, &con, b"*3\r\n$6\r\nSWAPDB\r\n$1\r\n0\r\n$1\r\n1\r\n"), b"+OK\r\n".to_vec());
    assert_eq!(run(&mut server, &con, b"*2\r\n$3\r\nGET\r\n$1\r\nk\r\n"), b"$-1\r\n".to_vec());
    assert_eq!(run(&mut server, &con, b"*2\r\n$6\r\nSELECT\r\n$1\r\n1\r\n"), b"+OK\r\n".to_vec());
    assert_eq!(run(&mut server, &con, b"*2\r\n$3\r\nGET\r\n$1\r\nk\r\n"), b"$2\r\nv0\r\n".to_vec());
    assert_eq!(run(&mut server, &con, b"*3\r\n$6\r\nSWAPDB\r\n$1\r\n0\r\n$1\r\n1\r\n"), b"+OK\r\n".to_vec());
    assert_eq!(run(&mut server, &con, b"*2\r\n$3\r\nGET\r\n$1\r\nk\r\n"), b"$-1\r\n".to_vec());
    assert_eq!(
        run(&mut server, &con, b"*3\r\n$6\r\nSWAPDB\r\n$2\r\n16\r\n$1\r\n1\r\n"),
        b"-ERR first DB index is out of range\r\n".to_vec()
    );
    assert_eq!(
        run(&mut server, &con, b"*3\r\n$6\r\nSWAPDB\r\n$1\r\n0\r\n$2\r\n99\r\n"),
        b"-ERR second DB index is out of range\r\n".to_vec()
    );
    assert_eq!(
        run(&mut server, &con, b"*3\r\n$6\r\nSWAPDB\r\n$1\r\nx\r\n$1\r\n1\r\n"),
        b"-ERR invalid first DB index\r\n".to_vec()
    );
    assert_eq!(
        run(&mut server, &con, b"*2\r\n$6\r\nSELECT\r\n$2\r\n-1\r\n"),
        b"-ERR invalid argument for 'select'\r\n".to_vec()
    );
}

#[test]
fn flushall_empties_every_database() {
    let (mut server, con) = fresh();
    run(&mut server, &con, b"*3\r\n$3\r\nSET\r\n$1\r\nk\r\n$1\r\nv\r\n");
    run(&mut server, &con, b"*2\r\n$6\r\nSELECT\r\n$1\r\n3\r\n");
    run(&mut server, &con, b"*3\r\n$3\r\nSET\r\n$1\r\nk\r\n$1\r\nv\r\n");
    assert_eq!(run(&mut server, &con, b"*1\r\n$8\r\nFLUSHALL\r\n"), b"+OK\r\n".to_vec());
    assert_eq!(run(&mut server, &con, b"*1\r\n$6\r\nDBSIZE\r\n"), b":0\r\n".to_vec());
    run(&mut server, &con, b"*2\r\n$6\r\nSELECT\r\n$1\r\n0\r\n");
    assert_eq!(run(&mut server, &con, b"*1\r\n$6\r\nDBSIZE\r\n"), b":0\r\n".to_vec());
}

#[test]
fn client_ids_ascend_and_list() {
    let mut server = Controller::new(2);
    let first = server.connect(b"10.0.0.1:1".to_vec());
    let second = server.connect(b"10.0.0.2:2".to_vec());
    assert_eq!(run(&mut server, &first, b"*2\r\n$6\r\nCLIENT\r\n$2\r\nid\r\n"), b":0\r\n".to_vec());
    assert_eq!(run(&mut server, &second, b"*2\r\n$6\r\nCLIENT\r\n$2\r\nid\r\n"), b":1\r\n".to_vec());
    let listing = b"id=0 addr=10.0.0.1:1\nid=1 addr=10.0.0.2:2\n";
    let mut expected = format!("${}\r\n", listing.len()).into_bytes();
    expected.extend_from_slice(listing);
    expected.extend_from_slice(b"\r\n");
    assert_eq!(run(&mut server, &first, b"*2\r\n$6\r\nCLIENT\r\n$4\r\nLIST\r\n"), expected);
    server.disconnect(&first);
    let third = server.connect(b"10.0.0.3:3".to_vec());
    assert_eq!(run(&mut server, &third, b"*2\r\n$6\r\nCLIENT\r\n$2\r\nid\r\n"), b":2\r\n".to_vec());
}

#[test]
fn command_count_and_lists() {
    let (mut server, con) = fresh();
    assert_eq!(run(&mut server, &con, b"*2\r\n$7\r\nCOMMAND\r\n$5\r\nCOUNT\r\n"), b":29\r\n".to_vec());
    let out = run(&mut server, &con, b"*5\r\n$7\r\nCOMMAND\r\n$4\r\nLIST\r\n$8\r\nFILTERBY\r\n$7\r\nPATTERN\r\n$7\r\nclient*\r\n");
    assert_eq!(out, b"*3\r\n$6\r\nclient\r\n$9\r\nclient|id\r\n$11\r\nclient|list\r\n".to_vec());
    let out = run(&mut server, &con, b"*5\r\n$7\r\nCOMMAND\r\n$4\r\nLIST\r\n$8\r\nFILTERBY\r\n$6\r\nACLCAT\r\n$9\r\nscripting\r\n");
    assert_eq!(out, b"*1\r\n$14\r\nfunction|flush\r\n".to_vec());
    let out = run(&mut server, &con, b"*5\r\n$7\r\nCOMMAND\r\n$4\r\nLIST\r\n$8\r\nFILTERBY\r\n$6\r\nMODULE\r\n$1\r\nx\r\n");
    assert_eq!(out, b"-ERR filterby module is not implemented yet\r\n".to_vec());
    let out = run(&mut server, &con, b"*1\r\n$7\r\nCOMMAND\r\n");
    assert_eq!(out, b"-ERR 'command' is not implemented yet\r\n".to_vec());
    let all = run(&mut server, &con, b"*2\r\n$7\r\nCOMMAND\r\n$4\r\nLIST\r\n");
    assert!(all.starts_with(b"*33\r\n$3\r\nacl\r\n$7\r\nacl|cat\r\n$6\r\nappend\r\n"));
}

#[test]
fn acl_categories() {
    let (mut server, con) = fresh();
    let out = run(&mut server, &con, b"*2\r\n$3\r\nACL\r\n$3\r\nCAT\r\n");
    let mut expected = b"*10\r\n".to_vec();
    for name in ["admin", "connection", "dangerous", "fast", "keyspace", "read", "scripting", "slow", "string", "write"] {
        expected.extend_from_slice(format!("${}\r\n{}\r\n", name.len(), name).as_bytes());
    }
    assert_eq!(out, expected);
    let out = run(&mut server, &con, b"*3\r\n$3\r\nACL\r\n$3\r\nCAT\r\n$5\r\nADMIN\r\n");
    assert_eq!(out, b"*2\r\n$11\r\nclient|list\r\n$10\r\nconfig|get\r\n".to_vec());
    let out = run(&mut server, &con, b"*3\r\n$3\r\nACL\r\n$3\r\nCAT\r\n$4\r\nnope\r\n");
    assert_eq!(out, b"-ERR unknown ACL category for 'acl cat'\r\n".to_vec());
    assert_eq!(AclCategory::Keyspace.as_bytes(), b"keyspace".to_vec());
    assert_eq!(AclCategory::from_name(b"WrItE"), Some(AclCategory::Write));
    assert_eq!(AclCategory::from_name(b"writes"), None);
}

#[test]
fn stubs() {
    let (mut server, con) = fresh();
    assert_eq!(
        run(&mut server, &con, b"*2\r\n$8\r\nFUNCTION\r\n$5\r\nFLUSH\r\n"),
        b"-ERR 'function flush' is not implemented yet\r\n".to_vec()
    );
    assert_eq!(
        run(&mut server, &con, b"*3\r\n$6\r\nCONFIG\r\n$3\r\nGET\r\n$1\r\nx\r\n"),
        b"-ERR 'config get' is not implemented yet\r\n".to_vec()
    );
}

#[test]
fn protocol_errors_stop_the_batch() {
    let (mut server, con) = fresh();
    assert_eq!(run(&mut server, &con, b"PING\r\n"), b"-ERR only RESP2 is supported\r\n".to_vec());
    assert_eq!(
        run(&mut server, &con, b"*1\r\n$4\r\nPING\r\n*1\r\n*1\r\n$1\r\na\r\n*1\r\n$4\r\nPING\r\n"),
        b"+PONG\r\n-ERR nested arrays are not supported\r\n".to_vec()
    );
    assert_eq!(run(&mut server, &con, b"*x\r\n"), b"-ERR invalid character in length\r\n".to_vec());
    assert_eq!(run(&mut server, &con, b"*-1\r\n"), b"-ERR unexpected null array\r\n".to_vec());
    assert_eq!(run(&mut server, &con, b"*-2\r\n"), b"-ERR negative length is not supported\r\n".to_vec());
    assert_eq!(run(&mut server, &con, b"*1\r\n$-1\r\n"), b"-ERR unexpected null bulkstring\r\n".to_vec());
    assert_eq!(run(&mut server, &con, b"*1\r\n$1\r\nab\r\n"), b"-ERR expected '\\r'\r\n".to_vec());
    assert_eq!(run(&mut server, &con, b"*1\r\n$1\r\na\rx"), b"-ERR expected '\\n'\r\n".to_vec());
    assert_eq!(run(&mut server, &con, b"*1\r\n:1\r\n"), b"-ERR invalid data type\r\n".to_vec());
    assert_eq!(run(&mut server, &con, b"*1-\r\n"), b"-ERR invalid length\r\n".to_vec());
}

#[test]
fn parser_byte_at_a_time() {
    let input = b"*2\r\n$3\r\nGET\r\n$3\r\nfoo\r\n";
    let mut parser = Parser::new();
    for (i, b) in input.iter().enumerate() {
        parser.extend(&[*b]);
        let got = parser.parse();
        if i + 1 < input.len() {
            assert!(got.is_none());
        } else {
            match got {
                Some(Ok(ParsedValue::Array(items))) => {
                    assert_eq!(items.len(), 2);
                    assert!(matches!(&items[0], ParsedValue::BulkString(v) if v == b"GET"));
                    assert!(matches!(&items[1], ParsedValue::BulkString(v) if v == b"foo"));
                }
                _ => panic!("expected a request"),
            }
        }
    }
    assert!(parser.parse().is_none());
}

#[test]
fn parser_keeps_the_remainder() {
    let mut parser = Parser::new();
    parser.extend(b"*1\r\n$4\r\nPING\r\n*1\r\n$4\r\nPI");
    assert!(matches!(parser.parse(), Some(Ok(_))));
    assert!(parser.parse().is_none());
    parser.extend(b"NG\r\n");
    assert!(matches!(parser.parse(), Some(Ok(_))));
    let mut bad = Parser::new();
    bad.extend(b"+OK\r\n");
    assert_eq!(bad.parse().map(|r| r.err()), Some(Some(ParseError::OnlyResp2)));
}

#[test]
fn encoder_forms() {
    assert_eq!(OutputValue::SimpleString(b"hi".to_vec()).to_bytes_vec(), b"+hi\r\n".to_vec());
    assert_eq!(OutputValue::Error(b"ERR x".to_vec()).to_bytes_vec(), b"-ERR x\r\n".to_vec());
    assert_eq!(OutputValue::Integer(-42).to_bytes_vec(), b":-42\r\n".to_vec());
    assert_eq!(OutputValue::Integer(i64::MIN).to_bytes_vec(), b":-9223372036854775808\r\n".to_vec());
    assert_eq!(OutputValue::BulkString(b"".to_vec()).to_bytes_vec(), b"$0\r\n\r\n".to_vec());
    assert_eq!(OutputValue::NullBulkString.to_bytes_vec(), b"$-1\r\n".to_vec());
    assert_eq!(OutputValue::NullArray.to_bytes_vec(), b"*-1\r\n".to_vec());
    assert_eq!(OutputValue::OkStatus.to_bytes_vec(), b"+OK\r\n".to_vec());
    let nested = OutputValue::Array(vec![
        OutputValue::Integer(1),
        OutputValue::Array(vec![OutputValue::BulkString(b"ab".to_vec())]),
    ]);
    assert_eq!(nested.to_bytes_vec(), b"*2\r\n:1\r\n*1\r\n$2\r\nab\r\n".to_vec());
}

#[test]
fn encode_then_parse_round_trip() {
    let request = OutputValue::Array(vec![
        OutputValue::BulkString(b"SET".to_vec()),
        OutputValue::BulkString(b"k\r\n".to_vec()),
        OutputValue::BulkString(b"".to_vec()),
    ]);
    let mut parser = Parser::new();
    parser.extend(&request.to_bytes_vec());
    match parser.parse() {
        Some(Ok(v)) => {
            let args = remove_non_command_values(v).ok().unwrap();
            assert_eq!(args, vec![b"SET".to_vec(), b"k\r\n".to_vec(), b"".to_vec()]);
        }
        _ => panic!("expected a request"),
    }
}

#[test]
fn empty_request_names_no_command() {
    let (mut server, con) = fresh();
    assert_eq!(run(&mut server, &con, b"*0\r\n"), b"-ERR unknown command ''\r\n".to_vec());
}

#[test]
fn commands_are_case_insensitive() {
    let (mut server, con) = fresh();
    assert_eq!(
        run(&mut server, &con, b"*3\r\n$3\r\nsEt\r\n$1\r\nk\r\n$1\r\nv\r\n*2\r\n$6\r\nSTRLEN\r\n$1\r\nk\r\n*3\r\n$6\r\nEXISTS\r\n$1\r\nk\r\n$1\r\nk\r\n"),
        b"+OK\r\n:1\r\n:2\r\n".to_vec()
    );
}

#[test]
fn command_list_argument_errors() {
    let (mut server, con) = fresh();
    assert_eq!(
        run(&mut server, &con, b"*5\r\n$7\r\nCOMMAND\r\n$4\r\nLIST\r\n$6\r\nFILTER\r\n$7\r\nPATTERN\r\n$1\r\n*\r\n"),
        b"-ERR invalid argument for 'command list'\r\n".to_vec()
    );
    assert_eq!(
        run(&mut server, &con, b"*5\r\n$7\r\nCOMMAND\r\n$4\r\nLIST\r\n$8\r\nFILTERBY\r\n$4\r\nNAME\r\n$1\r\n*\r\n"),
        b"-ERR unknown filter for 'command list'\r\n".to_vec()
    );
    assert_eq!(
        run(&mut server, &con, b"*5\r\n$7\r\nCOMMAND\r\n$4\r\nLIST\r\n$8\r\nFILTERBY\r\n$6\r\nACLCAT\r\n$4\r\nnope\r\n"),
        b"-ERR unknown ACL category for 'command list'\r\n".to_vec()
    );
    assert_eq!(
        run(&mut server, &con, b"*3\r\n$7\r\nCOMMAND\r\n$4\r\nLIST\r\n$8\r\nFILTERBY\r\n"),
        b"-ERR wrong number of arguments for 'command list'\r\n".to_vec()
    );
    assert_eq!(
        run(&mut server, &con, b"*3\r\n$6\r\nSWAPDB\r\n$1\r\n0\r\n$1\r\ny\r\n"),
        b"-ERR invalid second DB index\r\n".to_vec()
    );
    assert_eq!(
        run(&mut server, &con, b"*3\r\n$6\r\nINCRBY\r\n$1\r\nk\r\n$3\r\n1.5\r\n"),
        b"-ERR value is not an integer\r\n".to_vec()
    );
}

#[test]
fn frame_checks() {
    assert_eq!(
        remove_non_command_values(ParsedValue::BulkString(b"x".to_vec())).err(),
        Some(FrameError::BareBulkString)
    );
    let nested = ParsedValue::Array(vec![ParsedValue::Array(vec![])]);
    assert_eq!(remove_non_command_values(nested).err(), Some(FrameError::NestedArray));
    assert_eq!(FrameError::NestedArray.message(), b"ERR nested arrays are not supported".to_vec());
}
