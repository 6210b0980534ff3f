use hllset::block::{compute_cid, MAX_BLOCK_BYTES};
use hllset::shell::{
    command_of, is_blank, read_i64, read_prompt_line, table_layout, Command, Layout, Line, TableKey,
};
use hllset::storage::StorageError;

fn command(args: &[&str], terminal: bool) -> Command {
    let args: Vec<String> = args.iter().map(|s| s.to_string()).collect();
    command_of(&args, terminal)
}

#[test]
fn arguments_name_commands() {
    assert_eq!(command(&["hllset"], true), Command::Repl);
    assert_eq!(command(&["hllset"], false), Command::Stdin);
    assert_eq!(command(&["hllset", "-r"], false), Command::Repl);
    assert_eq!(command(&["hllset", "--repl", "x"], false), Command::Repl);
    assert_eq!(command(&["hllset", "--mesh-algebra"], true), Command::MeshAlgebra);
    assert_eq!(
        command(&["hllset", "--mesh-worker"], true),
        Command::MeshWorker("worker-0".into())
    );
    assert_eq!(
        command(&["hllset", "--mesh-worker", "w7"], true),
        Command::MeshWorker("w7".into())
    );
    assert_eq!(command(&["hllset", "--mesh-noether"], true), Command::MeshNoether(5));
    assert_eq!(
        command(&["hllset", "--mesh-noether", "-12"], true),
        Command::MeshNoether(-12)
    );
    assert_eq!(
        command(&["hllset", "--mesh-noether", "many"], true),
        Command::MeshNoether(5)
    );
    assert_eq!(
        command(&["hllset", "-e", "return", "1"], true),
        Command::Eval("return 1".into())
    );
    assert_eq!(command(&["hllset", "-e"], true), Command::Stdin);
    assert_eq!(
        command(&["hllset", "--forth", "DUP"], true),
        Command::Forth("DUP".into())
    );
    assert_eq!(
        command(&["hllset", "--forth-debug"], true),
        Command::ForthDebug("".into())
    );
    assert_eq!(
        command(&["hllset", "-f", "a.lua", "b"], true),
        Command::File("a.lua".into())
    );
    assert_eq!(command(&["hllset", "--help"], true), Command::Help);
    assert_eq!(command(&["hllset", "-h"], true), Command::Help);
    assert_eq!(command(&["hllset", "other"], true), Command::Stdin);
}

#[test]
fn integers_read_as_they_are_written() {
    for s in [
        "0", "7", "+7", "-7", "9223372036854775807", "-9223372036854775808", "9223372036854775808",
        "-9223372036854775809", "99999999999999999999999999", "", "+", "-", "1 ", "1a", "--1",
    ] {
        assert_eq!(read_i64(s), s.parse::<i64>().ok(), "{s}");
    }
}

#[test]
fn prompt_lines_are_blank_final_or_scripts() {
    assert_eq!(read_prompt_line("  \n"), Line::Blank);
    assert_eq!(read_prompt_line(" exit\n"), Line::Quit);
    assert_eq!(read_prompt_line("quit"), Line::Quit);
    assert_eq!(read_prompt_line(" return 1 \n"), Line::Script("return 1".into()));
    assert!(is_blank(" \t\n"));
    assert!(!is_blank(" x "));
}

#[test]
fn tables_are_arrays_where_every_key_counts() {
    let index = TableKey::Index;
    assert_eq!(
        table_layout(&[index(1), index(3)]),
        Layout::Array(vec![Some(0), None, Some(1)])
    );
    assert_eq!(table_layout(&[]), Layout::Object(vec![]));
    assert_eq!(
        table_layout(&[index(1), TableKey::Name("x".into()), index(-4)]),
        Layout::Object(vec!["1".into(), "x".into(), "-4".into()])
    );
    assert_eq!(
        table_layout(&[index(0)]),
        Layout::Object(vec!["0".into()])
    );
    assert_eq!(
        table_layout(&[index(i64::MIN)]),
        Layout::Object(vec!["-9223372036854775808".into()])
    );
}

#[test]
fn test_compute_cid() {
    let s = compute_cid(b"hello world").unwrap();
    assert!(!s.is_empty());
    assert_ne!(s, compute_cid(b"hello worlds").unwrap());
    // The version 1 identifier of the raw block with its SHA2-256 digest.
    assert_eq!(s, "bafkreifzjut3te2nhyekklss27nh3k72ysco7y32koao5eei66wof36n5e");
}

#[test]
fn blocks_of_other_sizes_have_no_identifier() {
    match compute_cid(b"") {
        Err(StorageError::Backend(m)) => assert_eq!(
            m,
            "CID compute: Invalid data: Block size 0 is below minimum 1"
        ),
        other => panic!("{other:?}"),
    }
    assert!(compute_cid(&vec![7u8; MAX_BLOCK_BYTES]).is_ok());
    match compute_cid(&vec![7u8; MAX_BLOCK_BYTES + 1]) {
        Err(StorageError::Backend(m)) => assert_eq!(
            m,
            "CID compute: Invalid data: Block size 2097153 exceeds maximum 2097152 (2 MiB)"
        ),
        other => panic!("{other:?}"),
    }
}
