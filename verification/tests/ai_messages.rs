//! The messages of a conversation and the choice of rounds.
use gift::ai::cli::{
    ask, build_commit_message, context, join_rounds, parse_select, show_answer, show_context,
    summarize,
};
use gift::ai::messages::{
    last_seq, load_messages, message_filename, next_seq, parse_entry_name, select_rounds, Message,
    NotText, Role, SelectError, StoredFile,
};
use gift::object::ObjectSha;

fn files(list: &[(&str, &str)]) -> Vec<StoredFile> {
    list.iter()
        .map(|(n, c)| StoredFile { name: n.to_string(), content: c.as_bytes().to_vec() })
        .collect()
}

fn names(list: &[&str]) -> Vec<String> {
    list.iter().map(|s| s.to_string()).collect()
}

#[test]
fn load_orders_by_seq_and_maps_role() {
    let msgs = load_messages(files(&[
        ("0003-assistant.txt", "答1"),
        ("0001-system.txt", "你是助手"),
        ("0002-user.txt", "问1"),
        ("not-a-message.txt", "忽略"),
    ]))
    .unwrap();
    assert_eq!(msgs.len(), 3);
    assert_eq!(msgs[0], Message::system("你是助手"));
    assert_eq!(msgs[1], Message::user("问1"));
    assert_eq!(msgs[2], Message::assistant("答1"));
}

#[test]
fn next_seq_is_max_plus_one() {
    let taken = names(&["0001-system.txt", "0002-user.txt", "0003-assistant.txt"]);
    assert_eq!(next_seq(&taken), 4);
    assert_eq!(next_seq(&[]), 1);
    assert_eq!(last_seq(&taken), 3);
    assert_eq!(last_seq(&names(&["4294967295-user.txt"])), u32::MAX);
}

#[test]
fn select_keeps_system_and_chosen_rounds() {
    let msgs = vec![
        Message::system("s"),
        Message::user("q1"),
        Message::assistant("a1"),
        Message::user("q2"),
        Message::assistant("a2"),
        Message::user("q3"),
        Message::assistant("a3"),
    ];
    let out = select_rounds(&msgs, &[1, 3]).unwrap();
    assert_eq!(
        out,
        vec![
            Message::system("s"),
            Message::user("q1"),
            Message::assistant("a1"),
            Message::user("q3"),
            Message::assistant("a3"),
        ]
    );
    assert_eq!(select_rounds(&msgs, &[3, 2, 1, 1]).unwrap(), msgs);
}

#[test]
fn select_rejects_out_of_range_and_empty() {
    let msgs = vec![Message::system("s"), Message::user("q1"), Message::assistant("a1")];
    assert!(select_rounds(&msgs, &[2]).is_err());
    assert!(select_rounds(&msgs, &[]).is_err());
}

#[test]
fn selection_faults_are_told_apart() {
    let msgs = vec![Message::system("s"), Message::user("q1"), Message::assistant("a1")];
    assert_eq!(select_rounds(&msgs, &[]), Err(SelectError::Empty));
    assert_eq!(
        select_rounds(&msgs, &[9, 1, 5]),
        Err(SelectError::NoRound { asked: 5, total: 1 })
    );
    assert_eq!(select_rounds(&msgs, &[0]), Err(SelectError::NoRound { asked: 0, total: 1 }));
    let odd = vec![
        Message::user("q1"),
        Message::assistant("a1"),
        Message::assistant("a2"),
        Message::user("q2"),
    ];
    assert_eq!(select_rounds(&odd, &[1]), Err(SelectError::Corrupt { round: 2 }));
    let open = vec![Message::user("q1")];
    assert_eq!(select_rounds(&open, &[1]).unwrap(), open);
}

#[test]
fn filename_is_zero_padded() {
    assert_eq!(message_filename(2, Role::User), "0002-user.txt");
    assert_eq!(message_filename(10, Role::Assistant), "0010-assistant.txt");
}

#[test]
fn file_names_give_their_parts_back() {
    for seq in [0, 7, 9999, 10000, u32::MAX] {
        for role in [Role::System, Role::User, Role::Assistant] {
            assert_eq!(parse_entry_name(&message_filename(seq, role)), Some((seq, role)));
        }
    }
    assert_eq!(message_filename(123456, Role::System), "123456-system.txt");
    for bad in [
        "0001-user",
        "0001user.txt",
        "-user.txt",
        "+1-user.txt",
        "0001-robot.txt",
        "4294967296-user.txt",
        "0001-user-x.txt",
    ] {
        assert_eq!(parse_entry_name(bad), None, "{bad}");
    }
}

#[test]
fn files_that_hold_no_text_are_reported() {
    let list = vec![
        StoredFile { name: "0002-user.txt".into(), content: vec![0xff] },
        StoredFile { name: "0001-system.txt".into(), content: vec![0xc0] },
        StoredFile { name: "x".into(), content: vec![0xff] },
    ];
    assert_eq!(load_messages(list), Err(NotText { seq: 1, role: Role::System }));
}

#[test]
fn same_numbers_keep_their_order() {
    let msgs =
        load_messages(files(&[("2-user.txt", "b"), ("1-user.txt", "a"), ("02-user.txt", "c")]))
            .unwrap();
    let got: Vec<&str> = msgs.iter().map(|m| m.content.as_str()).collect();
    assert_eq!(got, ["a", "b", "c"]);
}

#[test]
fn rounds_are_read_and_written() {
    assert_eq!(parse_select(&names(&[" 2", "", "7 "])), Ok(vec![2, 7]));
    assert_eq!(parse_select(&names(&["1", "x ", "y"])), Err("x".to_string()));
    assert_eq!(parse_select(&names(&["4294967296"])), Err("4294967296".to_string()));
    assert_eq!(join_rounds(&[1, 3]), "1, 3");
    assert_eq!(join_rounds(&[]), "");
}

#[test]
fn questions_are_summed_up() {
    assert_eq!(summarize("  hello \nworld"), "hello");
    assert_eq!(summarize(""), "");
    assert_eq!(summarize(&"啊".repeat(50)), "啊".repeat(50));
    assert_eq!(summarize(&"啊".repeat(51)), format!("{}…", "啊".repeat(50)));
    assert_eq!(build_commit_message("q\nmore", &[]), "q");
    assert_eq!(build_commit_message("q", &[1, 2]), "q\n\nGiftai-context: rounds 1, 2");
}

#[test]
fn context_is_assembled_and_shown() {
    let full = || vec![Message::system("s"), Message::user("q"), Message::assistant("a")];
    assert_eq!(context(full(), &[]).unwrap(), full());
    let sent = ask(full(), &[1], "next").unwrap();
    assert_eq!(sent.len(), 4);
    assert_eq!(sent[3], Message::user("next"));
    assert_eq!(ask(full(), &[2], "n"), Err(SelectError::NoRound { asked: 2, total: 1 }));
    assert_eq!(
        show_context(&[], &[Message::user("q")]),
        ["将发送全量上下文，共 1 条消息：\n", "── user ──", "q\n"]
    );
    assert_eq!(
        show_context(&[1, 3], &[]),
        ["将发送第 1, 3 轮（含 system），共 0 条消息：\n"]
    );
    let oid = ObjectSha::SHA1([0xab; 20]);
    assert_eq!(
        show_answer(&oid, "q", &[2], "r"),
        [
            format!("● {}  q", "ab".repeat(20)),
            "  （本轮仅基于第 2 轮上下文生成）".to_string(),
            "\nr".to_string()
        ]
    );
    assert_eq!(show_answer(&oid, "q", &[], "r").len(), 2);
}
