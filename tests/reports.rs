use telegram_chat::{
    count_matches, Analyzer, ChatData, DecodeError, Id, LinkError, Message, MessageType,
    StructTextEntity, Text, TextEntity, TextType,
};

fn ordinary(id: i64, from: Option<&str>, from_id: Id, text: Text) -> Message {
    Message {
        id,
        msg_type: MessageType::Message { from: from.map(|s| s.to_string()), from_id },
        date: "2023-01-01T00:00:00".to_string(),
        date_unixtime: "1672531200".to_string(),
        text,
        mime_type: None,
        reply_to_message_id: None,
    }
}

fn service(id: i64) -> Message {
    Message {
        id,
        msg_type: MessageType::Service,
        date: "2023-01-01T00:00:00".to_string(),
        date_unixtime: "1672531200".to_string(),
        text: Text::Plain(String::new()),
        mime_type: None,
        reply_to_message_id: None,
    }
}

fn plain(s: &str) -> Text {
    Text::Plain(s.to_string())
}

fn fragment(kind: TextType, text: &str, href: Option<&str>) -> TextEntity {
    TextEntity::Struct(StructTextEntity {
        text_type: kind,
        text: text.to_string(),
        href: href.map(|s| s.to_string()),
    })
}

fn chat(messages: Vec<Message>) -> ChatData {
    ChatData { name: "group".to_string(), id: 1, messages }
}

fn rows(v: &[(String, usize)]) -> Vec<(&str, usize)> {
    v.iter().map(|(k, n)| (k.as_str(), *n)).collect()
}

fn percent(v: usize, total: usize) -> String {
    format!("{:.2}", v as f64 / total as f64 * 100.0)
}

fn alice_and_bob() -> ChatData {
    chat(vec![
        ordinary(1, Some("Alice"), Id::User(1), plain("hi")),
        ordinary(2, Some("Bob"), Id::User(2), plain("hello")),
        service(3),
        ordinary(4, Some("Alice"), Id::User(1), plain("again")),
        ordinary(5, Some("Alice"), Id::User(1), plain("and again")),
    ])
}

#[test]
fn identity_round_trip() {
    for id in [Id::User(42), Id::Channel(7), Id::User(-15), Id::Channel(0), Id::User(i64::MIN), Id::Channel(i64::MAX)] {
        assert_eq!(Id::decode(&id.encode()), Ok(id));
    }
    for s in ["user42", "channel1001", "user-3", "channel0"] {
        assert_eq!(Id::decode(s).unwrap().encode(), s);
    }
    assert_eq!(Id::User(42).encode(), "user42");
    assert_eq!(Id::Channel(-9).encode(), "channel-9");
}

#[test]
fn identity_decode_rejects_and_accepts() {
    assert_eq!(Id::decode("userABC"), Err(DecodeError::InvalidIdentity));
    assert_eq!(Id::decode("channel42"), Ok(Id::Channel(42)));
    assert_eq!(Id::decode("user"), Err(DecodeError::InvalidIdentity));
    assert_eq!(Id::decode("bot12"), Err(DecodeError::InvalidIdentity));
    assert_eq!(Id::decode("user-"), Err(DecodeError::InvalidIdentity));
    assert_eq!(Id::decode("user12x"), Err(DecodeError::InvalidIdentity));
    assert_eq!(Id::decode("user9223372036854775808"), Err(DecodeError::InvalidIdentity));
    assert_eq!(Id::decode("user-9223372036854775808"), Ok(Id::User(i64::MIN)));
    assert_eq!(Id::decode("user+5"), Ok(Id::User(5)));
    assert_eq!(Id::decode("user007"), Ok(Id::User(7)));
    assert_eq!(Id::Channel(42).as_num(), 42);
    assert_eq!(Id::User(-4).as_num(), -4);
}

#[test]
fn fragment_count_examples() {
    assert_eq!(plain("aaa").count("a"), 3);
    let t = Text::Array(vec![
        TextEntity::Plain("ab".to_string()),
        fragment(TextType::Bold, "ba", None),
    ]);
    assert_eq!(t.count("a"), 2);
    assert_eq!(plain("aaaa").count("aa"), 2);
    assert_eq!(plain("aaa").count("aa"), 1);
    assert_eq!(plain("草草 草").count("草"), 3);
    assert_eq!(plain("abc").count(""), 4);
    assert_eq!(count_matches("Abc abc", "abc"), 1);
    assert_eq!(plain("").count("a"), 0);
}

#[test]
fn entities_keep_typed_fragments_in_order() {
    let t = Text::Array(vec![
        TextEntity::Plain("see ".to_string()),
        fragment(TextType::Link, "example.com", None),
        TextEntity::Plain(" and ".to_string()),
        fragment(TextType::Mention, "@bob", None),
    ]);
    let e = t.as_entities();
    assert_eq!(e.len(), 2);
    assert_eq!(e[0].text, "example.com");
    assert_eq!(e[1].text_type, TextType::Mention);
    assert!(plain("x").as_entities().is_empty());
}

#[test]
fn sender_labels() {
    let m = ordinary(1, None, Id::User(12), plain("x"));
    assert_eq!(m.sender_name(), Some("User#12".to_string()));
    assert_eq!(m.sender_id(), Some(Id::User(12)));
    assert!(m.is_message());
    let s = service(2);
    assert_eq!(s.sender_name(), None);
    assert_eq!(s.sender_id(), None);
    assert!(!s.is_message());
    let c = ordinary(3, None, Id::Channel(-5), plain("x"));
    assert_eq!(c.sender_name(), Some("User#-5".to_string()));
}

#[test]
fn sender_rank_counts_all_messages_in_total() {
    let data = alice_and_bob();
    let r = Analyzer::new(&data).sender_rank();
    assert_eq!(r.total, 5);
    assert_eq!(rows(&r.rows), vec![("Alice", 3), ("Bob", 1)]);
    assert_eq!(percent(3, r.total), "60.00");
    assert_eq!(percent(1, r.total), "20.00");
}

#[test]
fn exclusion_removes_row_but_not_total() {
    let data = alice_and_bob();
    let excluded = [2i64];
    let r = Analyzer::new(&data).opt_out(&excluded).sender_rank();
    assert_eq!(r.total, 5);
    assert_eq!(rows(&r.rows), vec![("Alice", 3)]);
}

#[test]
fn absent_pattern_gives_empty_report() {
    let data = alice_and_bob();
    let r = Analyzer::new(&data).count_substring("zzz");
    assert_eq!(r.total, 0);
    assert!(r.rows.is_empty());
}

#[test]
fn count_substring_ranks_by_occurrences() {
    let data = chat(vec![
        ordinary(1, Some("Alice"), Id::User(1), plain("草草")),
        ordinary(2, Some("Bob"), Id::User(2), plain("草 草 草")),
        ordinary(3, Some("Carol"), Id::User(3), plain("nothing")),
        ordinary(4, Some("Alice"), Id::User(1), Text::Array(vec![fragment(TextType::Bold, "草", None)])),
    ]);
    let r = Analyzer::new(&data).count_substring("草");
    assert_eq!(r.total, 6);
    assert_eq!(rows(&r.rows), vec![("Alice", 3), ("Bob", 3)]);
    assert_eq!(percent(3, r.total), "50.00");
}

#[test]
fn link_without_scheme_gets_http() {
    let data = chat(vec![ordinary(
        1,
        Some("Alice"),
        Id::User(1),
        Text::Array(vec![fragment(TextType::Link, "example.com/x", None)]),
    )]);
    let r = Analyzer::new(&data).count_link().unwrap();
    assert_eq!(r.total, 1);
    assert_eq!(rows(&r.users), vec![("Alice", 1)]);
    assert_eq!(rows(&r.domains), vec![("example.com", 1)]);
    assert_eq!(percent(1, r.total), "100.00");
}

#[test]
fn text_links_and_hosts_without_domain() {
    let data = chat(vec![
        ordinary(
            1,
            Some("Alice"),
            Id::User(1),
            Text::Array(vec![
                fragment(TextType::TextLink, "docs", Some("https://docs.rs/url")),
                fragment(TextType::Link, "https://docs.rs/serde", None),
                fragment(TextType::Bold, "example.org", None),
            ]),
        ),
        ordinary(
            2,
            None,
            Id::Channel(9),
            Text::Array(vec![fragment(TextType::Link, "127.0.0.1/admin", None)]),
        ),
        ordinary(3, Some("Bob"), Id::User(2), plain("https://ignored.example")),
    ]);
    let r = Analyzer::new(&data).count_link().unwrap();
    assert_eq!(r.total, 3);
    assert_eq!(rows(&r.users), vec![("Alice", 2), ("User#9", 1)]);
    assert_eq!(rows(&r.domains), vec![("docs.rs", 2)]);
}

#[test]
fn unresolvable_links_fail() {
    let missing = chat(vec![ordinary(
        1,
        Some("Alice"),
        Id::User(1),
        Text::Array(vec![fragment(TextType::TextLink, "here", None)]),
    )]);
    assert_eq!(Analyzer::new(&missing).count_link().err(), Some(LinkError::UrlResolution));
    let bad = chat(vec![ordinary(
        1,
        Some("Alice"),
        Id::User(1),
        Text::Array(vec![fragment(TextType::Link, "http://", None)]),
    )]);
    assert_eq!(Analyzer::new(&bad).count_link().err(), Some(LinkError::UrlResolution));
    let excluded = [1i64];
    let r = Analyzer::new(&bad).opt_out(&excluded).count_link().unwrap();
    assert_eq!(r.total, 0);
}

#[test]
fn row_limit_keeps_alphabetically_first_of_ties() {
    let data = chat(vec![
        ordinary(1, Some("Carol"), Id::User(3), plain("x")),
        ordinary(2, Some("Alice"), Id::User(1), plain("x")),
        ordinary(3, Some("Bob"), Id::User(2), plain("x")),
    ]);
    let r = Analyzer::new(&data).take(2).sender_rank();
    assert_eq!(rows(&r.rows), vec![("Alice", 1), ("Bob", 1)]);
    let all = Analyzer::new(&data).sender_rank();
    assert_eq!(rows(&all.rows), vec![("Alice", 1), ("Bob", 1), ("Carol", 1)]);
    let none = Analyzer::new(&data).take(0).sender_rank();
    assert!(none.rows.is_empty());
}

#[test]
fn builder_keeps_configuration() {
    let data = alice_and_bob();
    let excluded = [1i64, 2];
    let a = Analyzer::new(&data).wrap_with("```").take(3).opt_out(&excluded);
    assert_eq!(a.wrap_with, Some("```"));
    assert_eq!(a.take_num, 3);
    assert_eq!(a.opt_out, &excluded[..]);
    assert!(a.sender_rank().rows.is_empty());
}
