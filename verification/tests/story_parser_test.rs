use mnemosyne::parser::{story, story_block, story_command, story_id, story_text, ErrorKind, Path, StoryParse};

#[test]
fn story_parser_test_id() {
    let parse = story_id("[asd]");

    let ok = parse.is_ok();
    assert_eq!(ok, true);
    if ok {
        let (s, _) = parse.unwrap();
        assert_eq!(s, "".to_owned(), "All input should have been consumed");
    }
}

#[test]
fn story_parser_test_story_text() {
    let parse = story_text("sadbnk");

    let ok = parse.is_ok();
    assert_eq!(ok, true);
    if ok {
        let (s, _) = parse.unwrap();
        assert_eq!(s, "".to_owned(), "All input should have been consumed");
    }
}

#[test]
fn story_parser_test_story_command() {
    let parse = story_command("\\WEST1 (west){You think of going west}");

    let ok = parse.is_ok();
    assert_eq!(ok, true);
    if ok {
        let (s, _) = parse.unwrap();
        assert_eq!(s, "".to_owned(), "All input should have been consumed");
    }
}

#[test]
fn story_parser_test_block() {
    let str = "[START]
        You enter a forest.
        \\WEST1 (west){You think of going west} 
        \\EAST1 (east){You think of going east}
        \\Lay (lay){You decide to take a rest}";

    let parse = story_block(str);

    let ok = parse.is_ok();
    assert_eq!(ok, true);
    if ok {
        let (s, _) = parse.unwrap();
        assert_eq!(s, "".to_owned(), "All input should have been consumed");
    }
}

#[test]
fn story_parser_test_final() {
    let str = "[START]
        You enter a forest.
        \\WEST1 (west){You think of going west} 
        \\EAST1 (east){You think of going east}
        \\Lay (lay){You decide to take a rest}
        
        [WEST1]
        You go west
        \\East (east){east}
        ";

    let parse = story(str);

    let ok = parse.is_ok();
    assert_eq!(ok, true);
    if ok {
        let (s, _) = parse.unwrap();
        assert_eq!(s, "".to_owned(), "All input should have been consumed");
    }
}

#[test]
fn story_parser_test_test_id() {
    let parse = story_id("[asd]");

    let ok = parse.is_ok();
    assert_eq!(ok, true);
    if ok {
        let (s, _) = parse.unwrap();
        assert_eq!(s, "".to_owned(), "All input should have been consumed");
    }
}

#[test]
fn story_parser_test_test_story_text() {
    let parse = story_text("sadbnk");

    let ok = parse.is_ok();
    assert_eq!(ok, true);
    if ok {
        let (s, _) = parse.unwrap();
        assert_eq!(s, "".to_owned(), "All input should have been consumed");
    }
}

#[test]
fn story_parser_test_test_story_command() {
    let parse = story_command("\\WEST1 (west){You think of going west}");

    let ok = parse.is_ok();
    assert_eq!(ok, true);
    if ok {
        let (s, _) = parse.unwrap();
        assert_eq!(s, "".to_owned(), "All input should have been consumed");
    }
}

#[test]
fn story_parser_test_test_block() {
    let str = "[START]
    You enter a forest.
    \\WEST1 (west){You think of going west} 
    \\EAST1 (east){You think of going east}
    \\Lay (lay){You decide to take a rest}";

    let parse = story_block(str);

    let ok = parse.is_ok();
    assert_eq!(ok, true);
    if ok {
        let (s, _) = parse.unwrap();
        assert_eq!(s, "".to_owned(), "All input should have been consumed");
    }
}

#[test]
fn story_parser_test_test_final() {
    let str = "[START]
    You enter a forest.
    \\WEST1 (west){You think of going west} 
    \\EAST1 (east){You think of going east}
    \\Lay (lay){You decide to take a rest}
    
    [WEST1]
    You go west
    \\East (east){east}
    ";

    let parse = story(str);

    let ok = parse.is_ok();
    assert_eq!(ok, true);
    if ok {
        let (s, _) = parse.unwrap();
        assert_eq!(s, "".to_owned(), "All input should have been consumed");
    }
}

fn path(next: &str, command: &str, label: &str) -> Path {
    Path { next_path: next.to_string(), command: command.to_string(), label: label.to_string() }
}

#[test]
fn id_values_and_remaining_input() {
    let (rest, id) = story_id("  \n\t[abc12]tail").unwrap();
    assert_eq!(id, "abc12");
    assert_eq!(rest, "tail");
}

#[test]
fn id_errors() {
    let e = story_id("  abc").unwrap_err();
    assert_eq!(e.kind, ErrorKind::Tag);
    assert_eq!(e.input, "abc");

    let e = story_id("[]").unwrap_err();
    assert_eq!(e.kind, ErrorKind::AlphaNumeric);
    assert_eq!(e.input, "]");

    let e = story_id("[ab-c]").unwrap_err();
    assert_eq!(e.kind, ErrorKind::Tag);
    assert_eq!(e.input, "-c]");

    let e = story_id("").unwrap_err();
    assert_eq!(e.kind, ErrorKind::Tag);
    assert_eq!(e.input, "");

    // Letters outside ASCII are not part of an id.
    let e = story_id("[\u{e9}]").unwrap_err();
    assert_eq!(e.kind, ErrorKind::AlphaNumeric);
}

#[test]
fn text_stops_at_backslash() {
    let (rest, text) = story_text("Once upon\na time \\X (x){y}").unwrap();
    assert_eq!(text, "Once upon\na time ");
    assert_eq!(rest, "\\X (x){y}");

    let (rest, text) = story_text("").unwrap();
    assert_eq!(text, "");
    assert_eq!(rest, "");

    let (rest, text) = story_text("\u{17e}aliasis mi\u{161}kas").unwrap();
    assert_eq!(text, "\u{17e}aliasis mi\u{161}kas");
    assert_eq!(rest, "");
}

#[test]
fn command_values() {
    let (rest, p) = story_command("\\WEST1 (west){You think of going west}  \n next").unwrap();
    assert_eq!(p, path("WEST1", "west", "You think of going west"));
    assert_eq!(rest, "next");

    // The target and the word may be empty; the label may hold anything but `}`.
    let (rest, p) = story_command("\\(){a \\ (b)}").unwrap();
    assert_eq!(p, path("", "", "a \\ (b)"));
    assert_eq!(rest, "");
}

#[test]
fn command_errors() {
    let e = story_command("WEST1 (west){x}").unwrap_err();
    assert_eq!((e.kind, e.input.as_str()), (ErrorKind::Tag, "WEST1 (west){x}"));

    let e = story_command("\\WEST1 west){x}").unwrap_err();
    assert_eq!((e.kind, e.input.as_str()), (ErrorKind::Tag, "west){x}"));

    let e = story_command("\\WEST1 (we st){x}").unwrap_err();
    assert_eq!((e.kind, e.input.as_str()), (ErrorKind::Tag, " st){x}"));

    let e = story_command("\\WEST1 (west) x}").unwrap_err();
    assert_eq!((e.kind, e.input.as_str()), (ErrorKind::Tag, "x}"));

    let e = story_command("\\WEST1 (west){x").unwrap_err();
    assert_eq!((e.kind, e.input.as_str()), (ErrorKind::Tag, ""));
}

#[test]
fn block_values() {
    let input = "[START]
        You enter a forest.
        \\WEST1 (west){You think of going west} 
        \\EAST1 (east){You think of going east}
        \\Lay (lay){You decide to take a rest}";
    let (rest, b) = story_block(input).unwrap();
    assert_eq!(rest, "");
    assert_eq!(b.id, "START");
    assert_eq!(b.content, "\n        You enter a forest.\n        ");
    assert_eq!(
        b.children,
        vec![
            path("WEST1", "west", "You think of going west"),
            path("EAST1", "east", "You think of going east"),
            path("Lay", "lay", "You decide to take a rest"),
        ]
    );
}

#[test]
fn block_without_commands_takes_following_text() {
    // With no command to end it, the text runs on over the next block.
    let (rest, b) = story_block("[A] first\n[B] second").unwrap();
    assert_eq!(b.id, "A");
    assert_eq!(b.content, " first\n[B] second");
    assert!(b.children.is_empty());
    assert_eq!(rest, "");
}

#[test]
fn block_error_is_the_id_error() {
    let e = story_block("no id here").unwrap_err();
    assert_eq!(e.kind, ErrorKind::Tag);
    assert_eq!(e.input, "no id here");
}

#[test]
fn story_never_fails() {
    let (rest, blocks) = story("not a story").unwrap();
    assert!(blocks.is_empty());
    assert_eq!(rest, "not a story");

    let (rest, blocks) = story("").unwrap();
    assert!(blocks.is_empty());
    assert_eq!(rest, "");

    let (rest, blocks) = story("[A]x\\B (b){go}\n[B]y\\A (a){back} trailing [").unwrap();
    assert_eq!(blocks.len(), 2);
    assert_eq!(blocks[0].id, "A");
    assert_eq!(blocks[1].id, "B");
    assert_eq!(blocks[1].children, vec![path("A", "a", "back")]);
    assert_eq!(rest, "trailing [");
}

fn print(blocks: &[StoryParse]) -> String {
    let mut s = String::new();
    for b in blocks {
        s += &format!("[{}]{}", b.id, b.content);
        for p in &b.children {
            s += &format!("\\{} ({}){{{}}}\n", p.next_path, p.command, p.label);
        }
    }
    s
}

#[test]
fn printed_blocks_parse_back() {
    let blocks = vec![
        StoryParse {
            id: "START".to_string(),
            content: "\n  You stand at a [crossing]. (North?)\n".to_string(),
            children: vec![path("N1", "north", "Go {north"), path("", "", "")],
        },
        StoryParse {
            id: "N1".to_string(),
            content: " cold \u{17e}iema".to_string(),
            children: vec![path("START", "back", "Return")],
        },
        StoryParse { id: "End9".to_string(), content: "  the end  \n".to_string(), children: vec![] },
    ];
    let text = print(&blocks);
    let (rest, parsed) = story(&text).unwrap();
    assert_eq!(rest, "");
    assert_eq!(parsed, blocks);
}
