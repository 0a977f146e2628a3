use mnemosyne::bot::Reply;
use mnemosyne::files::combine_file_paths;
use mnemosyne::parser::story;
use mnemosyne::response::MnemosyneResponseBuilder;
use mnemosyne::story2::StoryBlock2;
use std::sync::Arc;

fn v(items: &[&str]) -> Vec<String> {
    items.iter().map(|s| s.to_string()).collect()
}

#[test]
fn combine_file_paths_cases() {
    assert_eq!(combine_file_paths(None, None), None);
    assert_eq!(combine_file_paths(Some(v(&["a"])), None), Some(v(&["a"])));
    assert_eq!(combine_file_paths(None, Some(v(&["b"]))), Some(v(&["b"])));
    assert_eq!(combine_file_paths(Some(v(&["a", "c"])), Some(v(&["b"]))), Some(v(&["a", "c", "b"])));
    assert_eq!(combine_file_paths(Some(v(&[])), None), Some(v(&[])));
}

#[test]
fn response_defaults_and_choices() {
    assert_eq!(MnemosyneResponseBuilder::new().build().respond(), None);
    assert_eq!(MnemosyneResponseBuilder::new().set_react_mode(true).build().respond(), None);

    let r = MnemosyneResponseBuilder::new().set_content("hi".to_string()).build();
    assert_eq!(r.react(), false);
    assert_eq!(r.content(), "hi");
    assert_eq!(r.reaction_emoji(), '\u{1F41B}');
    assert_eq!(r.respond(), Some(Reply::Text("hi".to_string())));

    let r = MnemosyneResponseBuilder::new().set_react_mode(true).set_content("hi".to_string()).build();
    assert_eq!(r.respond(), Some(Reply::React('\u{1F41B}')));

    let r = MnemosyneResponseBuilder::new().set_reaction_emoji('x').build();
    assert_eq!(r.content(), "");
    assert_eq!(r.respond(), Some(Reply::Text(String::new())));

    let r = MnemosyneResponseBuilder::new().set_react_mode(true).set_reaction_emoji('x').build();
    assert_eq!(r.respond(), Some(Reply::React('x')));
}

#[test]
fn story_block2_construction() {
    let b = StoryBlock2::new("text");
    assert_eq!(b.text, "text");
    assert_eq!(b.id, "");
    assert!(b.path.is_empty());

    let (_, parsed) = story("[A]hello").unwrap();
    let a = StoryBlock2::from_parse(&parsed[0]);
    assert_eq!(a.id, "A");
    assert_eq!(a.text, "hello");

    let linked = a.clone().set_paths(vec![(Arc::new(b), "go".to_string(), "Go".to_string())]);
    assert_eq!(linked.id, "A");
    assert_eq!(linked.text, "hello");
    assert_eq!(linked.path.len(), 1);
    assert_eq!(linked.path[0].0.text, "text");
    assert_eq!(linked.path[0].1, "go");
}

#[test]
fn builder_keeps_the_last_value_set() {
    let r = MnemosyneResponseBuilder::new()
        .set_react_mode(true)
        .set_content("one".to_string())
        .set_reaction_emoji('a')
        .set_react_mode(false)
        .set_content("two".to_string())
        .set_reaction_emoji('b')
        .build();
    assert_eq!(r.react(), false);
    assert_eq!(r.content(), "two");
    assert_eq!(r.reaction_emoji(), 'b');
    assert_eq!(r.respond(), Some(Reply::Text("two".to_string())));

    let r = MnemosyneResponseBuilder::new().set_react_mode(false).set_react_mode(true).build();
    assert_eq!(r.react(), true);
    assert_eq!(r.respond(), None);
}
