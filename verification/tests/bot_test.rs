use mnemosyne::bot::{
    action, clear_story, decimal, get_action_response, load, read_loaded, set_story, start_story,
    BlockRef, LoadedStory, Reply, StoryFileName, StoryListener, StoryMap, UserListenerMap,
};
use mnemosyne::story::map_stories_p;
use std::sync::Arc;

const FOREST: &str = "[START]
    You enter a forest.
    \\WEST1 (west){You think of going west} 
    \\EAST1 (east){You think of going east}
    \\Lay (lay){You decide to take a rest}
    
    [WEST1]
    You go west
    \\East (east){east}
    \\START (back){Go back}
    ";

const NO_PATH: &str = "Error occurred during parsing of the command. (File path not supplied?)";

fn name(s: &str) -> StoryFileName {
    StoryFileName::Name(s.to_string())
}

fn setup() -> (StoryMap, UserListenerMap, LoadedStory) {
    let mut stories = StoryMap::new();
    let users = UserListenerMap::new();
    let mut loaded: LoadedStory = None;
    let r = load(&mut stories, "stories/forest.story", name("forest"), map_stories_p(FOREST));
    assert_eq!(r.as_deref(), Some("Loaded successfully"));
    assert_eq!(set_story(&stories, &mut loaded, "forest"), "Loaded the story");
    (stories, users, loaded)
}

#[test]
fn start_without_selected_story() {
    let loaded: LoadedStory = None;
    let mut users = UserListenerMap::new();
    assert_eq!(start_story(&loaded, &mut users, 1), "No story found");
    assert!(users.get(1).is_none());
}

#[test]
fn load_answers() {
    let mut stories = StoryMap::new();
    assert_eq!(load(&mut stories, "", name("x"), map_stories_p(FOREST)).as_deref(), Some(NO_PATH));
    assert_eq!(load(&mut stories, "a/b", StoryFileName::NoStem, map_stories_p(FOREST)), None);
    assert_eq!(
        load(&mut stories, "a/b", StoryFileName::NotUnicode, map_stories_p(FOREST)).as_deref(),
        Some("Error happened")
    );
    assert_eq!(
        load(&mut stories, "a/b.story", name("b"), Err("Error happened during file read: gone".to_string())).as_deref(),
        Some("Error happened during file read: gone")
    );
    assert_eq!(
        load(&mut stories, "a/b.story", name("b"), map_stories_p("[A]no start")).as_deref(),
        Some("No story was created")
    );
    assert_eq!(stories.len(), 0);
    assert_eq!(read_loaded(&stories), "");
}

#[test]
fn read_loaded_lists_names_in_order() {
    let mut stories = StoryMap::new();
    load(&mut stories, "forest.story", name("forest"), map_stories_p(FOREST));
    load(&mut stories, "cave.story", name("cave"), map_stories_p("[START]dark"));
    assert_eq!(read_loaded(&stories), "0. forest\n1. cave\n");
    // Loading again under a name replaces the story in place.
    load(&mut stories, "forest.story", name("forest"), map_stories_p("[START]new"));
    assert_eq!(read_loaded(&stories), "0. forest\n1. cave\n");
    assert_eq!(stories.get(&"forest".to_string()).unwrap().blocks[0].text, "new");
}

#[test]
fn set_story_answers() {
    let stories = StoryMap::new();
    let mut loaded: LoadedStory = None;
    assert_eq!(set_story(&stories, &mut loaded, ""), NO_PATH);
    assert_eq!(set_story(&stories, &mut loaded, "forest"), "There is no such story");
    assert!(loaded.is_none());
}

#[test]
fn play_a_story() {
    let (_stories, mut users, loaded) = setup();
    let start = start_story(&loaded, &mut users, 1);
    assert_eq!(start, "\n    You enter a forest.\n    \nwest - You think of going west\n");
    assert_eq!(users.get(1).unwrap().story_name(), "forest");

    assert_eq!(action(&mut users, 1, ""), "invalid command");
    assert_eq!(action(&mut users, 2, "west"), "User hasn't started the story yet");
    assert_eq!(get_action_response(&mut users, 1, "east"), Err(String::new()));
    // A refused choice leaves the user where they were.
    assert_eq!(users.get(1).unwrap().current_story_path().as_ref().unwrap().block, 0);
    assert_eq!(users.get(1).unwrap().story_name(), "forest");
    assert_eq!(
        action(&mut users, 1, "west"),
        "\n    You go west\n    \nback - Go back\n"
    );
    let at = users.get(1).unwrap().current_story_path().as_ref().unwrap().block;
    assert_eq!(at, 1);
    assert_eq!(get_action_response(&mut users, 1, "back"), Ok(start.clone()));
    // A second user starts at the beginning.
    assert_eq!(start_story(&loaded, &mut users, 2), start);
}

#[test]
fn the_last_link_with_a_word_is_taken() {
    let mut stories = StoryMap::new();
    let mut loaded: LoadedStory = None;
    let mut users = UserListenerMap::new();
    load(&mut stories, "s", name("s"), map_stories_p("[START]go\\A (x){a}\\B (x){b}[A]in a\\START (s){s}[B]in b"));
    set_story(&stories, &mut loaded, "s");
    start_story(&loaded, &mut users, 5);
    assert_eq!(action(&mut users, 5, "x"), "in b\n");
}

#[test]
fn clear_story_answers_and_effects() {
    let (mut stories, mut users, mut loaded) = setup();
    start_story(&loaded, &mut users, 1);
    load(&mut stories, "cave.story", name("cave"), map_stories_p("[START]dark"));

    assert_eq!(
        clear_story(&mut stories, &mut users, &mut loaded, ""),
        Reply::Text("No story name provided".to_string())
    );
    assert_eq!(clear_story(&mut stories, &mut users, &mut loaded, "nothere"), Reply::React('\u{1F44E}'));
    assert!(loaded.is_some());

    assert_eq!(clear_story(&mut stories, &mut users, &mut loaded, "forest"), Reply::React('\u{1F44D}'));
    assert!(loaded.is_none());
    assert_eq!(read_loaded(&stories), "0. cave\n");
    let l = users.get(1).unwrap();
    assert_eq!(l.story_name(), "forest");
    assert!(l.current_story_path().is_none());
    assert_eq!(action(&mut users, 1, "west"), "Story doesn't have paths");
    assert_eq!(start_story(&loaded, &mut users, 1), "No story found");
    assert_eq!(clear_story(&mut stories, &mut users, &mut loaded, "forest"), Reply::React('\u{1F44E}'));
}

#[test]
fn clearing_another_story_keeps_the_selected_one() {
    let (mut stories, mut users, mut loaded) = setup();
    load(&mut stories, "cave.story", name("cave"), map_stories_p("[START]dark"));
    start_story(&loaded, &mut users, 1);
    assert_eq!(clear_story(&mut stories, &mut users, &mut loaded, "cave"), Reply::React('\u{1F44D}'));
    assert!(loaded.is_some());
    assert!(users.get(1).unwrap().current_story_path().is_some());
}

#[test]
fn listener_new_and_block_refs() {
    let st = Arc::new(map_stories_p(FOREST).unwrap());
    let head = BlockRef::head_of(&st);
    assert_eq!(head.block, 0);
    let l = StoryListener::new(&head, "forest");
    assert_eq!(l.story_name(), "forest");
    assert_eq!(l.current_story_path().as_ref().unwrap().block, 0);
    assert_eq!(head.share().present(), st.blocks[0].present());
}

#[test]
fn decimal_numbers() {
    assert_eq!(decimal(0), "0");
    assert_eq!(decimal(7), "7");
    assert_eq!(decimal(10), "10");
    assert_eq!(decimal(12345), "12345");
    assert_eq!(decimal(usize::MAX), usize::MAX.to_string());
}

#[test]
fn stories_found_at_start_up() {
    let found = vec![
        (name("forest"), map_stories_p(FOREST)),
        (StoryFileName::NoStem, map_stories_p("[START]skipped")),
        (name("broken"), Err("Error happened during file read: gone".to_string())),
        (StoryFileName::NotUnicode, map_stories_p("[START]first odd")),
        (name("cave"), map_stories_p("[START]dark")),
        (StoryFileName::NotUnicode, map_stories_p("[START]second odd")),
        (name("forest"), map_stories_p("[START]forest again")),
    ];
    let stories = mnemosyne::bot::parse_stories(found);
    assert_eq!(read_loaded(&stories), "0. forest\n1. default-0\n2. cave\n3. default-1\n");
    assert_eq!(stories.get(&"forest".to_string()).unwrap().blocks[0].text, "forest again");
    assert_eq!(stories.get(&"default-1".to_string()).unwrap().blocks[0].text, "second odd");
    assert!(stories.get(&"broken".to_string()).is_none());
}

#[test]
fn a_loaded_name_is_listed() {
    let mut stories = StoryMap::new();
    load(&mut stories, "x/tale.story", name("tale"), map_stories_p("[START]once"));
    assert!(read_loaded(&stories).contains("tale"));
}
