use mnemosyne::parser::{story, StoryParse};
use mnemosyne::story::{build_story, map_stories_p, Story, StoryBlock};

const FOREST: &str = "[START]
    You enter a forest.
    \\WEST1 (west){You think of going west} 
    \\EAST1 (east){You think of going east}
    \\Lay (lay){You decide to take a rest}
    
    [WEST1]
    You go west
    \\East (east){east}
    ";

fn link(story: &Story, block: usize, i: usize) -> (usize, &str, &str) {
    let l = &story.blocks[block].path[i];
    (l.0, l.1.as_str(), l.2.as_str())
}

#[test]
fn forest_story_links_existing_blocks_only() {
    let st = map_stories_p(FOREST).unwrap();
    assert_eq!(st.blocks.len(), 2);
    assert_eq!(st.head, 0);
    assert_eq!(st.blocks[0].id, "START");
    assert_eq!(st.blocks[1].id, "WEST1");
    // Only the command whose target exists becomes a link.
    assert_eq!(st.blocks[0].path.len(), 1);
    assert_eq!(link(&st, 0, 0), (1, "west", "You think of going west"));
    assert!(st.blocks[1].path.is_empty());
}

#[test]
fn links_follow_block_order_and_first_command() {
    let st = map_stories_p("[START]\\B (b){to b}\\A (a){go a}\\A (aa){again}[A]x\\START (s){start}[B]y").unwrap();
    assert_eq!(st.blocks.len(), 3);
    // Links come in the order of the blocks, each chosen by the first
    // command that names the block.
    assert_eq!(st.blocks[0].path.len(), 2);
    assert_eq!(link(&st, 0, 0), (1, "a", "go a"));
    assert_eq!(link(&st, 0, 1), (2, "b", "to b"));
    assert_eq!(link(&st, 1, 0), (0, "s", "start"));
}

#[test]
fn blocks_sharing_an_id_share_their_commands() {
    let st = map_stories_p("[START]\\B (b){x}[START]\\C (c){y}[B]b\\START (s){s}[C]c").unwrap();
    assert_eq!(st.blocks.len(), 4);
    // The last START block is where the story starts.
    assert_eq!(st.head, 1);
    for b in 0..2 {
        assert_eq!(st.blocks[b].path.len(), 2);
        assert_eq!(link(&st, b, 0), (2, "b", "x"));
        assert_eq!(link(&st, b, 1), (3, "c", "y"));
    }
    // A command to an id that several blocks share links to each of them.
    assert_eq!(st.blocks[2].path.len(), 2);
    assert_eq!(link(&st, 2, 0), (0, "s", "s"));
    assert_eq!(link(&st, 2, 1), (1, "s", "s"));
}

#[test]
fn no_start_block_is_an_error() {
    let e = map_stories_p("[A]x\\B (b){y}[B]z").unwrap_err();
    assert_eq!(e, "No story was created");
    let e = map_stories_p("").unwrap_err();
    assert_eq!(e, "No story was created");
}

#[test]
fn build_from_parsed_blocks() {
    let (_, parsed) = story(FOREST).unwrap();
    let st = build_story(&parsed).unwrap();
    assert_eq!(st.blocks.len(), parsed.len());
    let empty: Vec<StoryParse> = Vec::new();
    assert_eq!(build_story(&empty).unwrap_err(), "No story was created");
}

#[test]
fn present_shows_text_and_choices() {
    let st = map_stories_p(FOREST).unwrap();
    assert_eq!(
        st.blocks[0].present(),
        "\n    You enter a forest.\n    \nwest - You think of going west\n"
    );
    assert_eq!(st.blocks[1].present(), "\n    You go west\n    \n");
}

#[test]
fn present_interactive_gives_buttons() {
    let st = map_stories_p("[START]Go!\\A (a){Left}\\B (b){Right}[A]a\\START (s){s}[B]b").unwrap();
    let (text, buttons) = st.blocks[0].present_interactive();
    assert_eq!(text, "Go!");
    assert_eq!(
        buttons,
        vec![("a".to_string(), "Left".to_string()), ("b".to_string(), "Right".to_string())]
    );
}

#[test]
fn from_parse_copies_id_and_text() {
    let (_, parsed) = story("[X]hello").unwrap();
    let b = StoryBlock::from_parse(&parsed[0]);
    assert_eq!(b.id, "X");
    assert_eq!(b.text, "hello");
    assert!(b.path.is_empty());
}

const GRAPH: &str = "[START]s\\A (a){to a}[A]a\\START (s){back}\\B (b){to b}[B]b\\A (a){to a}[C]c\\START (s){x}";

#[test]
fn list_unique_follows_links_once() {
    let st = map_stories_p(GRAPH).unwrap();
    let mut visited = Vec::new();
    let mut res = Vec::new();
    StoryBlock::story_to_list_unique(&st, st.head, &mut visited, &mut res);
    assert_eq!(res, vec![0, 1, 2]);
    assert_eq!(visited, vec!["START".to_string(), "A".to_string(), "B".to_string()]);
}

#[test]
fn list_unique_skips_visited_ids() {
    let st = map_stories_p(GRAPH).unwrap();
    let mut visited = vec!["A".to_string()];
    let mut res = vec![7];
    StoryBlock::story_to_list_unique(&st, st.head, &mut visited, &mut res);
    assert_eq!(res, vec![7, 0]);

    // The starting block is listed even when its id was visited.
    let mut visited = vec!["C".to_string()];
    let mut res = Vec::new();
    StoryBlock::story_to_list_unique(&st, 3, &mut visited, &mut res);
    assert_eq!(res, vec![3, 0, 1, 2]);
}
