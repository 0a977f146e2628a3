//! The story graph: blocks of text linked by the commands that lead from one
//! block to another.
//!
//! A story is held as an arena: a vector of blocks, and the position of the
//! block where the story starts. A link of a block names the position of
//! the block it leads to, the word that chooses it and its label.

use vstd::prelude::*;

use crate::parser::{
    Path, StoryParse, SpecPath, SpecStoryParse, parses_view, paths_view, spec_story, story,
};

verus! {

broadcast use vstd::string::group_string_axioms;

/// A link out of a block: the position of the block it leads to, the word
/// that chooses it, and its label.
pub type StoryPath = (usize, String, String);

/// The links out of a block.
pub type StoryPaths = Vec<StoryPath>;

/// A block of a story: its id, its text and its links.
#[derive(Debug)]
pub struct StoryBlock {
    pub id: String,
    pub text: String,
    pub path: StoryPaths,
}

/// A story: its blocks, and the position of the block where it starts.
#[derive(Debug)]
pub struct Story {
    pub blocks: Vec<StoryBlock>,
    pub head: usize,
}

/// The value of a link.
pub type SpecLink = (usize, Seq<char>, Seq<char>);

/// The mathematical value of a [`StoryBlock`].
pub struct SpecBlock {
    pub id: Seq<char>,
    pub text: Seq<char>,
    pub path: Seq<SpecLink>,
}

/// The mathematical value of a [`Story`].
pub struct SpecStory {
    pub blocks: Seq<SpecBlock>,
    pub head: int,
}

impl View for StoryBlock {
    type V = SpecBlock;

    open spec fn view(&self) -> SpecBlock {
        SpecBlock {
            id: self.id@,
            text: self.text@,
            path: self.path@.map_values(|p: StoryPath| p@),
        }
    }
}

/// The values of a sequence of blocks.
pub open spec fn blocks_view(v: Seq<StoryBlock>) -> Seq<SpecBlock> {
    v.map_values(|b: StoryBlock| b@)
}

impl View for Story {
    type V = SpecStory;

    open spec fn view(&self) -> SpecStory {
        SpecStory { blocks: blocks_view(self.blocks@), head: self.head as int }
    }
}

impl SpecStory {
    /// The start lies in the story and every link leads to a block of it.
    pub open spec fn wf(self) -> bool {
        &&& 0 <= self.head < self.blocks.len()
        &&& forall|i: int, j: int|
            0 <= i < self.blocks.len() && 0 <= j < self.blocks[i].path.len() ==> (
            #[trigger] self.blocks[i].path[j]).0 < self.blocks.len()
    }
}

impl Story {
    pub open spec fn wf(&self) -> bool {
        self@.wf()
    }
}

// ---------------------------------------------------------------------------
// Building a story from its parsed blocks
// ---------------------------------------------------------------------------

/// The id of the block where every story starts.
pub open spec fn start_id() -> Seq<char> {
    seq!['S', 'T', 'A', 'R', 'T']
}

/// The commands written under every parsed block with the given id, in the
/// order of the file.
pub open spec fn links_for(parsed: Seq<SpecStoryParse>, id: Seq<char>) -> Seq<SpecPath>
    decreases parsed.len(),
{
    if parsed.len() == 0 {
        Seq::empty()
    } else {
        links_for(parsed.drop_last(), id) + if parsed.last().id == id {
            parsed.last().children
        } else {
            Seq::empty()
        }
    }
}

/// The first of the commands that leads to the given id.
pub open spec fn first_link(links: Seq<SpecPath>, target: Seq<char>) -> Option<SpecPath>
    decreases links.len(),
{
    if links.len() == 0 {
        None
    } else if links[0].next_path == target {
        Some(links[0])
    } else {
        first_link(links.drop_first(), target)
    }
}

/// The links of a block whose commands are `links`, to the first `n`
/// parsed blocks: one to each block that some command names, in the order of
/// the blocks, chosen by the first command that names it.
pub open spec fn links_upto(parsed: Seq<SpecStoryParse>, links: Seq<SpecPath>, n: int) -> Seq<
    SpecLink,
>
    decreases n,
{
    if n <= 0 {
        Seq::empty()
    } else {
        links_upto(parsed, links, n - 1) + match first_link(links, parsed[n - 1].id) {
            Some(l) => seq![((n - 1) as usize, l.command, l.label)],
            None => Seq::empty(),
        }
    }
}

/// The block built from the `i`-th parsed block.
pub open spec fn spec_block(parsed: Seq<SpecStoryParse>, i: int) -> SpecBlock {
    SpecBlock {
        id: parsed[i].id,
        text: parsed[i].content,
        path: links_upto(parsed, links_for(parsed, parsed[i].id), parsed.len() as int),
    }
}

/// The last of the first `n` parsed blocks whose id is `START`.
pub open spec fn last_start(parsed: Seq<SpecStoryParse>, n: int) -> Option<int>
    decreases n,
{
    if n <= 0 {
        None
    } else if parsed[n - 1].id == start_id() {
        Some(n - 1)
    } else {
        last_start(parsed, n - 1)
    }
}

/// The story built from parsed blocks: one block for each parsed block,
/// starting at the last block whose id is `START`; an error when there is
/// none.
pub open spec fn spec_build(parsed: Seq<SpecStoryParse>) -> Result<SpecStory, ()> {
    match last_start(parsed, parsed.len() as int) {
        None => Err(()),
        Some(h) => Ok(
            SpecStory { blocks: Seq::new(parsed.len(), |i: int| spec_block(parsed, i)), head: h },
        ),
    }
}

/// Every link built for a block leads to one of the first `n` blocks.
proof fn lemma_links_upto_bounded(parsed: Seq<SpecStoryParse>, links: Seq<SpecPath>, n: int)
    requires
        n <= usize::MAX,
    ensures
        forall|j: int|
            0 <= j < links_upto(parsed, links, n).len() ==> (#[trigger] links_upto(
                parsed,
                links,
                n,
            )[j]).0 < n,
    decreases n,
{
    if n > 0 {
        lemma_links_upto_bounded(parsed, links, n - 1);
        let prev = links_upto(parsed, links, n - 1);
        assert forall|j: int|
            0 <= j < links_upto(parsed, links, n).len() implies (#[trigger] links_upto(
                parsed,
                links,
                n,
            )[j]).0 < n by {
            if j < prev.len() {
                assert(links_upto(parsed, links, n)[j] == prev[j]);
            }
        }
    }
}

/// The start found is one of the first `n` blocks, and its id is `START`.
proof fn lemma_last_start(parsed: Seq<SpecStoryParse>, n: int)
    requires
        n <= parsed.len(),
    ensures
        last_start(parsed, n) matches Some(h) ==> 0 <= h < n && parsed[h].id == start_id(),
    decreases n,
{
    if n > 0 {
        lemma_last_start(parsed, n - 1);
    }
}

/// A built story is well formed: its start lies in it, its id is `START`,
/// and every link leads to one of its blocks.
pub proof fn lemma_build_wf(parsed: Seq<SpecStoryParse>)
    requires
        parsed.len() <= usize::MAX,
    ensures
        spec_build(parsed) matches Ok(st) ==> st.wf() && st.blocks[st.head].id == start_id(),
{
    lemma_last_start(parsed, parsed.len() as int);
    if let Ok(st) = spec_build(parsed) {
        assert forall|i: int, j: int|
            0 <= i < st.blocks.len() && 0 <= j < st.blocks[i].path.len() implies (
            #[trigger] st.blocks[i].path[j]).0 < st.blocks.len() by {
            lemma_links_upto_bounded(parsed, links_for(parsed, parsed[i].id), parsed.len() as int);
        }
    }
}

/// Whether some command written under a block with id `id` is `x`.
pub open spec fn written_under(parsed: Seq<SpecStoryParse>, id: Seq<char>, x: SpecPath) -> bool {
    exists|m: int, c: int|
        0 <= m < parsed.len() && parsed[m].id == id && 0 <= c < parsed[m].children.len()
            && #[trigger] parsed[m].children[c] == x
}

/// Whether some command written under a block with id `id` names `target`.
pub open spec fn names_under(parsed: Seq<SpecStoryParse>, id: Seq<char>, target: Seq<char>) -> bool {
    exists|m: int, c: int|
        0 <= m < parsed.len() && parsed[m].id == id && 0 <= c < parsed[m].children.len()
            && #[trigger] parsed[m].children[c].next_path == target
}

proof fn lemma_links_for_members(parsed: Seq<SpecStoryParse>, id: Seq<char>)
    ensures
        forall|x: SpecPath|
            #![trigger links_for(parsed, id).contains(x)]
            #![trigger written_under(parsed, id, x)]
            links_for(parsed, id).contains(x) <==> written_under(parsed, id, x),
    decreases parsed.len(),
{
    if parsed.len() > 0 {
        let init = parsed.drop_last();
        lemma_links_for_members(init, id);
        let a = links_for(init, id);
        let b = if parsed.last().id == id {
            parsed.last().children
        } else {
            Seq::empty()
        };
        assert(links_for(parsed, id) == a + b);
        assert forall|x: SpecPath| links_for(parsed, id).contains(x) <==> written_under(parsed, id, x) by {
            if links_for(parsed, id).contains(x) {
                let k = choose|k: int| 0 <= k < (a + b).len() && (a + b)[k] == x;
                if k < a.len() {
                    assert(a[k] == x);
                    assert(a.contains(x));
                    assert(written_under(init, id, x));
                    let (m, c) = choose|m: int, c: int|
                        0 <= m < init.len() && init[m].id == id && 0 <= c < init[m].children.len()
                            && #[trigger] init[m].children[c] == x;
                    assert(parsed[m] == init[m]);
                } else {
                    let m = parsed.len() - 1;
                    assert(parsed[m].children[k - a.len()] == x);
                }
            }
            if written_under(parsed, id, x) {
                let (m, c) = choose|m: int, c: int|
                    0 <= m < parsed.len() && parsed[m].id == id && 0 <= c < parsed[m].children.len()
                        && #[trigger] parsed[m].children[c] == x;
                if m < init.len() {
                    assert(init[m] == parsed[m]);
                    assert(init[m].children[c] == x);
                    assert(written_under(init, id, x));
                    assert(a.contains(x));
                    let k = choose|k: int| 0 <= k < a.len() && a[k] == x;
                    assert((a + b)[k] == x);
                } else {
                    assert((a + b)[a.len() + c] == x);
                }
            }
        }
    }
}

proof fn lemma_first_link_members(links: Seq<SpecPath>, target: Seq<char>)
    ensures
        first_link(links, target) is Some <==> exists|k: int|
            0 <= k < links.len() && #[trigger] links[k].next_path == target,
        first_link(links, target) matches Some(l) ==> links.contains(l) && l.next_path == target,
    decreases links.len(),
{
    if links.len() > 0 {
        let rest = links.drop_first();
        lemma_first_link_members(rest, target);
        if links[0].next_path != target {
            if exists|k: int| 0 <= k < links.len() && #[trigger] links[k].next_path == target {
                let k = choose|k: int| 0 <= k < links.len() && #[trigger] links[k].next_path == target;
                assert(rest[k - 1].next_path == target);
            }
            if first_link(rest, target) is Some {
                let k = choose|k: int| 0 <= k < rest.len() && #[trigger] rest[k].next_path == target;
                assert(links[k + 1].next_path == target);
                let l = first_link(rest, target)->0;
                let k2 = choose|k2: int| 0 <= k2 < rest.len() && rest[k2] == l;
                assert(links[k2 + 1] == l);
            }
        } else {
            assert(links[0].next_path == target);
        }
    }
}

proof fn lemma_links_upto_members(parsed: Seq<SpecStoryParse>, links: Seq<SpecPath>, n: int)
    requires
        0 <= n <= parsed.len(),
        n <= usize::MAX,
    ensures
        forall|j: int|
            0 <= j < parsed.len() ==> ((exists|k: int|
                0 <= k < links_upto(parsed, links, n).len() && #[trigger] links_upto(
                    parsed,
                    links,
                    n,
                )[k].0 == j) <==> (j < n && first_link(links, parsed[j].id) is Some)),
        forall|k: int|
            0 <= k < links_upto(parsed, links, n).len() ==> {
                let e = #[trigger] links_upto(parsed, links, n)[k];
                &&& e.0 < n
                &&& first_link(links, parsed[e.0 as int].id) matches Some(l) && l.command == e.1
                    && l.label == e.2
            },
    decreases n,
{
    if n > 0 {
        lemma_links_upto_members(parsed, links, n - 1);
        let prev = links_upto(parsed, links, n - 1);
        let cur = links_upto(parsed, links, n);
        let tail = match first_link(links, parsed[n - 1].id) {
            Some(l) => seq![((n - 1) as usize, l.command, l.label)],
            None => Seq::empty(),
        };
        assert(cur == prev + tail);
        assert forall|j: int| 0 <= j < parsed.len() implies ((exists|k: int|
            0 <= k < cur.len() && #[trigger] cur[k].0 == j) <==> (j < n && first_link(
            links,
            parsed[j].id,
        ) is Some)) by {
            if exists|k: int| 0 <= k < cur.len() && #[trigger] cur[k].0 == j {
                let k = choose|k: int| 0 <= k < cur.len() && #[trigger] cur[k].0 == j;
                if k < prev.len() {
                    assert(prev[k] == cur[k]);
                    assert(prev[k].0 == j);
                }
            }
            if j < n && first_link(links, parsed[j].id) is Some {
                if j < n - 1 {
                    let k = choose|k: int| 0 <= k < prev.len() && #[trigger] prev[k].0 == j;
                    assert(cur[k] == prev[k]);
                } else {
                    assert(cur[prev.len() as int].0 == j);
                }
            }
        }
        assert forall|k: int| 0 <= k < cur.len() implies {
            let e = #[trigger] cur[k];
            &&& e.0 < n
            &&& first_link(links, parsed[e.0 as int].id) matches Some(l) && l.command == e.1
                && l.label == e.2
        } by {
            if k < prev.len() {
                assert(cur[k] == prev[k]);
            }
        }
    }
}

/// A built block has a link to block `j` exactly when some command written
/// under a block with its id names the id of block `j` (whichever block that
/// is, the block itself included), and each of its links is the target,
/// word and label of such a command.
pub proof fn law_block_links(parsed: Seq<SpecStoryParse>, i: int, j: int)
    requires
        parsed.len() <= usize::MAX,
        0 <= i < parsed.len(),
        0 <= j < parsed.len(),
    ensures
        spec_build(parsed) matches Ok(st) ==> {
            let path = st.blocks[i].path;
            &&& (exists|k: int| 0 <= k < path.len() && #[trigger] path[k].0 == j) <==> names_under(
                parsed,
                parsed[i].id,
                parsed[j].id,
            )
            &&& forall|k: int|
                0 <= k < path.len() ==> (#[trigger] path[k]).0 < parsed.len() && written_under(
                    parsed,
                    parsed[i].id,
                    SpecPath {
                        next_path: parsed[path[k].0 as int].id,
                        command: path[k].1,
                        label: path[k].2,
                    },
                )
        },
{
    if let Ok(st) = spec_build(parsed) {
        let id = parsed[i].id;
        let links = links_for(parsed, id);
        assert(st.blocks[i] == spec_block(parsed, i));
        let path = st.blocks[i].path;
        assert(path == links_upto(parsed, links, parsed.len() as int));
        lemma_links_upto_members(parsed, links, parsed.len() as int);
        lemma_links_for_members(parsed, id);
        lemma_first_link_members(links, parsed[j].id);
        if names_under(parsed, id, parsed[j].id) {
            let (m, c) = choose|m: int, c: int|
                0 <= m < parsed.len() && parsed[m].id == id && 0 <= c < parsed[m].children.len()
                    && #[trigger] parsed[m].children[c].next_path == parsed[j].id;
            let x = parsed[m].children[c];
            assert(written_under(parsed, id, x));
            assert(links.contains(x));
            let k = choose|k: int| 0 <= k < links.len() && links[k] == x;
            assert(links[k].next_path == parsed[j].id);
        }
        if first_link(links, parsed[j].id) is Some {
            let l = first_link(links, parsed[j].id)->0;
            assert(links.contains(l));
            assert(written_under(parsed, id, l));
            let (m, c) = choose|m: int, c: int|
                0 <= m < parsed.len() && parsed[m].id == id && 0 <= c < parsed[m].children.len()
                    && #[trigger] parsed[m].children[c] == l;
            assert(parsed[m].children[c].next_path == parsed[j].id);
        }
        assert forall|k: int| 0 <= k < path.len() implies (#[trigger] path[k]).0 < parsed.len()
            && written_under(
            parsed,
            id,
            SpecPath { next_path: parsed[path[k].0 as int].id, command: path[k].1, label: path[k].2 },
        ) by {
            let t = parsed[path[k].0 as int].id;
            lemma_first_link_members(links, t);
            let l = first_link(links, t)->0;
            assert(l == SpecPath { next_path: t, command: path[k].1, label: path[k].2 });
        }
    }
}

/// A copy of a parsed command.
fn copy_path(p: &Path) -> (r: Path)
    ensures
        r@ == p@,
{
    Path { next_path: p.next_path.clone(), command: p.command.clone(), label: p.label.clone() }
}

/// The commands of every parsed block whose id is `id`.
fn collect_links(parsed: &Vec<StoryParse>, id: &String) -> (links: Vec<Path>)
    ensures
        paths_view(links@) == links_for(parses_view(parsed@), id@),
{
    let ghost pv = parses_view(parsed@);
    let mut links: Vec<Path> = Vec::new();
    for k in 0..parsed.len()
        invariant
            pv == parses_view(parsed@),
            paths_view(links@) == links_for(pv.take(k as int), id@),
    {
        assert(pv.take(k + 1).drop_last() =~= pv.take(k as int));
        if parsed[k].id == *id {
            let ghost before = links@;
            let children = &parsed[k].children;
            for c in 0..children.len()
                invariant
                    paths_view(links@) == paths_view(before) + paths_view(children@.take(c as int)),
            {
                let ghost old_links = links@;
                links.push(copy_path(&children[c]));
                assert(children@.take(c + 1) =~= children@.take(c as int).push(children@[c as int]));
                assert(paths_view(children@.take(c + 1)) =~= paths_view(children@.take(c as int)).push(
                    children@[c as int]@,
                ));
                assert(paths_view(links@) =~= paths_view(old_links).push(children@[c as int]@));
                assert(paths_view(links@) =~= paths_view(before) + paths_view(
                    children@.take(c + 1),
                ));
            }
            assert(children@.take(children@.len() as int) =~= children@);
        } else {
            assert(paths_view(links@) =~= paths_view(links@) + Seq::<SpecPath>::empty());
        }
    }
    assert(pv.take(parsed@.len() as int) =~= pv);
    links
}

/// The position of the first command in `links` that leads to `target`.
fn find_link(links: &Vec<Path>, target: &String) -> (r: Option<usize>)
    ensures
        match first_link(paths_view(links@), target@) {
            Some(l) => r matches Some(i) && i < links@.len() && links@[i as int]@ == l,
            None => r is None,
        },
{
    let ghost lv = paths_view(links@);
    assert(lv.skip(0) =~= lv);
    for i in 0..links.len()
        invariant
            lv == paths_view(links@),
            first_link(lv, target@) == first_link(lv.skip(i as int), target@),
    {
        assert(lv.skip(i as int).drop_first() =~= lv.skip(i + 1));
        if links[i].next_path == *target {
            return Some(i);
        }
    }
    None
}

/// The block built from the `i`-th parsed block, with its links to every
/// block.
fn build_block(parsed: &Vec<StoryParse>, i: usize) -> (b: StoryBlock)
    requires
        i < parsed@.len(),
    ensures
        b@ == spec_block(parses_view(parsed@), i as int),
{
    let ghost pv = parses_view(parsed@);
    let links = collect_links(parsed, &parsed[i].id);
    let mut paths: StoryPaths = Vec::new();
    for j in 0..parsed.len()
        invariant
            pv == parses_view(parsed@),
            i < parsed@.len(),
            paths_view(links@) == links_for(pv, pv[i as int].id),
            paths@.map_values(|p: StoryPath| p@) == links_upto(pv, paths_view(links@), j as int),
    {
        let ghost before = paths@;
        match find_link(&links, &parsed[j].id) {
            Some(k) => {
                paths.push((j, links[k].command.clone(), links[k].label.clone()));
                assert(paths@.map_values(|p: StoryPath| p@) =~= before.map_values(
                    |p: StoryPath| p@,
                ).push((j, links@[k as int]@.command, links@[k as int]@.label)));
            },
            None => {
                assert(links_upto(pv, paths_view(links@), j + 1) =~= links_upto(
                    pv,
                    paths_view(links@),
                    j as int,
                ));
            },
        }
    }
    StoryBlock { id: parsed[i].id.clone(), text: parsed[i].content.clone(), path: paths }
}

/// Builds the story of parsed blocks: one block for each, each linked to the
/// blocks that its commands (and those of the blocks that share its id) name,
/// starting at the last block whose id is `START`. Fails with
/// "No story was created" when no block has that id.
pub fn build_story(parsed: &Vec<StoryParse>) -> (res: Result<Story, String>)
    ensures
        match spec_build(parses_view(parsed@)) {
            Ok(st) => res matches Ok(r) && r@ == st,
            Err(_) => res matches Err(e) && e@ == "No story was created"@,
        },
        res matches Ok(r) ==> r.wf() && r@.blocks[r@.head].id == start_id(),
{
    proof {
        assert(parsed@.len() <= usize::MAX);
        lemma_build_wf(parses_view(parsed@));
    }
    let ghost pv = parses_view(parsed@);
    let mut blocks: Vec<StoryBlock> = Vec::new();
    for i in 0..parsed.len()
        invariant
            pv == parses_view(parsed@),
            blocks_view(blocks@) =~= Seq::new(i as nat, |k: int| spec_block(pv, k)),
    {
        let ghost old_blocks = blocks@;
        let b = build_block(parsed, i);
        blocks.push(b);
        assert(blocks_view(blocks@) =~= blocks_view(old_blocks).push(b@));
    }
    let start = String::from_str("START");
    proof {
        reveal_strlit("START");
    }
    let mut head: Option<usize> = None;
    for i in 0..blocks.len()
        invariant
            pv == parses_view(parsed@),
            blocks@.len() == pv.len(),
            blocks_view(blocks@) =~= Seq::new(pv.len(), |k: int| spec_block(pv, k)),
            start@ == start_id(),
            match last_start(pv, i as int) {
                Some(h) => head matches Some(x) && x == h,
                None => head is None,
            },
    {
        assert(blocks_view(blocks@)[i as int] == spec_block(pv, i as int));
        if blocks[i].id == start {
            head = Some(i);
        }
    }
    match head {
        Some(h) => Ok(Story { blocks: blocks, head: h }),
        None => Err(String::from_str("No story was created")),
    }
}

/// The story of a story file, as [`build_story`] builds it from what
/// [`story`] parses.
pub open spec fn spec_map_stories(s: Seq<char>) -> Result<SpecStory, ()> {
    match spec_story(s, 0) {
        Ok((_, parsed)) => spec_build(parsed),
        Err(_) => Err(()),
    }
}

/// Parses the text of a story file and builds its story.
pub fn map_stories_p(file: &str) -> (res: Result<Story, String>)
    ensures
        match spec_map_stories(file@) {
            Ok(st) => res matches Ok(r) && r@ == st,
            Err(_) => res matches Err(e) && e@ == "No story was created"@,
        },
        res matches Ok(r) ==> r.wf() && r@.blocks[r@.head].id == start_id(),
{
    let (_, parsed) = story(file).unwrap();
    build_story(&parsed)
}

// ---------------------------------------------------------------------------
// Presenting a block
// ---------------------------------------------------------------------------

/// One line per link: its word, ` - `, its label.
pub open spec fn present_links(links: Seq<SpecLink>) -> Seq<char>
    decreases links.len(),
{
    if links.len() == 0 {
        Seq::empty()
    } else {
        present_links(links.drop_last()) + links.last().1 + seq![' ', '-', ' '] + links.last().2
            + seq!['\n']
    }
}

/// The text of a block on a line of its own, followed by its links.
pub open spec fn spec_present(b: SpecBlock) -> Seq<char> {
    b.text + seq!['\n'] + present_links(b.path)
}

/// The buttons of a block: for each link, its word (which identifies the
/// button) and its label.
pub open spec fn spec_buttons(b: SpecBlock) -> Seq<(Seq<char>, Seq<char>)> {
    b.path.map_values(|l: SpecLink| (l.1, l.2))
}

/// A block without links is shown as its text on a line; each link added to
/// a block adds, at the end of what is shown, one line with the link's word,
/// ` - ` and its label. So every link of a block is shown, in order.
pub proof fn law_present_lines(b: SpecBlock, l: SpecLink)
    ensures
        spec_present(SpecBlock { path: Seq::empty(), ..b }) == b.text + seq!['\n'],
        spec_present(SpecBlock { path: b.path.push(l), ..b }) == spec_present(b) + l.1 + seq![
            ' ',
            '-',
            ' ',
        ] + l.2 + seq!['\n'],
{
    assert(b.path.push(l).drop_last() =~= b.path);
    assert(spec_present(SpecBlock { path: b.path.push(l), ..b }) =~= spec_present(b) + l.1 + seq![
        ' ',
        '-',
        ' ',
    ] + l.2 + seq!['\n']);
}

impl StoryBlock {
    /// A block with the id and text of a parsed block, and no links yet.
    pub fn from_parse(parse: &StoryParse) -> (b: StoryBlock)
        ensures
            b@.id == parse@.id,
            b@.text == parse@.content,
            b@.path == Seq::<SpecLink>::empty(),
    {
        StoryBlock { id: parse.id.clone(), text: parse.content.clone(), path: Vec::new() }
    }

    /// The message that shows a block: its text, then a line for each link.
    pub fn present(&self) -> (built_story: String)
        ensures
            built_story@ == spec_present(self@),
    {
        proof {
            reveal_strlit("\n");
            reveal_strlit(" - ");
        }
        let ghost links = self@.path;
        let mut built_story = self.text.clone();
        built_story.append("\n");
        for i in 0..self.path.len()
            invariant
                links == self@.path,
                built_story@ == self@.text + seq!['\n'] + present_links(links.take(i as int)),
        {
            assert(links.take(i + 1).drop_last() =~= links.take(i as int));
            let ghost before = built_story@;
            proof {
                reveal_strlit("\n");
                reveal_strlit(" - ");
            }
            let link = &self.path[i];
            assert(links.take(i + 1).last() == link@);
            built_story.append(link.1.as_str());
            built_story.append(" - ");
            built_story.append(link.2.as_str());
            built_story.append("\n");
            assert(built_story@ =~= before + link.1@ + seq![' ', '-', ' '] + link.2@ + seq!['\n']);
            assert(built_story@ =~= self@.text + seq!['\n'] + present_links(links.take(i + 1)));
        }
        assert(links.take(links.len() as int) =~= links);
        built_story
    }

    /// The text of a block, and a button for each of its links.
    pub fn present_interactive(&self) -> (res: (String, Vec<(String, String)>))
        ensures
            res.0@ == self@.text,
            res.1@.map_values(|b: (String, String)| b@) == spec_buttons(self@),
    {
        let mut buttons: Vec<(String, String)> = Vec::new();
        for i in 0..self.path.len()
            invariant
                buttons@.map_values(|b: (String, String)| b@) == spec_buttons(self@).take(i as int),
        {
            let ghost before = buttons@;
            let link = &self.path[i];
            assert(self@.path[i as int] == link@);
            buttons.push((link.1.clone(), link.2.clone()));
            assert(spec_buttons(self@).take(i + 1) =~= spec_buttons(self@).take(i as int).push(
                (link.1@, link.2@),
            ));
            assert(buttons@.map_values(|b: (String, String)| b@) =~= spec_buttons(self@).take(
                i + 1,
            ));
        }
        assert(spec_buttons(self@).take(self@.path.len() as int) =~= spec_buttons(self@));
        (self.text.clone(), buttons)
    }
}

// ---------------------------------------------------------------------------
// Listing the blocks reachable from a block
// ---------------------------------------------------------------------------

/// The ids held by a list of strings.
pub open spec fn vis_view(v: Seq<String>) -> Seq<Seq<char>> {
    v.map_values(|s: String| s@)
}

/// The ids of the blocks at the given positions.
pub open spec fn ids_of(st: SpecStory, a: Seq<usize>) -> Seq<Seq<char>> {
    a.map_values(|i: usize| st.blocks[i as int].id)
}

/// Whether some link of block `from` leads to block `to`.
pub open spec fn links_to(st: SpecStory, from: int, to: int) -> bool {
    exists|j: int|
        0 <= j < st.blocks[from].path.len() && #[trigger] st.blocks[from].path[j].0 == to
}

/// The id of the block that the `j`-th link of block `b` leads to.
pub open spec fn target_id(st: SpecStory, b: int, j: int) -> Seq<char> {
    st.blocks[st.blocks[b].path[j].0 as int].id
}

/// What listing the blocks reachable from `block` has added so far
/// (`added`), given the ids visited before (`v0`) and now (`v1`), when the
/// links of `block` before the `k`-th have been followed:
/// it starts with `block` and lists blocks of the story; the ids visited now
/// are those visited before and those listed; no id is listed twice, and
/// none but that of `block` was visited before; every followed link of a
/// listed block leads to a visited id; every listed block but the first is
/// reached by a link of a block listed before it.
pub open spec fn listing_upto(
    st: SpecStory,
    v0: Seq<Seq<char>>,
    v1: Seq<Seq<char>>,
    block: int,
    added: Seq<usize>,
    k: int,
) -> bool {
    &&& added.len() >= 1
    &&& added[0] == block
    &&& forall|m: int| 0 <= m < added.len() ==> #[trigger] added[m] < st.blocks.len()
    &&& v1.to_set() == v0.to_set() + ids_of(st, added).to_set()
    &&& ids_of(st, added).no_duplicates()
    &&& forall|m: int| 1 <= m < added.len() ==> !v0.contains(#[trigger] ids_of(st, added)[m])
    &&& forall|m: int, j: int|
        0 <= m < added.len() && 0 <= j < st.blocks[added[m] as int].path.len() && (m > 0 || j < k)
            ==> v1.contains(#[trigger] target_id(st, added[m] as int, j))
    &&& forall|m: int|
        1 <= m < added.len() ==> exists|m2: int|
            0 <= m2 < m && links_to(st, #[trigger] added[m2] as int, #[trigger] added[m] as int)
}

/// What listing the blocks reachable from `block` adds, once every link
/// has been followed: every link of a listed block leads to a visited id.
pub open spec fn lists_reachable(
    st: SpecStory,
    v0: Seq<Seq<char>>,
    v1: Seq<Seq<char>>,
    block: int,
    added: Seq<usize>,
) -> bool {
    listing_upto(st, v0, v1, block, added, st.blocks[block].path.len() as int)
}

/// The ids of the story.
pub open spec fn id_set(st: SpecStory) -> Set<Seq<char>> {
    st.blocks.map_values(|b: SpecBlock| b.id).to_set()
}

/// How many ids of the story are not visited.
pub open spec fn unvisited(st: SpecStory, vis: Seq<Seq<char>>) -> nat {
    id_set(st).difference(vis.to_set()).len()
}

/// Twice the unvisited ids, and one more when the block's own id was
/// visited: a listing of the blocks reachable from a block only calls itself
/// on blocks for which this is smaller.
pub open spec fn dfs_measure(st: SpecStory, vis: Seq<Seq<char>>, block: int) -> int {
    2 * unvisited(st, vis) + if vis.contains(st.blocks[block].id) {
        1int
    } else {
        0int
    }
}

/// Visiting, among others, the id of a block of the story leaves fewer ids
/// unvisited: one fewer at least, unless it was visited already.
pub proof fn lemma_unvisited_shrinks(st: SpecStory, va: Seq<Seq<char>>, vb: Seq<Seq<char>>, x: int)
    requires
        0 <= x < st.blocks.len(),
        va.to_set().insert(st.blocks[x].id).subset_of(vb.to_set()),
    ensures
        unvisited(st, vb) + if va.contains(st.blocks[x].id) {
            0int
        } else {
            1int
        } <= unvisited(st, va),
{
    broadcast use vstd::seq_lib::seq_to_set_is_finite;
    let ids = id_set(st);
    let da = ids.difference(va.to_set());
    let db = ids.difference(vb.to_set());
    let xid = st.blocks[x].id;
    vstd::set_lib::lemma_len_subset(da, ids);
    assert(st.blocks.map_values(|b: SpecBlock| b.id)[x] == xid);
    assert(ids.contains(xid));
    if va.contains(xid) {
        assert(db.subset_of(da));
        vstd::set_lib::lemma_len_subset(db, da);
    } else {
        assert(db.subset_of(da.remove(xid)));
        vstd::set_lib::lemma_len_subset(db, da.remove(xid));
        assert(da.contains(xid));
    }
}

/// Fewer ids are unvisited once more are visited.
pub proof fn lemma_unvisited_mono(st: SpecStory, va: Seq<Seq<char>>, vb: Seq<Seq<char>>)
    requires
        va.to_set().subset_of(vb.to_set()),
    ensures
        unvisited(st, vb) <= unvisited(st, va),
{
    broadcast use vstd::seq_lib::seq_to_set_is_finite;
    let ids = id_set(st);
    let da = ids.difference(va.to_set());
    let db = ids.difference(vb.to_set());
    vstd::set_lib::lemma_len_subset(da, ids);
    assert(db.subset_of(da));
    vstd::set_lib::lemma_len_subset(db, da);
}

/// Visiting the id of a block of the story leaves one id fewer unvisited,
/// unless it was visited already.
pub proof fn lemma_unvisited_push(st: SpecStory, vis: Seq<Seq<char>>, b: int)
    requires
        0 <= b < st.blocks.len(),
    ensures
        unvisited(st, vis.push(st.blocks[b].id)) + if vis.contains(st.blocks[b].id) {
            0int
        } else {
            1int
        } <= unvisited(st, vis),
{
    vis.lemma_push_to_set_commute(st.blocks[b].id);
    lemma_unvisited_shrinks(st, vis, vis.push(st.blocks[b].id), b);
}

/// The depth-first listing from block `b` with the ids in `vis` visited:
/// the ids visited afterwards, and the blocks listed. The block itself is
/// listed first and its id visited; then its links are followed in order,
/// each to a block whose id is not yet visited.
pub open spec fn dfs_from(st: SpecStory, b: int, vis: Seq<Seq<char>>) -> (Seq<Seq<char>>, Seq<usize>)
    decreases dfs_measure(st, vis, b), 1int, 0int,
{
    if !(0 <= b < st.blocks.len()) {
        (vis, Seq::empty())
    } else {
        let vis1 = vis.push(st.blocks[b].id);
        proof {
            lemma_unvisited_push(st, vis, b);
        }
        let (v2, r) = dfs_links(st, b, 0, vis1);
        (v2, seq![b as usize] + r)
    }
}

/// Following the links of block `b` from the `k`-th on, with the ids in
/// `vis` visited: the ids visited afterwards, and the blocks listed.
pub open spec fn dfs_links(st: SpecStory, b: int, k: int, vis: Seq<Seq<char>>) -> (
    Seq<Seq<char>>,
    Seq<usize>,
)
    decreases 2 * unvisited(st, vis) + 1, 0int, st.blocks[b].path.len() - k,
{
    if !(0 <= b < st.blocks.len()) || k < 0 || k >= st.blocks[b].path.len() {
        (vis, Seq::empty())
    } else {
        let t = st.blocks[b].path[k].0 as int;
        if vis.contains(st.blocks[t].id) {
            dfs_links(st, b, k + 1, vis)
        } else {
            let (v2, r1) = dfs_from(st, t, vis);
            if vis.to_set().subset_of(v2.to_set()) {
                proof {
                    lemma_unvisited_mono(st, vis, v2);
                }
                let (v3, r2) = dfs_links(st, b, k + 1, v2);
                (v3, r1 + r2)
            } else {
                (v2, r1)
            }
        }
    }
}

/// Following a link to an id already visited keeps the listing as it is.
proof fn lemma_skip_listed(
    st: SpecStory,
    v0: Seq<Seq<char>>,
    v: Seq<Seq<char>>,
    block: int,
    t: int,
    k: int,
    added: Seq<usize>,
)
    requires
        0 <= block < st.blocks.len(),
        0 <= k < st.blocks[block].path.len(),
        st.blocks[block].path[k].0 == t,
        v.contains(st.blocks[t].id),
        listing_upto(st, v0, v, block, added, k),
    ensures
        listing_upto(st, v0, v, block, added, k + 1),
{
    assert forall|m: int, j: int|
        0 <= m < added.len() && 0 <= j < st.blocks[added[m] as int].path.len() && (m > 0 || j < k
            + 1) implies v.contains(#[trigger] target_id(st, added[m] as int, j)) by {
        if m == 0 && j == k {
            assert(target_id(st, added[m] as int, j) == st.blocks[t].id);
        }
    }
}

/// Following a link to an unvisited block appends the listing of the blocks
/// reachable from it.
proof fn lemma_append_listing(
    st: SpecStory,
    v0: Seq<Seq<char>>,
    vm: Seq<Seq<char>>,
    v2: Seq<Seq<char>>,
    block: int,
    t: int,
    k: int,
    r0: Seq<usize>,
    rm: Seq<usize>,
    r2: Seq<usize>,
)
    requires
        st.wf(),
        0 <= block < st.blocks.len(),
        0 <= k < st.blocks[block].path.len(),
        st.blocks[block].path[k].0 == t,
        !vm.contains(st.blocks[t].id),
        rm.len() > r0.len(),
        listing_upto(st, v0, vm, block, rm.skip(r0.len() as int), k),
        r2.len() > rm.len(),
        r2.take(rm.len() as int) == rm,
        lists_reachable(st, vm, v2, t, r2.skip(rm.len() as int)),
    ensures
        r2.take(r0.len() as int) == rm.take(r0.len() as int),
        listing_upto(st, v0, v2, block, r2.skip(r0.len() as int), k + 1),
{
    broadcast use vstd::seq_lib::seq_to_set_is_finite;
    let a = rm.skip(r0.len() as int);
    let b = r2.skip(rm.len() as int);
    let ab = r2.skip(r0.len() as int);
    assert(ab =~= a + b);
    assert(r2.take(r0.len() as int) =~= rm.take(r0.len() as int));
    let ia = ids_of(st, a);
    let ib = ids_of(st, b);
    assert(ids_of(st, ab) =~= ia + ib);
    vstd::seq_lib::seq_to_set_distributes_over_add(ia, ib);
    assert(v2.to_set() =~= v0.to_set() + ids_of(st, ab).to_set());
    assert forall|i: int, j: int| 0 <= i < ia.len() && 0 <= j < ib.len() implies ia[i] != ib[j] by {
        assert(ia.to_set().contains(ia[i]));
        assert(vm.to_set().contains(ia[i]));
        if j == 0 {
            assert(ib[j] == st.blocks[t].id);
        } else {
            assert(!vm.contains(ib[j]));
        }
    }
    vstd::seq_lib::lemma_no_dup_in_concat(ia, ib);
    assert forall|m: int| 1 <= m < ab.len() implies !v0.contains(#[trigger] ids_of(st, ab)[m]) by {
        if m >= a.len() {
            let mb = m - a.len();
            assert(ids_of(st, ab)[m] == ib[mb]);
            if mb == 0 {
                assert(ib[mb] == st.blocks[t].id);
            }
            if v0.contains(ib[mb]) {
                assert(v0.to_set().contains(ib[mb]));
                assert(vm.to_set().contains(ib[mb]));
                assert(vm.contains(ib[mb]));
            }
        } else {
            assert(ids_of(st, ab)[m] == ia[m]);
        }
    }
    assert forall|m: int, j: int|
        0 <= m < ab.len() && 0 <= j < st.blocks[ab[m] as int].path.len() && (m > 0 || j < k + 1)
            implies v2.contains(#[trigger] target_id(st, ab[m] as int, j)) by {
        let x = target_id(st, ab[m] as int, j);
        if m < a.len() {
            assert(ab[m] == a[m]);
            if m == 0 && j == k {
                assert(x == ib[0]);
                assert(ib.to_set().contains(x));
            } else {
                assert(vm.contains(x));
                assert(vm.to_set().contains(x));
            }
            assert(v2.to_set().contains(x));
        } else {
            assert(ab[m] == b[m - a.len()]);
        }
    }
    assert forall|m: int| 0 <= m < ab.len() implies #[trigger] ab[m] < st.blocks.len() by {
        if m < a.len() {
            assert(ab[m] == a[m]);
        } else {
            assert(ab[m] == b[m - a.len()]);
        }
    }
    assert(ab[0] == a[0]);
    assert forall|m: int| 1 <= m < ab.len() implies exists|m2: int|
        0 <= m2 < m && links_to(st, #[trigger] ab[m2] as int, #[trigger] ab[m] as int) by {
        if m < a.len() {
            let m2 = choose|m2: int| 0 <= m2 < m && links_to(st, a[m2] as int, a[m] as int);
            assert(ab[m2] == a[m2] && ab[m] == a[m]);
        } else if m == a.len() {
            assert(ab[m] == t && ab[0] == block);
            assert(st.blocks[block].path[k].0 == t);
            assert(links_to(st, ab[0] as int, ab[m] as int));
        } else {
            let mb = m - a.len();
            let m2 = choose|m2: int| 0 <= m2 < mb && links_to(st, b[m2] as int, b[mb] as int);
            assert(ab[m2 + a.len()] == b[m2] && ab[m] == b[mb]);
        }
    }
}

/// Whether an id is among the visited ones.
fn contains_id(visited: &Vec<String>, id: &String) -> (r: bool)
    ensures
        r == vis_view(visited@).contains(id@),
{
    for i in 0..visited.len()
        invariant
            forall|k: int| 0 <= k < i ==> vis_view(visited@)[k] != id@,
    {
        if visited[i] == *id {
            assert(vis_view(visited@)[i as int] == id@);
            return true;
        }
    }
    false
}

impl StoryBlock {
    /// Lists, after `res`, the blocks reachable from `block` without going
    /// through a block whose id is in `visited`, each id once, depth first;
    /// `block` itself comes first, and the ids listed join `visited`.
    pub fn story_to_list_unique(
        story: &Story,
        block: usize,
        visited: &mut Vec<String>,
        res: &mut Vec<usize>,
    )
        requires
            story.wf(),
            block < story.blocks@.len(),
        ensures
            final(res)@.len() > old(res)@.len(),
            final(res)@.take(old(res)@.len() as int) == old(res)@,
            lists_reachable(
                story@,
                vis_view(old(visited)@),
                vis_view(final(visited)@),
                block as int,
                final(res)@.skip(old(res)@.len() as int),
            ),
            vis_view(final(visited)@) == dfs_from(story@, block as int, vis_view(old(visited)@)).0,
            final(res)@ == old(res)@ + dfs_from(story@, block as int, vis_view(old(visited)@)).1,
        decreases dfs_measure(story@, vis_view(old(visited)@), block as int),
    {
        let ghost st = story@;
        let ghost v0 = vis_view(visited@);
        let ghost r0 = res@;
        let s = story.blocks[block].id.clone();
        visited.push(s);
        res.push(block);
        assert(st.blocks[block as int].id == s@);
        assert(vis_view(visited@) =~= v0.push(s@));
        assert(res@.skip(r0.len() as int) =~= seq![block]);
        assert(ids_of(st, seq![block]) =~= seq![s@]);
        assert(v0.push(s@) =~= v0 + seq![s@]);
        proof {
            vstd::seq_lib::seq_to_set_distributes_over_add(v0, seq![s@]);
        }
        assert(vis_view(visited@).to_set() =~= v0.to_set() + ids_of(st, seq![block]).to_set());
        let n = story.blocks[block].path.len();
        let ghost vis1 = vis_view(visited@);
        assert(res@.subrange(r0.len() + 1int, res@.len() as int) =~= Seq::<usize>::empty());
        assert(dfs_links(st, block as int, 0, vis1).1 =~= Seq::<usize>::empty() + dfs_links(st, block as int, 0, vis1).1);
        for k in 0..n
            invariant
                vis1 == v0.push(st.blocks[block as int].id),
                res@.len() >= r0.len() + 1,
                res@[r0.len() as int] == block,
                dfs_links(st, block as int, 0, vis1).0 == dfs_links(st, block as int, k as int, vis_view(visited@)).0,
                dfs_links(st, block as int, 0, vis1).1 == res@.subrange(r0.len() + 1int, res@.len() as int)
                    + dfs_links(st, block as int, k as int, vis_view(visited@)).1,
                st == story@,
                st.wf(),
                block < st.blocks.len(),
                n == st.blocks[block as int].path.len(),
                res@.len() > r0.len(),
                res@.take(r0.len() as int) == r0,
                v0 == vis_view(old(visited)@),
                listing_upto(st, v0, vis_view(visited@), block as int, res@.skip(r0.len() as int), k as int),
        {
            let t = story.blocks[block].path[k].0;
            assert(st.blocks[block as int].path[k as int].0 == t);
            if !contains_id(visited, &story.blocks[t].id) {
                proof {
                    let added = res@.skip(r0.len() as int);
                    assert(ids_of(st, added)[0] == st.blocks[block as int].id);
                    assert(ids_of(st, added).to_set().contains(st.blocks[block as int].id));
                    assert(v0.to_set().insert(st.blocks[block as int].id).subset_of(vis_view(visited@).to_set()));
                    lemma_unvisited_shrinks(st, v0, vis_view(visited@), block as int);
                }
                let ghost vm = vis_view(visited@);
                let ghost rm = res@;
                StoryBlock::story_to_list_unique(story, t, visited, res);
                proof {
                    lemma_append_listing(st, v0, vm, vis_view(visited@), block as int, t as int, k as int, r0, rm, res@);
                    let v2 = vis_view(visited@);
                    assert(vm.to_set().subset_of(v2.to_set()));
                    let r1 = dfs_from(st, t as int, vm).1;
                    assert(res@ =~= rm + r1);
                    assert(res@[r0.len() as int] == rm[r0.len() as int]);
                    assert(res@.subrange(r0.len() + 1int, res@.len() as int) =~= rm.subrange(r0.len() + 1int, rm.len() as int) + r1);
                    assert(dfs_links(st, block as int, 0, vis1).1 =~= res@.subrange(r0.len() + 1int, res@.len() as int)
                        + dfs_links(st, block as int, k + 1, v2).1);
                }
            } else {
                proof {
                    lemma_skip_listed(st, v0, vis_view(visited@), block as int, t as int, k as int, res@.skip(r0.len() as int));
                }
            }
        }
        proof {
            let acc = res@.subrange(r0.len() + 1int, res@.len() as int);
            assert(dfs_links(st, block as int, 0, vis1).1 =~= acc);
            assert(res@ =~= r0 + (seq![block] + acc));
        }
    }
}

} // verus!
