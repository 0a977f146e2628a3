//! The state of the story bot and the decisions of its commands.
//!
//! The bot keeps three things: the stories loaded by name, the story
//! selected to be played (with its name), and, for each user, where that
//! user stands in the story they play. Each command is a function here
//! from that state and the command's arguments to the new state and the
//! answer to send; the chat client around it only reads and sends.

use std::sync::Arc;

use vstd::prelude::*;

use crate::story::{SpecStory, Story, spec_present};

verus! {

broadcast use vstd::string::group_string_axioms;

/// Another pointer to the same shared value.
///
/// Calls `Arc::clone`; the contract claims that the result points to a value
/// equal to the one `a` points to, which std documents as its whole effect.
#[verifier::external_body]
fn share<T>(a: &Arc<T>) -> (r: Arc<T>)
    ensures
        r == *a,
{
    Arc::clone(a)
}

/// A block of a shared story: the story, and the position of the block in it.
#[derive(Debug)]
pub struct BlockRef {
    pub story: Arc<Story>,
    pub block: usize,
}

/// The value of a [`BlockRef`]: the story and the position of the block.
pub type SpecRef = (SpecStory, int);

impl View for BlockRef {
    type V = SpecRef;

    open spec fn view(&self) -> SpecRef {
        ((*self.story)@, self.block as int)
    }
}

/// Whether a reference names a block of a well formed story.
pub open spec fn ref_wf(r: SpecRef) -> bool {
    r.0.wf() && 0 <= r.1 < r.0.blocks.len()
}

impl BlockRef {
    /// A second reference to the same block of the same story.
    pub fn share(&self) -> (r: BlockRef)
        ensures
            r@ == self@,
    {
        BlockRef { story: share(&self.story), block: self.block }
    }

    /// The block where a story starts.
    pub fn head_of(story: &Arc<Story>) -> (r: BlockRef)
        ensures
            r@ == ((**story)@, (**story)@.head),
    {
        BlockRef { story: share(story), block: story.head }
    }

    /// The message that shows the block.
    pub fn present(&self) -> (m: String)
        requires
            ref_wf(self@),
        ensures
            m@ == spec_present(self@.0.blocks[self@.1]),
    {
        assert(crate::story::blocks_view(self.story.blocks@)[self.block as int] == self.story.blocks@[self.block as int]@);
        self.story.blocks[self.block].present()
    }
}

/// Where a user stands: the name of the story they play, and the block they
/// are at (none once the story has been cleared).
#[derive(Debug)]
pub struct StoryListener {
    story_name: String,
    current_story_path: Option<BlockRef>,
}

/// The value of a [`StoryListener`].
pub struct SpecListener {
    pub story_name: Seq<char>,
    pub current: Option<SpecRef>,
}

impl View for StoryListener {
    type V = SpecListener;

    closed spec fn view(&self) -> SpecListener {
        SpecListener {
            story_name: self.story_name@,
            current: match self.current_story_path {
                Some(r) => Some(r@),
                None => None,
            },
        }
    }
}

/// Whether the block a listener stands at, if any, is a block of a well
/// formed story.
pub open spec fn listener_wf(l: SpecListener) -> bool {
    l.current matches Some(r) ==> ref_wf(r)
}

impl StoryListener {
    /// A user standing at `story` in the story named `story_name`.
    pub fn new(story: &BlockRef, story_name: &str) -> (l: StoryListener)
        ensures
            l@ == (SpecListener { story_name: story_name@, current: Some(story@) }),
    {
        StoryListener {
            story_name: String::from_str(story_name),
            current_story_path: Some(story.share()),
        }
    }

    /// The name of the story the user plays.
    pub fn story_name(&self) -> (r: &String)
        ensures
            r@ == self@.story_name,
    {
        &self.story_name
    }

    /// The block the user stands at, if any.
    pub fn current_story_path(&self) -> (r: &Option<BlockRef>)
        ensures
            match *r {
                Some(b) => self@.current == Some(b@),
                None => self@.current is None,
            },
    {
        &self.current_story_path
    }
}

// ---------------------------------------------------------------------------
// The users and where they stand
// ---------------------------------------------------------------------------

/// For each user (by id), where that user stands.
#[derive(Debug)]
pub struct UserListenerMap {
    entries: Vec<(u64, StoryListener)>,
}

/// The position of key `k` among `keys` (meaningful when it occurs).
pub open spec fn position_of<K>(keys: Seq<K>, k: K) -> int {
    choose|i: int| 0 <= i < keys.len() && keys[i] == k
}

impl UserListenerMap {
    /// The users, in the order kept.
    pub closed spec fn keys(&self) -> Seq<u64> {
        self.entries@.map_values(|e: (u64, StoryListener)| e.0)
    }

    /// No user occurs twice, and every listener stands in a well formed
    /// story.
    pub closed spec fn wf(&self) -> bool {
        &&& self.keys().no_duplicates()
        &&& forall|i: int| 0 <= i < self.entries@.len() ==> listener_wf(#[trigger] self.entries@[i].1@)
    }

    /// Where each user stands.
    pub closed spec fn view(&self) -> Map<u64, SpecListener> {
        Map::new(
            |k: u64| self.keys().contains(k),
            |k: u64| self.entries@[position_of(self.keys(), k)].1@,
        )
    }

    /// The users kept are those who have started a story, each once.
    pub proof fn lemma_keys(&self)
        requires
            self.wf(),
        ensures
            self.keys().no_duplicates(),
            forall|k: u64| #[trigger] self.keys().contains(k) <==> self.view().contains_key(k),
    {
    }

    /// No user has started a story.
    pub fn new() -> (m: UserListenerMap)
        ensures
            m.wf(),
            m.view() == Map::<u64, SpecListener>::empty(),
    {
        let m = UserListenerMap { entries: Vec::new() };
        assert(m.view() =~= Map::<u64, SpecListener>::empty());
        m
    }

    fn find(&self, user: u64) -> (r: Option<usize>)
        requires
            self.wf(),
        ensures
            match r {
                Some(i) => i < self.entries@.len() && self.keys()[i as int] == user
                    && position_of(self.keys(), user) == i,
                None => !self.keys().contains(user),
            },
    {
        for i in 0..self.entries.len()
            invariant
                self.wf(),
                forall|k: int| 0 <= k < i ==> self.keys()[k] != user,
        {
            if self.entries[i].0 == user {
                assert(self.keys()[i as int] == user);
                let ghost p = position_of(self.keys(), user);
                assert(self.keys().contains(user));
                assert(p == i);
                return Some(i);
            }
        }
        None
    }

    /// Where a user stands, if the user has started a story.
    pub fn get(&self, user: u64) -> (r: Option<&StoryListener>)
        requires
            self.wf(),
        ensures
            match r {
                Some(l) => self.view().contains_key(user) && self.view()[user] == l@,
                None => !self.view().contains_key(user),
            },
    {
        match self.find(user) {
            Some(i) => Some(&self.entries[i].1),
            None => None,
        }
    }

    /// Sets where a user stands.
    pub fn insert(&mut self, user: u64, listener: StoryListener)
        requires
            old(self).wf(),
            listener_wf(listener@),
        ensures
            final(self).wf(),
            final(self).view() == old(self).view().insert(user, listener@),
    {
        let ghost lv = listener@;
        match self.find(user) {
            Some(i) => {
                let ghost old_entries = self.entries@;
                self.entries.set(i, (user, listener));
                assert(self.keys() =~= old(self).keys());
                assert(self.view() =~= old(self).view().insert(user, lv)) by {
                    assert forall|k: u64| #[trigger] self.keys().contains(k) implies self.entries@[position_of(self.keys(), k)].1@ == old(self).view().insert(user, lv)[k] by {
                        let p = position_of(self.keys(), k);
                        assert(0 <= p < self.keys().len() && self.keys()[p] == k);
                        if k != user {
                            assert(p != i);
                        }
                    }
                }
            },
            None => {
                self.entries.push((user, listener));
                assert(self.keys() =~= old(self).keys().push(user));
                assert(self.view() =~= old(self).view().insert(user, lv)) by {
                    assert forall|k: u64| #[trigger] self.keys().contains(k) implies self.entries@[position_of(self.keys(), k)].1@ == old(self).view().insert(user, lv)[k] by {
                        let p = position_of(self.keys(), k);
                        assert(0 <= p < self.keys().len() && self.keys()[p] == k);
                        if k != user {
                            assert(old(self).keys().contains(k)) by {
                                assert(old(self).keys()[p] == k);
                            }
                            let q = position_of(old(self).keys(), k);
                            assert(old(self).keys()[q] == k);
                            assert(self.keys()[q] == k);
                        } else {
                            assert(p == self.keys().len() - 1);
                        }
                    }
                    assert forall|k: u64| #[trigger] self.keys().contains(k) <==> old(self).view().insert(user, lv).contains_key(k) by {
                        if old(self).keys().contains(k) {
                            let q = choose|q: int| 0 <= q < old(self).keys().len() && old(self).keys()[q] == k;
                            assert(self.keys()[q] == k);
                        }
                        if k == user {
                            assert(self.keys()[self.keys().len() - 1] == user);
                        }
                        if self.keys().contains(k) && k != user {
                            let q = choose|q: int| 0 <= q < self.keys().len() && self.keys()[q] == k;
                            assert(old(self).keys()[q] == k);
                        }
                    }
                }
            },
        }
    }
}

impl UserListenerMap {
    /// Every user playing the story named `name` no longer stands anywhere;
    /// the others stand where they stood.
    pub fn clear_story_name(&mut self, name: &String)
        requires
            old(self).wf(),
        ensures
            final(self).wf(),
            final(self).view() == cleared(old(self).view(), name@),
    {
        let ghost old_self = *self;
        let n = self.entries.len();
        for i in 0..n
            invariant
                n == self.entries@.len(),
                self.keys() == old_self.keys(),
                old_self.wf(),
                self.wf(),
                forall|k: int|
                    0 <= k < n ==> #[trigger] self.entries@[k].1@ == if k < i {
                        clear_one(old_self.entries@[k].1@, name@)
                    } else {
                        old_self.entries@[k].1@
                    },
        {
            let ghost before_all = self.entries@;
            assert(before_all[i as int].1@ == old_self.entries@[i as int].1@);
            if self.entries[i].1.story_name == *name {
                let key = self.entries[i].0;
                let story_name = self.entries[i].1.story_name.clone();
                let ghost before = self.entries@;
                self.entries.set(i, (key, StoryListener { story_name: story_name, current_story_path: None }));
                assert(self.keys() =~= old_self.keys()) by {
                    assert forall|k: int| 0 <= k < n implies #[trigger] self.keys()[k] == old_self.keys()[k] by {
                        assert(before.map_values(|e: (u64, StoryListener)| e.0)[k] == old_self.keys()[k]);
                    }
                }
                assert(self.entries@[i as int].1@ == clear_one(old_self.entries@[i as int].1@, name@));
            } else {
                assert(self.entries@[i as int].1@ == clear_one(old_self.entries@[i as int].1@, name@));
            }
            assert forall|k: int| 0 <= k < n implies #[trigger] self.entries@[k].1@ == if k < i + 1 {
                clear_one(old_self.entries@[k].1@, name@)
            } else {
                old_self.entries@[k].1@
            } by {
                if k != i {
                    assert(self.entries@[k] == before_all[k]);
                }
            }
        }
        assert(self.view() =~= cleared(old_self.view(), name@)) by {
            assert forall|k: u64| #[trigger] self.keys().contains(k) implies self.view()[k] == cleared(old_self.view(), name@)[k] by {
                let p = position_of(self.keys(), k);
                assert(self.keys()[p] == k);
            }
        }
    }
}

/// A listener of the story named `name` stands nowhere; others are kept.
pub open spec fn clear_one(l: SpecListener, name: Seq<char>) -> SpecListener {
    if l.story_name == name {
        SpecListener { story_name: l.story_name, current: None }
    } else {
        l
    }
}

/// Where users stand once the story named `name` has been cleared.
pub open spec fn cleared(users: Map<u64, SpecListener>, name: Seq<char>) -> Map<u64, SpecListener> {
    Map::new(|k: u64| users.contains_key(k), |k: u64| clear_one(users[k], name))
}

// ---------------------------------------------------------------------------
// The stories loaded by name
// ---------------------------------------------------------------------------

/// The loaded stories, by name.
#[derive(Debug)]
pub struct StoryMap {
    entries: Vec<(String, Arc<Story>)>,
}

impl StoryMap {
    /// The names of the stories, in the order kept.
    pub closed spec fn keys(&self) -> Seq<Seq<char>> {
        self.entries@.map_values(|e: (String, Arc<Story>)| e.0@)
    }

    /// No name occurs twice, and every story is well formed.
    pub closed spec fn wf(&self) -> bool {
        &&& self.keys().no_duplicates()
        &&& forall|i: int| 0 <= i < self.entries@.len() ==> (#[trigger] self.entries@[i].1)@.wf()
    }

    /// The story under each name.
    pub closed spec fn view(&self) -> Map<Seq<char>, SpecStory> {
        Map::new(
            |k: Seq<char>| self.keys().contains(k),
            |k: Seq<char>| self.entries@[position_of(self.keys(), k)].1@,
        )
    }

    /// The names kept are those of the stories loaded, each once.
    pub proof fn lemma_keys(&self)
        requires
            self.wf(),
        ensures
            self.keys().no_duplicates(),
            forall|k: Seq<char>| #[trigger] self.keys().contains(k) <==> self.view().contains_key(k),
    {
    }

    /// No story is loaded.
    pub fn new() -> (m: StoryMap)
        ensures
            m.wf(),
            m.view() == Map::<Seq<char>, SpecStory>::empty(),
            m.keys() == Seq::<Seq<char>>::empty(),
    {
        let m = StoryMap { entries: Vec::new() };
        assert(m.view() =~= Map::<Seq<char>, SpecStory>::empty());
        assert(m.keys() =~= Seq::<Seq<char>>::empty());
        m
    }

    /// The number of stories loaded.
    pub fn len(&self) -> (n: usize)
        ensures
            n == self.keys().len(),
    {
        self.entries.len()
    }

    /// The name of the `i`-th story.
    pub fn name(&self, i: usize) -> (r: &String)
        requires
            i < self.keys().len(),
        ensures
            r@ == self.keys()[i as int],
    {
        &self.entries[i].0
    }

    fn find(&self, name: &String) -> (r: Option<usize>)
        requires
            self.wf(),
        ensures
            match r {
                Some(i) => i < self.entries@.len() && self.keys()[i as int] == name@
                    && position_of(self.keys(), name@) == i,
                None => !self.keys().contains(name@),
            },
    {
        for i in 0..self.entries.len()
            invariant
                self.wf(),
                forall|k: int| 0 <= k < i ==> self.keys()[k] != name@,
        {
            if self.entries[i].0 == *name {
                assert(self.keys()[i as int] == name@);
                let ghost p = position_of(self.keys(), name@);
                assert(self.keys().contains(name@));
                assert(p == i);
                return Some(i);
            }
        }
        None
    }

    /// The story loaded under a name, if any.
    pub fn get(&self, name: &String) -> (r: Option<&Arc<Story>>)
        requires
            self.wf(),
        ensures
            match r {
                Some(st) => self.view().contains_key(name@) && self.view()[name@] == (**st)@
                    && (**st)@.wf(),
                None => !self.view().contains_key(name@),
            },
    {
        match self.find(name) {
            Some(i) => Some(&self.entries[i].1),
            None => None,
        }
    }

    /// Loads a story under a name, in place of any story loaded under it.
    pub fn insert(&mut self, name: String, story: Arc<Story>)
        requires
            old(self).wf(),
            (*story)@.wf(),
        ensures
            final(self).wf(),
            final(self).view() == old(self).view().insert(name@, (*story)@),
            old(self).view().contains_key(name@) ==> final(self).keys() == old(self).keys(),
            !old(self).view().contains_key(name@) ==> final(self).keys() == old(self).keys().push(
                name@,
            ),
    {
        let ghost nv = name@;
        let ghost sv = (*story)@;
        match self.find(&name) {
            Some(i) => {
                self.entries.set(i, (name, story));
                assert(self.keys() =~= old(self).keys());
                assert(self.view() =~= old(self).view().insert(nv, sv)) by {
                    assert forall|k: Seq<char>| #[trigger] self.keys().contains(k) implies self.entries@[position_of(self.keys(), k)].1@ == old(self).view().insert(nv, sv)[k] by {
                        let p = position_of(self.keys(), k);
                        assert(0 <= p < self.keys().len() && self.keys()[p] == k);
                        if k != nv {
                            assert(p != i);
                        }
                    }
                }
            },
            None => {
                self.entries.push((name, story));
                assert(self.keys() =~= old(self).keys().push(nv));
                assert(self.view() =~= old(self).view().insert(nv, sv)) by {
                    assert forall|k: Seq<char>| #[trigger] self.keys().contains(k) implies self.entries@[position_of(self.keys(), k)].1@ == old(self).view().insert(nv, sv)[k] by {
                        let p = position_of(self.keys(), k);
                        assert(0 <= p < self.keys().len() && self.keys()[p] == k);
                        if k != nv {
                            assert(old(self).keys().contains(k)) by {
                                assert(old(self).keys()[p] == k);
                            }
                            let q = position_of(old(self).keys(), k);
                            assert(old(self).keys()[q] == k);
                            assert(self.keys()[q] == k);
                        } else {
                            assert(p == self.keys().len() - 1);
                        }
                    }
                    assert forall|k: Seq<char>| #[trigger] self.keys().contains(k) <==> old(self).view().insert(nv, sv).contains_key(k) by {
                        if old(self).keys().contains(k) {
                            let q = choose|q: int| 0 <= q < old(self).keys().len() && old(self).keys()[q] == k;
                            assert(self.keys()[q] == k);
                        }
                        if k == nv {
                            assert(self.keys()[self.keys().len() - 1] == nv);
                        }
                        if self.keys().contains(k) && k != nv {
                            let q = choose|q: int| 0 <= q < self.keys().len() && self.keys()[q] == k;
                            assert(old(self).keys()[q] == k);
                        }
                    }
                }
            },
        }
    }

    /// Unloads the story under a name, and returns it.
    pub fn remove(&mut self, name: &String) -> (r: Option<Arc<Story>>)
        requires
            old(self).wf(),
        ensures
            final(self).wf(),
            final(self).view() == old(self).view().remove(name@),
            match r {
                Some(st) => old(self).view().contains_key(name@) && old(self).view()[name@] == (*st)@
                    && final(self).keys() == old(self).keys().remove(
                    position_of(old(self).keys(), name@),
                ),
                None => !old(self).view().contains_key(name@) && final(self).keys() == old(self).keys(),
            },
    {
        match self.find(name) {
            Some(i) => {
                let ghost ok = old(self).keys();
                let (_, st) = self.entries.remove(i);
                assert(self.keys() =~= ok.remove(i as int));
                assert(self.view() =~= old(self).view().remove(name@)) by {
                    assert forall|k: Seq<char>| #[trigger] self.keys().contains(k) implies self.entries@[position_of(self.keys(), k)].1@ == old(self).view()[k] && k != name@ by {
                        let p = position_of(self.keys(), k);
                        assert(0 <= p < self.keys().len() && self.keys()[p] == k);
                        let q = if p < i { p } else { p + 1 };
                        assert(ok[q] == k);
                        assert(q != i);
                        let q2 = position_of(ok, k);
                        assert(ok[q2] == k);
                    }
                    assert forall|k: Seq<char>| #[trigger] self.keys().contains(k) <==> old(self).view().remove(name@).contains_key(k) by {
                        if ok.contains(k) && k != name@ {
                            let q = choose|q: int| 0 <= q < ok.len() && ok[q] == k;
                            assert(q != i);
                            if q < i {
                                assert(self.keys()[q] == k);
                            } else {
                                assert(self.keys()[q - 1] == k);
                            }
                        }
                        if self.keys().contains(k) {
                            let p = choose|p: int| 0 <= p < self.keys().len() && self.keys()[p] == k;
                            let q = if p < i { p } else { p + 1 };
                            assert(ok[q] == k);
                        }
                    }
                }
                Some(st)
            },
            None => {
                assert(self.view() =~= old(self).view().remove(name@));
                None
            },
        }
    }
}

// ---------------------------------------------------------------------------
// Numbers in messages
// ---------------------------------------------------------------------------

/// The character of a decimal digit.
pub open spec fn digit_char(d: nat) -> char {
    (d + 48) as char
}

/// The decimal digits of a number, most significant first.
pub open spec fn spec_decimal(n: nat) -> Seq<char>
    decreases n,
{
    if n < 10 {
        seq![digit_char(n)]
    } else {
        spec_decimal(n / 10) + seq![digit_char(n % 10)]
    }
}

fn digit_str(d: usize) -> (s: &'static str)
    requires
        d < 10,
    ensures
        s@ == seq![digit_char(d as nat)],
{
    proof {
        reveal_strlit("0");
        reveal_strlit("1");
        reveal_strlit("2");
        reveal_strlit("3");
        reveal_strlit("4");
        reveal_strlit("5");
        reveal_strlit("6");
        reveal_strlit("7");
        reveal_strlit("8");
        reveal_strlit("9");
    }
    match d {
        0 => "0",
        1 => "1",
        2 => "2",
        3 => "3",
        4 => "4",
        5 => "5",
        6 => "6",
        7 => "7",
        8 => "8",
        _ => "9",
    }
}

/// A number written in decimal.
pub fn decimal(n: usize) -> (s: String)
    ensures
        s@ == spec_decimal(n as nat),
    decreases n,
{
    if n < 10 {
        String::from_str(digit_str(n))
    } else {
        let mut s = decimal(n / 10);
        s.append(digit_str(n % 10));
        s
    }
}

// ---------------------------------------------------------------------------
// The commands
// ---------------------------------------------------------------------------

/// The story selected to be played: the block where it starts, and its name.
pub type LoadedStory = Option<(BlockRef, String)>;

/// The value of the selected story.
pub type SpecLoaded = Option<(SpecRef, Seq<char>)>;

pub open spec fn loaded_view(l: LoadedStory) -> SpecLoaded {
    match l {
        Some((r, name)) => Some((r@, name@)),
        None => None,
    }
}

/// Whether the selected story, if any, starts at a block of a well formed
/// story.
pub open spec fn loaded_wf(l: SpecLoaded) -> bool {
    l matches Some((r, _)) ==> ref_wf(r)
}

/// An answer to a command: a message, or a reaction with an emoji.
#[derive(Debug, Clone, PartialEq, Eq)]
pub enum Reply {
    Text(String),
    React(char),
}

/// The value of a [`Reply`].
pub enum SpecReply {
    Text(Seq<char>),
    React(char),
}

pub open spec fn reply_view(r: Reply) -> SpecReply {
    match r {
        Reply::Text(m) => SpecReply::Text(m@),
        Reply::React(c) => SpecReply::React(c),
    }
}

/// The reaction to a story cleared.
pub open spec fn thumbs_up() -> char {
    '\u{1F44D}'
}

/// The reaction to a story that is not loaded.
pub open spec fn thumbs_down() -> char {
    '\u{1F44E}'
}

/// The answer to a command that misses the name of a story or of a file.
pub open spec fn no_path_message() -> Seq<char> {
    "Error occurred during parsing of the command. (File path not supplied?)"@
}

/// Starting the selected story: the user stands at its start and is shown
/// it; without a selected story, nothing changes.
pub open spec fn spec_start_story(loaded: SpecLoaded, users: Map<u64, SpecListener>, author: u64) -> (
    Map<u64, SpecListener>,
    Seq<char>,
) {
    match loaded {
        None => (users, "No story found"@),
        Some((r, name)) => (
            users.insert(author, SpecListener { story_name: name, current: Some(r) }),
            spec_present(r.0.blocks[r.1]),
        ),
    }
}

/// The last of the first `n` links whose word is `command`.
pub open spec fn last_command(links: Seq<crate::story::SpecLink>, command: Seq<char>, n: int) -> Option<int>
    decreases n,
{
    if n <= 0 {
        None
    } else if links[n - 1].1 == command {
        Some(n - 1)
    } else {
        last_command(links, command, n - 1)
    }
}

proof fn lemma_last_command(links: Seq<crate::story::SpecLink>, command: Seq<char>, n: int)
    requires
        n <= links.len(),
    ensures
        last_command(links, command, n) matches Some(j) ==> 0 <= j < n && links[j].1 == command,
    decreases n,
{
    if n > 0 {
        lemma_last_command(links, command, n - 1);
    }
}

/// Choosing a word: the user moves along the last link of their block
/// with that word and is shown the block it leads to. Without a story
/// started, a block, or such a link, nothing changes and the answer is an
/// error (empty when no link has the word).
pub open spec fn spec_action_response(users: Map<u64, SpecListener>, author: u64, command: Seq<char>) -> (
    Map<u64, SpecListener>,
    Result<Seq<char>, Seq<char>>,
) {
    if !users.contains_key(author) {
        (users, Err("User hasn't started the story yet"@))
    } else {
        match users[author].current {
            None => (users, Err("Story doesn't have paths"@)),
            Some(r) => {
                let links = r.0.blocks[r.1].path;
                match last_command(links, command, links.len() as int) {
                    None => (users, Err(Seq::empty())),
                    Some(j) => {
                        let next: SpecRef = (r.0, links[j].0 as int);
                        (
                            users.insert(
                                author,
                                SpecListener { story_name: users[author].story_name, current: Some(next) },
                            ),
                            Ok(spec_present(next.0.blocks[next.1])),
                        )
                    },
                }
            },
        }
    }
}

/// Selecting a story by name: it becomes the story played.
pub open spec fn spec_set_story(stories: Map<Seq<char>, SpecStory>, loaded: SpecLoaded, name: Seq<char>) -> (
    SpecLoaded,
    Seq<char>,
) {
    if name.len() == 0 {
        (loaded, no_path_message())
    } else if !stories.contains_key(name) {
        (loaded, "There is no such story"@)
    } else {
        (Some(((stories[name], stories[name].head), name)), "Loaded the story"@)
    }
}

/// Clearing a story by name: it is unloaded, no one stands in it any more,
/// and it is no longer the story played.
pub open spec fn spec_clear_story(
    stories: Map<Seq<char>, SpecStory>,
    users: Map<u64, SpecListener>,
    loaded: SpecLoaded,
    name: Seq<char>,
) -> (Map<Seq<char>, SpecStory>, Map<u64, SpecListener>, SpecLoaded, SpecReply) {
    if name.len() == 0 {
        (stories, users, loaded, SpecReply::Text("No story name provided"@))
    } else if !stories.contains_key(name) {
        (stories, users, loaded, SpecReply::React(thumbs_down()))
    } else {
        (
            stories.remove(name),
            cleared(users, name),
            if loaded matches Some((_, n)) && n == name {
                None
            } else {
                loaded
            },
            SpecReply::React(thumbs_up()),
        )
    }
}

/// `start_story`: the user who sent it starts the selected story.
pub fn start_story(loaded: &LoadedStory, users: &mut UserListenerMap, author: u64) -> (response: String)
    requires
        old(users).wf(),
        loaded_wf(loaded_view(*loaded)),
    ensures
        final(users).wf(),
        (final(users).view(), response@) == spec_start_story(loaded_view(*loaded), old(users).view(), author),
{
    match loaded {
        None => String::from_str("No story found"),
        Some((story, story_name)) => {
            let new_story = StoryListener::new(story, story_name.as_str());
            let content = story.present();
            users.insert(author, new_story);
            content
        },
    }
}

/// Where the user who chose `command_name` moves, and what they are shown.
pub fn get_action_response(users: &mut UserListenerMap, author_id: u64, command_name: &str) -> (res: Result<String, String>)
    requires
        old(users).wf(),
    ensures
        final(users).wf(),
        final(users).view() == spec_action_response(old(users).view(), author_id, command_name@).0,
        match spec_action_response(old(users).view(), author_id, command_name@).1 {
            Ok(m) => res matches Ok(r) && r@ == m,
            Err(m) => res matches Err(r) && r@ == m,
        },
{
    let command = String::from_str(command_name);
    let user = users.get(author_id);
    let next = match user {
        None => return Err(String::from_str("User hasn't started the story yet")),
        Some(user_prime) => {
            match user_prime.current_story_path() {
                None => return Err(String::from_str("Story doesn't have paths")),
                Some(val) => {
                    let ghost r = val@;
                    assert(listener_wf(users.view()[author_id]));
                    let block = &val.story.blocks[val.block];
                    assert(crate::story::blocks_view(val.story.blocks@)[val.block as int] == block@);
                    let ghost links = block@.path;
                    let mut index: Option<usize> = None;
                    for i in 0..block.path.len()
                        invariant
                            links == block@.path,
                            match last_command(links, command@, i as int) {
                                Some(j) => index matches Some(x) && x == j,
                                None => index is None,
                            },
                    {
                        assert(links[i as int] == block.path@[i as int]@);
                        if block.path[i].1 == command {
                            index = Some(i);
                        }
                    }
                    proof {
                        lemma_last_command(links, command@, links.len() as int);
                    }
                    match index {
                        None => return Err(String::new()),
                        Some(j) => {
                            assert(links[j as int] == block.path@[j as int]@);
                            let target = BlockRef { story: share(&val.story), block: block.path[j].0 };
                            StoryListener::new(&target, user_prime.story_name().as_str())
                        },
                    }
                },
            }
        },
    };
    let message = match next.current_story_path() {
        Some(b) => b.present(),
        None => String::new(),
    };
    users.insert(author_id, next);
    Ok(message)
}

/// `action`: the user who sent it chooses a word.
pub fn action(users: &mut UserListenerMap, author_id: u64, command_name: &str) -> (response: String)
    requires
        old(users).wf(),
    ensures
        final(users).wf(),
        command_name@.len() == 0 ==> response@ == "invalid command"@ && final(users).view() == old(users).view(),
        command_name@.len() > 0 ==> final(users).view() == spec_action_response(old(users).view(), author_id, command_name@).0
            && match spec_action_response(old(users).view(), author_id, command_name@).1 {
                Ok(m) => response@ == m,
                Err(m) => response@ == m,
            },
{
    if command_name.is_empty() {
        return String::from_str("invalid command");
    }
    match get_action_response(users, author_id, command_name) {
        Ok(m) => m,
        Err(m) => m,
    }
}

/// `set_story`: selects the story loaded under `story_name` to be played.
pub fn set_story(stories: &StoryMap, loaded: &mut LoadedStory, story_name: &str) -> (response: String)
    requires
        stories.wf(),
        loaded_wf(loaded_view(*old(loaded))),
    ensures
        loaded_wf(loaded_view(*final(loaded))),
        (loaded_view(*final(loaded)), response@) == spec_set_story(stories.view(), loaded_view(*old(loaded)), story_name@),
{
    if story_name.is_empty() {
        return String::from_str("Error occurred during parsing of the command. (File path not supplied?)");
    }
    let name = String::from_str(story_name);
    match stories.get(&name) {
        None => String::from_str("There is no such story"),
        Some(story) => {
            *loaded = Some((BlockRef::head_of(story), name));
            String::from_str("Loaded the story")
        },
    }
}

/// `clear_story`: unloads the story loaded under `story_name`; no user
/// stands in it any more, and it is no longer the story played.
pub fn clear_story(
    stories: &mut StoryMap,
    users: &mut UserListenerMap,
    loaded: &mut LoadedStory,
    story_name: &str,
) -> (reply: Reply)
    requires
        old(stories).wf(),
        old(users).wf(),
        loaded_wf(loaded_view(*old(loaded))),
    ensures
        final(stories).wf(),
        final(users).wf(),
        loaded_wf(loaded_view(*final(loaded))),
        (final(stories).view(), final(users).view(), loaded_view(*final(loaded)), reply_view(reply))
            == spec_clear_story(old(stories).view(), old(users).view(), loaded_view(*old(loaded)), story_name@),
{
    if story_name.is_empty() {
        return Reply::Text(String::from_str("No story name provided"));
    }
    let name = String::from_str(story_name);
    match stories.remove(&name) {
        Some(_story) => {
            users.clear_story_name(&name);
            let remove = match &*loaded {
                Some((_, n)) => *n == name,
                None => false,
            };
            if remove {
                *loaded = None;
            }
            Reply::React('\u{1F44D}')
        },
        None => Reply::React('\u{1F44E}'),
    }
}

/// The name a story file is loaded under: the stem of its path. A path may
/// have no stem, or one that is not valid unicode.
#[derive(Debug, Clone, PartialEq, Eq)]
pub enum StoryFileName {
    NoStem,
    NotUnicode,
    Name(String),
}

/// Loading a story file: the story read from it is loaded under the name of
/// the file. The answer is the error of reading or building the story, and
/// none when the path has no stem (the command fails).
pub open spec fn spec_load(
    stories: Map<Seq<char>, SpecStory>,
    file_path: Seq<char>,
    name: StoryFileName,
    story: Result<SpecStory, Seq<char>>,
) -> (Map<Seq<char>, SpecStory>, Option<Seq<char>>) {
    if file_path.len() == 0 {
        (stories, Some(
            "Error occurred during parsing of the command. (File path not supplied?)"@,
        ))
    } else {
        match name {
            StoryFileName::NoStem => (stories, None),
            StoryFileName::NotUnicode => (stories, Some("Error happened"@)),
            StoryFileName::Name(n) => match story {
                Ok(st) => (stories.insert(n@, st), Some("Loaded successfully"@)),
                Err(e) => (stories, Some(e)),
            },
        }
    }
}

/// The value of a story read from a file, or of the error.
pub open spec fn story_result_view(r: Result<Story, String>) -> Result<SpecStory, Seq<char>> {
    match r {
        Ok(st) => Ok(st@),
        Err(e) => Err(e@),
    }
}

/// `load`: loads the story read from the file at `file_path` under the
/// name of the file.
pub fn load(
    stories: &mut StoryMap,
    file_path: &str,
    file_name: StoryFileName,
    story: Result<Story, String>,
) -> (response: Option<String>)
    requires
        old(stories).wf(),
        story matches Ok(st) ==> st.wf(),
    ensures
        final(stories).wf(),
        (final(stories).view(), match response {
            Some(m) => Some(m@),
            None => None,
        }) == spec_load(old(stories).view(), file_path@, file_name, story_result_view(story)),
{
    if file_path.is_empty() {
        return Some(
            String::from_str("Error occurred during parsing of the command. (File path not supplied?)"),
        );
    }
    match file_name {
        StoryFileName::NoStem => None,
        StoryFileName::NotUnicode => Some(String::from_str("Error happened")),
        StoryFileName::Name(file_name) => match story {
            Ok(story) => {
                stories.insert(file_name, Arc::new(story));
                Some(String::from_str("Loaded successfully"))
            },
            Err(err) => Some(err),
        },
    }
}

/// The name given to the `k`-th story whose file name is not valid unicode.
pub open spec fn default_name(k: nat) -> Seq<char> {
    "default-"@ + spec_decimal(k)
}

/// The stories found at start-up, from the first `n` files: each file with a
/// stem and a story is loaded under its name, a later file taking the place
/// of an earlier one of the same name; the `k`-th file whose name is not
/// valid unicode is named `default-k`. Also how many such files there were.
pub open spec fn parse_stories_upto(found: Seq<(StoryFileName, Result<Story, String>)>, n: int) -> (
    Map<Seq<char>, SpecStory>,
    nat,
)
    decreases n,
{
    if n <= 0 {
        (Map::empty(), 0)
    } else {
        let (m, k) = parse_stories_upto(found, n - 1);
        match found[n - 1].1 {
            Err(_) => (m, k),
            Ok(st) => match found[n - 1].0 {
                StoryFileName::NoStem => (m, k),
                StoryFileName::NotUnicode => (m.insert(default_name(k), st@), k + 1),
                StoryFileName::Name(name) => (m.insert(name@, st@), k),
            },
        }
    }
}

proof fn lemma_parse_stories_count(found: Seq<(StoryFileName, Result<Story, String>)>, n: int)
    requires
        0 <= n,
    ensures
        parse_stories_upto(found, n).1 <= n,
    decreases n,
{
    if n > 0 {
        lemma_parse_stories_count(found, n - 1);
    }
}

/// The stories of the story files found at start-up, given for each file
/// its name and the story read from it (or the error).
pub fn parse_stories(found: Vec<(StoryFileName, Result<Story, String>)>) -> (stories: StoryMap)
    requires
        forall|i: int| 0 <= i < found@.len() ==> (#[trigger] found@[i].1 matches Ok(st) ==> st.wf()),
    ensures
        stories.wf(),
        stories.view() == parse_stories_upto(found@, found@.len() as int).0,
{
    let ghost all = found@;
    let mut stories = StoryMap::new();
    let mut counter: usize = 0;
    let mut rest = found;
    let n = rest.len();
    assert(all.len() == n);
    assert(rest@ =~= all.skip(0));
    let mut i: usize = 0;
    while i < n
        invariant
            n == all.len(),
            i <= n,
            rest@.len() == n - i,
            rest@ == all.skip(i as int),
            forall|j: int| 0 <= j < all.len() ==> (#[trigger] all[j].1 matches Ok(st) ==> st.wf()),
            stories.wf(),
            stories.view() == parse_stories_upto(all, i as int).0,
            counter == parse_stories_upto(all, i as int).1,
        decreases n - i,
    {
        proof {
            lemma_parse_stories_count(all, i as int);
        }
        assert(rest@[0] == all[i as int]);
        let (name, story) = rest.remove(0);
        assert(rest@ =~= all.skip(i + 1));
        match story {
            Err(_) => {},
            Ok(st) => match name {
                StoryFileName::NoStem => {},
                StoryFileName::NotUnicode => {
                    proof {
                        reveal_strlit("default-");
                    }
                    let mut default = String::from_str("default-");
                    default.append(decimal(counter).as_str());
                    stories.insert(default, Arc::new(st));
                    counter = counter + 1;
                },
                StoryFileName::Name(file_name) => {
                    stories.insert(file_name, Arc::new(st));
                },
            },
        }
        i = i + 1;
    }
    stories
}

/// One line for each name: its position, `. `, the name.
pub open spec fn list_names(keys: Seq<Seq<char>>, n: int) -> Seq<char>
    decreases n,
{
    if n <= 0 {
        Seq::empty()
    } else {
        list_names(keys, n - 1) + spec_decimal((n - 1) as nat) + seq!['.', ' '] + keys[n - 1]
            + seq!['\n']
    }
}

/// `read_loaded`: the list of the names of the loaded stories.
pub fn read_loaded(stories: &StoryMap) -> (message: String)
    ensures
        message@ == list_names(stories.keys(), stories.keys().len() as int),
{
    let mut message = String::new();
    let n = stories.len();
    for i in 0..n
        invariant
            n == stories.keys().len(),
            message@ == list_names(stories.keys(), i as int),
    {
        proof {
            reveal_strlit(". ");
            reveal_strlit("\n");
        }
        let ghost before = message@;
        let number = decimal(i);
        let name = stories.name(i);
        message.append(number.as_str());
        message.append(". ");
        message.append(name.as_str());
        message.append("\n");
        assert(message@ =~= before + number@ + seq!['.', ' '] + name@ + seq!['\n']);
    }
    message
}

// ---------------------------------------------------------------------------
// Laws of the commands
// ---------------------------------------------------------------------------

/// A user who starts after a story has been selected by name stands at the
/// block where that story starts, in a story of that name, and is shown
/// that block.
pub proof fn law_start_after_set(
    stories: Map<Seq<char>, SpecStory>,
    loaded: SpecLoaded,
    users: Map<u64, SpecListener>,
    name: Seq<char>,
    author: u64,
)
    requires
        name.len() > 0,
        stories.contains_key(name),
    ensures
        ({
            let (selected, answer) = spec_set_story(stories, loaded, name);
            let (after, shown) = spec_start_story(selected, users, author);
            let st = stories[name];
            &&& answer == "Loaded the story"@
            &&& after[author] == (SpecListener { story_name: name, current: Some((st, st.head)) })
            &&& shown == spec_present(st.blocks[st.head])
        }),
{
}

/// A story file loaded under a name can then be selected by that name, and
/// the story selected is the one read from the file.
pub proof fn law_load_then_set(
    stories: Map<Seq<char>, SpecStory>,
    loaded: SpecLoaded,
    file_path: Seq<char>,
    name: String,
    story: SpecStory,
)
    requires
        file_path.len() > 0,
        name@.len() > 0,
    ensures
        ({
            let (loaded_stories, answer) = spec_load(
                stories,
                file_path,
                StoryFileName::Name(name),
                Ok(story),
            );
            let (selected, set_answer) = spec_set_story(loaded_stories, loaded, name@);
            &&& answer == Some("Loaded successfully"@)
            &&& set_answer == "Loaded the story"@
            &&& selected == Some(((story, story.head), name@))
        }),
{
}

/// A refused choice changes nothing.
pub proof fn law_refused_action_changes_nothing(
    users: Map<u64, SpecListener>,
    author: u64,
    command: Seq<char>,
)
    ensures
        spec_action_response(users, author, command).1 is Err ==> spec_action_response(
            users,
            author,
            command,
        ).0 == users,
{
}

/// A choice keeps the user in the story they play: the same story, under
/// the same name, at one of its blocks.
pub proof fn law_action_stays_in_story(users: Map<u64, SpecListener>, author: u64, command: Seq<char>)
    requires
        users.contains_key(author),
        listener_wf(users[author]),
    ensures
        ({
            let after = spec_action_response(users, author, command).0;
            &&& after.contains_key(author)
            &&& after[author].story_name == users[author].story_name
            &&& listener_wf(after[author])
            &&& after[author].current matches Some(r) ==> users[author].current matches Some(r0)
                && r.0 == r0.0
        }),
{
    if let Some(r) = users[author].current {
        let links = r.0.blocks[r.1].path;
        lemma_last_command(links, command, links.len() as int);
    }
}

/// Loading changes the loaded stories only by loading the story read from
/// the file under the file's name: when the path is empty, the file has no
/// usable name, or reading or building its story failed, the loaded stories
/// stay as they were. The command fails without answer only when the path
/// has no stem.
pub proof fn law_load_changes_only_on_success(
    stories: Map<Seq<char>, SpecStory>,
    file_path: Seq<char>,
    name: StoryFileName,
    story: Result<SpecStory, Seq<char>>,
)
    ensures
        ({
            let (after, answer) = spec_load(stories, file_path, name, story);
            &&& story is Err ==> after == stories
            &&& !(name is Name) ==> after == stories
            &&& file_path.len() == 0 ==> after == stories
            &&& match (story, name) {
                (Ok(st), StoryFileName::Name(n)) => file_path.len() > 0 ==> after == stories.insert(
                    n@,
                    st,
                ) && after.contains_key(n@) && after[n@] == st,
                _ => after == stories,
            }
            &&& answer is None <==> (file_path.len() > 0 && name is NoStem)
        }),
{
}

/// Whether the user has started, stands at a block, and some link of that
/// block has the word.
pub open spec fn has_link_with_word(users: Map<u64, SpecListener>, author: u64, command: Seq<char>) -> bool {
    users.contains_key(author) && match users[author].current {
        Some(r) => exists|j: int|
            0 <= j < r.0.blocks[r.1].path.len() && #[trigger] r.0.blocks[r.1].path[j].1 == command,
        None => false,
    }
}

/// A choice that succeeds moves the user along a link of the block they
/// stood at whose word is the word chosen, the last such link, within the
/// same story; they are shown the block it leads to. A choice fails exactly
/// when the user has not started, stands nowhere, or no link of their block
/// has the word.
pub proof fn law_action_follows_the_chosen_link(
    users: Map<u64, SpecListener>,
    author: u64,
    command: Seq<char>,
)
    ensures
        ({
            let (after, answer) = spec_action_response(users, author, command);
            &&& answer is Ok <==> has_link_with_word(users, author, command)
            &&& answer matches Ok(m) ==> {
                let r = users[author].current->0;
                let links = r.0.blocks[r.1].path;
                exists|j: int|
                    0 <= j < links.len() && #[trigger] links[j].1 == command && (forall|k: int|
                        j < k < links.len() ==> links[k].1 != command) && after == users.insert(
                        author,
                        SpecListener {
                            story_name: users[author].story_name,
                            current: Some((r.0, links[j].0 as int)),
                        },
                    ) && m == spec_present(r.0.blocks[links[j].0 as int])
            }
        }),
{
    if users.contains_key(author) {
        if let Some(r) = users[author].current {
            let links = r.0.blocks[r.1].path;
            lemma_last_command_exact(links, command, links.len() as int);
        }
    }
}

/// The last of the first `n` links with a word is found exactly when one of
/// them has it, and no later one among them has it.
proof fn lemma_last_command_exact(links: Seq<crate::story::SpecLink>, command: Seq<char>, n: int)
    requires
        0 <= n <= links.len(),
    ensures
        last_command(links, command, n) is Some <==> exists|j: int|
            0 <= j < n && #[trigger] links[j].1 == command,
        last_command(links, command, n) matches Some(j) ==> 0 <= j < n && links[j].1 == command
            && forall|k: int| j < k < n ==> links[k].1 != command,
    decreases n,
{
    if n > 0 {
        lemma_last_command_exact(links, command, n - 1);
        if links[n - 1].1 != command {
            if exists|j: int| 0 <= j < n && #[trigger] links[j].1 == command {
                let j = choose|j: int| 0 <= j < n && #[trigger] links[j].1 == command;
                assert(j < n - 1);
            }
        }
    }
}

/// Once a story has been cleared, a user who played it can no longer make a
/// choice: the answer is that the story has no paths, and nothing changes;
/// the story is no longer loaded nor selected.
pub proof fn law_cleared_story_refuses_actions(
    stories: Map<Seq<char>, SpecStory>,
    users: Map<u64, SpecListener>,
    loaded: SpecLoaded,
    name: Seq<char>,
    author: u64,
    command: Seq<char>,
)
    requires
        name.len() > 0,
        stories.contains_key(name),
        users.contains_key(author),
        users[author].story_name == name,
    ensures
        ({
            let (stories2, users2, loaded2, reply) = spec_clear_story(stories, users, loaded, name);
            let (users3, answer) = spec_action_response(users2, author, command);
            &&& reply == SpecReply::React(thumbs_up())
            &&& !stories2.contains_key(name)
            &&& !(loaded2 matches Some((_, n)) && n == name)
            &&& answer == Err::<Seq<char>, Seq<char>>("Story doesn't have paths"@)
            &&& users3 == users2
        }),
{
}

} // verus!
