//! The grammar of story files.
//!
//! A story file is a sequence of blocks. A block starts with its id in
//! square brackets, followed by its text, followed by the commands that lead
//! out of it:
//!
//! ```text
//! [START]
//! You enter a forest.
//! \WEST1 (west){You think of going west}
//! ```
//!
//! A command is a backslash, the id of the block it leads to, the word that
//! chooses it in round brackets, and its label in curly brackets. Ids and
//! words are ASCII letters and digits; white space (space, tab, carriage
//! return, line feed) may stand before an id, after the target id and after
//! the word and the label.
//!
//! Each parser here is specified by a spec function over the characters of
//! the input and a position in it, which returns the position after what was
//! recognised and the value recognised, or the kind of what was expected and
//! the position where it was missing.

use vstd::prelude::*;

verus! {

broadcast use vstd::string::group_string_axioms;

/// What a parser expected and did not find.
#[derive(Debug, Clone, Copy, PartialEq, Eq, Structural)]
pub enum ErrorKind {
    /// A fixed character (a bracket or the backslash of a command).
    Tag,
    /// At least one ASCII letter or digit.
    AlphaNumeric,
    /// A repeated parser that recognised nothing (it would loop forever).
    Many0,
}

/// A failed parse: what was expected, and the input that remained where it
/// was missing.
#[derive(Debug, Clone, PartialEq, Eq)]
pub struct ParseError {
    pub kind: ErrorKind,
    pub input: String,
}

/// A command of a block: the id of the block it leads to, the word that
/// chooses it, and its label.
#[derive(Debug, Clone, PartialEq, Eq)]
pub struct Path {
    pub next_path: String,
    pub command: String,
    pub label: String,
}

/// A parsed block: its id, its text and its commands in the order written.
#[derive(Debug, Clone, PartialEq, Eq)]
pub struct StoryParse {
    pub id: String,
    pub content: String,
    pub children: Vec<Path>,
}

/// The mathematical value of a [`Path`].
pub struct SpecPath {
    pub next_path: Seq<char>,
    pub command: Seq<char>,
    pub label: Seq<char>,
}

/// The mathematical value of a [`StoryParse`].
pub struct SpecStoryParse {
    pub id: Seq<char>,
    pub content: Seq<char>,
    pub children: Seq<SpecPath>,
}

impl View for Path {
    type V = SpecPath;

    open spec fn view(&self) -> SpecPath {
        SpecPath { next_path: self.next_path@, command: self.command@, label: self.label@ }
    }
}

/// The values of a sequence of paths.
pub open spec fn paths_view(v: Seq<Path>) -> Seq<SpecPath> {
    v.map_values(|p: Path| p@)
}

impl View for StoryParse {
    type V = SpecStoryParse;

    open spec fn view(&self) -> SpecStoryParse {
        SpecStoryParse {
            id: self.id@,
            content: self.content@,
            children: paths_view(self.children@),
        }
    }
}

/// The values of a sequence of parsed blocks.
pub open spec fn parses_view(v: Seq<StoryParse>) -> Seq<SpecStoryParse> {
    v.map_values(|p: StoryParse| p@)
}

/// The outcome of a parser from a position: the position after what it
/// recognised and its value, or the kind of what it expected and where.
pub type SpecResult<V> = Result<(int, V), (ErrorKind, int)>;

/// The classes of characters that the grammar skips over.
#[derive(Debug, Clone, Copy, PartialEq, Eq, Structural)]
pub enum CharClass {
    /// Space, tab, carriage return, line feed.
    Space,
    /// ASCII letters and digits.
    AlphaNum,
    /// Every character but the given one.
    Not(char),
}

pub open spec fn is_multispace(c: char) -> bool {
    c == ' ' || c == '\t' || c == '\r' || c == '\n'
}

pub open spec fn is_alphanum(c: char) -> bool {
    ('0' <= c && c <= '9') || ('A' <= c && c <= 'Z') || ('a' <= c && c <= 'z')
}

pub open spec fn in_class(c: char, k: CharClass) -> bool {
    match k {
        CharClass::Space => is_multispace(c),
        CharClass::AlphaNum => is_alphanum(c),
        CharClass::Not(d) => c != d,
    }
}

/// The first position at or after `p` whose character is not in class `k`
/// (the length of `s` if there is none).
pub open spec fn span(s: Seq<char>, p: int, k: CharClass) -> int
    decreases s.len() - p,
{
    if 0 <= p < s.len() && in_class(s[p], k) {
        span(s, p + 1, k)
    } else {
        p
    }
}

/// Whether the character at `p` is `c`.
pub open spec fn at(s: Seq<char>, p: int, c: char) -> bool {
    0 <= p < s.len() && s[p] == c
}

/// `[`, an id of ASCII letters and digits, `]`, after optional white space.
pub open spec fn spec_story_id(s: Seq<char>, p: int) -> SpecResult<Seq<char>> {
    let a = span(s, p, CharClass::Space);
    if !at(s, a, '[') {
        Err((ErrorKind::Tag, a))
    } else {
        let b = span(s, a + 1, CharClass::AlphaNum);
        if b == a + 1 {
            Err((ErrorKind::AlphaNumeric, a + 1))
        } else if !at(s, b, ']') {
            Err((ErrorKind::Tag, b))
        } else {
            Ok((b + 1, s.subrange(a + 1, b)))
        }
    }
}

/// Everything up to the next backslash (or the end).
pub open spec fn spec_story_text(s: Seq<char>, p: int) -> (int, Seq<char>) {
    let q = span(s, p, CharClass::Not('\\'));
    (q, s.subrange(p, q))
}

/// `\target (word){label}` with optional white space after the target, the
/// word and the label.
pub open spec fn spec_story_command(s: Seq<char>, p: int) -> SpecResult<SpecPath> {
    if !at(s, p, '\\') {
        Err((ErrorKind::Tag, p))
    } else {
        let a = span(s, p + 1, CharClass::AlphaNum);
        let b = span(s, a, CharClass::Space);
        if !at(s, b, '(') {
            Err((ErrorKind::Tag, b))
        } else {
            let c = span(s, b + 1, CharClass::AlphaNum);
            if !at(s, c, ')') {
                Err((ErrorKind::Tag, c))
            } else {
                let d = span(s, c + 1, CharClass::Space);
                if !at(s, d, '{') {
                    Err((ErrorKind::Tag, d))
                } else {
                    let e = span(s, d + 1, CharClass::Not('}'));
                    if !at(s, e, '}') {
                        Err((ErrorKind::Tag, e))
                    } else {
                        let f = span(s, e + 1, CharClass::Space);
                        Ok(
                            (
                                f,
                                SpecPath {
                                    next_path: s.subrange(p + 1, a),
                                    command: s.subrange(b + 1, c),
                                    label: s.subrange(d + 1, e),
                                },
                            ),
                        )
                    }
                }
            }
        }
    }
}

/// Commands one after another, as many as there are.
pub open spec fn spec_story_commands(s: Seq<char>, p: int) -> SpecResult<Seq<SpecPath>>
    decreases s.len() - p,
{
    match spec_story_command(s, p) {
        Err(_) => Ok((p, Seq::empty())),
        Ok((q, v)) => {
            if q <= p || q > s.len() {
                Err((ErrorKind::Many0, p))
            } else {
                match spec_story_commands(s, q) {
                    Ok((r, vs)) => Ok((r, seq![v] + vs)),
                    Err(e) => Err(e),
                }
            }
        },
    }
}

/// An id, a text and the commands of the block.
pub open spec fn spec_story_block(s: Seq<char>, p: int) -> SpecResult<SpecStoryParse> {
    match spec_story_id(s, p) {
        Err(e) => Err(e),
        Ok((a, id)) => {
            let (b, text) = spec_story_text(s, a);
            match spec_story_commands(s, b) {
                Err(e) => Err(e),
                Ok((c, cmds)) => Ok((c, SpecStoryParse { id: id, content: text, children: cmds })),
            }
        },
    }
}

/// Blocks one after another, as many as there are.
pub open spec fn spec_story(s: Seq<char>, p: int) -> SpecResult<Seq<SpecStoryParse>>
    decreases s.len() - p,
{
    match spec_story_block(s, p) {
        Err(_) => Ok((p, Seq::empty())),
        Ok((q, v)) => {
            if q <= p || q > s.len() {
                Err((ErrorKind::Many0, p))
            } else {
                match spec_story(s, q) {
                    Ok((r, vs)) => Ok((r, seq![v] + vs)),
                    Err(e) => Err(e),
                }
            }
        },
    }
}

/// Whether `res` is what a parser returns for the spec outcome `spec` on the
/// characters `s`, its value related to the spec value by `val`.
pub open spec fn answers<T, V>(
    s: Seq<char>,
    spec: SpecResult<V>,
    res: Result<(String, T), ParseError>,
    val: spec_fn(T, V) -> bool,
) -> bool {
    match spec {
        Ok((q, v)) => res matches Ok((rest, t)) && rest@ == s.skip(q) && val(t, v),
        Err((k, q)) => res matches Err(e) && e.kind == k && e.input@ == s.skip(q),
    }
}

// ---------------------------------------------------------------------------
// Laws of the grammar
// ---------------------------------------------------------------------------

/// `span` stays between its start and the end of the input, every character
/// it passes is in the class, and the one it stops at is not.
pub proof fn lemma_span(s: Seq<char>, p: int, k: CharClass)
    requires
        0 <= p <= s.len(),
    ensures
        p <= span(s, p, k) <= s.len(),
        forall|i: int| p <= i < span(s, p, k) ==> in_class(#[trigger] s[i], k),
        span(s, p, k) < s.len() ==> !in_class(s[span(s, p, k)], k),
    decreases s.len() - p,
{
    if p < s.len() && in_class(s[p], k) {
        lemma_span(s, p + 1, k);
    }
}

/// A recognised id is one or more ASCII letters or digits, and what follows
/// it starts right after its closing bracket.
pub proof fn law_ids_are_alphanumeric(s: Seq<char>, p: int)
    requires
        0 <= p <= s.len(),
    ensures
        spec_story_id(s, p) matches Ok((q, id)) ==> {
            &&& id.len() > 0
            &&& forall|i: int| 0 <= i < id.len() ==> is_alphanum(#[trigger] id[i])
            &&& q <= s.len()
            &&& s[q - 1] == ']'
        },
{
    lemma_span(s, p, CharClass::Space);
    let a = span(s, p, CharClass::Space);
    if at(s, a, '[') {
        lemma_span(s, a + 1, CharClass::AlphaNum);
        let b = span(s, a + 1, CharClass::AlphaNum);
        if let Ok((q, id)) = spec_story_id(s, p) {
            assert forall|i: int| 0 <= i < id.len() implies is_alphanum(#[trigger] id[i]) by {
                assert(id[i] == s[a + 1 + i]);
                assert(in_class(s[a + 1 + i], CharClass::AlphaNum));
            }
        }
    }
}

/// A recognised command ends with its closing curly bracket followed by all
/// the white space (space, tab, carriage return, line feed) after it: what
/// follows the command is the end of the input or a character that is not
/// white space.
pub proof fn law_command_takes_trailing_space(s: Seq<char>, p: int)
    requires
        0 <= p <= s.len(),
    ensures
        spec_story_command(s, p) matches Ok((q, _)) ==> {
            &&& q <= s.len()
            &&& (q == s.len() || !is_multispace(s[q]))
            &&& exists|e: int|
                p < e < q && s[e] == '}' && forall|i: int| e < i < q ==> is_multispace(
                    #[trigger] s[i],
                )
        },
{
    lemma_command_progress(s, p);
    if at(s, p, '\\') {
        lemma_span(s, p + 1, CharClass::AlphaNum);
        let a = span(s, p + 1, CharClass::AlphaNum);
        lemma_span(s, a, CharClass::Space);
        let b = span(s, a, CharClass::Space);
        if at(s, b, '(') {
            lemma_span(s, b + 1, CharClass::AlphaNum);
            let c = span(s, b + 1, CharClass::AlphaNum);
            if at(s, c, ')') {
                lemma_span(s, c + 1, CharClass::Space);
                let d = span(s, c + 1, CharClass::Space);
                if at(s, d, '{') {
                    lemma_span(s, d + 1, CharClass::Not('}'));
                    let e = span(s, d + 1, CharClass::Not('}'));
                    if at(s, e, '}') {
                        lemma_span(s, e + 1, CharClass::Space);
                        let f = span(s, e + 1, CharClass::Space);
                        assert(forall|i: int| e < i < f ==> is_multispace(#[trigger] s[i])) by {
                            assert forall|i: int| e < i < f implies is_multispace(#[trigger] s[i]) by {
                                assert(in_class(s[i], CharClass::Space));
                            }
                        }
                        if f < s.len() {
                            assert(!in_class(s[f], CharClass::Space));
                        }
                    }
                }
            }
        }
    }
}

/// A command, when it is recognised, consumes at least its backslash and
/// never more than the input.
pub proof fn lemma_command_progress(s: Seq<char>, p: int)
    requires
        0 <= p <= s.len(),
    ensures
        spec_story_command(s, p) matches Ok((q, _)) ==> p < q <= s.len(),
{
    if at(s, p, '\\') {
        lemma_span(s, p + 1, CharClass::AlphaNum);
        let a = span(s, p + 1, CharClass::AlphaNum);
        lemma_span(s, a, CharClass::Space);
        let b = span(s, a, CharClass::Space);
        if at(s, b, '(') {
            lemma_span(s, b + 1, CharClass::AlphaNum);
            let c = span(s, b + 1, CharClass::AlphaNum);
            if at(s, c, ')') {
                lemma_span(s, c + 1, CharClass::Space);
                let d = span(s, c + 1, CharClass::Space);
                if at(s, d, '{') {
                    lemma_span(s, d + 1, CharClass::Not('}'));
                    let e = span(s, d + 1, CharClass::Not('}'));
                    if at(s, e, '}') {
                        lemma_span(s, e + 1, CharClass::Space);
                    }
                }
            }
        }
    }
}

/// A run of commands always succeeds, ends within the input, and each
/// command in it was recognised.
pub proof fn lemma_commands_total(s: Seq<char>, p: int)
    requires
        0 <= p <= s.len(),
    ensures
        spec_story_commands(s, p) matches Ok((q, _)) && p <= q <= s.len(),
    decreases s.len() - p,
{
    lemma_command_progress(s, p);
    if let Ok((q, v)) = spec_story_command(s, p) {
        lemma_commands_total(s, q);
    }
}

/// A block, when it is recognised, consumes at least its id and never more
/// than the input; it fails only where its id is missing.
pub proof fn lemma_block_progress(s: Seq<char>, p: int)
    requires
        0 <= p <= s.len(),
    ensures
        spec_story_block(s, p) matches Ok((q, _)) ==> p < q <= s.len(),
        spec_story_block(s, p) is Err <==> spec_story_id(s, p) is Err,
{
    lemma_span(s, p, CharClass::Space);
    let a = span(s, p, CharClass::Space);
    if at(s, a, '[') {
        lemma_span(s, a + 1, CharClass::AlphaNum);
    }
    if let Ok((a1, id)) = spec_story_id(s, p) {
        lemma_span(s, a1, CharClass::Not('\\'));
        let b = span(s, a1, CharClass::Not('\\'));
        lemma_commands_total(s, b);
    }
}

/// Parsing a whole story file never fails: the blocks are read until one
/// cannot be, and the position reached lies within the input.
pub proof fn lemma_story_total(s: Seq<char>, p: int)
    requires
        0 <= p <= s.len(),
    ensures
        spec_story(s, p) matches Ok((q, _)) && p <= q <= s.len(),
    decreases s.len() - p,
{
    lemma_block_progress(s, p);
    if let Ok((q, v)) = spec_story_block(s, p) {
        lemma_story_total(s, q);
    }
}

// ---------------------------------------------------------------------------
// Printing blocks in the form of a story file
// ---------------------------------------------------------------------------

/// A command in story-file form, followed by the line ending `eol`:
/// `\target (word){label}` and `eol`.
pub open spec fn print_path_ending(c: SpecPath, eol: Seq<char>) -> Seq<char> {
    seq!['\\'] + c.next_path + seq![' ', '('] + c.command + seq![')', '{'] + c.label + seq!['}']
        + eol
}

/// Commands in story-file form, one after another, each followed by `eol`.
pub open spec fn print_paths_ending(cs: Seq<SpecPath>, eol: Seq<char>) -> Seq<char>
    decreases cs.len(),
{
    if cs.len() == 0 {
        Seq::empty()
    } else {
        print_path_ending(cs[0], eol) + print_paths_ending(cs.drop_first(), eol)
    }
}

/// A block in story-file form: `[id]`, its text, its commands, each command
/// followed by `eol`.
pub open spec fn print_block_ending(b: SpecStoryParse, eol: Seq<char>) -> Seq<char> {
    seq!['['] + b.id + seq![']'] + b.content + print_paths_ending(b.children, eol)
}

/// Blocks in story-file form, one after another, each command followed by
/// `eol`.
pub open spec fn print_story_ending(v: Seq<SpecStoryParse>, eol: Seq<char>) -> Seq<char>
    decreases v.len(),
{
    if v.len() == 0 {
        Seq::empty()
    } else {
        print_block_ending(v[0], eol) + print_story_ending(v.drop_first(), eol)
    }
}

/// A command in story-file form: `\target (word){label}` and a line break.
pub open spec fn print_path(c: SpecPath) -> Seq<char> {
    print_path_ending(c, seq!['\n'])
}

/// Commands in story-file form, one after another.
pub open spec fn print_paths(cs: Seq<SpecPath>) -> Seq<char> {
    print_paths_ending(cs, seq!['\n'])
}

/// A block in story-file form: `[id]`, its text, its commands.
pub open spec fn print_block(b: SpecStoryParse) -> Seq<char> {
    print_block_ending(b, seq!['\n'])
}

/// Blocks in story-file form, one after another.
pub open spec fn print_story(v: Seq<SpecStoryParse>) -> Seq<char> {
    print_story_ending(v, seq!['\n'])
}

/// Whether every character of `x` is in class `k`.
pub open spec fn all_in(x: Seq<char>, k: CharClass) -> bool {
    forall|i: int| 0 <= i < x.len() ==> in_class(#[trigger] x[i], k)
}

/// A command that reads back as itself: its target and word are ASCII
/// letters and digits, and its label holds no closing curly bracket.
pub open spec fn path_printable(c: SpecPath) -> bool {
    &&& all_in(c.next_path, CharClass::AlphaNum)
    &&& all_in(c.command, CharClass::AlphaNum)
    &&& all_in(c.label, CharClass::Not('}'))
}

/// A block that reads back as itself: a non-empty id of ASCII letters and
/// digits, a text without backslash, and commands that read back.
pub open spec fn block_printable(b: SpecStoryParse) -> bool {
    &&& b.id.len() > 0
    &&& all_in(b.id, CharClass::AlphaNum)
    &&& all_in(b.content, CharClass::Not('\\'))
    &&& forall|j: int| 0 <= j < b.children.len() ==> path_printable(#[trigger] b.children[j])
}

/// Blocks that read back as themselves: each does, and each but the last
/// has a command (else its text would run on over the next block).
pub open spec fn story_printable(v: Seq<SpecStoryParse>) -> bool {
    forall|i: int|
        0 <= i < v.len() ==> block_printable(#[trigger] v[i]) && (i < v.len() - 1
            ==> v[i].children.len() > 0)
}

/// The characters of `s` from `p` on are `x + y`: then those from `p` are
/// `x`, and those after `x` are `y`.
proof fn lemma_split(s: Seq<char>, p: int, x: Seq<char>, y: Seq<char>)
    requires
        0 <= p,
        p + x.len() + y.len() <= s.len(),
        s.subrange(p, p + x.len() + y.len()) == x + y,
    ensures
        s.subrange(p, p + x.len()) == x,
        s.subrange(p + x.len(), p + x.len() + y.len()) == y,
{
    let whole = s.subrange(p, p + x.len() + y.len());
    assert(s.subrange(p, p + x.len()) =~= x) by {
        assert forall|i: int| 0 <= i < x.len() implies s.subrange(p, p + x.len())[i] == x[i] by {
            assert(whole[i] == (x + y)[i]);
        }
    }
    assert(s.subrange(p + x.len(), p + x.len() + y.len()) =~= y) by {
        assert forall|i: int| 0 <= i < y.len() implies s.subrange(
            p + x.len(),
            p + x.len() + y.len(),
        )[i] == y[i] by {
            assert(whole[x.len() + i] == (x + y)[x.len() + i]);
        }
    }
}

/// `span` stops exactly where a run of characters of its class ends.
proof fn lemma_span_to(s: Seq<char>, p: int, q: int, k: CharClass)
    requires
        0 <= p <= q <= s.len(),
        forall|i: int| p <= i < q ==> in_class(#[trigger] s[i], k),
        q == s.len() || !in_class(s[q], k),
    ensures
        span(s, p, k) == q,
    decreases q - p,
{
    if p < q {
        lemma_span_to(s, p + 1, q, k);
    }
}

/// Where `s` holds `x` from `p` on, all of class `k`, followed by the end or a
/// character not of class `k`, `span` from `p` passes exactly over `x`.
proof fn lemma_span_over(s: Seq<char>, p: int, x: Seq<char>, k: CharClass)
    requires
        0 <= p,
        p + x.len() <= s.len(),
        s.subrange(p, p + x.len()) == x,
        all_in(x, k),
        p + x.len() == s.len() || !in_class(s[p + x.len()], k),
    ensures
        span(s, p, k) == p + x.len(),
{
    assert forall|i: int| p <= i < p + x.len() implies in_class(#[trigger] s[i], k) by {
        assert(s.subrange(p, p + x.len())[i - p] == s[i]);
        assert(in_class(x[i - p], k));
    }
    lemma_span_to(s, p, p + x.len(), k);
}

/// A printed command reads back as itself, when what follows it does not
/// start with white space.
proof fn lemma_read_path(s: Seq<char>, p: int, c: SpecPath, eol: Seq<char>)
    requires
        0 <= p,
        path_printable(c),
        all_in(eol, CharClass::Space),
        p + print_path_ending(c, eol).len() <= s.len(),
        s.subrange(p, p + print_path_ending(c, eol).len()) == print_path_ending(c, eol),
        p + print_path_ending(c, eol).len() == s.len() || !is_multispace(
            s[p + print_path_ending(c, eol).len()],
        ),
    ensures
        spec_story_command(s, p) == Ok::<(int, SpecPath), (ErrorKind, int)>(
            (p + print_path_ending(c, eol).len(), c),
        ),
{
    let np = c.next_path;
    let cm = c.command;
    let lb = c.label;
    let x1 = seq!['\\'];
    let x2 = seq![' ', '('];
    let x3 = seq![')', '{'];
    let x4 = seq!['}'];
    let p1 = p + 1;
    let p2 = p1 + np.len();
    let p3 = p2 + 2;
    let p4 = p3 + cm.len();
    let p5 = p4 + 2;
    let p6 = p5 + lb.len();
    let end = p6 + 1;
    lemma_split(s, p, x1 + np + x2 + cm + x3 + lb + x4, eol);
    lemma_split(s, p, x1 + np + x2 + cm + x3 + lb, x4);
    lemma_split(s, p, x1 + np + x2 + cm + x3, lb);
    lemma_split(s, p, x1 + np + x2 + cm, x3);
    lemma_split(s, p, x1 + np + x2, cm);
    lemma_split(s, p, x1 + np, x2);
    lemma_split(s, p, x1, np);
    assert(s[p] == s.subrange(p, p1)[0]);
    assert(s[p2] == s.subrange(p2, p3)[0]);
    assert(s[p2 + 1] == s.subrange(p2, p3)[1]);
    assert(s[p4] == s.subrange(p4, p5)[0]);
    assert(s[p4 + 1] == s.subrange(p4, p5)[1]);
    assert(s[p6] == s.subrange(p6, end)[0]);

    lemma_span_over(s, p1, np, CharClass::AlphaNum);
    lemma_span_to(s, p2, p2 + 1, CharClass::Space);
    lemma_span_over(s, p3, cm, CharClass::AlphaNum);
    lemma_span_to(s, p4 + 1, p4 + 1, CharClass::Space);
    lemma_span_over(s, p5, lb, CharClass::Not('}'));
    lemma_span_over(s, end, eol, CharClass::Space);
}

/// Printed commands read back as themselves, when what follows them is the
/// end or the start of a block.
proof fn lemma_read_paths(s: Seq<char>, p: int, cs: Seq<SpecPath>, eol: Seq<char>)
    requires
        0 <= p,
        all_in(eol, CharClass::Space),
        forall|j: int| 0 <= j < cs.len() ==> path_printable(#[trigger] cs[j]),
        p + print_paths_ending(cs, eol).len() <= s.len(),
        s.subrange(p, p + print_paths_ending(cs, eol).len()) == print_paths_ending(cs, eol),
        p + print_paths_ending(cs, eol).len() == s.len() || s[p + print_paths_ending(cs, eol).len()]
            == '[',
    ensures
        spec_story_commands(s, p) == Ok::<(int, Seq<SpecPath>), (ErrorKind, int)>(
            (p + print_paths_ending(cs, eol).len(), cs),
        ),
    decreases cs.len(),
{
    if cs.len() == 0 {
        assert(spec_story_command(s, p) is Err);
        assert(cs =~= Seq::<SpecPath>::empty());
    } else {
        let c = cs[0];
        let rest = cs.drop_first();
        assert forall|j: int| 0 <= j < rest.len() implies path_printable(#[trigger] rest[j]) by {
            assert(rest[j] == cs[j + 1]);
        }
        lemma_split(s, p, print_path_ending(c, eol), print_paths_ending(rest, eol));
        let q = p + print_path_ending(c, eol).len();
        if rest.len() > 0 {
            lemma_split(
                s,
                q,
                print_path_ending(rest[0], eol),
                print_paths_ending(rest.drop_first(), eol),
            );
            assert(s[q] == s.subrange(q, q + print_path_ending(rest[0], eol).len())[0]);
        }
        lemma_read_path(s, p, c, eol);
        lemma_read_paths(s, q, rest, eol);
        assert(seq![c] + rest =~= cs);
        assert(print_paths_ending(cs, eol) == print_path_ending(c, eol) + print_paths_ending(rest, eol));
        assert(p < q && q <= s.len());
    }
}

/// A printed block reads back as itself, when what follows it is the end,
/// or the start of a block after a command.
proof fn lemma_read_block(s: Seq<char>, p: int, b: SpecStoryParse, eol: Seq<char>)
    requires
        0 <= p,
        all_in(eol, CharClass::Space),
        block_printable(b),
        p + print_block_ending(b, eol).len() <= s.len(),
        s.subrange(p, p + print_block_ending(b, eol).len()) == print_block_ending(b, eol),
        p + print_block_ending(b, eol).len() == s.len() || (b.children.len() > 0 && s[p
            + print_block_ending(b, eol).len()] == '['),
    ensures
        spec_story_block(s, p) == Ok::<(int, SpecStoryParse), (ErrorKind, int)>(
            (p + print_block_ending(b, eol).len(), b),
        ),
{
    let x1 = seq!['['];
    let x2 = seq![']'];
    let a1 = p + 1;
    let a2 = a1 + b.id.len();
    let t0 = a2 + 1;
    let t1 = t0 + b.content.len();
    lemma_split(s, p, x1 + b.id + x2 + b.content, print_paths_ending(b.children, eol));
    lemma_split(s, p, x1 + b.id + x2, b.content);
    lemma_split(s, p, x1 + b.id, x2);
    lemma_split(s, p, x1, b.id);
    assert(s[p] == s.subrange(p, a1)[0]);
    assert(s[a2] == s.subrange(a2, t0)[0]);
    lemma_span_to(s, p, p, CharClass::Space);
    lemma_span_over(s, a1, b.id, CharClass::AlphaNum);
    assert(spec_story_id(s, p) == Ok::<(int, Seq<char>), (ErrorKind, int)>((t0, b.id)));
    if b.children.len() > 0 {
        lemma_split(
            s,
            t1,
            print_path_ending(b.children[0], eol),
            print_paths_ending(b.children.drop_first(), eol),
        );
        assert(s[t1] == s.subrange(t1, t1 + print_path_ending(b.children[0], eol).len())[0]);
    }
    lemma_span_over(s, t0, b.content, CharClass::Not('\\'));
    lemma_read_paths(s, t1, b.children, eol);
}

/// Printed blocks read back as themselves, up to the end.
proof fn lemma_read_story(s: Seq<char>, p: int, v: Seq<SpecStoryParse>, eol: Seq<char>)
    requires
        0 <= p,
        all_in(eol, CharClass::Space),
        story_printable(v),
        p + print_story_ending(v, eol).len() == s.len(),
        s.subrange(p, s.len() as int) == print_story_ending(v, eol),
    ensures
        spec_story(s, p) == Ok::<(int, Seq<SpecStoryParse>), (ErrorKind, int)>((s.len() as int, v)),
    decreases v.len(),
{
    if v.len() == 0 {
        lemma_span_to(s, p, p, CharClass::Space);
        assert(spec_story_block(s, p) is Err);
        assert(v =~= Seq::<SpecStoryParse>::empty());
    } else {
        let b = v[0];
        let rest = v.drop_first();
        assert(story_printable(rest)) by {
            assert forall|i: int| 0 <= i < rest.len() implies block_printable(#[trigger] rest[i])
                && (i < rest.len() - 1 ==> rest[i].children.len() > 0) by {
                assert(rest[i] == v[i + 1]);
            }
        }
        assert(block_printable(b) && (0 < v.len() - 1 ==> b.children.len() > 0));
        lemma_split(s, p, print_block_ending(b, eol), print_story_ending(rest, eol));
        let q = p + print_block_ending(b, eol).len();
        if rest.len() > 0 {
            lemma_split(
                s,
                q,
                print_block_ending(rest[0], eol),
                print_story_ending(rest.drop_first(), eol),
            );
            assert(s[q] == s.subrange(q, q + print_block_ending(rest[0], eol).len())[0]);
        }
        lemma_read_block(s, p, b, eol);
        lemma_read_story(s, q, rest, eol);
        assert(seq![b] + rest =~= v);
        assert(print_story_ending(v, eol) == print_block_ending(b, eol) + print_story_ending(rest, eol));
        assert(p < q && q <= s.len());
    }
}

/// Blocks printed in the form of a story file, each with a non-empty id of
/// ASCII letters and digits, a text without backslash, commands whose target
/// and word are ASCII letters and digits and whose label has no closing
/// curly bracket, and each but the last with a command, parse back as the
/// same blocks, with nothing left over.
pub proof fn law_print_then_parse(v: Seq<SpecStoryParse>)
    requires
        story_printable(v),
    ensures
        spec_story(print_story(v), 0) == Ok::<(int, Seq<SpecStoryParse>), (ErrorKind, int)>(
            (print_story(v).len() as int, v),
        ),
{
    law_print_then_parse_with_line_ending(v, seq!['\n']);
}

/// The same holds whatever white space (space, tab, carriage return, line
/// feed; possibly none) ends the lines of the commands, such as the carriage
/// return and line feed of Windows files: the blocks parse back as the same
/// blocks, with nothing left over.
pub proof fn law_print_then_parse_with_line_ending(v: Seq<SpecStoryParse>, eol: Seq<char>)
    requires
        story_printable(v),
        all_in(eol, CharClass::Space),
    ensures
        spec_story(print_story_ending(v, eol), 0) == Ok::<(int, Seq<SpecStoryParse>), (ErrorKind, int)>(
            (print_story_ending(v, eol).len() as int, v),
        ),
{
    let s = print_story_ending(v, eol);
    assert(s.subrange(0, s.len() as int) =~= s);
    lemma_read_story(s, 0, v, eol);
}

// ---------------------------------------------------------------------------
// Executable parsers
// ---------------------------------------------------------------------------

/// Whether a character is not a backslash, which starts a command.
pub fn is_not_command(chr: char) -> (res: bool)
    ensures
        res == (chr != '\\'),
{
    chr != '\\'
}

/// Whether a character is not a closing curly bracket, which ends a label.
pub fn is_not_bracket(chr: char) -> (res: bool)
    ensures
        res == (chr != '}'),
{
    chr != '}'
}

fn in_class_exec(c: char, k: CharClass) -> (res: bool)
    ensures
        res == in_class(c, k),
{
    match k {
        CharClass::Space => c == ' ' || c == '\t' || c == '\r' || c == '\n',
        CharClass::AlphaNum => ('0' <= c && c <= '9') || ('A' <= c && c <= 'Z') || ('a' <= c
            && c <= 'z'),
        CharClass::Not('\\') => is_not_command(c),
        CharClass::Not('}') => is_not_bracket(c),
        CharClass::Not(d) => c != d,
    }
}

/// The characters of a string.
fn chars_of(input: &str) -> (v: Vec<char>)
    ensures
        v@ == input@,
{
    let mut v: Vec<char> = Vec::new();
    for c in it: input.chars()
        invariant
            it.seq() == input@,
            v@ == input@.take(it.index()),
    {
        v.push(c);
    }
    v
}

fn span_exec(s: &Vec<char>, p: usize, k: CharClass) -> (q: usize)
    requires
        p <= s@.len(),
    ensures
        q == span(s@, p as int, k),
        p <= q <= s@.len(),
{
    let mut i: usize = p;
    while i < s.len() && in_class_exec(s[i], k)
        invariant
            p <= i <= s@.len(),
            span(s@, p as int, k) == span(s@, i as int, k),
        decreases s@.len() - i,
    {
        i = i + 1;
    }
    i
}

fn at_exec(s: &Vec<char>, p: usize, c: char) -> (res: bool)
    ensures
        res == at(s@, p as int, c),
        res ==> p < s.len(),
{
    p < s.len() && s[p] == c
}

/// The characters of `input` from `from` to `to`.
fn slice_of(input: &str, from: usize, to: usize) -> (res: String)
    requires
        from <= to <= input@.len(),
    ensures
        res@ == input@.subrange(from as int, to as int),
{
    String::from_str(input.substring_char(from, to))
}

fn fail(input: &str, s: &Vec<char>, kind: ErrorKind, p: usize) -> (e: ParseError)
    requires
        s@ == input@,
        p <= s@.len(),
    ensures
        e.kind == kind,
        e.input@ == input@.skip(p as int),
{
    ParseError { kind: kind, input: slice_of(input, p, s.len()) }
}

fn id_at(input: &str, s: &Vec<char>, p: usize) -> (res: Result<(usize, String), ParseError>)
    requires
        s@ == input@,
        p <= s@.len(),
    ensures
        res matches Ok((q1, _)) ==> p <= q1 <= s@.len(),
        match spec_story_id(s@, p as int) {
            Ok((q, v)) => res matches Ok((q1, v1)) && q1 == q && v1@ == v,
            Err((k, q)) => res matches Err(e) && e.kind == k && e.input@ == input@.skip(q),
        },
{
    let a: usize = span_exec(s, p, CharClass::Space);
    if !at_exec(s, a, '[') {
        return Err(fail(input, s, ErrorKind::Tag, a));
    }
    let b: usize = span_exec(s, a + 1, CharClass::AlphaNum);
    if b == a + 1 {
        return Err(fail(input, s, ErrorKind::AlphaNumeric, a + 1));
    }
    if !at_exec(s, b, ']') {
        return Err(fail(input, s, ErrorKind::Tag, b));
    }
    Ok((b + 1, slice_of(input, a + 1, b)))
}

fn text_at(input: &str, s: &Vec<char>, p: usize) -> (res: (usize, String))
    requires
        s@ == input@,
        p <= s@.len(),
    ensures
        res.0 == spec_story_text(s@, p as int).0,
        res.1@ == spec_story_text(s@, p as int).1,
        p <= res.0 <= s@.len(),
{
    let q: usize = span_exec(s, p, CharClass::Not('\\'));
    (q, slice_of(input, p, q))
}

fn command_at(input: &str, s: &Vec<char>, p: usize) -> (res: Result<(usize, Path), ParseError>)
    requires
        s@ == input@,
        p <= s@.len(),
    ensures
        res matches Ok((q1, _)) ==> p <= q1 <= s@.len(),
        match spec_story_command(s@, p as int) {
            Ok((q, v)) => res matches Ok((q1, v1)) && q1 == q && v1@ == v,
            Err((k, q)) => res matches Err(e) && e.kind == k && e.input@ == input@.skip(q),
        },
{
    if !at_exec(s, p, '\\') {
        return Err(fail(input, s, ErrorKind::Tag, p));
    }
    let a: usize = span_exec(s, p + 1, CharClass::AlphaNum);
    let b: usize = span_exec(s, a, CharClass::Space);
    if !at_exec(s, b, '(') {
        return Err(fail(input, s, ErrorKind::Tag, b));
    }
    let c: usize = span_exec(s, b + 1, CharClass::AlphaNum);
    if !at_exec(s, c, ')') {
        return Err(fail(input, s, ErrorKind::Tag, c));
    }
    let d: usize = span_exec(s, c + 1, CharClass::Space);
    if !at_exec(s, d, '{') {
        return Err(fail(input, s, ErrorKind::Tag, d));
    }
    let e: usize = span_exec(s, d + 1, CharClass::Not('}'));
    if !at_exec(s, e, '}') {
        return Err(fail(input, s, ErrorKind::Tag, e));
    }
    let f: usize = span_exec(s, e + 1, CharClass::Space);
    let path = Path {
        next_path: slice_of(input, p + 1, a),
        command: slice_of(input, b + 1, c),
        label: slice_of(input, d + 1, e),
    };
    Ok((f, path))
}

fn commands_at(input: &str, s: &Vec<char>, p: usize) -> (res: Result<(usize, Vec<Path>), ParseError>)
    requires
        s@ == input@,
        p <= s@.len(),
    ensures
        res matches Ok((q1, _)) ==> p <= q1 <= s@.len(),
        match spec_story_commands(s@, p as int) {
            Ok((q, v)) => res matches Ok((q1, v1)) && q1 == q && paths_view(v1@) == v,
            Err((k, q)) => res matches Err(e) && e.kind == k && e.input@ == input@.skip(q),
        },
{
    let mut acc: Vec<Path> = Vec::new();
    let mut i: usize = p;
    loop
        invariant
            s@ == input@,
            p <= i <= s@.len(),
            match spec_story_commands(s@, i as int) {
                Ok((r, vs)) => spec_story_commands(s@, p as int) == Ok::<(int, Seq<SpecPath>), (ErrorKind, int)>((r, paths_view(acc@) + vs)),
                Err(e) => spec_story_commands(s@, p as int) == Err::<(int, Seq<SpecPath>), (ErrorKind, int)>(e),
            },
        decreases s@.len() - i,
    {
        match command_at(input, s, i) {
            Err(_) => {
                assert(paths_view(acc@) + Seq::<SpecPath>::empty() =~= paths_view(acc@));
                return Ok((i, acc));
            },
            Ok((q, v)) => {
                proof {
                    lemma_command_progress(s@, i as int);
                }
                if q <= i {
                    return Err(fail(input, s, ErrorKind::Many0, i));
                }
                let ghost old_acc = acc@;
                acc.push(v);
                proof {
                    assert(paths_view(acc@) =~= paths_view(old_acc).push(v@));
                    match spec_story_commands(s@, q as int) {
                        Ok((r, vs)) => {
                            assert(paths_view(old_acc) + (seq![v@] + vs) =~= paths_view(acc@) + vs);
                        },
                        Err(e) => {},
                    }
                }
                i = q;
            },
        }
    }
}

fn block_at(input: &str, s: &Vec<char>, p: usize) -> (res: Result<(usize, StoryParse), ParseError>)
    requires
        s@ == input@,
        p <= s@.len(),
    ensures
        res matches Ok((q1, _)) ==> p <= q1 <= s@.len(),
        match spec_story_block(s@, p as int) {
            Ok((q, v)) => res matches Ok((q1, v1)) && q1 == q && v1@ == v,
            Err((k, q)) => res matches Err(e) && e.kind == k && e.input@ == input@.skip(q),
        },
{
    let (a, id) = match id_at(input, s, p) {
        Ok(r) => r,
        Err(e) => return Err(e),
    };
    proof {
        lemma_span(s@, p as int, CharClass::Space);
    }
    let (b, text) = text_at(input, s, a);
    let (c, children) = match commands_at(input, s, b) {
        Ok(r) => r,
        Err(e) => return Err(e),
    };
    Ok((c, StoryParse { id: id, content: text, children: children }))
}

fn blocks_at(input: &str, s: &Vec<char>, p: usize) -> (res: Result<(usize, Vec<StoryParse>), ParseError>)
    requires
        s@ == input@,
        p <= s@.len(),
    ensures
        res matches Ok((q1, _)) ==> p <= q1 <= s@.len(),
        match spec_story(s@, p as int) {
            Ok((q, v)) => res matches Ok((q1, v1)) && q1 == q && parses_view(v1@) == v,
            Err((k, q)) => res matches Err(e) && e.kind == k && e.input@ == input@.skip(q),
        },
{
    let mut acc: Vec<StoryParse> = Vec::new();
    let mut i: usize = p;
    loop
        invariant
            s@ == input@,
            p <= i <= s@.len(),
            match spec_story(s@, i as int) {
                Ok((r, vs)) => spec_story(s@, p as int) == Ok::<(int, Seq<SpecStoryParse>), (ErrorKind, int)>((r, parses_view(acc@) + vs)),
                Err(e) => spec_story(s@, p as int) == Err::<(int, Seq<SpecStoryParse>), (ErrorKind, int)>(e),
            },
        decreases s@.len() - i,
    {
        match block_at(input, s, i) {
            Err(_) => {
                assert(parses_view(acc@) + Seq::<SpecStoryParse>::empty() =~= parses_view(acc@));
                return Ok((i, acc));
            },
            Ok((q, v)) => {
                proof {
                    lemma_block_progress(s@, i as int);
                }
                if q <= i {
                    return Err(fail(input, s, ErrorKind::Many0, i));
                }
                let ghost old_acc = acc@;
                acc.push(v);
                proof {
                    assert(parses_view(acc@) =~= parses_view(old_acc).push(v@));
                    match spec_story(s@, q as int) {
                        Ok((r, vs)) => {
                            assert(parses_view(old_acc) + (seq![v@] + vs) =~= parses_view(acc@) + vs);
                        },
                        Err(e) => {},
                    }
                }
                i = q;
            },
        }
    }
}

/// Recognises a block id: optional white space, then `[`, one or more ASCII
/// letters or digits, and `]`. Returns the remaining input and the id.
pub fn story_id(input: &str) -> (res: Result<(String, String), ParseError>)
    ensures
        answers(input@, spec_story_id(input@, 0), res, |t: String, v: Seq<char>| t@ == v),
{
    let s = chars_of(input);
    match id_at(input, &s, 0) {
        Ok((q, v)) => Ok((slice_of(input, q, s.len()), v)),
        Err(e) => Err(e),
    }
}

/// Recognises the text of a block: everything up to the next backslash or
/// the end. Returns the remaining input and the text; never fails.
pub fn story_text(input: &str) -> (res: Result<(String, String), ParseError>)
    ensures
        answers(
            input@,
            Ok::<(int, Seq<char>), (ErrorKind, int)>(spec_story_text(input@, 0)),
            res,
            |t: String, v: Seq<char>| t@ == v,
        ),
{
    let s = chars_of(input);
    let (q, v) = text_at(input, &s, 0);
    Ok((slice_of(input, q, s.len()), v))
}

/// Recognises a command: `\`, the target id (possibly empty), white space,
/// `(word)`, white space, `{label}`, white space. Returns the remaining input
/// and the command.
pub fn story_command(input: &str) -> (res: Result<(String, Path), ParseError>)
    ensures
        answers(input@, spec_story_command(input@, 0), res, |t: Path, v: SpecPath| t@ == v),
{
    let s = chars_of(input);
    match command_at(input, &s, 0) {
        Ok((q, v)) => Ok((slice_of(input, q, s.len()), v)),
        Err(e) => Err(e),
    }
}

/// Recognises a block: its id, its text, and as many commands as follow.
/// Fails exactly where the id is missing.
pub fn story_block(input: &str) -> (res: Result<(String, StoryParse), ParseError>)
    ensures
        answers(
            input@,
            spec_story_block(input@, 0),
            res,
            |t: StoryParse, v: SpecStoryParse| t@ == v,
        ),
        res is Err <==> spec_story_id(input@, 0) is Err,
{
    proof {
        lemma_block_progress(input@, 0);
    }
    let s = chars_of(input);
    match block_at(input, &s, 0) {
        Ok((q, v)) => Ok((slice_of(input, q, s.len()), v)),
        Err(e) => Err(e),
    }
}

/// Recognises a story file: as many blocks as follow one another. Never
/// fails; returns the input that follows the last block, and the blocks.
pub fn story(input: &str) -> (res: Result<(String, Vec<StoryParse>), ParseError>)
    ensures
        answers(
            input@,
            spec_story(input@, 0),
            res,
            |t: Vec<StoryParse>, v: Seq<SpecStoryParse>| parses_view(t@) == v,
        ),
        res is Ok,
{
    proof {
        lemma_story_total(input@, 0);
    }
    let s = chars_of(input);
    match blocks_at(input, &s, 0) {
        Ok((q, v)) => Ok((slice_of(input, q, s.len()), v)),
        Err(e) => Err(e),
    }
}

} // verus!
