//! The answer a command gives, assembled step by step: a message, or a
//! reaction with an emoji, or nothing at all when neither was set.

use vstd::prelude::*;

use crate::bot::{Reply, SpecReply, reply_view};

verus! {

/// The emoji reacted with when none was chosen.
pub open spec fn default_emoji() -> char {
    '\u{1F41B}'
}

/// An answer being assembled.
#[derive(Debug)]
pub struct MnemosyneResponseBuilder {
    react: Option<bool>,
    content: Option<String>,
    sendable: bool,
    reaction_emoji: Option<char>,
}

/// An assembled answer: whether it reacts rather than replies, the message,
/// the emoji, and whether there is anything to send.
#[derive(Debug)]
pub struct MnemosyneResponse {
    react: bool,
    content: String,
    reaction_emoji: char,
    sendable: bool,
}

/// The value of an assembled answer: react mode, message, emoji, and
/// whether there is anything to send.
pub type SpecResponse = (bool, Seq<char>, char, bool);

/// The value of an answer being assembled: what has been set of it.
pub struct SpecBuilder {
    pub react: Option<bool>,
    pub content: Option<Seq<char>>,
    pub sendable: bool,
    pub reaction_emoji: Option<char>,
}

impl View for MnemosyneResponseBuilder {
    type V = SpecBuilder;

    closed spec fn view(&self) -> SpecBuilder {
        SpecBuilder {
            react: self.react,
            content: match self.content {
                Some(c) => Some(c@),
                None => None,
            },
            sendable: self.sendable,
            reaction_emoji: self.reaction_emoji,
        }
    }
}

impl View for MnemosyneResponse {
    type V = SpecResponse;

    closed spec fn view(&self) -> SpecResponse {
        (self.react, self.content@, self.reaction_emoji, self.sendable)
    }
}

/// The answer a builder assembles: what was set, and the defaults for the
/// rest (reply rather than react, an empty message, a bug emoji).
pub open spec fn spec_build(b: SpecBuilder) -> SpecResponse {
    (
        match b.react {
            Some(r) => r,
            None => false,
        },
        match b.content {
            Some(c) => c,
            None => Seq::empty(),
        },
        match b.reaction_emoji {
            Some(e) => e,
            None => default_emoji(),
        },
        b.sendable,
    )
}

/// What an answer sends: nothing when nothing was set; else a reaction with
/// its emoji in react mode, or its message.
pub open spec fn spec_respond(r: SpecResponse) -> Option<SpecReply> {
    if !r.3 {
        None
    } else if r.0 {
        Some(SpecReply::React(r.2))
    } else {
        Some(SpecReply::Text(r.1))
    }
}

/// A builder on which nothing was set.
pub open spec fn new_builder() -> SpecBuilder {
    SpecBuilder { react: None, content: None, sendable: false, reaction_emoji: None }
}

/// A call of one of the builder's setters, with its argument.
pub enum SetterOp {
    ReactMode(bool),
    Content(Seq<char>),
    ReactionEmoji(char),
}

/// What a setter does to a builder: it sets its field; setting the message
/// or the emoji also makes the answer one to send.
pub open spec fn apply_setter(b: SpecBuilder, op: SetterOp) -> SpecBuilder {
    match op {
        SetterOp::ReactMode(r) => SpecBuilder { react: Some(r), ..b },
        SetterOp::Content(c) => SpecBuilder { content: Some(c), sendable: true, ..b },
        SetterOp::ReactionEmoji(e) => SpecBuilder { reaction_emoji: Some(e), sendable: true, ..b },
    }
}

/// A builder after the given setter calls, in order.
pub open spec fn apply_setters(b: SpecBuilder, ops: Seq<SetterOp>) -> SpecBuilder
    decreases ops.len(),
{
    if ops.len() == 0 {
        b
    } else {
        apply_setter(apply_setters(b, ops.drop_last()), ops.last())
    }
}

/// The last react mode set, if any.
pub open spec fn last_react_mode(ops: Seq<SetterOp>) -> Option<bool>
    decreases ops.len(),
{
    if ops.len() == 0 {
        None
    } else if let SetterOp::ReactMode(r) = ops.last() {
        Some(r)
    } else {
        last_react_mode(ops.drop_last())
    }
}

/// The last message set, if any.
pub open spec fn last_content(ops: Seq<SetterOp>) -> Option<Seq<char>>
    decreases ops.len(),
{
    if ops.len() == 0 {
        None
    } else if let SetterOp::Content(c) = ops.last() {
        Some(c)
    } else {
        last_content(ops.drop_last())
    }
}

/// The last emoji set, if any.
pub open spec fn last_emoji(ops: Seq<SetterOp>) -> Option<char>
    decreases ops.len(),
{
    if ops.len() == 0 {
        None
    } else if let SetterOp::ReactionEmoji(e) = ops.last() {
        Some(e)
    } else {
        last_emoji(ops.drop_last())
    }
}

/// Whether a message or an emoji was set.
pub open spec fn sets_something(ops: Seq<SetterOp>) -> bool {
    exists|i: int| 0 <= i < ops.len() && !(#[trigger] ops[i] is ReactMode)
}

/// After any setter calls, a builder holds, for each field, the last value
/// set, or what it held before; and it has something to send when it had,
/// or when a message or an emoji was set.
pub proof fn lemma_apply_setters(b: SpecBuilder, ops: Seq<SetterOp>)
    ensures
        apply_setters(b, ops) == (SpecBuilder {
            react: match last_react_mode(ops) {
                Some(r) => Some(r),
                None => b.react,
            },
            content: match last_content(ops) {
                Some(c) => Some(c),
                None => b.content,
            },
            sendable: b.sendable || sets_something(ops),
            reaction_emoji: match last_emoji(ops) {
                Some(e) => Some(e),
                None => b.reaction_emoji,
            },
        }),
    decreases ops.len(),
{
    if ops.len() > 0 {
        let init = ops.drop_last();
        lemma_apply_setters(b, init);
        assert(sets_something(ops) == (sets_something(init) || !(ops.last() is ReactMode))) by {
            if sets_something(init) {
                let i = choose|i: int| 0 <= i < init.len() && !(#[trigger] init[i] is ReactMode);
                assert(ops[i] == init[i]);
            }
            if sets_something(ops) && !sets_something(init) {
                let i = choose|i: int| 0 <= i < ops.len() && !(#[trigger] ops[i] is ReactMode);
                if i < init.len() {
                    assert(init[i] == ops[i]);
                }
            }
            if !(ops.last() is ReactMode) {
                assert(!(ops[ops.len() - 1] is ReactMode));
            }
        }
    }
}

/// A builder made new and then given any setter calls builds the answer
/// that holds the last react mode set (else replying), the last message set
/// (else an empty one), the last emoji set (else the bug emoji), and that
/// has something to send exactly when a message or an emoji was set.
pub proof fn law_build_after_setters(ops: Seq<SetterOp>)
    ensures
        spec_build(apply_setters(new_builder(), ops)) == (
            match last_react_mode(ops) {
                Some(r) => r,
                None => false,
            },
            match last_content(ops) {
                Some(c) => c,
                None => Seq::<char>::empty(),
            },
            match last_emoji(ops) {
                Some(e) => e,
                None => default_emoji(),
            },
            sets_something(ops),
        ),
{
    lemma_apply_setters(new_builder(), ops);
}

impl MnemosyneResponseBuilder {
    /// Nothing set yet.
    pub fn new() -> (b: Self)
        ensures
            b@ == new_builder(),
    {
        MnemosyneResponseBuilder { react: None, content: None, sendable: false, reaction_emoji: None }
    }

    /// Chooses between reacting (`true`) and replying.
    pub fn set_react_mode(self, react: bool) -> (b: Self)
        ensures
            b@ == apply_setter(self@, SetterOp::ReactMode(react)),
    {
        let mut s = self;
        s.react = Some(react);
        s
    }

    /// Sets the message; there is now something to send.
    pub fn set_content(self, content: String) -> (b: Self)
        ensures
            b@ == apply_setter(self@, SetterOp::Content(content@)),
    {
        let mut s = self;
        s.content = Some(content);
        s.sendable = true;
        s
    }

    /// Sets the emoji to react with; there is now something to send.
    pub fn set_reaction_emoji(self, emoji: char) -> (b: Self)
        ensures
            b@ == apply_setter(self@, SetterOp::ReactionEmoji(emoji)),
    {
        let mut s = self;
        s.reaction_emoji = Some(emoji);
        s.sendable = true;
        s
    }

    /// The answer assembled.
    pub fn build(self) -> (r: MnemosyneResponse)
        ensures
            r@ == spec_build(self@),
    {
        let react = match self.react {
            Some(r) => r,
            None => false,
        };
        let content = match self.content {
            Some(c) => c,
            None => String::new(),
        };
        let reaction_emoji = match self.reaction_emoji {
            Some(e) => e,
            None => '\u{1F41B}',
        };
        MnemosyneResponse {
            react: react,
            content: content,
            sendable: self.sendable,
            reaction_emoji: reaction_emoji,
        }
    }
}

impl MnemosyneResponse {
    /// Whether the answer reacts rather than replies.
    pub fn react(&self) -> (r: bool)
        ensures
            r == self@.0,
    {
        self.react
    }

    /// The message of the answer.
    pub fn content(&self) -> (r: &String)
        ensures
            r@ == self@.1,
    {
        &self.content
    }

    /// The emoji of the answer.
    pub fn reaction_emoji(&self) -> (r: char)
        ensures
            r == self@.2,
    {
        self.reaction_emoji
    }

    /// What to send, if anything.
    pub fn respond(self) -> (r: Option<Reply>)
        ensures
            match r {
                Some(x) => spec_respond(self@) == Some(reply_view(x)),
                None => spec_respond(self@) is None,
            },
    {
        if !self.sendable {
            return None;
        }
        if self.react {
            Some(Reply::React(self.reaction_emoji))
        } else {
            Some(Reply::Text(self.content))
        }
    }
}

/// An answer for which nothing was set sends nothing, whatever its mode.
pub proof fn law_unset_answer_sends_nothing(react: Option<bool>)
    ensures
        spec_respond(
            spec_build(SpecBuilder { react: react, content: None, sendable: false, reaction_emoji: None }),
        ) is None,
{
}

/// An answer whose message was set, and not put in react mode, replies with
/// that message; put in react mode, it reacts with the emoji set, or the
/// bug emoji.
pub proof fn law_answer_sends_what_was_set(content: Seq<char>, emoji: Option<char>)
    ensures
        spec_respond(
            spec_build(SpecBuilder { react: None, content: Some(content), sendable: true, reaction_emoji: emoji }),
        ) == Some(SpecReply::Text(content)),
        spec_respond(
            spec_build(SpecBuilder { react: Some(true), content: Some(content), sendable: true, reaction_emoji: emoji }),
        ) == Some(SpecReply::React(
            match emoji {
                Some(e) => e,
                None => default_emoji(),
            },
        )),
{
}

} // verus!
