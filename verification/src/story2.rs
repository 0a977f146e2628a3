//! Story blocks that own their links directly, each link holding a shared
//! reference to the block it leads to.

use std::sync::Arc;

use vstd::prelude::*;

use crate::parser::StoryParse;

verus! {

/// A story block whose links hold the blocks they lead to.
#[derive(Debug, Clone)]
pub struct StoryBlock2 {
    pub id: String,
    pub text: String,
    pub path: Vec<(Arc<StoryBlock2>, String, String)>,
}

impl StoryBlock2 {
    /// A block with the given text, an empty id and no links.
    pub fn new(text: &str) -> (b: StoryBlock2)
        ensures
            b.text@ == text@,
            b.id@ == Seq::<char>::empty(),
            b.path@ == Seq::<(Arc<StoryBlock2>, String, String)>::empty(),
    {
        StoryBlock2 { text: String::from_str(text), id: String::new(), path: Vec::new() }
    }

    /// A block with the id and text of a parsed block, and no links.
    pub fn from_parse(parse: &StoryParse) -> (b: StoryBlock2)
        ensures
            b.id@ == parse.id@,
            b.text@ == parse.content@,
            b.path@ == Seq::<(Arc<StoryBlock2>, String, String)>::empty(),
    {
        StoryBlock2 { id: parse.id.clone(), text: parse.content.clone(), path: Vec::new() }
    }

    /// The same block with its links replaced by `paths`.
    pub fn set_paths(self, paths: Vec<(Arc<StoryBlock2>, String, String)>) -> (b: Self)
        ensures
            b.id == self.id,
            b.text == self.text,
            b.path == paths,
    {
        let mut s = self;
        s.path = paths;
        s
    }
}

/// The key under which a map from story names to such blocks is stored.
pub struct StoryContainer2;

} // verus!
