//! The clipboard text the engine last saw or wrote.
//!
//! In a browser the clipboard can only be read asynchronously, after a
//! permission prompt, so a paste cannot wait for it. The engine keeps the
//! last text it wrote or read here and answers a paste from this copy.
use vstd::prelude::*;

verus! {

/// The remembered clipboard contents.
#[derive(Debug)]
pub struct ClipboardCache {
    text: Option<String>,
}

impl ClipboardCache {
    /// Nothing remembered yet.
    pub fn new() -> (c: ClipboardCache)
        ensures
            c.contents() == None::<Seq<char>>,
    {
        ClipboardCache { text: None }
    }

    /// What is remembered, as characters.
    pub closed spec fn contents(&self) -> Option<Seq<char>> {
        match self.text {
            Some(t) => Some(t@),
            None => None,
        }
    }

    /// What a paste answers with.
    pub fn cached(&self) -> (text: Option<String>)
        ensures
            match text {
                Some(t) => self.contents() == Some(t@),
                None => self.contents() == None::<Seq<char>>,
            },
    {
        match &self.text {
            Some(t) => Some(t.clone()),
            None => None,
        }
    }

    /// Remember `text` as the clipboard's contents.
    pub fn cache(&mut self, text: String)
        ensures
            final(self).contents() == Some(text@),
    {
        self.text = Some(text);
    }
}

} // verus!
