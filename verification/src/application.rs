//! Browsing state over an indexed tree.
//!
//! The terminal front end owns the event loop and the drawing; every
//! decision it takes on a key press — moving the selection, entering a
//! directory, returning to the parent, toggling a mark, switching between
//! browsing and the removal question — is a verified transition here.
//! The front end only reads fields to render them.

use vstd::prelude::*;
use crate::fspath::FsPath;
use crate::model::{found_at, marked_at};
use crate::node::{Node, lemma_children_model};

verus! {

/// What the browser is showing: the listing, or the removal question.
#[derive(PartialEq, Eq, Structural)]
pub enum Mode {
    Normal,
    AskRemove,
}

/// The state of one browsing session: the indexed tree, the path of the
/// directory whose children are listed, and the selection within them.
pub struct App {
    pub mode: Mode,
    pub listing: Node,
    pub current: FsPath,
    pub selected: usize,
    pub number_of_files: usize,
}

impl App {
    /// A session that starts at the root of the indexed tree, browsing,
    /// with the first entry selected.
    pub fn new(node: Node) -> (app: App)
        ensures
            app.mode == Mode::Normal,
            app.listing == node,
            app.current@ == node@.path,
            app.selected == 0,
            app.number_of_files == node@.children.len(),
    {
        proof {
            lemma_children_model(node.children@);
        }
        let current = node.path.clone();
        let number_of_files = node.children.len();
        App { mode: Mode::Normal, listing: node, current, selected: 0, number_of_files }
    }

    /// Moves the selection one entry down, stopping at the last entry.
    pub fn select_next(&mut self)
        ensures
            final(self).selected == if old(self).selected + 1 < old(self).number_of_files {
                old(self).selected + 1
            } else {
                old(self).selected as int
            },
            final(self).mode == old(self).mode,
            final(self).listing == old(self).listing,
            final(self).current == old(self).current,
            final(self).number_of_files == old(self).number_of_files,
    {
        if self.number_of_files > 0 && self.selected < self.number_of_files - 1 {
            self.selected = self.selected + 1;
        }
    }

    /// Moves the selection one entry up, stopping at the first entry.
    pub fn select_prev(&mut self)
        ensures
            final(self).selected == if old(self).selected > 0 {
                old(self).selected - 1
            } else {
                0int
            },
            final(self).mode == old(self).mode,
            final(self).listing == old(self).listing,
            final(self).current == old(self).current,
            final(self).number_of_files == old(self).number_of_files,
    {
        if self.selected > 0 {
            self.selected = self.selected - 1;
        }
    }

    /// Asks the removal question.
    pub fn begin_remove(&mut self)
        ensures
            *final(self) == (App { mode: Mode::AskRemove, ..*old(self) }),
    {
        self.mode = Mode::AskRemove;
    }

    /// Returns from the removal question to browsing.
    pub fn cancel_remove(&mut self)
        ensures
            *final(self) == (App { mode: Mode::Normal, ..*old(self) }),
    {
        self.mode = Mode::Normal;
    }

    /// Enters the selected directory: the listing moves to the selected
    /// child when it exists and is a directory, with the selection reset;
    /// nothing changes otherwise.
    pub fn enter(&mut self)
        ensures
            match found_at(old(self).listing@, old(self).current@) {
                Some(m) => {
                    if old(self).selected < m.children.len() && m.children[
                        old(self).selected as int
                    ].is_directory {
                        &&& final(self).current@ == m.children[old(self).selected as int].path
                        &&& final(self).selected == 0
                        &&& final(self).number_of_files == m.children[
                            old(self).selected as int
                        ].children.len()
                        &&& final(self).listing == old(self).listing
                        &&& final(self).mode == old(self).mode
                    } else {
                        *final(self) == *old(self)
                    }
                },
                None => *final(self) == *old(self),
            },
    {
        let mut target: Option<(FsPath, usize)> = None;
        match self.listing.find_node(&self.current) {
            Some(node) => {
                proof {
                    lemma_children_model(node.children@);
                }
                if self.selected < node.children.len() {
                    let c = &node.children[self.selected];
                    if c.is_directory {
                        proof {
                            lemma_children_model(c.children@);
                        }
                        target = Some((c.path.clone(), c.children.len()));
                    }
                }
            },
            None => {},
        }
        match target {
            Some((p, len)) => {
                self.current = p;
                self.selected = 0;
                self.number_of_files = len;
            },
            None => {},
        }
    }

    /// Returns to the parent directory: the listing moves to the node one
    /// component up when the tree holds it, with the selection reset;
    /// nothing changes at the root or when the parent is not in the tree.
    pub fn go_parent(&mut self)
        ensures
            match old(self).current.parent_path_spec() {
                Some(pp) => match found_at(old(self).listing@, pp) {
                    Some(m) => {
                        &&& final(self).current@ == m.path
                        &&& final(self).selected == 0
                        &&& final(self).number_of_files == m.children.len()
                        &&& final(self).listing == old(self).listing
                        &&& final(self).mode == old(self).mode
                    },
                    None => *final(self) == *old(self),
                },
                None => *final(self) == *old(self),
            },
    {
        let parent = self.current.parent();
        let mut target: Option<(FsPath, usize)> = None;
        match parent {
            Some(pp) => {
                match self.listing.find_node(&pp) {
                    Some(node) => {
                        proof {
                            lemma_children_model(node.children@);
                        }
                        target = Some((node.path.clone(), node.children.len()));
                    },
                    None => {},
                }
            },
            None => {},
        }
        match target {
            Some((p, len)) => {
                self.current = p;
                self.selected = 0;
                self.number_of_files = len;
            },
            None => {},
        }
    }

    /// Flips the mark of the selected entry, marking or clearing its whole
    /// subtree; nothing changes when the listed directory or the selected
    /// entry does not exist.
    pub fn toggle_mark_selected(&mut self)
        ensures
            match found_at(old(self).listing@, old(self).current@) {
                Some(m) => {
                    if old(self).selected < m.children.len() {
                        &&& final(self).listing@ == marked_at(
                            old(self).listing@,
                            m.children[old(self).selected as int].path,
                            !m.children[old(self).selected as int].is_marked,
                        )
                        &&& final(self).mode == old(self).mode
                        &&& final(self).current == old(self).current
                        &&& final(self).selected == old(self).selected
                        &&& final(self).number_of_files == old(self).number_of_files
                    } else {
                        *final(self) == *old(self)
                    }
                },
                None => *final(self) == *old(self),
            },
    {
        let mut target: Option<(FsPath, bool)> = None;
        match self.listing.find_node(&self.current) {
            Some(node) => {
                proof {
                    lemma_children_model(node.children@);
                }
                if self.selected < node.children.len() {
                    let c = &node.children[self.selected];
                    target = Some((c.path.clone(), !c.is_marked));
                }
            },
            None => {},
        }
        match target {
            Some((p, v)) => {
                let _found = self.listing.mark_at(&p, v);
            },
            None => {},
        }
    }
}

} // verus!
