//! What a caller is told to do to the filesystem, and what it reports back.

use vstd::prelude::*;

verus! {

/// One step on the filesystem, for the caller to perform.
#[derive(Debug, Clone, PartialEq, Eq)]
pub enum Action {
    /// Read the names of the entries directly under `dir`.
    Read { dir: String },
    /// Delete `path` with everything below it.
    Remove { path: String },
    /// Duplicate `source`, with everything below it, under its base name in
    /// the directory `into`.
    Copy { source: String, into: String },
    /// Move `source`, with everything below it, under its base name into the
    /// directory `into`.
    Move { source: String, into: String },
    /// Print the entries of `dir`, hidden ones too, with their metadata.
    List { dir: String },
    /// Print what lies below `dir`, hidden entries too, as a tree.
    Tree { dir: String },
}

/// An [`Action`] with its paths as sequences of characters.
pub enum ActionView {
    Read { dir: Seq<char> },
    Remove { path: Seq<char> },
    Copy { source: Seq<char>, into: Seq<char> },
    Move { source: Seq<char>, into: Seq<char> },
    List { dir: Seq<char> },
    Tree { dir: Seq<char> },
}

impl View for Action {
    type V = ActionView;

    open spec fn view(&self) -> ActionView {
        match *self {
            Action::Read { dir } => ActionView::Read { dir: dir@ },
            Action::Remove { path } => ActionView::Remove { path: path@ },
            Action::Copy { source, into } => ActionView::Copy { source: source@, into: into@ },
            Action::Move { source, into } => ActionView::Move { source: source@, into: into@ },
            Action::List { dir } => ActionView::List { dir: dir@ },
            Action::Tree { dir } => ActionView::Tree { dir: dir@ },
        }
    }
}

/// The views of a sequence of actions, in the same order.
pub open spec fn action_views(actions: Seq<Action>) -> Seq<ActionView> {
    actions.map_values(|a: Action| a@)
}

/// The views of a sequence of strings, in the same order.
pub open spec fn string_views(strings: Seq<String>) -> Seq<Seq<char>> {
    strings.map_values(|s: String| s@)
}

/// How an [`Action`] ended.
#[derive(Debug, Clone, PartialEq, Eq)]
pub enum Event {
    /// A directory was read: the names of its entries, in any order.
    Listed(Vec<String>),
    /// The action was carried out.
    Done,
    /// The action could not be carried out, or not all of it.
    Failed,
}

/// An [`Event`] with its names as sequences of characters.
pub enum EventView {
    Listed(Seq<Seq<char>>),
    Done,
    Failed,
}

impl View for Event {
    type V = EventView;

    open spec fn view(&self) -> EventView {
        match *self {
            Event::Listed(names) => EventView::Listed(string_views(names@)),
            Event::Done => EventView::Done,
            Event::Failed => EventView::Failed,
        }
    }
}

/// Why an operation on the clipboard failed.
#[derive(Debug, Clone, Copy, PartialEq, Eq, Structural)]
pub enum Failure {
    /// The staging directory could not be read.
    Unreadable,
    /// An entry of the staging directory could not be deleted. Where a new
    /// batch was to be staged, none of it was.
    NotCleared,
    /// A source or an entry could not be copied or moved.
    Incomplete,
}

/// The operations of the clipboard.
#[derive(Debug, Clone, Copy, PartialEq, Eq, Structural)]
pub enum Command {
    /// Stage copies of the operands.
    Copy,
    /// Stage the operands themselves, removing them from where they were.
    Cut,
    /// Duplicate what is staged into the working directory.
    Paste,
    /// Show what is staged, with metadata.
    List,
    /// Show what is staged, as a tree.
    Tree,
    /// Discard what is staged.
    Empty,
}

impl Command {
    /// The command that a token of the command line stands for.
    pub open spec fn spec_parse(token: Seq<char>) -> Option<Command> {
        if token =~= seq!['c'] {
            Some(Command::Copy)
        } else if token =~= seq!['x'] {
            Some(Command::Cut)
        } else if token =~= seq!['p'] {
            Some(Command::Paste)
        } else if token =~= seq!['l'] {
            Some(Command::List)
        } else if token =~= seq!['t'] {
            Some(Command::Tree)
        } else if token =~= seq!['e'] {
            Some(Command::Empty)
        } else {
            None
        }
    }

    /// Reads a command token: one of the letters `c`, `x`, `p`, `l`, `t` and
    /// `e`. Any other text is no command.
    pub fn parse(token: &str) -> (command: Option<Command>)
        ensures
            command == Self::spec_parse(token@),
    {
        if token.unicode_len() != 1 {
            return None;
        }
        let c = token.get_char(0);
        assert(token@ =~= seq![c]);
        if c == 'c' {
            Some(Command::Copy)
        } else if c == 'x' {
            Some(Command::Cut)
        } else if c == 'p' {
            Some(Command::Paste)
        } else if c == 'l' {
            Some(Command::List)
        } else if c == 't' {
            Some(Command::Tree)
        } else if c == 'e' {
            Some(Command::Empty)
        } else {
            None
        }
    }
}

} // verus!
