//! The clipboard: a staging directory and the operations on it.

use crate::action::{string_views, Command};
use crate::laws::{
    clipboard, copied, copy_stages_the_sources, cut_stages_what_copy_stages,
    empty_leaves_nothing, emptied, kept, moved, pastable, paste_duplicates_the_entries,
    paste_keeps_the_entries, pasted, pastes_aside, showing_changes_nothing, shown, stageable,
};
use crate::path::{base_name, join, spec_base_name, spec_join};
use crate::session::{start, Session};
use crate::world::{run, World};
use vstd::prelude::*;
use vstd::string::*;

verus! {

/// The name of the staging directory inside the user's data directory.
pub open spec fn subdir() -> Seq<char> {
    seq!['c', 'x', 'p']
}

/// The clipboard. It knows where its staging directory is; what the
/// directory holds is on disk and nowhere else.
pub struct Cxp {
    data_dir: String,
}

impl View for Cxp {
    type V = Seq<char>;

    /// The path of the staging directory.
    closed spec fn view(&self) -> Seq<char> {
        self.data_dir@
    }
}

/// Asks `dirs::data_dir` for the data directory of the user who runs the
/// process. The answer depends on the platform and on the environment, so
/// nothing is claimed of it. A directory whose path is not valid Unicode
/// counts as none.
#[verifier::external_body]
fn user_data_dir() -> (dir: Option<String>) {
    match dirs::data_dir() {
        Some(path) => path.into_os_string().into_string().ok(),
        None => None,
    }
}

impl Cxp {
    /// The clipboard of the user who runs the process, or `None` where that
    /// user has no data directory. The staging directory is not created here.
    pub fn new() -> (cxp: Option<Cxp>)
        ensures
            cxp.is_some() ==> exists|base: Seq<char>| cxp.unwrap()@ == spec_join(base, subdir()),
    {
        Cxp::found_in(user_data_dir())
    }

    /// The clipboard that goes with what was found as the user's data
    /// directory: none where none was found.
    pub fn found_in(data_dir: Option<String>) -> (cxp: Option<Cxp>)
        ensures
            cxp.is_some() == data_dir.is_some(),
            cxp.is_some() ==> cxp.unwrap()@ == spec_join(data_dir.unwrap()@, subdir()),
    {
        match data_dir {
            Some(base) => Some(Cxp::in_data_dir(base.as_str())),
            None => None,
        }
    }

    /// The clipboard whose staging directory is the entry `cxp` of the data
    /// directory `base`.
    pub fn in_data_dir(base: &str) -> (cxp: Cxp)
        ensures
            cxp@ == spec_join(base@, subdir()),
    {
        proof {
            reveal_strlit("cxp");
            assert("cxp"@ =~= subdir());
        }
        Cxp { data_dir: join(base, "cxp") }
    }

    /// The path of the staging directory.
    pub fn data_dir(&self) -> (dir: &str)
        ensures
            dir@ == self@,
    {
        self.data_dir.as_str()
    }

    /// Where `source` is found in the staging directory once it is staged:
    /// under its base name. `None` for a source that has no base name.
    pub fn staged_path(&self, source: &str) -> (path: Option<String>)
        ensures
            path.is_some() == spec_base_name(source@).is_some(),
            path.is_some() ==> path.unwrap()@ == spec_join(
                self@,
                spec_base_name(source@).unwrap(),
            ),
    {
        match base_name(source) {
            Some(name) => Some(join(self.data_dir.as_str(), name.as_str())),
            None => None,
        }
    }

    /// Begins the operation that `command` names. `operand` holds the
    /// sources for the commands that stage; the others ignore it.
    pub fn run(&self, command: Command, operand: &[String]) -> (session: Session)
        ensures
            session@ == start(command, self@, string_views(operand@)),
    {
        Session::start(command, self.data_dir.as_str(), operand)
    }

    /// Begins to stage copies of the sources `operand`: what is staged is
    /// discarded, then each source is copied into the staging directory, in
    /// the order given. Without a source nothing is done.
    ///
    /// In the model of [`crate::world`], where the sources can be staged,
    /// the session ends well, the staging directory ends up with one entry
    /// for each source, under its base name and with all that the source
    /// holds, and the sources are where they were.
    pub fn copy(&self, operand: &[String]) -> (session: Session)
        ensures
            session@ == start(Command::Copy, self@, string_views(operand@)),
            forall|w: World, listing: Seq<Seq<char>>|
                clipboard(w, self@, listing) && stageable(
                    w,
                    self@,
                    string_views(operand@),
                    false,
                ) ==> copied(
                    #[trigger] run(session@, w, listing),
                    w,
                    self@,
                    string_views(operand@),
                ),
    {
        let session = self.run(Command::Copy, operand);
        proof {
            let sources = string_views(operand@);
            assert forall|w: World, listing: Seq<Seq<char>>|
                clipboard(w, self@, listing) && stageable(w, self@, sources, false) implies copied(
                #[trigger] run(session@, w, listing),
                w,
                self@,
                sources,
            ) by {
                copy_stages_the_sources(w, self@, listing, sources);
            }
        }
        session
    }

    /// Begins to stage the sources `operand` themselves: what is staged is
    /// discarded, then each source is moved into the staging directory, in
    /// the order given. Without a source nothing is done.
    ///
    /// In the model of [`crate::world`], where the sources can be staged,
    /// the session ends well, the staging directory ends up with what
    /// [`Cxp::copy`] would leave there, and no source is where it was.
    pub fn cut(&self, operand: &[String]) -> (session: Session)
        ensures
            session@ == start(Command::Cut, self@, string_views(operand@)),
            forall|w: World, listing: Seq<Seq<char>>|
                clipboard(w, self@, listing) && stageable(
                    w,
                    self@,
                    string_views(operand@),
                    true,
                ) ==> moved(
                    #[trigger] run(session@, w, listing),
                    run(start(Command::Copy, self@, string_views(operand@)), w, listing).1,
                    w,
                    self@,
                    string_views(operand@),
                ),
    {
        let session = self.run(Command::Cut, operand);
        proof {
            let sources = string_views(operand@);
            assert forall|w: World, listing: Seq<Seq<char>>|
                clipboard(w, self@, listing) && stageable(w, self@, sources, true) implies moved(
                #[trigger] run(session@, w, listing),
                run(start(Command::Copy, self@, sources), w, listing).1,
                w,
                self@,
                sources,
            ) by {
                cut_stages_what_copy_stages(w, self@, listing, sources);
            }
        }
        session
    }

    /// Begins to paste: each staged entry is copied into the working
    /// directory.
    ///
    /// In the model of [`crate::world`], whatever becomes of the copies, the
    /// staging directory keeps the entries it has, unless the copy of an
    /// entry lands on the way to it. Where the working directory lies apart
    /// from it and has nothing yet under the names of the staged entries,
    /// the session ends well and the working directory gets a duplicate of
    /// each.
    pub fn paste(&self) -> (session: Session)
        ensures
            session@ == start(Command::Paste, self@, Seq::empty()),
            forall|w: World, listing: Seq<Seq<char>>|
                clipboard(w, self@, listing) && pastes_aside(w, self@, listing) ==> kept(
                    #[trigger] run(session@, w, listing),
                    w,
                    self@,
                ),
            forall|w: World, listing: Seq<Seq<char>>|
                clipboard(w, self@, listing) && pastable(w, self@, listing) ==> pasted(
                    #[trigger] run(session@, w, listing),
                    w,
                    self@,
                    listing,
                ),
    {
        let none: Vec<String> = Vec::new();
        let session = self.run(Command::Paste, none.as_slice());
        proof {
            assert forall|w: World, listing: Seq<Seq<char>>|
                clipboard(w, self@, listing) && pastes_aside(w, self@, listing) implies kept(
                #[trigger] run(session@, w, listing),
                w,
                self@,
            ) by {
                paste_keeps_the_entries(w, self@, listing);
            }
            assert forall|w: World, listing: Seq<Seq<char>>|
                clipboard(w, self@, listing) && pastable(w, self@, listing) implies pasted(
                #[trigger] run(session@, w, listing),
                w,
                self@,
                listing,
            ) by {
                paste_duplicates_the_entries(w, self@, listing);
            }
        }
        session
    }

    /// Begins to discard what is staged: each entry of the staging
    /// directory is deleted.
    ///
    /// In the model of [`crate::world`], the session ends well, nothing is
    /// left in the staging directory, and nothing else is touched.
    pub fn empty(&self) -> (session: Session)
        ensures
            session@ == start(Command::Empty, self@, Seq::empty()),
            forall|w: World, listing: Seq<Seq<char>>|
                clipboard(w, self@, listing) ==> emptied(
                    #[trigger] run(session@, w, listing),
                    w,
                    self@,
                ),
    {
        let none: Vec<String> = Vec::new();
        let session = self.run(Command::Empty, none.as_slice());
        proof {
            assert forall|w: World, listing: Seq<Seq<char>>|
                clipboard(w, self@, listing) implies emptied(
                #[trigger] run(session@, w, listing),
                w,
                self@,
            ) by {
                empty_leaves_nothing(w, self@, listing);
            }
        }
        session
    }

    /// Begins to list what is staged, with metadata. In the model of
    /// [`crate::world`] this changes nothing, and fails only where the
    /// staging directory is not there.
    pub fn list(&self) -> (session: Session)
        ensures
            session@ == start(Command::List, self@, Seq::empty()),
            forall|w: World, listing: Seq<Seq<char>>|
                shown(#[trigger] run(session@, w, listing), w, self@),
    {
        let none: Vec<String> = Vec::new();
        let session = self.run(Command::List, none.as_slice());
        proof {
            assert forall|w: World, listing: Seq<Seq<char>>|
                shown(#[trigger] run(session@, w, listing), w, self@) by {
                showing_changes_nothing(w, self@, listing, Command::List);
            }
        }
        session
    }

    /// Begins to show what is staged as a tree. In the model of
    /// [`crate::world`] this changes nothing, and fails only where the
    /// staging directory is not there.
    pub fn tree(&self) -> (session: Session)
        ensures
            session@ == start(Command::Tree, self@, Seq::empty()),
            forall|w: World, listing: Seq<Seq<char>>|
                shown(#[trigger] run(session@, w, listing), w, self@),
    {
        let none: Vec<String> = Vec::new();
        let session = self.run(Command::Tree, none.as_slice());
        proof {
            assert forall|w: World, listing: Seq<Seq<char>>|
                shown(#[trigger] run(session@, w, listing), w, self@) by {
                showing_changes_nothing(w, self@, listing, Command::Tree);
            }
        }
        session
    }
}

} // verus!
