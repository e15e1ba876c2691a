//! One operation on the clipboard, as a dialogue.
//!
//! A [`Session`] names the next [`Action`] to perform; the caller performs it
//! and answers with an [`Event`]; the session then names the next action, and
//! so on until it has a verdict. Which actions follow which answers is laid
//! down by [`start`] and [`step`].

use crate::action::{
    action_views, string_views, Action, ActionView, Command, Event, EventView, Failure,
};
use crate::path::{join, spec_join};
use std::collections::VecDeque;
use vstd::prelude::*;
use vstd::string::*;

verus! {

/// Where a session stands.
#[derive(Debug, Clone, Copy, PartialEq, Eq, Structural)]
pub enum Stage {
    /// The entries of the staging directory are being read.
    Reading,
    /// The entries of the staging directory are being deleted.
    Clearing,
    /// Sources are being staged, or entries pasted.
    Transferring,
    /// The staging directory is being shown.
    Showing,
    /// Nothing is left to do.
    Finished,
}

/// The state of a [`Session`].
pub struct SessionView {
    /// The operation that the session carries out.
    pub command: Command,
    /// The path of the staging directory.
    pub dir: Seq<char>,
    /// Where the session stands.
    pub stage: Stage,
    /// The actions of this stage that have not been answered yet. The first
    /// of them is the one that the session waits for.
    pub pending: Seq<ActionView>,
    /// The actions of the stage that follows clearing.
    pub later: Seq<ActionView>,
    /// The first failure met, if any.
    pub failure: Option<Failure>,
}

impl SessionView {
    /// A session is over exactly when no action is pending, and has met no
    /// failure while it reads.
    pub open spec fn wf(self) -> bool {
        &&& (self.stage == Stage::Finished) <==> self.pending.len() == 0
        &&& self.stage == Stage::Reading ==> self.failure.is_none()
    }
}

/// The working directory, as every process knows it.
pub open spec fn here() -> Seq<char> {
    seq!['.']
}

/// The paths of the entries `names` of the directory `dir`.
pub open spec fn entry_paths(dir: Seq<char>, names: Seq<Seq<char>>) -> Seq<Seq<char>> {
    Seq::new(names.len(), |i: int| spec_join(dir, names[i]))
}

/// One deletion for each of `paths`, in their order.
pub open spec fn removals(paths: Seq<Seq<char>>) -> Seq<ActionView> {
    Seq::new(paths.len(), |i: int| ActionView::Remove { path: paths[i] })
}

/// One copy into `into` for each of `sources`, in their order.
pub open spec fn copies(sources: Seq<Seq<char>>, into: Seq<char>) -> Seq<ActionView> {
    Seq::new(sources.len(), |i: int| ActionView::Copy { source: sources[i], into })
}

/// One move into `into` for each of `sources`, in their order.
pub open spec fn moves(sources: Seq<Seq<char>>, into: Seq<char>) -> Seq<ActionView> {
    Seq::new(sources.len(), |i: int| ActionView::Move { source: sources[i], into })
}

/// The transfers that stage `sources` in the directory `into`: moves if
/// `moving`, else copies.
pub open spec fn transfers(
    sources: Seq<Seq<char>>,
    into: Seq<char>,
    moving: bool,
) -> Seq<ActionView> {
    if moving {
        moves(sources, into)
    } else {
        copies(sources, into)
    }
}

/// The session in which nothing is left to do.
pub open spec fn finished(s: SessionView) -> SessionView {
    SessionView { stage: Stage::Finished, pending: Seq::empty(), later: Seq::empty(), ..s }
}

/// Moves a session whose stage has no action left to the stage that follows.
/// After clearing come the transfers, unless a deletion failed or there are
/// none. After any other stage the session is over.
pub open spec fn settle(s: SessionView) -> SessionView {
    if s.stage != Stage::Finished && s.pending.len() > 0 {
        s
    } else if s.stage == Stage::Clearing && s.failure.is_none() && s.later.len() > 0 {
        SessionView { stage: Stage::Transferring, pending: s.later, later: Seq::empty(), ..s }
    } else {
        finished(s)
    }
}

/// The failure that a failed action of the given stage amounts to.
pub open spec fn failure_in(stage: Stage) -> Failure {
    match stage {
        Stage::Clearing => Failure::NotCleared,
        Stage::Transferring => Failure::Incomplete,
        _ => Failure::Unreadable,
    }
}

/// The session at its beginning.
///
/// To stage sources, the staging directory is read, then cleared, then
/// filled. Staging no source at all does nothing. To paste and to empty, the
/// staging directory is read first. To show it takes one action.
pub open spec fn start(command: Command, dir: Seq<char>, operand: Seq<Seq<char>>) -> SessionView {
    let idle = SessionView {
        command,
        dir,
        stage: Stage::Finished,
        pending: Seq::empty(),
        later: Seq::empty(),
        failure: None,
    };
    let reading = SessionView {
        stage: Stage::Reading,
        pending: seq![ActionView::Read { dir }],
        ..idle
    };
    match command {
        Command::Copy => if operand.len() == 0 {
            idle
        } else {
            SessionView { later: copies(operand, dir), ..reading }
        },
        Command::Cut => if operand.len() == 0 {
            idle
        } else {
            SessionView { later: moves(operand, dir), ..reading }
        },
        Command::Paste => reading,
        Command::Empty => reading,
        Command::List => SessionView {
            stage: Stage::Showing,
            pending: seq![ActionView::List { dir }],
            ..idle
        },
        Command::Tree => SessionView {
            stage: Stage::Showing,
            pending: seq![ActionView::Tree { dir }],
            ..idle
        },
    }
}

/// The session after the answer `event` to its pending action.
///
/// While reading, a list of names leads on: to the deletion of each entry
/// named, or, when pasting, to a copy of each into the working directory. Any
/// other answer ends the session as unreadable. In the other stages a failure
/// is recorded and the next action of the stage comes up: no failure keeps
/// the rest of a stage from being tried. A session that is over stays as it
/// is.
pub open spec fn step(s: SessionView, event: EventView) -> SessionView {
    match s.stage {
        Stage::Finished => s,
        Stage::Reading => match event {
            EventView::Listed(names) => match s.command {
                Command::Paste => settle(
                    SessionView {
                        stage: Stage::Transferring,
                        pending: copies(entry_paths(s.dir, names), here()),
                        ..s
                    },
                ),
                _ => settle(
                    SessionView {
                        stage: Stage::Clearing,
                        pending: removals(entry_paths(s.dir, names)),
                        ..s
                    },
                ),
            },
            _ => finished(SessionView { failure: Some(Failure::Unreadable), ..s }),
        },
        _ => settle(
            SessionView {
                pending: s.pending.skip(1),
                failure: if event == EventView::Failed && s.failure.is_none() {
                    Some(failure_in(s.stage))
                } else {
                    s.failure
                },
                ..s
            },
        ),
    }
}

/// The action that a session waits for, if it is not over.
pub open spec fn awaited(s: SessionView) -> Option<ActionView> {
    if s.pending.len() > 0 {
        Some(s.pending[0])
    } else {
        None
    }
}

/// How a session ended, if it is over.
pub open spec fn verdict(s: SessionView) -> Option<Result<(), Failure>> {
    if s.stage == Stage::Finished {
        match s.failure {
            Some(failure) => Some(Err(failure)),
            None => Some(Ok(())),
        }
    } else {
        None
    }
}

/// The first failure of a session stays with it, whatever is answered
/// afterwards.
pub proof fn a_failure_stays(s: SessionView, event: EventView)
    requires
        s.wf(),
        s.failure.is_some(),
    ensures
        step(s, event).failure == s.failure,
{
}

/// No answer keeps the rest of a stage from being tried: while deleting,
/// and while copying or moving, the next action comes up whether the one
/// before it failed or not.
pub proof fn a_failure_does_not_stop_a_stage(s: SessionView, event: EventView)
    requires
        s.stage == Stage::Clearing || s.stage == Stage::Transferring,
        s.pending.len() > 1,
    ensures
        step(s, event).stage == s.stage,
        step(s, event).pending == s.pending.skip(1),
        awaited(step(s, event)) == Some(s.pending[1]),
{
}

/// Nothing is staged where the staging directory could not be cleared: when
/// the last deletion is answered and one has failed, the session is over,
/// whatever was to follow.
pub proof fn a_failed_deletion_ends_the_session(s: SessionView, event: EventView)
    requires
        s.stage == Stage::Clearing,
        s.pending.len() == 1,
        s.failure.is_some() || event == EventView::Failed,
    ensures
        verdict(step(s, event)).is_some(),
        verdict(step(s, event)) != Some(Ok::<(), Failure>(())),
        awaited(step(s, event)).is_none(),
{
    assert(s.pending.skip(1) =~= Seq::empty());
}

/// An operation on the clipboard that is under way.
pub struct Session {
    command: Command,
    dir: String,
    stage: Stage,
    pending: VecDeque<Action>,
    later: VecDeque<Action>,
    failure: Option<Failure>,
}

impl View for Session {
    type V = SessionView;

    closed spec fn view(&self) -> SessionView {
        SessionView {
            command: self.command,
            dir: self.dir@,
            stage: self.stage,
            pending: action_views(self.pending@),
            later: action_views(self.later@),
            failure: self.failure,
        }
    }
}

/// The paths of the entries `names` of `dir`, each ready to be deleted.
fn removals_of(dir: &str, names: &Vec<String>) -> (actions: VecDeque<Action>)
    ensures
        action_views(actions@) == removals(entry_paths(dir@, string_views(names@))),
{
    let mut actions: VecDeque<Action> = VecDeque::new();
    let mut i: usize = 0;
    while i < names.len()
        invariant
            i <= names.len(),
            actions@.len() == i,
            forall|k: int|
                0 <= k < i ==> (#[trigger] actions@[k])@ == (ActionView::Remove {
                    path: spec_join(dir@, names@[k]@),
                }),
        decreases names.len() - i,
    {
        let path = join(dir, names[i].as_str());
        actions.push_back(Action::Remove { path });
        i = i + 1;
    }
    assert(action_views(actions@) =~= removals(entry_paths(dir@, string_views(names@))));
    actions
}

/// The entries `names` of `dir`, each ready to be copied into the working
/// directory.
fn pastes_of(dir: &str, names: &Vec<String>) -> (actions: VecDeque<Action>)
    ensures
        action_views(actions@) == copies(entry_paths(dir@, string_views(names@)), here()),
{
    let mut actions: VecDeque<Action> = VecDeque::new();
    let mut i: usize = 0;
    while i < names.len()
        invariant
            i <= names.len(),
            actions@.len() == i,
            forall|k: int|
                0 <= k < i ==> (#[trigger] actions@[k])@ == (ActionView::Copy {
                    source: spec_join(dir@, names@[k]@),
                    into: here(),
                }),
        decreases names.len() - i,
    {
        let source = join(dir, names[i].as_str());
        proof {
            reveal_strlit(".");
            assert("."@ =~= here());
        }
        let into = String::from_str(".");
        actions.push_back(Action::Copy { source, into });
        i = i + 1;
    }
    assert(action_views(actions@) =~= copies(
        entry_paths(dir@, string_views(names@)),
        here(),
    ));
    actions
}

/// The transfers that stage `sources` in `dir`: moves if `moving`, else
/// copies.
fn transfers_of(sources: &[String], dir: &str, moving: bool) -> (actions: VecDeque<Action>)
    ensures
        action_views(actions@) == transfers(string_views(sources@), dir@, moving),
{
    let mut actions: VecDeque<Action> = VecDeque::new();
    let mut i: usize = 0;
    while i < sources.len()
        invariant
            i <= sources.len(),
            actions@.len() == i,
            forall|k: int|
                0 <= k < i ==> (#[trigger] actions@[k])@ == if moving {
                    ActionView::Move { source: sources@[k]@, into: dir@ }
                } else {
                    ActionView::Copy { source: sources@[k]@, into: dir@ }
                },
        decreases sources.len() - i,
    {
        let source = sources[i].clone();
        let into = String::from_str(dir);
        if moving {
            actions.push_back(Action::Move { source, into });
        } else {
            actions.push_back(Action::Copy { source, into });
        }
        i = i + 1;
    }
    if moving {
        assert(action_views(actions@) =~= moves(string_views(sources@), dir@));
    } else {
        assert(action_views(actions@) =~= copies(string_views(sources@), dir@));
    }
    actions
}

impl Session {
    #[verifier::type_invariant]
    spec fn inv(self) -> bool {
        self@.wf()
    }

    /// Puts a session together and moves it on if its stage has no action.
    fn settled(
        command: Command,
        dir: String,
        stage: Stage,
        pending: VecDeque<Action>,
        later: VecDeque<Action>,
        failure: Option<Failure>,
    ) -> (session: Session)
        requires
            stage != Stage::Reading,
        ensures
            session@ == settle(
                SessionView {
                    command,
                    dir: dir@,
                    stage,
                    pending: action_views(pending@),
                    later: action_views(later@),
                    failure,
                },
            ),
    {
        let session = if stage != Stage::Finished && pending.len() > 0 {
            Session { command, dir, stage, pending, later, failure }
        } else if stage == Stage::Clearing && failure.is_none() && later.len() > 0 {
            Session {
                command,
                dir,
                stage: Stage::Transferring,
                pending: later,
                later: VecDeque::new(),
                failure,
            }
        } else {
            Session {
                command,
                dir,
                stage: Stage::Finished,
                pending: VecDeque::new(),
                later: VecDeque::new(),
                failure,
            }
        };
        assert(session@.pending =~= settle(
            SessionView {
                command,
                dir: dir@,
                stage,
                pending: action_views(pending@),
                later: action_views(later@),
                failure,
            },
        ).pending);
        assert(session@.later =~= settle(
            SessionView {
                command,
                dir: dir@,
                stage,
                pending: action_views(pending@),
                later: action_views(later@),
                failure,
            },
        ).later);
        session
    }

    /// Begins the operation `command` on the staging directory `dir`, with
    /// the sources `operand` where the command stages any.
    pub fn start(command: Command, dir: &str, operand: &[String]) -> (session: Session)
        ensures
            session@ == start(command, dir@, string_views(operand@)),
    {
        let mut pending: VecDeque<Action> = VecDeque::new();
        let mut later: VecDeque<Action> = VecDeque::new();
        let mut stage = Stage::Reading;
        match command {
            Command::Copy | Command::Cut => {
                if operand.len() == 0 {
                    stage = Stage::Finished;
                } else {
                    pending.push_back(Action::Read { dir: String::from_str(dir) });
                    later = transfers_of(operand, dir, command == Command::Cut);
                }
            },
            Command::Paste | Command::Empty => {
                pending.push_back(Action::Read { dir: String::from_str(dir) });
            },
            Command::List => {
                stage = Stage::Showing;
                pending.push_back(Action::List { dir: String::from_str(dir) });
            },
            Command::Tree => {
                stage = Stage::Showing;
                pending.push_back(Action::Tree { dir: String::from_str(dir) });
            },
        }
        let session = Session {
            command,
            dir: String::from_str(dir),
            stage,
            pending,
            later,
            failure: None,
        };
        assert(session@.pending =~= start(command, dir@, string_views(operand@)).pending);
        assert(session@.later =~= start(command, dir@, string_views(operand@)).later);
        session
    }

    /// The action to perform next, or `None` when the session is over.
    pub fn current(&self) -> (action: Option<&Action>)
        ensures
            self@.wf(),
            action.is_some() == awaited(self@).is_some(),
            action.is_some() ==> action.unwrap()@ == awaited(self@).unwrap(),
    {
        proof {
            use_type_invariant(self);
        }
        if self.pending.len() > 0 {
            Some(&self.pending[0])
        } else {
            None
        }
    }

    /// Takes the answer to the pending action and moves on.
    pub fn advance(self, event: Event) -> (next: Session)
        ensures
            next@ == step(self@, event@),
    {
        proof {
            use_type_invariant(&self);
        }
        match self.stage {
            Stage::Finished => self,
            Stage::Reading => match event {
                Event::Listed(names) => {
                    if self.command == Command::Paste {
                        let pending = pastes_of(self.dir.as_str(), &names);
                        Session::settled(
                            self.command,
                            self.dir,
                            Stage::Transferring,
                            pending,
                            self.later,
                            self.failure,
                        )
                    } else {
                        let pending = removals_of(self.dir.as_str(), &names);
                        Session::settled(
                            self.command,
                            self.dir,
                            Stage::Clearing,
                            pending,
                            self.later,
                            self.failure,
                        )
                    }
                },
                _ => {
                    let next = Session {
                        command: self.command,
                        dir: self.dir,
                        stage: Stage::Finished,
                        pending: VecDeque::new(),
                        later: VecDeque::new(),
                        failure: Some(Failure::Unreadable),
                    };
                    assert(next@.pending =~= Seq::empty());
                    assert(next@.later =~= Seq::empty());
                    next
                },
            },
            _ => {
                let failure = match event {
                    Event::Failed => if self.failure.is_none() {
                        Some(
                            match self.stage {
                                Stage::Clearing => Failure::NotCleared,
                                Stage::Transferring => Failure::Incomplete,
                                _ => Failure::Unreadable,
                            },
                        )
                    } else {
                        self.failure
                    },
                    _ => self.failure,
                };
                let mut pending = self.pending;
                let ghost before = pending@;
                let _ = pending.pop_front();
                assert(action_views(pending@) =~= action_views(before).skip(1));
                Session::settled(self.command, self.dir, self.stage, pending, self.later, failure)
            },
        }
    }

    /// How the operation ended: `None` while an action is pending.
    pub fn verdict(&self) -> (result: Option<Result<(), Failure>>)
        ensures
            self@.wf(),
            result == verdict(self@),
            result.is_none() == awaited(self@).is_some(),
    {
        proof {
            use_type_invariant(self);
        }
        match self.stage {
            Stage::Finished => match self.failure {
                Some(failure) => Some(Err(failure)),
                None => Some(Ok(())),
            },
            _ => None,
        }
    }
}

} // verus!
