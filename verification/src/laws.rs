//! What the operations of the clipboard do to the filesystem, proved of the
//! sessions of this library run in the model of [`crate::world`].

use crate::action::{ActionView, Command, EventView, Failure};
use crate::batch::{
    fresh, lemma_same_content, lemma_same_subtree, lemma_stage_one, lemma_stage_one_wf,
    lemma_staged_entries, named, ready, stage_one, staged, taken,
};
use crate::path::{plain, spec_base_name, spec_join};
use crate::session::{
    copies, entry_paths, here, removals, settle, start, step, transfers, verdict, SessionView,
    Stage,
};
use crate::world::{
    apart, cleared, lemma_apart_below, lemma_base_name_join, lemma_cleared,
    lemma_locate_base_name, lemma_locate_here, lemma_locate_join, lemma_within_entry, locate, run,
    within, World,
};
use vstd::prelude::*;

verus! {

/// Whether the world is well-formed and holds the staging directory that
/// `dir` names, with the entries that `listing` names.
pub open spec fn clipboard(w: World, dir: Seq<char>, listing: Seq<Seq<char>>) -> bool {
    &&& w.wf()
    &&& w.has_directory(locate(w.cwd, dir))
    &&& w.lists(locate(w.cwd, dir), listing)
}

/// Whether no entry that `names` names, copied into the working directory,
/// comes to lie on the way to the staging directory that `dir` names: none
/// bears the name by which the way leads on from the working directory.
pub open spec fn pastes_aside(w: World, dir: Seq<char>, names: Seq<Seq<char>>) -> bool {
    forall|i: int|
        0 <= i < names.len() ==> !within(w.cwd.push(#[trigger] names[i]), locate(w.cwd, dir))
}

/// The places that the paths `sources` name.
pub open spec fn places(cwd: Seq<Seq<char>>, sources: Seq<Seq<char>>) -> Seq<Seq<Seq<char>>> {
    Seq::new(sources.len(), |i: int| locate(cwd, sources[i]))
}

/// The base names of the paths `sources`.
pub open spec fn base_names(sources: Seq<Seq<char>>) -> Seq<Seq<char>> {
    Seq::new(sources.len(), |i: int| spec_base_name(sources[i]).unwrap())
}

/// Whether the paths `sources` can be staged in the directory that `dir`
/// names: there is a source, each source has a base name, is there and lies
/// apart from the directory, and sources of the same base name name the same
/// place. Sources that are to be moved lie apart from each other: no place is
/// named twice.
pub open spec fn stageable(
    w: World,
    dir: Seq<char>,
    sources: Seq<Seq<char>>,
    moving: bool,
) -> bool {
    &&& sources.len() > 0
    &&& forall|i: int|
        0 <= i < sources.len() ==> spec_base_name(#[trigger] sources[i]).is_some() && w.has(
            locate(w.cwd, sources[i]),
        ) && apart(locate(w.cwd, sources[i]), locate(w.cwd, dir))
    &&& forall|i: int, j: int|
        0 <= i < sources.len() && 0 <= j < sources.len() && spec_base_name(#[trigger] sources[i])
            == spec_base_name(#[trigger] sources[j]) ==> locate(w.cwd, sources[i]) == locate(
            w.cwd,
            sources[j],
        )
    &&& moving ==> forall|i: int, j: int|
        0 <= i < sources.len() && 0 <= j < sources.len() && i != j ==> apart(
            locate(w.cwd, #[trigger] sources[i]),
            locate(w.cwd, #[trigger] sources[j]),
        )
}

/// Whether what is staged can be pasted: the working directory is there,
/// lies apart from the staging directory that `dir` names, and has nothing
/// yet under the name of a staged entry.
pub open spec fn pastable(w: World, dir: Seq<char>, listing: Seq<Seq<char>>) -> bool {
    &&& w.has_directory(w.cwd)
    &&& apart(w.cwd, locate(w.cwd, dir))
    &&& forall|i: int| 0 <= i < listing.len() ==> w.vacant(w.cwd.push(#[trigger] listing[i]))
}

/// How emptying ends: well, with nothing left in the staging directory and
/// nothing else touched.
pub open spec fn emptied(out: (SessionView, World), w: World, dir: Seq<char>) -> bool {
    let (s, end) = out;
    let staging = locate(w.cwd, dir);
    &&& verdict(s) == Some(Ok::<(), Failure>(()))
    &&& end.wf()
    &&& end.has_directory(staging)
    &&& end.entries(staging) == Set::<Seq<char>>::empty()
    &&& end.bare(staging)
    &&& end.same_but_below(w, staging)
}

/// How staging copies of `sources` ends: well, with exactly one entry in the
/// staging directory for each source, under the source's base name and with
/// all that the source holds. Nothing else has changed: each source is still
/// where it was.
pub open spec fn copied(
    out: (SessionView, World),
    w: World,
    dir: Seq<char>,
    sources: Seq<Seq<char>>,
) -> bool {
    let (s, end) = out;
    let staging = locate(w.cwd, dir);
    &&& verdict(s) == Some(Ok::<(), Failure>(()))
    &&& end.wf()
    &&& forall|name: Seq<char>|
        end.entries(staging).contains(name) <==> named(
            base_names(sources),
            sources.len() as int,
            name,
        )
    &&& forall|i: int|
        0 <= i < sources.len() ==> end.subtree(staging.push(#[trigger] base_names(sources)[i]))
            == w.subtree(locate(w.cwd, sources[i]))
    &&& forall|i: int|
        0 <= i < sources.len() ==> end.subtree(locate(w.cwd, #[trigger] sources[i])) == w.subtree(
            locate(w.cwd, sources[i]),
        )
    &&& end.same_but_below(w, staging)
}

/// How staging `sources` by moving ends: well, with the staging directory
/// holding what it holds in `copied`, the world in which copies of the same
/// sources were staged, and with none of the sources where it was. Apart
/// from the sources and the staging directory nothing has changed.
pub open spec fn moved(
    out: (SessionView, World),
    copied: World,
    w: World,
    dir: Seq<char>,
    sources: Seq<Seq<char>>,
) -> bool {
    let (s, end) = out;
    let staging = locate(w.cwd, dir);
    &&& verdict(s) == Some(Ok::<(), Failure>(()))
    &&& end.wf()
    &&& end.subtree(staging) == copied.subtree(staging)
    &&& forall|i: int| 0 <= i < sources.len() ==> !end.has(locate(w.cwd, #[trigger] sources[i]))
    &&& forall|k: Seq<Seq<char>>|
        !within(staging, k) && !taken(places(w.cwd, sources), sources.len() as int, k) ==> (
        #[trigger] end.has(k) <==> w.has(k)) && (end.has(k) ==> end.nodes[k] == w.nodes[k])
}

/// How pasting ends in any case: with the staging directory holding entries
/// of the same names as before.
pub open spec fn kept(out: (SessionView, World), w: World, dir: Seq<char>) -> bool {
    let (s, end) = out;
    let staging = locate(w.cwd, dir);
    &&& verdict(s).is_some()
    &&& end.entries(staging) == w.entries(staging)
}

/// How pasting the entries that `listing` names ends: well, with an entry in
/// the working directory for each staged entry, of the same name and holding
/// what the staged one holds. Nothing else has changed: what is staged is as
/// it was.
pub open spec fn pasted(
    out: (SessionView, World),
    w: World,
    dir: Seq<char>,
    listing: Seq<Seq<char>>,
) -> bool {
    let (s, end) = out;
    let staging = locate(w.cwd, dir);
    &&& verdict(s) == Some(Ok::<(), Failure>(()))
    &&& end.wf()
    &&& forall|i: int|
        0 <= i < listing.len() ==> end.subtree(w.cwd.push(#[trigger] listing[i])) == w.subtree(
            staging.push(listing[i]),
        )
    &&& forall|k: Seq<Seq<char>>|
        !fresh(w.cwd, listing, listing.len() as int, k) ==> (#[trigger] end.has(k) <==> w.has(k))
            && (end.has(k) ==> end.nodes[k] == w.nodes[k])
    &&& end.subtree(staging) == w.subtree(staging)
}

/// How showing ends: with nothing changed, and well exactly if the staging
/// directory is there.
pub open spec fn shown(out: (SessionView, World), w: World, dir: Seq<char>) -> bool {
    let (s, end) = out;
    &&& end == w
    &&& verdict(s) == Some(
        if w.has_directory(locate(w.cwd, dir)) {
            Ok::<(), Failure>(())
        } else {
            Err::<(), Failure>(Failure::Unreadable)
        },
    )
}

/// A session that is clearing the directory `s.dir` of its entries `names`,
/// all of them there, deletes them all and goes on without a failure.
proof fn lemma_run_clearing(
    s: SessionView,
    w: World,
    listing: Seq<Seq<char>>,
    names: Seq<Seq<char>>,
)
    requires
        s.stage == Stage::Clearing,
        s.failure.is_none(),
        s.pending == removals(entry_paths(s.dir, names)),
        names.len() > 0,
        names.no_duplicates(),
        forall|i: int|
            0 <= i < names.len() ==> plain(#[trigger] names[i]) && w.has(
                locate(w.cwd, s.dir).push(names[i]),
            ),
    ensures
        run(s, w, listing) == run(
            settle(SessionView { pending: Seq::empty(), ..s }),
            cleared(w, locate(w.cwd, s.dir), names),
            listing,
        ),
    decreases names.len(),
{
    let dir = locate(w.cwd, s.dir);
    let first = names[0];
    let rest = names.skip(1);
    lemma_locate_join(w.cwd, s.dir, first);
    assert(s.pending[0] == ActionView::Remove { path: spec_join(s.dir, first) });
    let w1 = w.erase(dir.push(first));
    assert(w.answer(s.pending[0], listing) == (w1, EventView::Done));
    let s1 = SessionView { pending: s.pending.skip(1), ..s };
    assert(step(s, EventView::Done) == settle(s1));
    assert(run(s, w, listing) == run(settle(s1), w1, listing));
    assert(s1.pending =~= removals(entry_paths(s.dir, rest)));
    if names.len() == 1 {
        assert(s1.pending =~= Seq::empty());
        assert forall|k: Seq<Seq<char>>|
            w1.nodes.dom().contains(k) == cleared(w, dir, names).nodes.dom().contains(k) by {
            lemma_within_entry(dir, first, k);
        }
        assert(w1.nodes =~= cleared(w, dir, names).nodes);
    } else {
        assert forall|i: int| 0 <= i < rest.len() implies plain(#[trigger] rest[i]) && w1.has(
            dir.push(rest[i]),
        ) by {
            assert(rest[i] == names[i + 1]);
            lemma_within_entry(dir, first, dir.push(rest[i]));
        }
        assert(rest.no_duplicates());
        lemma_run_clearing(s1, w1, listing, rest);
        assert(settle(s1) == s1);
        assert(SessionView { pending: Seq::empty(), ..s1 } == SessionView {
            pending: Seq::empty(),
            ..s
        });
        assert forall|k: Seq<Seq<char>>|
            cleared(w1, dir, rest).nodes.dom().contains(k) == cleared(
                w,
                dir,
                names,
            ).nodes.dom().contains(k) by {
            lemma_within_entry(dir, first, k);
            if k.len() > dir.len() {
                let n = k[dir.len() as int];
                if names.contains(n) {
                    let i = choose|i: int| 0 <= i < names.len() && names[i] == n;
                    if i > 0 {
                        assert(rest[i - 1] == n);
                    }
                }
                if rest.contains(n) {
                    let i = choose|i: int| 0 <= i < rest.len() && rest[i] == n;
                    assert(names[i + 1] == n);
                }
            }
        }
        assert(cleared(w1, dir, rest).nodes =~= cleared(w, dir, names).nodes);
    }
}

/// A session that begins by clearing the staging directory, run in a world
/// where that directory is, reads it and deletes each of its entries.
proof fn lemma_run_to_cleared(
    command: Command,
    dir: Seq<char>,
    operand: Seq<Seq<char>>,
    w: World,
    listing: Seq<Seq<char>>,
)
    requires
        command == Command::Empty || ((command == Command::Copy || command == Command::Cut)
            && operand.len() > 0),
        w.wf(),
        w.has_directory(locate(w.cwd, dir)),
        w.lists(locate(w.cwd, dir), listing),
    ensures
        run(start(command, dir, operand), w, listing) == run(
            settle(
                SessionView {
                    stage: Stage::Clearing,
                    pending: Seq::empty(),
                    ..start(command, dir, operand)
                },
            ),
            cleared(w, locate(w.cwd, dir), listing),
            listing,
        ),
{
    let s0 = start(command, dir, operand);
    let staging = locate(w.cwd, dir);
    assert(s0.pending[0] == ActionView::Read { dir });
    assert(w.answer(s0.pending[0], listing) == (w, EventView::Listed(listing)));
    let c = SessionView {
        stage: Stage::Clearing,
        pending: removals(entry_paths(dir, listing)),
        ..s0
    };
    assert(step(s0, EventView::Listed(listing)) == settle(c));
    assert(run(s0, w, listing) == run(settle(c), w, listing));
    if listing.len() == 0 {
        assert(c.pending =~= Seq::empty());
        assert(cleared(w, staging, listing).nodes =~= w.nodes);
    } else {
        assert forall|i: int| 0 <= i < listing.len() implies plain(#[trigger] listing[i]) && w.has(
            staging.push(listing[i]),
        ) by {
            assert(listing.contains(listing[i]));
            assert(w.has(staging.push(listing[i])));
        }
        lemma_run_clearing(c, w, listing, listing);
    }
}

/// A session that is pasting the entries `names` of its staging directory
/// comes to an end and leaves the names of the entries as they were.
proof fn lemma_run_pasting(s: SessionView, w: World, listing: Seq<Seq<char>>, names: Seq<Seq<char>>)
    requires
        s.stage == Stage::Transferring,
        s.pending == copies(entry_paths(s.dir, names), here()),
        names.len() > 0,
        forall|i: int| 0 <= i < names.len() ==> plain(#[trigger] names[i]),
        pastes_aside(w, s.dir, names),
    ensures
        verdict(run(s, w, listing).0).is_some(),
        run(s, w, listing).1.entries(locate(w.cwd, s.dir)) == w.entries(locate(w.cwd, s.dir)),
        run(s, w, listing).1.cwd == w.cwd,
    decreases names.len(),
{
    let staging = locate(w.cwd, s.dir);
    let first = names[0];
    let rest = names.skip(1);
    let source = spec_join(s.dir, first);
    assert(s.pending[0] == ActionView::Copy { source, into: here() });
    lemma_locate_join(w.cwd, s.dir, first);
    lemma_base_name_join(s.dir, first);
    lemma_locate_here(w.cwd);
    let from = staging.push(first);
    let to = w.cwd.push(first);
    let (w1, event) = w.answer(s.pending[0], listing);
    assert(w1 == w || w1 == w.graft(from, to));
    assert(event == EventView::Done || event == EventView::Failed);
    assert forall|name: Seq<char>| w1.has(staging.push(name)) == w.has(
        staging.push(name),
    ) by {
        let k = staging.push(name);
        if w1 != w && within(to, k) && w.has(from + k.skip(to.len() as int)) {
            lemma_within_entry(w.cwd, first, k);
            if to.len() == k.len() {
                assert(k.take(to.len() as int) =~= k);
                assert(k.skip(to.len() as int) =~= Seq::<Seq<char>>::empty());
                assert(from + k.skip(to.len() as int) =~= from);
                assert(k.last() == first);
                assert(k.drop_last() =~= w.cwd);
                assert(k.drop_last() =~= staging);
            } else {
                assert(staging.take(to.len() as int) =~= k.take(to.len() as int));
                assert(within(w.cwd.push(names[0]), staging));
                assert(false);
            }
        }
    }
    assert(w1.entries(staging) =~= w.entries(staging));
    let s1 = SessionView {
        pending: s.pending.skip(1),
        failure: if event == EventView::Failed && s.failure.is_none() {
            Some(Failure::Incomplete)
        } else {
            s.failure
        },
        ..s
    };
    assert(step(s, event) == settle(s1));
    assert(run(s, w, listing) == run(settle(s1), w1, listing));
    if names.len() == 1 {
        assert(s1.pending =~= Seq::empty());
    } else {
        assert(s1.pending =~= copies(entry_paths(s.dir, rest), here()));
        assert forall|i: int| 0 <= i < rest.len() implies !within(
            w1.cwd.push(#[trigger] rest[i]),
            locate(w1.cwd, s1.dir),
        ) by {
            assert(rest[i] == names[i + 1]);
        }
        lemma_run_pasting(s1, w1, listing, rest);
    }
}

/// A session that has put the first `n` of `sources` into the directory
/// `into` and has the others left puts them all there and ends well.
proof fn lemma_run_staging(
    s: SessionView,
    w: World,
    listing: Seq<Seq<char>>,
    w0: World,
    sources: Seq<Seq<char>>,
    into: Seq<char>,
    n: int,
    moving: bool,
)
    requires
        s.stage == Stage::Transferring,
        s.failure.is_none(),
        0 <= n < sources.len(),
        s.pending == transfers(sources, into, moving).skip(n),
        forall|i: int| 0 <= i < sources.len() ==> spec_base_name(#[trigger] sources[i]).is_some(),
        ready(w0, locate(w.cwd, into), places(w.cwd, sources), base_names(sources), moving),
        staged(w0, w, locate(w.cwd, into), places(w.cwd, sources), base_names(sources), n, moving),
        w.wf(),
    ensures
        verdict(run(s, w, listing).0) == Some(Ok::<(), Failure>(())),
        run(s, w, listing).1.wf(),
        staged(
            w0,
            run(s, w, listing).1,
            locate(w.cwd, into),
            places(w.cwd, sources),
            base_names(sources),
            sources.len() as int,
            moving,
        ),
    decreases sources.len() - n,
{
    let dir = locate(w.cwd, into);
    let froms = places(w.cwd, sources);
    let names = base_names(sources);
    let source = sources[n];
    let action = s.pending[0];
    assert(action == transfers(sources, into, moving)[n]);
    lemma_stage_one(w0, w, dir, froms, names, n, moving);
    lemma_stage_one_wf(w0, w, dir, froms, names, n, moving);
    assert(froms[n] == locate(w.cwd, source));
    assert(names[n] == spec_base_name(source).unwrap());
    assert(apart(froms[n], dir));
    assert(w.can_copy(source, into));
    let w1 = stage_one(w, froms[n], dir.push(names[n]), moving);
    assert(w.can(action));
    assert(w.after(action) == w1);
    assert(w.answer(action, listing) == (w1, EventView::Done));
    let s1 = SessionView { pending: s.pending.skip(1), ..s };
    assert(step(s, EventView::Done) == settle(s1));
    assert(run(s, w, listing) == run(settle(s1), w1, listing));
    assert(s1.pending =~= transfers(sources, into, moving).skip(n + 1));
    if n + 1 == sources.len() {
        assert(s1.pending =~= Seq::empty());
    } else {
        lemma_run_staging(s1, w1, listing, w0, sources, into, n + 1, moving);
    }
}

/// A session that stages sources which can be staged clears the staging
/// directory, stages them all and ends well.
proof fn lemma_stage(
    w: World,
    dir: Seq<char>,
    listing: Seq<Seq<char>>,
    sources: Seq<Seq<char>>,
    moving: bool,
)
    requires
        clipboard(w, dir, listing),
        stageable(w, dir, sources, moving),
    ensures
        ({
            let command = if moving {
                Command::Cut
            } else {
                Command::Copy
            };
            let (s, end) = run(start(command, dir, sources), w, listing);
            let staging = locate(w.cwd, dir);
            let w0 = cleared(w, staging, listing);
            &&& verdict(s) == Some(Ok::<(), Failure>(()))
            &&& end.wf()
            &&& w0.same_but_below(w, staging)
            &&& w0.bare(staging)
            &&& ready(w0, staging, places(w.cwd, sources), base_names(sources), moving)
            &&& staged(
                w0,
                end,
                staging,
                places(w.cwd, sources),
                base_names(sources),
                sources.len() as int,
                moving,
            )
        }),
{
    let command = if moving {
        Command::Cut
    } else {
        Command::Copy
    };
    let staging = locate(w.cwd, dir);
    let froms = places(w.cwd, sources);
    let names = base_names(sources);
    let w0 = cleared(w, staging, listing);
    let s0 = start(command, dir, sources);
    lemma_run_to_cleared(command, dir, sources, w, listing);
    lemma_cleared(w, staging, listing);
    let t = SessionView {
        stage: Stage::Transferring,
        pending: s0.later,
        later: Seq::empty(),
        ..s0
    };
    assert(s0.later == transfers(sources, dir, moving));
    assert(settle(SessionView { stage: Stage::Clearing, pending: Seq::empty(), ..s0 }) == t);
    assert(t.pending =~= transfers(sources, dir, moving).skip(0));
    assert(w0.has_directory(staging)) by {
        assert(w.has(staging));
    }
    assert forall|j: int| 0 <= j < froms.len() implies w0.has(#[trigger] froms[j]) && apart(
        froms[j],
        staging,
    ) && froms[j].len() > 0 && froms[j].last() == names[j] by {
        assert(spec_base_name(sources[j]).is_some());
        lemma_locate_base_name(w.cwd, sources[j]);
        assert(w.has(froms[j]));
    }
    assert forall|i: int, j: int|
        0 <= i < names.len() && 0 <= j < names.len() && #[trigger] names[i]
            == #[trigger] names[j] implies froms[i] == froms[j] by {
        assert(spec_base_name(sources[i]) == spec_base_name(sources[j]));
    }
    if moving {
        assert forall|i: int, j: int|
            0 <= i < froms.len() && 0 <= j < froms.len() && i != j implies apart(
            #[trigger] froms[i],
            #[trigger] froms[j],
        ) by {
            assert(apart(locate(w.cwd, sources[i]), locate(w.cwd, sources[j])));
        }
    }
    assert(ready(w0, staging, froms, names, moving));
    assert forall|k: Seq<Seq<char>>|
        !within(staging, k) || k == staging implies (#[trigger] w0.has(k) <==> w0.has(k) && !(moving
            && taken(froms, 0, k))) by {}
    assert(staged(w0, w0, staging, froms, names, 0, moving));
    lemma_run_staging(t, w0, listing, w0, sources, dir, 0, moving);
}

/// Listing what is staged, flat or as a tree, changes nothing, and fails
/// only where the staging directory is not there.
pub proof fn showing_changes_nothing(
    w: World,
    dir: Seq<char>,
    listing: Seq<Seq<char>>,
    command: Command,
)
    requires
        command == Command::List || command == Command::Tree,
    ensures
        shown(run(start(command, dir, Seq::empty()), w, listing), w, dir),
{
    let s0 = start(command, dir, Seq::empty());
    let (w1, event) = w.answer(s0.pending[0], listing);
    assert(w1 == w);
    let s1 = SessionView {
        pending: s0.pending.skip(1),
        failure: if event == EventView::Failed {
            Some(Failure::Unreadable)
        } else {
            None
        },
        ..s0
    };
    assert(s1.pending =~= Seq::empty());
    assert(step(s0, event) == settle(s1));
    assert(run(s0, w, listing) == run(settle(s1), w, listing));
}

/// Emptying leaves nothing in the staging directory, whatever it held, and
/// touches nothing else.
pub proof fn empty_leaves_nothing(w: World, dir: Seq<char>, listing: Seq<Seq<char>>)
    requires
        clipboard(w, dir, listing),
    ensures
        emptied(run(start(Command::Empty, dir, Seq::empty()), w, listing), w, dir),
{
    let staging = locate(w.cwd, dir);
    lemma_run_to_cleared(Command::Empty, dir, Seq::empty(), w, listing);
    lemma_cleared(w, staging, listing);
    let end = cleared(w, staging, listing);
    assert(end.has_directory(staging)) by {
        assert(staging.take(staging.len() as int) =~= staging);
    }
    assert forall|name: Seq<char>| !end.has(staging.push(name)) by {
        lemma_within_entry(staging, name, staging.push(name));
        assert(staging.push(name).take(staging.len() as int) =~= staging);
    }
    assert(end.entries(staging) =~= Set::<Seq<char>>::empty());
}

/// Pasting leaves the names of the staged entries as they were, however the
/// copies fare. No entry may bear the name by which the way from the
/// working directory to the staging directory leads on: its copy could land
/// in the staging directory itself.
pub proof fn paste_keeps_the_entries(w: World, dir: Seq<char>, listing: Seq<Seq<char>>)
    requires
        clipboard(w, dir, listing),
        pastes_aside(w, dir, listing),
    ensures
        kept(run(start(Command::Paste, dir, Seq::empty()), w, listing), w, dir),
{
    let s0 = start(Command::Paste, dir, Seq::empty());
    let staging = locate(w.cwd, dir);
    assert(s0.pending[0] == ActionView::Read { dir });
    let (w1, event) = w.answer(s0.pending[0], listing);
    assert(w1 == w);
    if event == EventView::Failed {
        assert(run(s0, w, listing) == run(step(s0, event), w, listing));
    } else {
        let t = SessionView {
            stage: Stage::Transferring,
            pending: copies(entry_paths(dir, listing), here()),
            ..s0
        };
        assert(step(s0, event) == settle(t));
        assert(run(s0, w, listing) == run(settle(t), w, listing));
        if listing.len() > 0 {
            assert forall|i: int| 0 <= i < listing.len() implies plain(#[trigger] listing[i]) by {
                assert(listing.contains(listing[i]));
            assert(w.has(staging.push(listing[i])));
                assert(staging.push(listing[i]).last() == listing[i]);
            }
            lemma_run_pasting(t, w, listing, listing);
        }
    }
}

/// Pasting puts into the working directory, for each staged entry, an entry
/// of the same name that holds what the staged one holds. Nothing else
/// changes: what is staged stays as it is.
pub proof fn paste_duplicates_the_entries(w: World, dir: Seq<char>, listing: Seq<Seq<char>>)
    requires
        clipboard(w, dir, listing),
        pastable(w, dir, listing),
    ensures
        pasted(run(start(Command::Paste, dir, Seq::empty()), w, listing), w, dir, listing),
{
    let s0 = start(Command::Paste, dir, Seq::empty());
    let staging = locate(w.cwd, dir);
    let n = listing.len() as int;
    assert(s0.pending[0] == ActionView::Read { dir });
    assert(w.answer(s0.pending[0], listing) == (w, EventView::Listed(listing)));
    let sources = entry_paths(dir, listing);
    let t = SessionView {
        stage: Stage::Transferring,
        pending: copies(sources, here()),
        ..s0
    };
    assert(step(s0, EventView::Listed(listing)) == settle(t));
    assert(run(s0, w, listing) == run(settle(t), w, listing));
    let end = run(s0, w, listing).1;
    if listing.len() == 0 {
        assert(t.pending =~= Seq::empty());
        assert(end == w);
    } else {
        let froms = places(w.cwd, sources);
        let names = base_names(sources);
        lemma_locate_here(w.cwd);
        assert forall|i: int| 0 <= i < listing.len() implies plain(#[trigger] listing[i]) && w.has(
            staging.push(listing[i]),
        ) by {
            assert(listing.contains(listing[i]));
            assert(w.has(staging.push(listing[i])));
        }
        assert forall|i: int| 0 <= i < sources.len() implies spec_base_name(
            #[trigger] sources[i],
        ) == Some(listing[i]) && locate(w.cwd, sources[i]) == staging.push(listing[i]) by {
            assert(plain(listing[i]));
            lemma_base_name_join(dir, listing[i]);
            lemma_locate_join(w.cwd, dir, listing[i]);
        }
        assert(names =~= listing);
        assert forall|j: int| 0 <= j < froms.len() implies w.has(#[trigger] froms[j]) && apart(
            froms[j],
            w.cwd,
        ) && froms[j].len() > 0 && froms[j].last() == names[j] && w.vacant(
            w.cwd.push(names[j]),
        ) by {
            assert(sources[j] == spec_join(dir, listing[j]));
            assert(froms[j] == staging.push(listing[j]));
            lemma_within_entry(staging, listing[j], w.cwd);
            if within(w.cwd, froms[j]) {
                if w.cwd.len() <= staging.len() {
                    assert(staging.take(w.cwd.len() as int) =~= froms[j].take(w.cwd.len() as int));
                } else {
                    assert(froms[j].take(w.cwd.len() as int) =~= froms[j]);
                }
            }
            assert(plain(listing[j]));
        }
        assert forall|i: int, j: int|
            0 <= i < names.len() && 0 <= j < names.len() && i != j implies #[trigger] names[i]
            != #[trigger] names[j] by {}
        assert(ready(w, w.cwd, froms, names, false));
        assert(staged(w, w, w.cwd, froms, names, 0, false));
        assert(t.pending =~= transfers(sources, here(), false).skip(0));
        lemma_run_staging(t, w, listing, w, sources, here(), 0, false);
        assert(staged(w, end, w.cwd, froms, names, n, false));
        assert forall|i: int| 0 <= i < listing.len() implies end.subtree(
            w.cwd.push(#[trigger] listing[i]),
        ) == w.subtree(staging.push(listing[i])) by {
            assert(end.subtree(w.cwd.push(names[i])) == w.subtree(froms[i]));
        }
    }
    assert forall|r: Seq<Seq<char>>|
        (end.has(staging + r) <==> w.has(staging + r)) && (end.has(staging + r)
            ==> end.nodes[staging + r] == w.nodes[staging + r]) by {
        lemma_apart_below(staging, w.cwd, r);
        assert(!fresh(w.cwd, listing, n, staging + r));
    }
    assert(end.subtree(staging) =~= w.subtree(staging));
}

/// Staging copies leaves in the staging directory exactly one entry for each
/// source, under the source's base name and with all that the source holds,
/// whatever the directory held before. Nothing else changes: each source is
/// still where it was.
pub proof fn copy_stages_the_sources(
    w: World,
    dir: Seq<char>,
    listing: Seq<Seq<char>>,
    sources: Seq<Seq<char>>,
)
    requires
        clipboard(w, dir, listing),
        stageable(w, dir, sources, false),
    ensures
        copied(run(start(Command::Copy, dir, sources), w, listing), w, dir, sources),
{
    let (s, end) = run(start(Command::Copy, dir, sources), w, listing);
    let staging = locate(w.cwd, dir);
    let froms = places(w.cwd, sources);
    let names = base_names(sources);
    let n = sources.len() as int;
    let w0 = cleared(w, staging, listing);
    lemma_stage(w, dir, listing, sources, false);
    lemma_staged_entries(w0, end, staging, froms, names, false);
    assert forall|k: Seq<Seq<char>>|
        #![trigger end.has(k)]
        #![trigger w.has(k)]
        !within(staging, k) || k == staging implies (end.has(k) <==> w.has(k)) && (end.has(k)
        ==> end.nodes[k] == w.nodes[k]) by {
        assert(end.has(k) <==> w0.has(k));
        assert(w0.has(k) <==> w.has(k));
    }
    assert forall|i: int| 0 <= i < sources.len() implies end.subtree(
        staging.push(#[trigger] base_names(sources)[i]),
    ) == w.subtree(locate(w.cwd, sources[i])) by {
        assert(froms[i] == locate(w.cwd, sources[i]));
        assert(end.subtree(staging.push(names[i])) == w0.subtree(froms[i]));
        lemma_same_subtree(w0, w, staging, froms[i]);
    }
    assert forall|i: int| 0 <= i < sources.len() implies end.subtree(
        locate(w.cwd, #[trigger] sources[i]),
    ) == w.subtree(locate(w.cwd, sources[i])) by {
        assert(froms[i] == locate(w.cwd, sources[i]));
        assert(apart(froms[i], staging));
        lemma_same_subtree(end, w, staging, froms[i]);
    }
}

/// Staging by moving leaves in the staging directory what staging copies of
/// the same sources would leave there, and none of the sources where it was.
/// Apart from the sources and the staging directory nothing changes.
pub proof fn cut_stages_what_copy_stages(
    w: World,
    dir: Seq<char>,
    listing: Seq<Seq<char>>,
    sources: Seq<Seq<char>>,
)
    requires
        clipboard(w, dir, listing),
        stageable(w, dir, sources, true),
    ensures
        moved(
            run(start(Command::Cut, dir, sources), w, listing),
            run(start(Command::Copy, dir, sources), w, listing).1,
            w,
            dir,
            sources,
        ),
{
    let end = run(start(Command::Cut, dir, sources), w, listing).1;
    let copied = run(start(Command::Copy, dir, sources), w, listing).1;
    let staging = locate(w.cwd, dir);
    let froms = places(w.cwd, sources);
    let names = base_names(sources);
    let n = sources.len() as int;
    let w0 = cleared(w, staging, listing);
    lemma_stage(w, dir, listing, sources, true);
    lemma_stage(w, dir, listing, sources, false);
    lemma_same_content(w0, copied, end, staging, froms, names);
    assert forall|i: int| 0 <= i < sources.len() implies !end.has(
        locate(w.cwd, #[trigger] sources[i]),
    ) by {
        let from = froms[i];
        assert(from == locate(w.cwd, sources[i]));
        assert(apart(from, staging));
        assert(from.take(from.len() as int) =~= from);
        assert(within(froms[i], from));
        assert(taken(froms, n, from));
    }
    assert forall|k: Seq<Seq<char>>|
        !within(staging, k) && !taken(froms, n, k) implies (#[trigger] end.has(k) <==> w.has(k))
        && (end.has(k) ==> end.nodes[k] == w.nodes[k]) by {
        assert(end.has(k) <==> w0.has(k));
        assert(w0.has(k) <==> w.has(k));
    }
}

/// Staging a batch discards the batch before it: after two batches of copies
/// whose base names differ, the staging directory holds one entry for each
/// source of the second batch and none for a source of the first.
pub proof fn staging_discards_the_batch_before(
    w: World,
    dir: Seq<char>,
    listing: Seq<Seq<char>>,
    first: Seq<Seq<char>>,
    listing_after: Seq<Seq<char>>,
    second: Seq<Seq<char>>,
)
    requires
        clipboard(w, dir, listing),
        stageable(w, dir, first, false),
        stageable(w, dir, second, false),
        run(start(Command::Copy, dir, first), w, listing).1.lists(
            locate(w.cwd, dir),
            listing_after,
        ),
        forall|i: int, j: int|
            0 <= i < first.len() && 0 <= j < second.len() ==> spec_base_name(#[trigger] first[i])
                != spec_base_name(#[trigger] second[j]),
    ensures
        ({
            let mid = run(start(Command::Copy, dir, first), w, listing).1;
            let (s, end) = run(start(Command::Copy, dir, second), mid, listing_after);
            let staging = locate(w.cwd, dir);
            &&& verdict(s) == Some(Ok::<(), Failure>(()))
            &&& forall|name: Seq<char>|
                end.entries(staging).contains(name) <==> named(
                    base_names(second),
                    second.len() as int,
                    name,
                )
            &&& forall|i: int|
                0 <= i < first.len() ==> !end.entries(staging).contains(
                    #[trigger] base_names(first)[i],
                )
        }),
{
    let mid = run(start(Command::Copy, dir, first), w, listing).1;
    let end = run(start(Command::Copy, dir, second), mid, listing_after).1;
    let staging = locate(w.cwd, dir);
    copy_stages_the_sources(w, dir, listing, first);
    assert(mid.has_directory(staging)) by {
        assert(w.has(staging));
    }
    assert forall|i: int| 0 <= i < second.len() implies mid.has(
        locate(mid.cwd, #[trigger] second[i]),
    ) by {
        assert(w.has(locate(w.cwd, second[i])));
    }
    assert(stageable(mid, dir, second, false));
    copy_stages_the_sources(mid, dir, listing_after, second);
    assert forall|i: int| 0 <= i < first.len() implies !end.entries(staging).contains(
        #[trigger] base_names(first)[i],
    ) by {
        let name = base_names(first)[i];
        if named(base_names(second), second.len() as int, name) {
            let j = choose|j: int|
                0 <= j < second.len() && #[trigger] base_names(second)[j] == name;
            assert(spec_base_name(first[i]) != spec_base_name(second[j]));
        }
    }
}

} // verus!
