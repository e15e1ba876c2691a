//! A model of the filesystem, to say what the actions of a session amount to.
//!
//! The model is a tree of directories and files, each found at a place: the
//! names that lead to it from the root. It knows no links, owners,
//! permissions, devices or limits. An action fails in it only for want of
//! what it names, and an action that fails changes nothing.

use crate::action::{ActionView, EventView};
use crate::path::{
    components, is_dot, is_dot_dot, is_separator, lemma_components_join, plain, spec_base_name,
    spec_join,
};
use crate::session::{here, step, SessionView, Stage};
use vstd::prelude::*;

verus! {

/// What is found at a place.
pub enum Node {
    Directory,
    File(Seq<u8>),
}

/// A filesystem and the working directory of the process that acts on it.
pub struct World {
    /// What is where. A key is a place: the names from the root down.
    pub nodes: Map<Seq<Seq<char>>, Node>,
    /// The place of the working directory.
    pub cwd: Seq<Seq<char>>,
}

/// Whether the place `k` is `top` or lies below it.
pub open spec fn within(top: Seq<Seq<char>>, k: Seq<Seq<char>>) -> bool {
    top.len() <= k.len() && k.take(top.len() as int) =~= top
}

/// Whether neither of two places lies within the other.
pub open spec fn apart(a: Seq<Seq<char>>, b: Seq<Seq<char>>) -> bool {
    !within(a, b) && !within(b, a)
}

/// The place that the names `parts` lead to from the place `from`: `.` stays,
/// `..` goes up where there is an up, any other name goes down.
pub open spec fn walk(from: Seq<Seq<char>>, parts: Seq<Seq<char>>) -> Seq<Seq<char>>
    decreases parts.len(),
{
    if parts.len() == 0 {
        from
    } else {
        let to = walk(from, parts.drop_last());
        let name = parts.last();
        if is_dot(name) {
            to
        } else if is_dot_dot(name) {
            if to.len() > 0 {
                to.drop_last()
            } else {
                to
            }
        } else {
            to.push(name)
        }
    }
}

/// The place that a path names for a process whose working directory is at
/// `cwd`: a path that begins with a separator starts at the root, any other
/// in the working directory.
pub open spec fn locate(cwd: Seq<Seq<char>>, path: Seq<char>) -> Seq<Seq<char>> {
    if path.len() > 0 && is_separator(path[0]) {
        walk(Seq::empty(), components(path))
    } else {
        walk(cwd, components(path))
    }
}

impl World {
    /// Whether something is found at the place `k`.
    pub open spec fn has(self, k: Seq<Seq<char>>) -> bool {
        self.nodes.dom().contains(k)
    }

    /// Whether a directory is found at the place `k`.
    pub open spec fn has_directory(self, k: Seq<Seq<char>>) -> bool {
        self.has(k) && self.nodes[k] == Node::Directory
    }

    /// The root is a directory, whatever is found lies in a directory, and
    /// every name is plain.
    pub open spec fn wf(self) -> bool {
        &&& self.has_directory(Seq::empty())
        &&& forall|dir: Seq<Seq<char>>, name: Seq<char>| #[trigger]
            self.has(dir.push(name)) ==> self.has_directory(dir) && plain(name)
    }

    /// The names of the entries of the directory at `dir`.
    pub open spec fn entries(self, dir: Seq<Seq<char>>) -> Set<Seq<char>> {
        Set::new(|name: Seq<char>| self.has(dir.push(name)))
    }

    /// What is found at `top` and below it, by the names that lead there
    /// from `top`.
    pub open spec fn subtree(self, top: Seq<Seq<char>>) -> Map<Seq<Seq<char>>, Node> {
        Map::new(|r: Seq<Seq<char>>| self.has(top + r), |r: Seq<Seq<char>>| self.nodes[top + r])
    }

    /// The world without what is found at `top` and below it.
    pub open spec fn erase(self, top: Seq<Seq<char>>) -> World {
        World {
            nodes: Map::new(
                |k: Seq<Seq<char>>| self.has(k) && !within(top, k),
                |k: Seq<Seq<char>>| self.nodes[k],
            ),
            cwd: self.cwd,
        }
    }

    /// The world with a duplicate at `to` of what is found at `from` and
    /// below it. What was found at `to` before stays where the duplicate has
    /// nothing to put in its place.
    pub open spec fn graft(self, from: Seq<Seq<char>>, to: Seq<Seq<char>>) -> World {
        World {
            nodes: Map::new(
                |k: Seq<Seq<char>>|
                    self.has(k) || (within(to, k) && self.has(from + k.skip(to.len() as int))),
                |k: Seq<Seq<char>>|
                    if within(to, k) && self.has(from + k.skip(to.len() as int)) {
                        self.nodes[from + k.skip(to.len() as int)]
                    } else {
                        self.nodes[k]
                    },
            ),
            cwd: self.cwd,
        }
    }

    /// Whether a duplicate of what is found at `from` can be put at `to`:
    /// wherever both have something, both have a directory or both a file.
    pub open spec fn fits(self, from: Seq<Seq<char>>, to: Seq<Seq<char>>) -> bool {
        forall|r: Seq<Seq<char>>| #[trigger]
            self.has(from + r) && self.has(to + r) ==> (self.nodes[from + r] == Node::Directory
                <==> self.nodes[to + r] == Node::Directory)
    }

    /// Whether `source` can be duplicated into the directory `into`: it has a
    /// base name and is there, `into` is a directory that does not lie within
    /// it, and the duplicate fits.
    pub open spec fn can_copy(self, source: Seq<char>, into: Seq<char>) -> bool {
        let from = locate(self.cwd, source);
        &&& spec_base_name(source).is_some()
        &&& self.has(from)
        &&& self.has_directory(locate(self.cwd, into))
        &&& !within(from, locate(self.cwd, into))
        &&& self.fits(from, locate(self.cwd, into).push(spec_base_name(source).unwrap()))
    }

    /// The world after the duplication of `source` into the directory `into`.
    pub open spec fn copy(self, source: Seq<char>, into: Seq<char>) -> World {
        self.graft(
            locate(self.cwd, source),
            locate(self.cwd, into).push(spec_base_name(source).unwrap()),
        )
    }

    /// Whether the action succeeds.
    pub open spec fn can(self, action: ActionView) -> bool {
        match action {
            ActionView::Read { dir } => self.has_directory(locate(self.cwd, dir)),
            ActionView::Remove { path } => self.has(locate(self.cwd, path)) && locate(
                self.cwd,
                path,
            ).len() > 0,
            ActionView::Copy { source, into } => self.can_copy(source, into),
            ActionView::Move { source, into } => self.can_copy(source, into),
            ActionView::List { dir } => self.has_directory(locate(self.cwd, dir)),
            ActionView::Tree { dir } => self.has_directory(locate(self.cwd, dir)),
        }
    }

    /// The world after the action, where it succeeds. To move is to
    /// duplicate and then to delete the source.
    pub open spec fn after(self, action: ActionView) -> World {
        match action {
            ActionView::Remove { path } => self.erase(locate(self.cwd, path)),
            ActionView::Copy { source, into } => self.copy(source, into),
            ActionView::Move { source, into } => self.copy(source, into).erase(
                locate(self.cwd, source),
            ),
            _ => self,
        }
    }

    /// The world after the action, and the answer that the session gets. A
    /// directory that is read yields `listing`.
    pub open spec fn answer(self, action: ActionView, listing: Seq<Seq<char>>) -> (
        World,
        EventView,
    ) {
        if !self.can(action) {
            (self, EventView::Failed)
        } else if action is Read {
            (self, EventView::Listed(listing))
        } else {
            (self.after(action), EventView::Done)
        }
    }

    /// Whether nothing is found at the place `to` or below it.
    pub open spec fn vacant(self, to: Seq<Seq<char>>) -> bool {
        forall|k: Seq<Seq<char>>| within(to, k) ==> !#[trigger] self.has(k)
    }

    /// Whether nothing is found below the place `dir`.
    pub open spec fn bare(self, dir: Seq<Seq<char>>) -> bool {
        forall|k: Seq<Seq<char>>| #[trigger] self.has(k) && within(dir, k) ==> k == dir
    }

    /// Whether this world and `other` have the same working directory and
    /// differ at most in what lies below the place `dir`.
    pub open spec fn same_but_below(self, other: World, dir: Seq<Seq<char>>) -> bool {
        &&& self.cwd == other.cwd
        &&& forall|k: Seq<Seq<char>>|
            #![trigger self.has(k)]
            #![trigger other.has(k)]
            !within(dir, k) || k == dir ==> (self.has(k) <==> other.has(k)) && (self.has(k)
                ==> self.nodes[k] == other.nodes[k])
    }

    /// Whether `listing` names each entry of the directory at `dir` once, and
    /// nothing else.
    pub open spec fn lists(self, dir: Seq<Seq<char>>, listing: Seq<Seq<char>>) -> bool {
        &&& listing.no_duplicates()
        &&& forall|name: Seq<char>| listing.contains(name) <==> self.has(#[trigger] dir.push(name))
    }
}

/// How many answers a session still takes at most, where a directory that is
/// read yields `listing`.
pub open spec fn steps_left(s: SessionView, listing: Seq<Seq<char>>) -> nat {
    match s.stage {
        Stage::Finished => 0,
        Stage::Reading => listing.len() + s.later.len() + 1,
        _ => s.pending.len() + s.later.len(),
    }
}

/// The session run to its end in the world `w`: each pending action is
/// performed and answered in turn. Gives the session and the world at the
/// end.
pub open spec fn run(s: SessionView, w: World, listing: Seq<Seq<char>>) -> (SessionView, World)
    decreases steps_left(s, listing),
{
    if s.wf() && s.pending.len() > 0 {
        let (next, event) = w.answer(s.pending[0], listing);
        run(step(s, event), next, listing)
    } else {
        (s, w)
    }
}

/// The world without what the entries `names` of the directory at `dir`
/// hold.
pub open spec fn cleared(w: World, dir: Seq<Seq<char>>, names: Seq<Seq<char>>) -> World {
    World {
        nodes: Map::new(
            |k: Seq<Seq<char>>|
                w.has(k) && !(within(dir, k) && k.len() > dir.len() && names.contains(
                    k[dir.len() as int],
                )),
            |k: Seq<Seq<char>>| w.nodes[k],
        ),
        cwd: w.cwd,
    }
}

/// A place lies within an entry of a directory exactly when it lies below
/// the directory and goes on with the entry's name.
pub proof fn lemma_within_entry(dir: Seq<Seq<char>>, name: Seq<char>, k: Seq<Seq<char>>)
    ensures
        within(dir.push(name), k) <==> within(dir, k) && k.len() > dir.len() && k[dir.len() as int]
            == name,
{
    let entry = dir.push(name);
    if within(entry, k) {
        assert(k.take(entry.len() as int)[dir.len() as int] == name);
        assert(k.take(dir.len() as int) =~= k.take(entry.len() as int).take(dir.len() as int));
    }
    if within(dir, k) && k.len() > dir.len() && k[dir.len() as int] == name {
        assert(k.take(entry.len() as int) =~= k.take(dir.len() as int).push(name));
    }
}

/// The path of a plain name in a directory names the entry of that name.
pub proof fn lemma_locate_join(cwd: Seq<Seq<char>>, dir: Seq<char>, name: Seq<char>)
    requires
        plain(name),
    ensures
        locate(cwd, spec_join(dir, name)) == locate(cwd, dir).push(name),
{
    lemma_components_join(dir, name);
    let parts = components(dir);
    assert(parts.push(name).drop_last() =~= parts);
    if dir.len() == 0 {
        assert(spec_join(dir, name) =~= name);
    }
}

/// A path with a base name names a place that ends with that name.
pub proof fn lemma_locate_base_name(cwd: Seq<Seq<char>>, path: Seq<char>)
    requires
        spec_base_name(path).is_some(),
    ensures
        locate(cwd, path).len() > 0,
        locate(cwd, path).last() == spec_base_name(path).unwrap(),
{
}

/// A place lies within itself with more names behind it.
pub proof fn lemma_within_below(top: Seq<Seq<char>>, r: Seq<Seq<char>>)
    ensures
        within(top, top + r),
        (top + r).skip(top.len() as int) == r,
{
    assert((top + r).take(top.len() as int) =~= top);
    assert((top + r).skip(top.len() as int) =~= r);
}

/// Two places that a third lies within lie one within the other.
pub proof fn lemma_within_both(a: Seq<Seq<char>>, b: Seq<Seq<char>>, k: Seq<Seq<char>>)
    requires
        within(a, k),
        within(b, k),
    ensures
        within(a, b) || within(b, a),
{
    if a.len() <= b.len() {
        assert(b.take(a.len() as int) =~= k.take(b.len() as int).take(a.len() as int));
        assert(k.take(b.len() as int).take(a.len() as int) =~= k.take(a.len() as int));
    } else {
        assert(a.take(b.len() as int) =~= k.take(a.len() as int).take(b.len() as int));
        assert(k.take(a.len() as int).take(b.len() as int) =~= k.take(b.len() as int));
    }
}

/// Nothing below one of two places that lie apart lies within the other.
pub proof fn lemma_apart_below(a: Seq<Seq<char>>, b: Seq<Seq<char>>, r: Seq<Seq<char>>)
    requires
        apart(a, b),
    ensures
        !within(b, a + r),
{
    lemma_within_below(a, r);
    if within(b, a + r) {
        lemma_within_both(a, b, a + r);
    }
}

/// A duplicate put at a vacant place in a directory, under a plain name,
/// keeps the world well-formed.
pub proof fn lemma_graft_wf(w: World, from: Seq<Seq<char>>, to: Seq<Seq<char>>)
    requires
        w.wf(),
        w.has(from),
        to.len() > 0,
        w.has_directory(to.drop_last()),
        plain(to.last()),
        w.vacant(to),
    ensures
        w.graft(from, to).wf(),
{
    let g = w.graft(from, to);
    assert(to =~= to.drop_last().push(to.last()));
    assert(g.has_directory(Seq::empty()));
    assert forall|up: Seq<Seq<char>>, name: Seq<char>| #[trigger]
        g.has(up.push(name)) implies g.has_directory(up) && plain(name) by {
        let k = up.push(name);
        if w.has(k) {
            assert(w.has_directory(up));
            assert(!within(to, up));
        } else {
            let r = k.skip(to.len() as int);
            assert(k =~= to + r);
            if r.len() == 0 {
                assert(k =~= to);
                assert(up =~= k.drop_last());
                assert(!within(to, up));
            } else {
                let below = from + r;
                assert(w.has(below));
                assert(below =~= (from + r.drop_last()).push(name));
                assert(w.has_directory(from + r.drop_last()));
                assert(up =~= to + r.drop_last());
                lemma_within_below(to, r.drop_last());
            }
        }
    }
}

/// Without what lies at a place other than the root and below it, the world
/// is still well-formed.
pub proof fn lemma_erase_wf(w: World, top: Seq<Seq<char>>)
    requires
        w.wf(),
        top.len() > 0,
    ensures
        w.erase(top).wf(),
{
    let e = w.erase(top);
    assert(e.has_directory(Seq::empty()));
    assert forall|up: Seq<Seq<char>>, name: Seq<char>| #[trigger]
        e.has(up.push(name)) implies e.has_directory(up) && plain(name) by {
        let k = up.push(name);
        assert(w.has(k));
        assert(w.has_directory(up));
        if within(top, up) {
            assert(k.take(top.len() as int) =~= up.take(top.len() as int));
        }
    }
}

/// The path `.` names the working directory.
pub proof fn lemma_locate_here(cwd: Seq<Seq<char>>)
    ensures
        locate(cwd, here()) == cwd,
{
    let dot = here();
    assert(dot.drop_last() =~= Seq::<char>::empty());
    assert(components(dot.drop_last()) =~= Seq::<Seq<char>>::empty());
    assert(components(dot) =~= seq![dot]);
    assert(components(dot).drop_last() =~= Seq::<Seq<char>>::empty());
    assert(is_dot(components(dot).last()));
    reveal_with_fuel(walk, 2);
}

/// The base name of the path of a plain name in a directory is that name.
pub proof fn lemma_base_name_join(dir: Seq<char>, name: Seq<char>)
    requires
        plain(name),
    ensures
        spec_base_name(spec_join(dir, name)) == Some(name),
{
    lemma_components_join(dir, name);
}

/// In a well-formed world, whatever lies above something that is found is
/// found too.
pub proof fn lemma_found_above(w: World, top: Seq<Seq<char>>, k: Seq<Seq<char>>)
    requires
        w.wf(),
        w.has(k),
        within(top, k),
    ensures
        w.has(top),
        top.len() < k.len() ==> w.has_directory(top),
    decreases k.len() - top.len(),
{
    if top.len() < k.len() {
        let up = k.drop_last();
        assert(k =~= up.push(k.last()));
        assert(up.take(top.len() as int) =~= k.take(top.len() as int));
        if top.len() < up.len() {
            lemma_found_above(w, top, up);
        } else {
            assert(up =~= top);
        }
    } else {
        assert(k =~= top);
    }
}

/// Clearing a directory of all its entries leaves it bare and everything
/// else as it was.
pub proof fn lemma_cleared(w: World, dir: Seq<Seq<char>>, listing: Seq<Seq<char>>)
    requires
        w.wf(),
        w.lists(dir, listing),
    ensures
        cleared(w, dir, listing).bare(dir),
        cleared(w, dir, listing).same_but_below(w, dir),
        cleared(w, dir, listing).wf(),
{
    let c = cleared(w, dir, listing);
    assert forall|k: Seq<Seq<char>>| #[trigger] c.has(k) && within(dir, k) implies k == dir by {
        if k.len() > dir.len() {
            let name = k[dir.len() as int];
            let entry = dir.push(name);
            lemma_within_entry(dir, name, k);
            lemma_found_above(w, entry, k);
            assert(listing.contains(name));
        } else {
            assert(k =~= dir);
        }
    }
    assert forall|up: Seq<Seq<char>>, name: Seq<char>| #[trigger]
        c.has(up.push(name)) implies c.has_directory(up) && plain(name) by {
        let k = up.push(name);
        assert(w.has(k));
        assert(w.has_directory(up));
        if within(dir, up) && up.len() > dir.len() {
            assert(k.take(dir.len() as int) =~= up.take(dir.len() as int));
        }
    }
}

} // verus!
