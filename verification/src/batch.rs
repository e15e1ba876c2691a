//! Putting sources into a directory of the model, one after the other: what
//! holds after each, and that the next can follow.

use crate::world::{
    apart, lemma_apart_below, lemma_erase_wf, lemma_graft_wf, lemma_within_below,
    lemma_within_both, lemma_within_entry, within, World,
};
use vstd::prelude::*;

verus! {

/// Whether the place `k` lies within one of the first `n` of `froms`.
pub open spec fn taken(froms: Seq<Seq<Seq<char>>>, n: int, k: Seq<Seq<char>>) -> bool {
    exists|j: int| 0 <= j < n && within(#[trigger] froms[j], k)
}

/// Whether `name` is one of the first `n` of `names`.
pub open spec fn named(names: Seq<Seq<char>>, n: int, name: Seq<char>) -> bool {
    exists|j: int| 0 <= j < n && #[trigger] names[j] == name
}

/// Whether the place `k` lies within one of the first `n` of the entries
/// `names` of the directory at `dir`.
pub open spec fn fresh(
    dir: Seq<Seq<char>>,
    names: Seq<Seq<char>>,
    n: int,
    k: Seq<Seq<char>>,
) -> bool {
    within(dir, k) && k.len() > dir.len() && named(names, n, k[dir.len() as int])
}

/// What holds of the world `w` when, beginning with the world `w0`, the
/// first `n` of the sources at `froms` have been put under `names` into the
/// directory at `dir`: each of these entries holds what its source held, and
/// everything else is as it was, but that sources which were moved are gone.
pub open spec fn staged(
    w0: World,
    w: World,
    dir: Seq<Seq<char>>,
    froms: Seq<Seq<Seq<char>>>,
    names: Seq<Seq<char>>,
    n: int,
    moving: bool,
) -> bool {
    &&& w.cwd == w0.cwd
    &&& forall|k: Seq<Seq<char>>|
        !fresh(dir, names, n, k) ==> (#[trigger] w.has(k) <==> w0.has(k) && !(moving && taken(
            froms,
            n,
            k,
        )))
    &&& forall|k: Seq<Seq<char>>|
        !fresh(dir, names, n, k) && #[trigger] w.has(k) ==> w.nodes[k] == w0.nodes[k]
    &&& forall|j: int|
        0 <= j < n ==> w.subtree(dir.push(#[trigger] names[j])) == w0.subtree(froms[j])
}

/// Whether the sources at `froms` can be put under `names` into the
/// directory at `dir`: the directory is there, each source is there, has its
/// name and lies apart from the directory, sources of the same name are the
/// same, and nothing is found yet where a source goes. Sources that are to
/// be moved lie apart from each other.
pub open spec fn ready(
    w0: World,
    dir: Seq<Seq<char>>,
    froms: Seq<Seq<Seq<char>>>,
    names: Seq<Seq<char>>,
    moving: bool,
) -> bool {
    &&& froms.len() == names.len()
    &&& w0.has_directory(dir)
    &&& forall|j: int|
        0 <= j < froms.len() ==> w0.has(#[trigger] froms[j]) && apart(froms[j], dir)
            && froms[j].len() > 0 && froms[j].last() == names[j] && w0.vacant(dir.push(names[j]))
    &&& forall|i: int, j: int|
        0 <= i < names.len() && 0 <= j < names.len() && #[trigger] names[i] == #[trigger] names[j]
            ==> froms[i] == froms[j]
    &&& moving ==> forall|i: int, j: int|
        0 <= i < froms.len() && 0 <= j < froms.len() && i != j ==> apart(
            #[trigger] froms[i],
            #[trigger] froms[j],
        )
}

/// The world after one more source is staged.
pub open spec fn stage_one(
    w: World,
    from: Seq<Seq<char>>,
    to: Seq<Seq<char>>,
    moving: bool,
) -> World {
    if moving {
        w.graft(from, to).erase(from)
    } else {
        w.graft(from, to)
    }
}

/// With `n` sources staged, the next one, where its name is new, can be
/// staged where nothing is yet, and `n + 1` sources are staged after that.
proof fn lemma_stage_new(
    w0: World,
    w: World,
    dir: Seq<Seq<char>>,
    froms: Seq<Seq<Seq<char>>>,
    names: Seq<Seq<char>>,
    n: int,
    moving: bool,
)
    requires
        ready(w0, dir, froms, names, moving),
        0 <= n < froms.len(),
        staged(w0, w, dir, froms, names, n, moving),
        !named(names, n, names[n]),
    ensures
        w.has(froms[n]),
        w.has_directory(dir),
        w.fits(froms[n], dir.push(names[n])),
        w.vacant(dir.push(names[n])),
        staged(
            w0,
            stage_one(w, froms[n], dir.push(names[n]), moving),
            dir,
            froms,
            names,
            n + 1,
            moving,
        ),
{
    let from = froms[n];
    let name = names[n];
    let to = dir.push(name);
    let g = w.graft(from, to);
    let w1 = stage_one(w, from, to, moving);

    // The source and the directory are as they were.
    assert(!fresh(dir, names, n, from));
    assert(!fresh(dir, names, n, dir));
    assert(!(moving && taken(froms, n, from))) by {
        if moving && taken(froms, n, from) {
            let j = choose|j: int| 0 <= j < n && within(#[trigger] froms[j], from);
            assert(apart(froms[j], froms[n]));
        }
    }
    assert(!taken(froms, n, dir)) by {
        if taken(froms, n, dir) {
            let j = choose|j: int| 0 <= j < n && within(#[trigger] froms[j], dir);
            assert(apart(froms[j], dir));
        }
    }
    assert(w.has(from));
    assert(w.has(dir));

    // Nothing is found yet where the source goes.
    assert forall|k: Seq<Seq<char>>| within(to, k) implies !#[trigger] w.has(k) by {
        lemma_within_entry(dir, name, k);
        assert(!fresh(dir, names, n, k));
        assert(w0.vacant(to));
        assert(!w0.has(k));
    }
    assert forall|r: Seq<Seq<char>>| !w.has(#[trigger] (to + r)) by {
        lemma_within_below(to, r);
    }
    assert(w.fits(from, to));

    // Below the source, the world is as it was at first.
    assert forall|r: Seq<Seq<char>>|
        (w.has(#[trigger] (from + r)) <==> w0.has(from + r)) && (w.has(from + r) ==> w.nodes[from
            + r] == w0.nodes[from + r]) by {
        let k = from + r;
        lemma_apart_below(from, dir, r);
        assert(!fresh(dir, names, n, k));
        if moving && taken(froms, n, k) {
            let j = choose|j: int| 0 <= j < n && within(#[trigger] froms[j], k);
            assert(apart(froms[n], froms[j]));
            lemma_apart_below(from, froms[j], r);
        }
        assert(w.has(k) <==> w0.has(k) && !(moving && taken(froms, n, k)));
    }

    assert forall|k: Seq<Seq<char>>| !fresh(dir, names, n + 1, k) implies (#[trigger] w1.has(k)
        <==> w0.has(k) && !(moving && taken(froms, n + 1, k))) by {
        lemma_within_entry(dir, name, k);
        if within(to, k) {
            assert(named(names, n + 1, k[dir.len() as int]));
        }
        if fresh(dir, names, n, k) {
            let j = choose|j: int| 0 <= j < n && #[trigger] names[j] == k[dir.len() as int];
            assert(named(names, n + 1, k[dir.len() as int]));
        }
        assert(!within(to, k));
        assert(g.has(k) <==> w.has(k));
        assert(w.has(k) <==> w0.has(k) && !(moving && taken(froms, n, k)));
        if taken(froms, n + 1, k) {
            let j = choose|j: int| 0 <= j < n + 1 && within(#[trigger] froms[j], k);
            if j < n {
                assert(taken(froms, n, k));
            }
        }
        if taken(froms, n, k) {
            let j = choose|j: int| 0 <= j < n && within(#[trigger] froms[j], k);
            assert(taken(froms, n + 1, k));
        }
        if within(from, k) {
            assert(within(froms[n], k));
            assert(taken(froms, n + 1, k));
        }
    }
    assert forall|k: Seq<Seq<char>>|
        !fresh(dir, names, n + 1, k) && #[trigger] w1.has(k) implies w1.nodes[k]
        == w0.nodes[k] by {
        lemma_within_entry(dir, name, k);
        if within(to, k) {
            assert(named(names, n + 1, k[dir.len() as int]));
        }
        if fresh(dir, names, n, k) {
            let j = choose|j: int| 0 <= j < n && #[trigger] names[j] == k[dir.len() as int];
            assert(named(names, n + 1, k[dir.len() as int]));
        }
        assert(!within(to, k));
        assert(w.has(k));
    }
    assert forall|j: int| 0 <= j < n + 1 implies w1.subtree(dir.push(#[trigger] names[j]))
        == w0.subtree(froms[j]) by {
        let top = dir.push(names[j]);
        assert forall|r: Seq<Seq<char>>|
            (w1.has(top + r) <==> w0.has(froms[j] + r)) && (w1.has(top + r) ==> w1.nodes[top + r]
                == w0.nodes[froms[j] + r]) by {
            let k = top + r;
            lemma_within_below(top, r);
            lemma_within_entry(dir, names[j], k);
            lemma_within_entry(dir, name, k);
            if within(from, k) {
                lemma_within_both(from, dir, k);
            }
            assert(w1.has(k) <==> g.has(k));
            assert(w1.has(k) ==> w1.nodes[k] == g.nodes[k]);
            if j < n {
                assert(names[j] != name) by {
                    if names[j] == name {
                        assert(named(names, n, name));
                    }
                }
                assert(!within(to, k));
                assert(w.subtree(top) == w0.subtree(froms[j]));
                assert(w.subtree(top).dom().contains(r) <==> w.has(k));
                assert(w0.subtree(froms[j]).dom().contains(r) <==> w0.has(froms[j] + r));
                if w.has(k) {
                    assert(w.subtree(top)[r] == w.nodes[k]);
                    assert(w0.subtree(froms[j])[r] == w0.nodes[froms[j] + r]);
                }
            } else {
                assert(!w.has(to + r));
                assert(k.skip(to.len() as int) == r);
                assert(w.has(from + r) <==> w0.has(from + r));
            }
        }
        assert(w1.subtree(top) =~= w0.subtree(froms[j]));
    }
}

/// With `n` sources staged, the next one, where a source of its name is
/// staged already, can be staged again, which changes nothing.
proof fn lemma_stage_again(
    w0: World,
    w: World,
    dir: Seq<Seq<char>>,
    froms: Seq<Seq<Seq<char>>>,
    names: Seq<Seq<char>>,
    n: int,
    moving: bool,
)
    requires
        ready(w0, dir, froms, names, moving),
        0 <= n < froms.len(),
        staged(w0, w, dir, froms, names, n, moving),
        named(names, n, names[n]),
    ensures
        !moving,
        w.has(froms[n]),
        w.has_directory(dir),
        w.fits(froms[n], dir.push(names[n])),
        stage_one(w, froms[n], dir.push(names[n]), moving) == w,
        staged(w0, w, dir, froms, names, n + 1, moving),
{
    let from = froms[n];
    let name = names[n];
    let to = dir.push(name);
    let g = w.graft(from, to);
    let j = choose|j: int| 0 <= j < n && #[trigger] names[j] == name;
    assert(froms[j] == froms[n]);
    if moving {
        assert(apart(froms[j], froms[n]));
        assert(from.take(from.len() as int) =~= from);
    }
    assert(!fresh(dir, names, n, from));
    assert(!fresh(dir, names, n, dir));
    assert(w.has(from));
    assert(w.has(dir));

    // What lies where the source goes is what the source holds.
    assert(w.subtree(to) == w0.subtree(from));
    assert forall|r: Seq<Seq<char>>|
        (w.has(#[trigger] (from + r)) <==> w.has(to + r)) && (w.has(from + r) ==> w.nodes[from + r]
            == w.nodes[to + r]) by {
        lemma_apart_below(from, dir, r);
        assert(!fresh(dir, names, n, from + r));
        assert(w.subtree(to).dom().contains(r) <==> w.has(to + r));
        assert(w0.subtree(from).dom().contains(r) <==> w0.has(from + r));
        if w.has(to + r) {
            assert(w.subtree(to)[r] == w.nodes[to + r]);
            assert(w0.subtree(from)[r] == w0.nodes[from + r]);
        }
    }
    assert(w.fits(from, to));
    assert forall|k: Seq<Seq<char>>|
        #![trigger g.nodes.dom().contains(k)]
        #![trigger w.nodes.dom().contains(k)]
        (g.nodes.dom().contains(k) <==> w.nodes.dom().contains(k)) && (g.nodes.dom().contains(k)
            ==> g.nodes[k] == w.nodes[k]) by {
        if within(to, k) {
            let r = k.skip(to.len() as int);
            assert(k =~= to + r);
            assert(w.has(from + r) <==> w.has(to + r));
        }
    }
    assert(g.nodes =~= w.nodes);

    assert forall|k: Seq<Seq<char>>| fresh(dir, names, n + 1, k) implies fresh(dir, names, n, k) by {
        let i = choose|i: int| 0 <= i < n + 1 && #[trigger] names[i] == k[dir.len() as int];
        if i == n {
            assert(names[j] == k[dir.len() as int]);
        }
    }
    assert forall|i: int| 0 <= i < n + 1 implies w.subtree(dir.push(#[trigger] names[i]))
        == w0.subtree(froms[i]) by {
        if i == n {
            assert(w.subtree(dir.push(names[j])) == w0.subtree(froms[j]));
        }
    }
}

/// With `n` sources staged the next one can be staged, and `n + 1` sources
/// are staged after that.
pub proof fn lemma_stage_one(
    w0: World,
    w: World,
    dir: Seq<Seq<char>>,
    froms: Seq<Seq<Seq<char>>>,
    names: Seq<Seq<char>>,
    n: int,
    moving: bool,
)
    requires
        ready(w0, dir, froms, names, moving),
        0 <= n < froms.len(),
        staged(w0, w, dir, froms, names, n, moving),
    ensures
        w.has(froms[n]),
        w.has_directory(dir),
        w.fits(froms[n], dir.push(names[n])),
        staged(
            w0,
            stage_one(w, froms[n], dir.push(names[n]), moving),
            dir,
            froms,
            names,
            n + 1,
            moving,
        ),
{
    if named(names, n, names[n]) {
        lemma_stage_again(w0, w, dir, froms, names, n, moving);
    } else {
        lemma_stage_new(w0, w, dir, froms, names, n, moving);
    }
}

/// Staging one more source keeps the world well-formed.
pub proof fn lemma_stage_one_wf(
    w0: World,
    w: World,
    staging: Seq<Seq<char>>,
    froms: Seq<Seq<Seq<char>>>,
    names: Seq<Seq<char>>,
    n: int,
    moving: bool,
)
    requires
        ready(w0, staging, froms, names, moving),
        0 <= n < froms.len(),
        staged(w0, w, staging, froms, names, n, moving),
        w.wf(),
    ensures
        stage_one(w, froms[n], staging.push(names[n]), moving).wf(),
{
    let from = froms[n];
    let to = staging.push(names[n]);
    if named(names, n, names[n]) {
        lemma_stage_again(w0, w, staging, froms, names, n, moving);
    } else {
        lemma_stage_new(w0, w, staging, froms, names, n, moving);
        assert(to.drop_last() =~= staging);
        assert(from =~= from.drop_last().push(from.last()));
        lemma_graft_wf(w, from, to);
        if moving {
            lemma_erase_wf(w.graft(from, to), from);
        }
    }
}

/// Two worlds that differ only below a directory hold the same at a place
/// that lies apart from it.
pub proof fn lemma_same_subtree(a: World, b: World, dir: Seq<Seq<char>>, top: Seq<Seq<char>>)
    requires
        a.same_but_below(b, dir),
        apart(top, dir),
    ensures
        a.subtree(top) == b.subtree(top),
{
    assert forall|r: Seq<Seq<char>>|
        (a.has(top + r) <==> b.has(top + r)) && (a.has(top + r) ==> a.nodes[top + r] == b.nodes[top
            + r]) by {
        lemma_apart_below(top, dir, r);
    }
    assert(a.subtree(top) =~= b.subtree(top));
}

/// Once all sources are staged, the entries of the staging directory are
/// the names under which they were staged.
pub proof fn lemma_staged_entries(
    w0: World,
    w: World,
    staging: Seq<Seq<char>>,
    froms: Seq<Seq<Seq<char>>>,
    names: Seq<Seq<char>>,
    moving: bool,
)
    requires
        ready(w0, staging, froms, names, moving),
        w0.bare(staging),
        staged(w0, w, staging, froms, names, names.len() as int, moving),
    ensures
        forall|name: Seq<char>|
            w.entries(staging).contains(name) <==> named(names, names.len() as int, name),
{
    assert forall|name: Seq<char>|
        w.entries(staging).contains(name) <==> named(names, names.len() as int, name) by {
        let k = staging.push(name);
        lemma_within_entry(staging, name, k);
        assert(k.take(staging.len() as int) =~= staging);
        if !named(names, names.len() as int, name) {
            assert(!fresh(staging, names, names.len() as int, k));
            assert(w.has(k) <==> w0.has(k));
        }
        if named(names, names.len() as int, name) {
            let j = choose|j: int| 0 <= j < names.len() && #[trigger] names[j] == name;
            assert(w.subtree(staging.push(names[j])) == w0.subtree(froms[j]));
            let none = Seq::<Seq<char>>::empty();
            assert(froms[j] + none =~= froms[j]);
            assert(k + none =~= k);
            assert(w0.subtree(froms[j]).dom().contains(none));
            assert(w.subtree(k).dom().contains(none));
        }
    }
}

/// Where the same sources are staged from the same beginning, once by
/// copying and once by moving, the staging directory holds the same.
pub proof fn lemma_same_content(
    w0: World,
    copied: World,
    moved: World,
    staging: Seq<Seq<char>>,
    froms: Seq<Seq<Seq<char>>>,
    names: Seq<Seq<char>>,
)
    requires
        ready(w0, staging, froms, names, true),
        w0.bare(staging),
        staged(w0, copied, staging, froms, names, names.len() as int, false),
        staged(w0, moved, staging, froms, names, names.len() as int, true),
    ensures
        copied.subtree(staging) == moved.subtree(staging),
{
    let n = names.len() as int;
    assert forall|r: Seq<Seq<char>>|
        (copied.has(staging + r) <==> moved.has(staging + r)) && (copied.has(staging + r)
            ==> copied.nodes[staging + r] == moved.nodes[staging + r]) by {
        let k = staging + r;
        lemma_within_below(staging, r);
        if r.len() == 0 {
            assert(k =~= staging);
            if taken(froms, n, staging) {
                let j = choose|j: int| 0 <= j < n && within(#[trigger] froms[j], staging);
                assert(apart(froms[j], staging));
            }
            assert(copied.has(k) <==> w0.has(k));
            assert(moved.has(k) <==> w0.has(k));
        } else {
            let name = k[staging.len() as int];
            if !named(names, n, name) {
                assert(!fresh(staging, names, n, k));
                assert(!w0.has(k));
            }
            if copied.has(k) || moved.has(k) {
                assert(named(names, n, name));
                let j = choose|j: int| 0 <= j < n && #[trigger] names[j] == name;
                let top = staging.push(names[j]);
                let rest = r.skip(1);
                assert(k =~= top + rest);
                assert(copied.subtree(top) == w0.subtree(froms[j]));
                assert(moved.subtree(top) == w0.subtree(froms[j]));
                assert(copied.subtree(top).dom().contains(rest) <==> copied.has(top + rest));
                assert(moved.subtree(top).dom().contains(rest) <==> moved.has(top + rest));
                assert(copied.subtree(top)[rest] == copied.nodes[top + rest]);
                assert(moved.subtree(top)[rest] == moved.nodes[top + rest]);
            }
        }
    }
    assert(copied.subtree(staging) =~= moved.subtree(staging));
}

} // verus!
