//! Paths as text: separators, components, base names.

use vstd::prelude::*;
use vstd::string::*;

verus! {

/// The character that separates the components of a path.
pub open spec fn is_separator(c: char) -> bool {
    c == '/'
}

/// The components of a path: its maximal runs of characters other than the
/// separator, from left to right.
pub open spec fn components(path: Seq<char>) -> Seq<Seq<char>>
    decreases path.len(),
{
    if path.len() == 0 {
        Seq::empty()
    } else {
        let before = components(path.drop_last());
        let c = path.last();
        if is_separator(c) {
            before
        } else if path.len() >= 2 && !is_separator(path[path.len() - 2]) {
            before.drop_last().push(before.last().push(c))
        } else {
            before.push(seq![c])
        }
    }
}

/// `dir` followed by `name`, with one separator between them unless `dir` is
/// empty or already ends with one.
pub open spec fn spec_join(dir: Seq<char>, name: Seq<char>) -> Seq<char> {
    if dir.len() == 0 || is_separator(dir.last()) {
        dir + name
    } else {
        dir.push('/') + name
    }
}

/// The path of `name` inside the directory `dir`.
pub fn join(dir: &str, name: &str) -> (path: String)
    ensures
        path@ == spec_join(dir@, name@),
{
    let n: usize = dir.unicode_len();
    let mut path = String::from_str(dir);
    if n > 0 && dir.get_char(n - 1) != '/' {
        proof {
            reveal_strlit("/");
        }
        path.append("/");
        assert(path@ =~= dir@.push('/'));
    }
    path.append(name);
    path
}

/// The name `.`, which stands for the directory it is found in.
pub open spec fn is_dot(name: Seq<char>) -> bool {
    name =~= seq!['.']
}

/// The name `..`, which stands for the parent of the directory it is found in.
pub open spec fn is_dot_dot(name: Seq<char>) -> bool {
    name =~= seq!['.', '.']
}

/// The base name of a path: its last component, unless the path has none or
/// ends in `.` or `..`.
pub open spec fn spec_base_name(path: Seq<char>) -> Option<Seq<char>> {
    let parts = components(path);
    if parts.len() == 0 || is_dot(parts.last()) || is_dot_dot(parts.last()) {
        None
    } else {
        Some(parts.last())
    }
}

/// The name under which a copy of `path` appears in the directory it is
/// copied into. Trailing separators are ignored. There is no such name for
/// the empty path, the root, and a path that ends in `.` or `..`.
pub fn base_name(path: &str) -> (name: Option<String>)
    ensures
        name.is_some() == spec_base_name(path@).is_some(),
        name.is_some() ==> name.unwrap()@ == spec_base_name(path@).unwrap(),
{
    broadcast use vstd::string::group_string_axioms;

    let n: usize = path.unicode_len();
    let mut i: usize = 0;
    let mut start: usize = 0;
    let mut end: usize = 0;
    for c in it: path.chars()
        invariant
            n == path@.len(),
            it.seq() == path@,
            i == it.index(),
            start <= end <= i,
            end == 0 ==> components(path@.take(i as int)).len() == 0,
            end > 0 ==> start < end && components(path@.take(i as int)).len() > 0
                && components(path@.take(i as int)).last() == path@.subrange(
                start as int,
                end as int,
            ),
            (i > 0 && !is_separator(path@[i - 1])) <==> (end > 0 && end == i),
    {
        proof {
            let before = path@.take(i as int);
            let now = path@.take(i + 1);
            assert(now.drop_last() =~= before);
            assert(now.last() == c);
            if i > 0 {
                assert(now[now.len() - 2] == path@[i - 1]);
            }
            if !is_separator(c) && end > 0 && end == i {
                assert(path@.subrange(start as int, end as int).push(c) =~= path@.subrange(
                    start as int,
                    i + 1,
                ));
            }
            if !is_separator(c) && !(end > 0 && end == i) {
                assert(seq![c] =~= path@.subrange(i as int, i + 1));
            }
        }
        if c != '/' {
            if !(end > 0 && end == i) {
                start = i;
            }
            end = i + 1;
        }
        i = i + 1;
    }
    assert(path@.take(i as int) =~= path@);
    if end == 0 {
        return None;
    }
    let name = path.substring_char(start, end);
    let len: usize = end - start;
    if len == 1 && path.get_char(start) == '.' {
        assert(name@ =~= seq!['.']);
        return None;
    }
    if len == 2 && path.get_char(start) == '.' && path.get_char(start + 1) == '.' {
        assert(name@ =~= seq!['.', '.']);
        return None;
    }
    assert(!is_dot(name@)) by {
        if is_dot(name@) {
            assert(name@.len() == 1 && name@[0] == '.');
        }
    }
    assert(!is_dot_dot(name@)) by {
        if is_dot_dot(name@) {
            assert(name@.len() == 2 && name@[0] == '.' && name@[1] == '.');
        }
    }
    Some(String::from_str(name))
}

/// A name that an entry of a directory can bear: not empty, free of
/// separators, and neither `.` nor `..`.
pub open spec fn plain(name: Seq<char>) -> bool {
    &&& name.len() > 0
    &&& forall|i: int| 0 <= i < name.len() ==> !is_separator(#[trigger] name[i])
    &&& !is_dot(name)
    &&& !is_dot_dot(name)
}

/// No component of a path is empty, and none holds a separator.
pub proof fn components_are_names(path: Seq<char>)
    ensures
        forall|i: int|
            0 <= i < components(path).len() ==> (#[trigger] components(path)[i]).len() > 0
                && forall|j: int|
                0 <= j < components(path)[i].len() ==> !is_separator(
                    #[trigger] components(path)[i][j],
                ),
    decreases path.len(),
{
    if path.len() > 0 {
        components_are_names(path.drop_last());
        let before = components(path.drop_last());
        let c = path.last();
        if !is_separator(c) && path.len() >= 2 && !is_separator(path[path.len() - 2]) {
            lemma_components_open(path.drop_last());
        }
    }
}

/// A path that does not end with a separator has a last component.
proof fn lemma_components_open(path: Seq<char>)
    requires
        path.len() > 0,
        !is_separator(path.last()),
    ensures
        components(path).len() > 0,
    decreases path.len(),
{
    if path.len() >= 2 && !is_separator(path[path.len() - 2]) {
        lemma_components_open(path.drop_last());
    }
}

/// A run of characters other than the separator, put behind a path that is
/// empty or ends with a separator, is one more component.
pub proof fn lemma_components_extend(front: Seq<char>, name: Seq<char>)
    requires
        front.len() == 0 || is_separator(front.last()),
        name.len() > 0,
        forall|i: int| 0 <= i < name.len() ==> !is_separator(#[trigger] name[i]),
    ensures
        components(front + name) == components(front).push(name),
    decreases name.len(),
{
    let whole = front + name;
    let c = name.last();
    assert(whole.last() == c);
    if name.len() == 1 {
        assert(whole.drop_last() =~= front);
        assert(name =~= seq![c]);
        if whole.len() >= 2 {
            assert(whole[whole.len() - 2] == front.last());
        }
    } else {
        let shorter = name.drop_last();
        assert(whole.drop_last() =~= front + shorter);
        lemma_components_extend(front, shorter);
        assert(whole[whole.len() - 2] == name[name.len() - 2]);
        assert(shorter.push(c) =~= name);
        let before = components(front + shorter);
        assert(before.drop_last() =~= components(front));
    }
}

/// Joining a directory and a name adds the name to the directory's
/// components.
pub proof fn lemma_components_join(dir: Seq<char>, name: Seq<char>)
    requires
        name.len() > 0,
        forall|i: int| 0 <= i < name.len() ==> !is_separator(#[trigger] name[i]),
    ensures
        components(spec_join(dir, name)) == components(dir).push(name),
{
    if dir.len() == 0 || is_separator(dir.last()) {
        lemma_components_extend(dir, name);
    } else {
        let front = dir.push('/');
        assert(front.drop_last() =~= dir);
        lemma_components_extend(front, name);
    }
}

} // verus!
