use std::collections::BTreeMap;

use cxp::action::{Action, Event, Failure};
use cxp::path::base_name;
use cxp::session::Session;
use cxp::store::Cxp;

/// What a place of the disk holds.
#[derive(Clone, Debug, PartialEq, Eq)]
enum Node {
    Dir,
    File(Vec<u8>),
}

/// A disk in memory: what is found at each place, a place being the names
/// that lead to it from the root.
#[derive(Clone, Debug, PartialEq, Eq)]
struct Disk {
    nodes: BTreeMap<Vec<String>, Node>,
    cwd: Vec<String>,
}

fn place(path: &str) -> Vec<String> {
    path.split('/').filter(|part| !part.is_empty()).map(|part| part.to_string()).collect()
}

impl Disk {
    fn new(cwd: &str) -> Disk {
        let mut disk = Disk { nodes: BTreeMap::new(), cwd: place(cwd) };
        disk.nodes.insert(Vec::new(), Node::Dir);
        disk.dir(cwd);
        disk
    }

    /// Makes the directory `path` and those above it.
    fn dir(&mut self, path: &str) {
        let at = place(path);
        for n in 1..=at.len() {
            self.nodes.insert(at[..n].to_vec(), Node::Dir);
        }
    }

    /// Makes the file `path` and the directories above it.
    fn file(&mut self, path: &str, content: &[u8]) {
        let at = place(path);
        for n in 1..at.len() {
            self.nodes.insert(at[..n].to_vec(), Node::Dir);
        }
        self.nodes.insert(at, Node::File(content.to_vec()));
    }

    fn locate(&self, path: &str) -> Vec<String> {
        let mut at = if path.starts_with('/') { Vec::new() } else { self.cwd.clone() };
        for part in path.split('/') {
            match part {
                "" | "." => {}
                ".." => {
                    at.pop();
                }
                name => at.push(name.to_string()),
            }
        }
        at
    }

    fn get(&self, path: &str) -> Option<&Node> {
        self.nodes.get(&self.locate(path))
    }

    fn holds(&self, path: &str) -> bool {
        self.get(path).is_some()
    }

    /// The names of the entries of the directory `path`, sorted.
    fn entries(&self, path: &str) -> Vec<String> {
        let at = self.locate(path);
        let mut names = Vec::new();
        for key in self.nodes.keys() {
            if key.len() == at.len() + 1 && key.starts_with(&at) {
                names.push(key[at.len()].clone());
            }
        }
        names
    }

    /// What lies at `path` and below it, by the names that lead there from
    /// `path`.
    fn subtree(&self, path: &str) -> BTreeMap<Vec<String>, Node> {
        let at = self.locate(path);
        let mut found = BTreeMap::new();
        for (key, node) in self.nodes.iter() {
            if key.starts_with(&at) {
                found.insert(key[at.len()..].to_vec(), node.clone());
            }
        }
        found
    }

    fn erase(&mut self, at: &[String]) {
        self.nodes.retain(|key, _| !key.starts_with(at));
    }

    fn copy(&mut self, source: &str, into: &str) -> bool {
        let name = match base_name(source) {
            Some(name) => name,
            None => return false,
        };
        let from = self.locate(source);
        let dir = self.locate(into);
        if !self.nodes.contains_key(&from) || self.nodes.get(&dir) != Some(&Node::Dir) {
            return false;
        }
        if dir.starts_with(&from) {
            return false;
        }
        let mut to = dir;
        to.push(name);
        let mut copies = Vec::new();
        for (key, node) in self.nodes.iter() {
            if key.starts_with(&from) {
                let mut target = to.clone();
                target.extend_from_slice(&key[from.len()..]);
                if let Some(there) = self.nodes.get(&target) {
                    if (*there == Node::Dir) != (*node == Node::Dir) {
                        return false;
                    }
                }
                copies.push((target, node.clone()));
            }
        }
        for (target, node) in copies {
            self.nodes.insert(target, node);
        }
        true
    }

    fn perform(&mut self, action: &Action) -> Event {
        let done = match action {
            Action::Read { dir } => {
                if self.get(dir) == Some(&Node::Dir) {
                    let mut names = self.entries(dir);
                    names.reverse();
                    return Event::Listed(names);
                }
                false
            }
            Action::Remove { path } => {
                let at = self.locate(path);
                if self.nodes.contains_key(&at) && !at.is_empty() {
                    self.erase(&at);
                    true
                } else {
                    false
                }
            }
            Action::Copy { source, into } => self.copy(source, into),
            Action::Move { source, into } => {
                if self.copy(source, into) {
                    let from = self.locate(source);
                    self.erase(&from);
                    true
                } else {
                    false
                }
            }
            Action::List { dir } => self.get(dir) == Some(&Node::Dir),
            Action::Tree { dir } => self.get(dir) == Some(&Node::Dir),
        };
        if done {
            Event::Done
        } else {
            Event::Failed
        }
    }

    /// Carries a session through on this disk.
    fn carry_out(&mut self, mut session: Session) -> Result<(), Failure> {
        loop {
            let event = match session.current() {
                Some(action) => self.perform(action),
                None => break,
            };
            session = session.advance(event);
        }
        session.verdict().unwrap()
    }
}

fn strings(items: &[&str]) -> Vec<String> {
    items.iter().map(|s| s.to_string()).collect()
}

/// A disk with a staging directory at `/data/cxp` and the working directory
/// `/work`.
fn desk() -> (Disk, Cxp) {
    let mut disk = Disk::new("/work");
    disk.dir("/data/cxp");
    disk.dir("/tmp");
    (disk, Cxp::in_data_dir("/data"))
}

#[test]
fn a_copied_file_is_staged_and_still_there() {
    let (mut disk, cxp) = desk();
    disk.file("/tmp/a.txt", b"alpha");
    assert_eq!(disk.carry_out(cxp.copy(&strings(&["/tmp/a.txt"]))), Ok(()));
    assert_eq!(disk.entries("/data/cxp"), strings(&["a.txt"]));
    assert_eq!(disk.get("/data/cxp/a.txt"), Some(&Node::File(b"alpha".to_vec())));
    assert!(disk.holds("/tmp/a.txt"));
}

#[test]
fn a_cut_file_is_staged_and_gone() {
    let (mut disk, cxp) = desk();
    disk.file("/tmp/b.txt", b"beta");
    assert_eq!(disk.carry_out(cxp.cut(&strings(&["/tmp/b.txt"]))), Ok(()));
    assert_eq!(disk.entries("/data/cxp"), strings(&["b.txt"]));
    assert_eq!(disk.get("/data/cxp/b.txt"), Some(&Node::File(b"beta".to_vec())));
    assert!(!disk.holds("/tmp/b.txt"));
}

#[test]
fn a_staged_file_is_pasted_into_the_working_directory() {
    let (mut disk, cxp) = desk();
    disk.file("/data/cxp/a.txt", b"alpha");
    assert_eq!(disk.entries("/work"), strings(&[]));
    assert_eq!(disk.carry_out(cxp.paste()), Ok(()));
    assert_eq!(disk.get("/work/a.txt"), Some(&Node::File(b"alpha".to_vec())));
    assert_eq!(disk.get("a.txt"), disk.get("/data/cxp/a.txt"));
    assert_eq!(disk.entries("/data/cxp"), strings(&["a.txt"]));
}

#[test]
fn a_staged_file_is_cleared() {
    let (mut disk, cxp) = desk();
    disk.file("/data/cxp/a.txt", b"alpha");
    assert_eq!(disk.carry_out(cxp.empty()), Ok(()));
    assert_eq!(disk.entries("/data/cxp"), strings(&[]));
    assert!(disk.holds("/data/cxp"));
    assert_eq!(disk.carry_out(cxp.list()), Ok(()));
    assert_eq!(disk.perform(&Action::Read { dir: "/data/cxp".to_string() }), Event::Listed(vec![]));
}

#[test]
fn staging_no_source_leaves_the_disk_alone() {
    let (mut disk, cxp) = desk();
    disk.file("/data/cxp/a.txt", b"alpha");
    let before = disk.clone();
    assert_eq!(disk.carry_out(cxp.copy(&[])), Ok(()));
    assert_eq!(disk, before);
    assert_eq!(disk.carry_out(cxp.cut(&[])), Ok(()));
    assert_eq!(disk, before);
}

#[test]
fn copies_are_staged_under_their_base_names_with_all_they_hold() {
    let (mut disk, cxp) = desk();
    disk.file("/data/cxp/stale", b"old");
    disk.file("/data/cxp/older/deep", b"older");
    disk.file("/tmp/a.txt", b"alpha");
    disk.file("/tmp/docs/one", b"1");
    disk.file("/tmp/docs/.hidden", b"h");
    disk.file("/tmp/docs/sub/two", b"2");
    disk.dir("/tmp/docs/void");
    disk.file("/work/near", b"n");
    let before = disk.clone();
    let sources = strings(&["/tmp/a.txt", "/tmp/docs/", "near"]);
    assert_eq!(disk.carry_out(cxp.copy(&sources)), Ok(()));
    assert_eq!(disk.entries("/data/cxp"), strings(&["a.txt", "docs", "near"]));
    assert_eq!(disk.subtree("/data/cxp/a.txt"), before.subtree("/tmp/a.txt"));
    assert_eq!(disk.subtree("/data/cxp/docs"), before.subtree("/tmp/docs"));
    assert_eq!(disk.subtree("/data/cxp/near"), before.subtree("/work/near"));
    assert_eq!(disk.subtree("/data/cxp/docs").len(), 6);
    assert_eq!(disk.subtree("/tmp"), before.subtree("/tmp"));
    assert_eq!(disk.subtree("/work"), before.subtree("/work"));
    for source in sources.iter() {
        assert_eq!(
            disk.subtree(&cxp.staged_path(source).unwrap()),
            before.subtree(source)
        );
    }
}

#[test]
fn cutting_stages_what_copying_stages_and_removes_the_sources() {
    let (mut disk, cxp) = desk();
    disk.file("/data/cxp/stale", b"old");
    disk.file("/tmp/a.txt", b"alpha");
    disk.file("/tmp/docs/one", b"1");
    disk.file("/tmp/docs/sub/.two", b"2");
    disk.file("/tmp/stays", b"s");
    let sources = strings(&["/tmp/docs", "/tmp/a.txt"]);
    let mut copied = disk.clone();
    assert_eq!(copied.carry_out(cxp.copy(&sources)), Ok(()));
    assert_eq!(disk.carry_out(cxp.cut(&sources)), Ok(()));
    assert_eq!(disk.subtree("/data/cxp"), copied.subtree("/data/cxp"));
    assert_eq!(disk.entries("/data/cxp"), strings(&["a.txt", "docs"]));
    assert!(!disk.holds("/tmp/docs"));
    assert!(!disk.holds("/tmp/docs/one"));
    assert!(!disk.holds("/tmp/a.txt"));
    assert!(copied.holds("/tmp/docs/one"));
    assert_eq!(disk.entries("/tmp"), strings(&["stays"]));
}

#[test]
fn emptying_leaves_nothing_whatever_was_staged() {
    let (mut disk, cxp) = desk();
    assert_eq!(disk.carry_out(cxp.empty()), Ok(()));
    assert_eq!(disk.entries("/data/cxp"), strings(&[]));
    disk.file("/data/cxp/a", b"a");
    disk.file("/data/cxp/.b", b"b");
    disk.file("/data/cxp/dir/sub/c", b"c");
    disk.dir("/data/cxp/void");
    disk.file("/data/other", b"o");
    assert_eq!(disk.carry_out(cxp.empty()), Ok(()));
    assert_eq!(disk.entries("/data/cxp"), strings(&[]));
    assert_eq!(disk.subtree("/data/cxp").len(), 1);
    assert_eq!(disk.entries("/data"), strings(&["cxp", "other"]));
}

#[test]
fn pasting_leaves_what_is_staged() {
    let (mut disk, cxp) = desk();
    disk.file("/data/cxp/a", b"a");
    disk.file("/data/cxp/dir/sub/.c", b"c");
    let staged = disk.subtree("/data/cxp");
    let listed = disk.entries("/data/cxp");
    assert_eq!(disk.carry_out(cxp.paste()), Ok(()));
    assert_eq!(disk.entries("/data/cxp"), listed);
    assert_eq!(disk.subtree("/data/cxp"), staged);
    assert_eq!(disk.subtree("/work/dir"), disk.subtree("/data/cxp/dir"));
    assert_eq!(disk.entries("/work"), strings(&["a", "dir"]));
    assert_eq!(disk.carry_out(cxp.paste()), Ok(()));
    assert_eq!(disk.entries("/data/cxp"), listed);
    assert_eq!(disk.subtree("/data/cxp"), staged);
}

#[test]
fn pasting_leaves_the_entries_even_where_a_copy_fails() {
    let (mut disk, cxp) = desk();
    disk.file("/data/cxp/a", b"a");
    disk.file("/data/cxp/b", b"b");
    disk.dir("/work/a");
    let listed = disk.entries("/data/cxp");
    assert_eq!(disk.carry_out(cxp.paste()), Err(Failure::Incomplete));
    assert_eq!(disk.entries("/data/cxp"), listed);
    assert_eq!(disk.get("/work/b"), Some(&Node::File(b"b".to_vec())));
    assert_eq!(disk.get("/work/a"), Some(&Node::Dir));
}

#[test]
fn a_new_batch_discards_the_one_before() {
    let (mut disk, cxp) = desk();
    disk.file("/tmp/one/a", b"a");
    disk.file("/tmp/two", b"2");
    disk.file("/tmp/three", b"3");
    disk.file("/tmp/four/b", b"b");
    assert_eq!(disk.carry_out(cxp.copy(&strings(&["/tmp/one", "/tmp/two"]))), Ok(()));
    assert_eq!(disk.entries("/data/cxp"), strings(&["one", "two"]));
    assert_eq!(disk.carry_out(cxp.copy(&strings(&["/tmp/three", "/tmp/four"]))), Ok(()));
    assert_eq!(disk.entries("/data/cxp"), strings(&["four", "three"]));
    assert!(!disk.holds("/data/cxp/one"));
    assert!(!disk.holds("/data/cxp/one/a"));
    assert!(!disk.holds("/data/cxp/two"));
}

#[test]
fn a_missing_source_fails_the_copy_and_the_others_are_staged() {
    let (mut disk, cxp) = desk();
    disk.file("/data/cxp/stale", b"old");
    disk.file("/tmp/a", b"a");
    disk.file("/tmp/c", b"c");
    let verdict = disk.carry_out(cxp.copy(&strings(&["/tmp/a", "/tmp/missing", "/tmp/c"])));
    assert_eq!(verdict, Err(Failure::Incomplete));
    assert_eq!(disk.entries("/data/cxp"), strings(&["a", "c"]));
    assert!(disk.holds("/tmp/a"));
}

#[test]
fn a_missing_source_fails_the_cut_and_nothing_is_put_back() {
    let (mut disk, cxp) = desk();
    disk.file("/tmp/a", b"a");
    disk.file("/tmp/c", b"c");
    let verdict = disk.carry_out(cxp.cut(&strings(&["/tmp/a", "/tmp/missing", "/tmp/c"])));
    assert_eq!(verdict, Err(Failure::Incomplete));
    assert_eq!(disk.entries("/data/cxp"), strings(&["a", "c"]));
    assert!(!disk.holds("/tmp/a"));
    assert!(!disk.holds("/tmp/c"));
}

#[test]
fn a_missing_staging_directory_is_unreadable() {
    let mut disk = Disk::new("/work");
    disk.file("/tmp/a", b"a");
    let cxp = Cxp::in_data_dir("/data");
    let before = disk.clone();
    assert_eq!(disk.carry_out(cxp.copy(&strings(&["/tmp/a"]))), Err(Failure::Unreadable));
    assert_eq!(disk.carry_out(cxp.cut(&strings(&["/tmp/a"]))), Err(Failure::Unreadable));
    assert_eq!(disk.carry_out(cxp.paste()), Err(Failure::Unreadable));
    assert_eq!(disk.carry_out(cxp.empty()), Err(Failure::Unreadable));
    assert_eq!(disk.carry_out(cxp.list()), Err(Failure::Unreadable));
    assert_eq!(disk.carry_out(cxp.tree()), Err(Failure::Unreadable));
    assert_eq!(disk, before);
}

#[test]
fn listing_changes_nothing() {
    let (mut disk, cxp) = desk();
    disk.file("/data/cxp/a", b"a");
    disk.file("/data/cxp/dir/.b", b"b");
    let before = disk.clone();
    assert_eq!(disk.carry_out(cxp.list()), Ok(()));
    assert_eq!(disk.carry_out(cxp.tree()), Ok(()));
    assert_eq!(disk, before);
}

#[test]
fn sources_may_be_named_from_the_working_directory() {
    let (mut disk, cxp) = desk();
    disk.file("/work/sub/a", b"a");
    disk.file("/work/b", b"b");
    assert_eq!(disk.carry_out(cxp.cut(&strings(&["sub/", "./b"]))), Ok(()));
    assert_eq!(disk.entries("/data/cxp"), strings(&["b", "sub"]));
    assert_eq!(disk.entries("/work"), strings(&[]));
    assert_eq!(disk.carry_out(cxp.paste()), Ok(()));
    assert_eq!(disk.get("/work/sub/a"), Some(&Node::File(b"a".to_vec())));
    assert_eq!(disk.get("/work/b"), Some(&Node::File(b"b".to_vec())));
}

#[test]
fn a_source_named_twice_is_staged_once() {
    let (mut disk, cxp) = desk();
    disk.file("/tmp/docs/one", b"1");
    let before = disk.clone();
    let sources = strings(&["/tmp/docs", "/tmp//docs/"]);
    assert_eq!(disk.carry_out(cxp.copy(&sources)), Ok(()));
    assert_eq!(disk.entries("/data/cxp"), strings(&["docs"]));
    assert_eq!(disk.subtree("/data/cxp/docs"), before.subtree("/tmp/docs"));
    assert_eq!(disk.subtree("/tmp"), before.subtree("/tmp"));
}

#[test]
fn sources_of_the_same_name_do_not_both_fit() {
    let (mut disk, cxp) = desk();
    disk.file("/tmp/one/x", b"1");
    disk.file("/tmp/two/x", b"2");
    let sources = strings(&["/tmp/one/x", "/tmp/two/x"]);
    assert_eq!(disk.carry_out(cxp.copy(&sources)), Ok(()));
    assert_eq!(disk.entries("/data/cxp"), strings(&["x"]));
    assert_eq!(disk.get("/data/cxp/x"), Some(&Node::File(b"2".to_vec())));
}

#[test]
fn a_paste_above_the_staging_directory_can_reach_into_it() {
    let mut disk = Disk::new("/");
    disk.dir("/data/cxp");
    disk.file("/data/cxp/data/cxp/x", b"x");
    let cxp = Cxp::in_data_dir("/data");
    assert_eq!(disk.entries("/data/cxp"), strings(&["data"]));
    assert_eq!(disk.carry_out(cxp.paste()), Ok(()));
    assert_eq!(disk.entries("/data/cxp"), strings(&["data", "x"]));
}
