//! Change sets and batches applied to a storage that is held in memory, writes down what it is
//! asked, and fails where a test wants it to.

use fs_transaction::{
    ChangeSet, Durability, Error, Fault, FaultKind, FileOp, Journal, OrderedBatch, Outcome, Reply,
    Request, TreePath,
};
use std::collections::{BTreeMap, BTreeSet};

/// What stands at a path.
#[derive(Debug, Clone, PartialEq, Eq)]
enum Node {
    File {
        bytes: Vec<u8>,
        runnable: bool,
        readable: bool,
    },
    Link(TreePath),
}

/// What the storage did.
#[derive(Debug, Clone, PartialEq, Eq)]
enum Event {
    Write(String),
    CreateNew(String),
    Rename(String, String),
    Remove(String),
    SetExecutable(String, bool),
    SetLink(String),
    Sync(String, Durability),
}

/// A storage in memory.
struct Disk {
    nodes: BTreeMap<String, Node>,
    dirs: BTreeSet<String>,
    atomic: bool,
    links: bool,
    bits: bool,
    journal: String,
    events: Vec<Event>,
    reads: Vec<String>,
    /// The number of the write that fails, those to the journal not counted.
    fail_write: Option<usize>,
    writes: usize,
    /// Whether a write that fails leaves half a file.
    tears: bool,
    /// The number of the drain of this path that fails.
    fail_drain: Option<(String, usize)>,
    drains: usize,
    /// The paths that cannot be removed.
    stuck: BTreeSet<String>,
}

fn p(text: &str) -> TreePath {
    TreePath::new(text.as_bytes())
}

fn s(path: &TreePath) -> String {
    String::from_utf8(path.text()).unwrap()
}

fn parent(path: &str) -> String {
    match path.rfind('/') {
        Some(at) => path[..at].to_string(),
        None => String::new(),
    }
}

fn temp_sibling(path: &str) -> String {
    let dir = parent(path);
    let name = &path[dir.len() + 1..];
    format!("{dir}/.{name}.fstx-tmp")
}

fn fault(kind: FaultKind, message: &str) -> Reply {
    Reply::Failed(Fault { kind, message: message.as_bytes().to_vec() })
}

fn not_found() -> Reply {
    fault(FaultKind::NotFound, "no such file")
}

const ROOT: &str = "/tree";

impl Disk {
    fn new() -> Disk {
        let mut dirs = BTreeSet::new();
        dirs.insert(String::new());
        dirs.insert(ROOT.to_string());
        Disk {
            nodes: BTreeMap::new(),
            dirs,
            atomic: true,
            links: true,
            bits: true,
            journal: format!("{ROOT}/.fstx-journal"),
            events: Vec::new(),
            reads: Vec::new(),
            fail_write: None,
            writes: 0,
            tears: false,
            fail_drain: None,
            drains: 0,
            stuck: BTreeSet::new(),
        }
    }

    fn failing_at(n: usize) -> Disk {
        let mut disk = Disk::new();
        disk.fail_write = Some(n);
        disk
    }

    fn full(rel: &str) -> String {
        format!("{ROOT}/{rel}")
    }

    fn add_dirs(&mut self, dir: &str) {
        let mut at = dir.to_string();
        while !self.dirs.contains(&at) {
            self.dirs.insert(at.clone());
            at = parent(&at);
        }
    }

    fn put(&mut self, rel: &str, bytes: &str) {
        let full = Disk::full(rel);
        self.add_dirs(&parent(&full));
        self.nodes.insert(
            full,
            Node::File { bytes: bytes.as_bytes().to_vec(), runnable: false, readable: true },
        );
    }

    fn link(&mut self, rel: &str, target: &str) {
        self.nodes.insert(Disk::full(rel), Node::Link(p(target)));
    }

    fn read(&self, rel: &str) -> Option<String> {
        match self.nodes.get(&self.follow(&Disk::full(rel))) {
            Some(Node::File { bytes, .. }) => Some(String::from_utf8(bytes.clone()).unwrap()),
            _ => None,
        }
    }

    fn link_at(&self, rel: &str) -> Option<String> {
        match self.nodes.get(&Disk::full(rel)) {
            Some(Node::Link(target)) => Some(s(target)),
            _ => None,
        }
    }

    fn is_runnable(&self, rel: &str) -> bool {
        matches!(self.nodes.get(&Disk::full(rel)), Some(Node::File { runnable: true, .. }))
    }

    fn has_journal(&self) -> bool {
        self.nodes.contains_key(&self.journal)
    }

    fn owns(&self, path: &str) -> bool {
        path == self.journal || path == temp_sibling(&self.journal)
    }

    fn follow(&self, path: &str) -> String {
        let mut at = path.to_string();
        let mut steps = 0;
        while let Some(Node::Link(target)) = self.nodes.get(&at) {
            at = s(&p(&parent(&at)).join(target));
            steps += 1;
            if steps > 8 {
                break;
            }
        }
        at
    }

    /// Puts bytes at a path as they come, and says whether that worked.
    fn write_plain(&mut self, path: &str, bytes: &[u8], event: Event) -> Reply {
        if !self.owns(path) {
            let n = self.writes;
            self.writes += 1;
            if self.fail_write == Some(n) {
                if self.tears {
                    self.nodes.insert(
                        path.to_string(),
                        Node::File { bytes: b"half".to_vec(), runnable: false, readable: true },
                    );
                }
                return fault(FaultKind::Other, "disk full (test)");
            }
        }
        if !self.dirs.contains(&parent(path)) {
            return not_found();
        }
        let (runnable, readable) = match self.nodes.get(path) {
            Some(Node::File { runnable, readable, .. }) => (*runnable, *readable),
            _ => (false, true),
        };
        self.nodes.insert(
            path.to_string(),
            Node::File { bytes: bytes.to_vec(), runnable, readable },
        );
        self.events.push(event);
        Reply::Done
    }

    fn replace(&mut self, path: &str, bytes: &[u8]) -> Reply {
        if !self.atomic {
            return self.write_plain(path, bytes, Event::Write(path.to_string()));
        }
        let temp = temp_sibling(path);
        let written = self.write_plain(&temp, bytes, Event::Write(temp.clone()));
        if written != Reply::Done {
            return written;
        }
        self.events.push(Event::Sync(temp.clone(), Durability::Ordered));
        let mode = match self.nodes.get(path) {
            Some(Node::File { runnable, readable, .. }) => (*runnable, *readable),
            _ => (false, true),
        };
        self.nodes.remove(&temp);
        self.nodes.insert(
            path.to_string(),
            Node::File { bytes: bytes.to_vec(), runnable: mode.0, readable: mode.1 },
        );
        self.events.push(Event::Rename(temp, path.to_string()));
        Reply::Done
    }

    fn sync(&mut self, path: &str, need: Durability) -> Reply {
        if need == Durability::Durable {
            if let Some((anchor, fail_at)) = &self.fail_drain {
                if anchor == path {
                    let n = self.drains;
                    self.drains += 1;
                    if n == *fail_at {
                        return fault(FaultKind::Other, "cannot drain (test)");
                    }
                }
            }
        }
        self.events.push(Event::Sync(path.to_string(), need));
        Reply::Done
    }

    fn rename(&mut self, from: &str, to: &str) -> Reply {
        let below = format!("{from}/");
        let moving: Vec<String> = self
            .nodes
            .keys()
            .filter(|k| *k == from || k.starts_with(&below))
            .cloned()
            .collect();
        if moving.is_empty() && !self.dirs.contains(from) {
            return not_found();
        }
        if !self.dirs.contains(&parent(to)) {
            return not_found();
        }
        for key in moving {
            let node = self.nodes.remove(&key).unwrap();
            self.nodes.insert(format!("{to}{}", &key[from.len()..]), node);
        }
        let dirs: Vec<String> = self
            .dirs
            .iter()
            .filter(|d| *d == from || d.starts_with(&below))
            .cloned()
            .collect();
        for dir in dirs {
            self.dirs.remove(&dir);
            self.dirs.insert(format!("{to}{}", &dir[from.len()..]));
        }
        self.events.push(Event::Rename(from.to_string(), to.to_string()));
        Reply::Done
    }

    /// Does what is asked.
    fn perform(&mut self, request: Request, spelling: &str) -> Reply {
        match request {
            Request::Exists(path) => {
                let at = self.follow(&s(&path));
                Reply::Found(self.nodes.contains_key(&at) || self.dirs.contains(&at))
            }
            Request::Read(path) => {
                let at = self.follow(&s(&path));
                self.reads.push(at.clone());
                match self.nodes.get(&at) {
                    Some(Node::File { bytes, readable: true, .. }) => Reply::Bytes(bytes.clone()),
                    Some(_) => fault(FaultKind::Other, "cannot read"),
                    None if self.dirs.contains(&at) => fault(FaultKind::Other, "is a directory"),
                    None => not_found(),
                }
            }
            Request::ReadLink(path) => {
                if !self.links {
                    return Reply::Link(None);
                }
                match self.nodes.get(&s(&path)) {
                    Some(Node::Link(target)) => Reply::Link(Some(target.clone())),
                    Some(_) => fault(FaultKind::InvalidInput, "not a link"),
                    None if self.dirs.contains(&s(&path)) => {
                        fault(FaultKind::InvalidInput, "not a link")
                    }
                    None => not_found(),
                }
            }
            Request::Executable(path) => {
                if !self.bits {
                    return Reply::Executable(None);
                }
                match self.nodes.get(&self.follow(&s(&path))) {
                    Some(Node::File { runnable, .. }) => Reply::Executable(Some(*runnable)),
                    _ => not_found(),
                }
            }
            Request::CreateDirs(path) => {
                let mut made = Vec::new();
                let mut at = s(&path);
                while !self.dirs.contains(&at) {
                    made.push(p(&at));
                    self.dirs.insert(at.clone());
                    at = parent(&at);
                }
                if !made.is_empty() {
                    made.push(p(&at));
                }
                Reply::Made(made)
            }
            Request::Write(path, bytes) => {
                let at = self.follow(&s(&path));
                self.write_plain(&at, &bytes, Event::Write(at.clone()))
            }
            Request::Replace(path, bytes) => self.replace(&s(&path), &bytes),
            Request::WriteAtomic(path, bytes) => {
                let at = s(&path);
                match self.replace(&at, &bytes) {
                    Reply::Done => self.sync(&parent(&at), Durability::Durable),
                    other => other,
                }
            }
            Request::CreateNew(path, bytes) => {
                let at = s(&path);
                if self.nodes.contains_key(&at) {
                    return fault(FaultKind::AlreadyExists, "already there");
                }
                self.write_plain(&at, &bytes, Event::CreateNew(at.clone()))
            }
            Request::Rename(from, to) => self.rename(&s(&from), &s(&to)),
            Request::Remove(path) => {
                let at = s(&path);
                if self.stuck.contains(&at) {
                    return fault(FaultKind::Other, "cannot remove (test)");
                }
                match self.nodes.remove(&at) {
                    Some(_) => {
                        self.events.push(Event::Remove(at));
                        Reply::Done
                    }
                    None => not_found(),
                }
            }
            Request::SetExecutable(path, executable) => {
                if !self.bits {
                    return Reply::Done;
                }
                let at = self.follow(&s(&path));
                match self.nodes.get_mut(&at) {
                    Some(Node::File { runnable, .. }) => {
                        *runnable = executable;
                        self.events.push(Event::SetExecutable(at, executable));
                        Reply::Done
                    }
                    _ => not_found(),
                }
            }
            Request::SetLink(path, target) => {
                if !self.links {
                    return fault(FaultKind::Unsupported, "this storage has no symbolic links");
                }
                let at = s(&path);
                self.nodes.insert(at.clone(), Node::Link(target));
                self.events.push(Event::SetLink(at));
                Reply::Done
            }
            Request::Sync(path, need) => self.sync(&s(&path), need),
            Request::Encode => Reply::Bytes(spelling.as_bytes().to_vec()),
        }
    }

    fn run_journaled(&mut self, journal: &Journal, changes: &ChangeSet) -> Outcome {
        let mut apply = journal.apply(changes, &p(ROOT), self.atomic);
        while let Some(request) = apply.request() {
            let reply = self.perform(request, "the whole intent");
            apply = apply.resume(reply);
        }
        apply.outcome().unwrap().clone()
    }

    fn run(&mut self, changes: &ChangeSet) -> Outcome {
        let mut apply = changes.apply(&p(ROOT), self.atomic);
        while let Some(request) = apply.request() {
            let reply = self.perform(request, "the whole intent");
            apply = apply.resume(reply);
        }
        apply.outcome().unwrap().clone()
    }

    fn run_batch(&mut self, batch: &OrderedBatch, finality: Durability) -> Outcome {
        let mut apply = batch.apply(&p(ROOT), self.atomic, finality);
        while let Some(request) = apply.request() {
            let reply = self.perform(request, "");
            apply = apply.resume(reply);
        }
        apply.outcome().unwrap().clone()
    }
}

/// What an error says.
fn told(error: &Error) -> String {
    match error {
        Error::Io(fault) => String::from_utf8(fault.message.clone()).unwrap(),
        Error::Torn { cause, rollback } => format!(
            "{}; {}",
            String::from_utf8(cause.clone()).unwrap(),
            String::from_utf8(rollback.clone()).unwrap()
        ),
        other => format!("{other:?}"),
    }
}

fn at(rel: &str) -> String {
    Disk::full(rel)
}

fn root() -> String {
    ROOT.to_string()
}

fn is_drain(event: &Event) -> bool {
    matches!(event, Event::Sync(_, Durability::Durable))
}

#[test]
fn applies_every_op_in_order() {
    let mut disk = Disk::new();
    disk.put("parent.md", "old parent");
    let mut cs = ChangeSet::new();
    cs.write("child.md", "child");
    cs.write("parent.md", "new parent");
    disk.run(&cs).unwrap();
    assert_eq!(disk.read("child.md").as_deref(), Some("child"));
    assert_eq!(disk.read("parent.md").as_deref(), Some("new parent"));
}

#[test]
fn creates_missing_parent_directories() {
    let mut disk = Disk::new();
    let mut cs = ChangeSet::new();
    cs.write("deep/nested/child.md", "hi");
    disk.run(&cs).unwrap();
    assert_eq!(disk.read("deep/nested/child.md").as_deref(), Some("hi"));
}

#[test]
fn a_copy_lands_the_source_bytes_and_leaves_the_source_alone() {
    let mut disk = Disk::new();
    disk.put("history/blobs/9f/86d081", "captured");
    disk.put("notes.md", "damaged");

    let mut cs = ChangeSet::new();
    cs.copy_from("notes.md", "history/blobs/9f/86d081");
    cs.copy_from("deep/fresh.md", "history/blobs/9f/86d081");
    disk.run(&cs).unwrap();

    assert_eq!(disk.read("notes.md").as_deref(), Some("captured"));
    assert_eq!(disk.read("deep/fresh.md").as_deref(), Some("captured"));
    assert_eq!(disk.read("history/blobs/9f/86d081").as_deref(), Some("captured"));
}

#[test]
fn a_failed_copy_rolls_back_exactly_as_a_failed_write_does() {
    let mut disk = Disk::failing_at(2);
    disk.put("history/blobs/9f/86d081", "captured");
    disk.put("notes.md", "damaged");

    let mut cs = ChangeSet::new();
    cs.copy_from("notes.md", "history/blobs/9f/86d081");
    cs.copy_from("fresh.md", "history/blobs/9f/86d081");
    cs.write("doomed.md", "never lands");
    let err = disk.run(&cs).unwrap_err();
    assert!(told(&err).contains("disk full"), "{err:?}");

    assert_eq!(disk.read("notes.md").as_deref(), Some("damaged"));
    assert_eq!(disk.read("fresh.md"), None);
}

#[test]
fn a_copy_from_a_missing_source_fails_before_the_target_is_touched() {
    let mut disk = Disk::new();
    disk.put("notes.md", "damaged");
    let mut cs = ChangeSet::new();
    cs.copy_from("notes.md", "history/blobs/9f/86d081");
    assert!(disk.run(&cs).is_err());
    assert_eq!(disk.read("notes.md").as_deref(), Some("damaged"));
}

#[test]
fn a_copy_cannot_read_from_outside_the_root() {
    let mut disk = Disk::new();
    let mut cs = ChangeSet::new();
    cs.copy_from("stolen.md", "../../../etc/passwd");
    let err = disk.run(&cs).unwrap_err();
    assert!(matches!(err, Error::Escape(_)), "{err:?}");
    assert_eq!(disk.read("stolen.md"), None);
}

#[test]
fn a_failed_write_restores_the_files_already_written() {
    let mut disk = Disk::failing_at(2);
    disk.put("parent.md", "old parent");
    disk.put("child.md", "old child");

    let mut cs = ChangeSet::new();
    cs.write("child.md", "new child");
    cs.write("parent.md", "new parent");
    cs.write("third.md", "third");
    let err = disk.run(&cs).unwrap_err();
    assert!(told(&err).contains("disk full"), "{err:?}");

    assert_eq!(disk.read("child.md").as_deref(), Some("old child"));
    assert_eq!(disk.read("parent.md").as_deref(), Some("old parent"));
}

#[test]
fn a_failed_write_deletes_files_the_set_had_created() {
    let mut disk = Disk::failing_at(1);
    let mut cs = ChangeSet::new();
    cs.write("fresh.md", "fresh");
    cs.write("doomed.md", "doomed");
    let err = disk.run(&cs).unwrap_err();
    assert!(told(&err).contains("disk full"), "{err:?}");
    assert_eq!(disk.read("fresh.md"), None);
}

#[test]
fn sets_and_clears_the_execute_bit() {
    let mut disk = Disk::new();
    disk.put("run.sh", "#!/bin/sh");
    disk.put("plain.md", "notes");

    let mut cs = ChangeSet::new();
    cs.set_executable("run.sh", true);
    cs.set_executable("plain.md", false);
    disk.run(&cs).unwrap();

    assert!(disk.is_runnable("run.sh"));
    assert!(!disk.is_runnable("plain.md"));
}

#[test]
fn a_failed_set_restores_the_execute_bit_it_flipped() {
    let mut disk = Disk::failing_at(0);
    disk.put("run.sh", "#!/bin/sh");
    assert!(!disk.is_runnable("run.sh"));

    let mut cs = ChangeSet::new();
    cs.set_executable("run.sh", true);
    cs.write("doomed.md", "never lands");
    let err = disk.run(&cs).unwrap_err();
    assert!(told(&err).contains("disk full"), "{err:?}");

    assert!(!disk.is_runnable("run.sh"), "the bit must roll back to what was");
}

#[test]
fn a_bit_already_in_the_requested_state_rolls_back_to_itself() {
    let mut disk = Disk::failing_at(0);
    disk.nodes.insert(
        at("run.sh"),
        Node::File { bytes: b"#!/bin/sh".to_vec(), runnable: true, readable: true },
    );

    let mut cs = ChangeSet::new();
    cs.set_executable("run.sh", true);
    cs.write("doomed.md", "never lands");
    disk.run(&cs).unwrap_err();

    assert!(disk.is_runnable("run.sh"), "a bit the set never set must stay");
}

#[test]
fn lands_a_link_and_reads_nothing_through_it() {
    let mut disk = Disk::new();
    let mut cs = ChangeSet::new();
    cs.set_link("here.md", "nowhere/yet.md");
    cs.set_link("out.md", "../elsewhere.md");
    disk.run(&cs).unwrap();

    assert_eq!(disk.link_at("here.md").as_deref(), Some("nowhere/yet.md"));
    assert_eq!(disk.link_at("out.md").as_deref(), Some("../elsewhere.md"));
    assert!(disk.reads.is_empty());
}

#[test]
fn a_failed_set_restores_the_file_a_link_replaced() {
    let mut disk = Disk::failing_at(0);
    disk.put("victim.md", "the original");
    disk.put("target.md", "someone else's file");

    let mut cs = ChangeSet::new();
    cs.set_link("victim.md", "target.md");
    cs.write("doomed.md", "never lands");
    // The write that fails is the first one that is not of the journal.
    disk.run(&cs).unwrap_err();

    assert_eq!(disk.link_at("victim.md"), None, "the link must be gone");
    assert_eq!(disk.read("victim.md").as_deref(), Some("the original"));
    assert_eq!(
        disk.read("target.md").as_deref(),
        Some("someone else's file"),
        "nothing may be written through the link during rollback"
    );
}

#[test]
fn a_failed_set_repoints_a_link_it_had_repointed() {
    let mut disk = Disk::failing_at(0);
    disk.link("link.md", "old-target.md");

    let mut cs = ChangeSet::new();
    cs.set_link("link.md", "new-target.md");
    cs.write("doomed.md", "never lands");
    disk.run(&cs).unwrap_err();

    assert_eq!(disk.link_at("link.md").as_deref(), Some("old-target.md"));
}

#[test]
fn a_failed_set_removes_a_link_it_had_created() {
    let mut disk = Disk::failing_at(0);
    let mut cs = ChangeSet::new();
    cs.set_link("fresh.md", "anywhere.md");
    cs.write("doomed.md", "never lands");
    disk.run(&cs).unwrap_err();

    assert!(!disk.nodes.contains_key(&at("fresh.md")), "the created link must be gone");
}

#[test]
fn a_lone_link_takes_the_journal_rather_than_the_fast_path() {
    let mut disk = Disk::new();
    let mut cs = ChangeSet::new();
    cs.set_link("link.md", "target.md");
    disk.run(&cs).unwrap();

    let journaled = disk.events.iter().any(|e| matches!(e, Event::Write(w) if disk.owns(w)));
    assert!(journaled, "events: {:?}", disk.events);
}

#[test]
fn an_execute_flip_over_a_backend_with_no_bit_applies_as_nothing() {
    let mut disk = Disk::new();
    disk.bits = false;
    disk.put("doc.md", "hi");
    let mut cs = ChangeSet::new();
    cs.set_executable("doc.md", true);
    cs.write("other.md", "lands");
    disk.run(&cs).unwrap();
    assert_eq!(disk.read("other.md").as_deref(), Some("lands"));
}

#[test]
fn a_link_over_a_backend_without_links_unwinds_the_set() {
    let mut disk = Disk::new();
    disk.links = false;
    disk.put("before.md", "old");
    let mut cs = ChangeSet::new();
    cs.write("before.md", "new");
    cs.set_link("link.md", "target.md");
    let err = disk.run(&cs).unwrap_err();
    assert!(told(&err).contains("symbolic links"), "{err:?}");
    assert_eq!(
        disk.read("before.md").as_deref(),
        Some("old"),
        "the write that preceded the refused link must unwind"
    );
}

#[test]
fn a_failed_set_restores_a_link_a_write_replaced_as_a_link() {
    let mut disk = Disk::failing_at(1);
    disk.put("target.md", "the target");
    disk.link("link.md", "target.md");

    let mut cs = ChangeSet::new();
    cs.write("link.md", "replaces the link");
    cs.write("doomed.md", "never lands");
    disk.run(&cs).unwrap_err();

    assert_eq!(disk.link_at("link.md").as_deref(), Some("target.md"));
    assert_eq!(
        disk.read("target.md").as_deref(),
        Some("the target"),
        "the rollback must not have written through the link"
    );
}

#[test]
fn a_failed_set_restores_a_link_it_removed_as_a_link() {
    let mut disk = Disk::failing_at(0);
    disk.link("dangling.md", "nowhere.md");

    let mut cs = ChangeSet::new();
    cs.remove("dangling.md");
    cs.write("doomed.md", "never lands");
    disk.run(&cs).unwrap_err();

    assert_eq!(
        disk.link_at("dangling.md").as_deref(),
        Some("nowhere.md"),
        "the removed link must come back as the link it was"
    );
}

#[test]
fn the_execute_bit_is_refused_through_a_link_and_the_set_unwinds() {
    let mut disk = Disk::new();
    let victim = "/outside/victim.sh";
    disk.add_dirs("/outside");
    disk.nodes.insert(
        victim.to_string(),
        Node::File { bytes: b"#!/bin/sh".to_vec(), runnable: false, readable: true },
    );
    let before = disk.nodes[victim].clone();

    let mut cs = ChangeSet::new();
    cs.set_link("l", victim);
    cs.set_executable("l", true);
    let err = disk.run(&cs).unwrap_err();

    assert!(told(&err).contains("symbolic link"), "{err:?}");
    assert_eq!(disk.nodes[victim], before, "the referent must be untouched");
    assert!(
        !disk.nodes.contains_key(&at("l")),
        "the refused set must unwind the link it made"
    );
}

#[test]
fn a_set_of_renames_and_removes_is_flushed_before_the_journal_is_dropped() {
    let mut disk = Disk::new();
    disk.put("a.md", "a");
    disk.put("c.md", "c");
    let mut cs = ChangeSet::new();
    cs.rename("a.md", "sub/b.md");
    cs.remove("c.md");
    disk.run(&cs).unwrap();

    let journal = s(&Journal::default().path_in(&p(ROOT)));
    let jtmp = temp_sibling(&journal);
    assert_eq!(
        disk.events,
        vec![
            Event::Write(jtmp.clone()),
            Event::Sync(jtmp.clone(), Durability::Ordered),
            Event::Rename(jtmp, journal.clone()),
            Event::Sync(root(), Durability::Durable),
            Event::Rename(at("a.md"), at("sub/b.md")),
            Event::Remove(at("c.md")),
            Event::Sync(at("sub"), Durability::Pushed),
            Event::Sync(root(), Durability::Durable),
            Event::Remove(journal),
        ]
    );
}

#[test]
fn a_lone_rename_flushes_the_entries_it_edited() {
    let mut disk = Disk::new();
    disk.put("a.md", "a");
    let mut cs = ChangeSet::new();
    cs.rename("a.md", "b.md");
    disk.run(&cs).unwrap();

    assert_eq!(
        disk.events,
        vec![
            Event::Rename(at("a.md"), at("b.md")),
            Event::Sync(root(), Durability::Durable),
        ]
    );
}

#[test]
fn a_lone_write_pays_the_staging_flush_and_one_drain() {
    let mut disk = Disk::new();
    let mut cs = ChangeSet::new();
    cs.write("a.md", "a");
    disk.run(&cs).unwrap();

    let temp = temp_sibling(&at("a.md"));
    assert_eq!(
        disk.events,
        vec![
            Event::Write(temp.clone()),
            Event::Sync(temp.clone(), Durability::Ordered),
            Event::Rename(temp, at("a.md")),
            Event::Sync(root(), Durability::Durable),
        ]
    );
}

#[test]
fn a_lone_exec_flip_flushes_the_inode_it_edited() {
    let mut disk = Disk::new();
    disk.put("run.sh", "#!/bin/sh");
    let mut cs = ChangeSet::new();
    cs.set_executable("run.sh", true);
    disk.run(&cs).unwrap();

    assert_eq!(
        disk.events,
        vec![
            Event::SetExecutable(at("run.sh"), true),
            Event::Sync(at("run.sh"), Durability::Ordered),
            Event::Sync(root(), Durability::Durable),
        ]
    );
}

#[test]
fn an_abort_flushes_the_restored_state_and_durably_retires_the_journal() {
    let mut disk = Disk::failing_at(1);
    disk.put("existing.md", "before");
    let mut cs = ChangeSet::new();
    cs.write("existing.md", "after");
    cs.write("doomed.md", "never lands");
    let err = disk.run(&cs).unwrap_err();
    assert!(matches!(err, Error::Io(_)), "{err:?}");
    assert_eq!(disk.read("existing.md").as_deref(), Some("before"));

    let journal = s(&Journal::default().path_in(&p(ROOT)));
    let tail = &disk.events[disk.events.len() - 4..];
    assert_eq!(
        tail,
        &[
            Event::Sync(at("existing.md"), Durability::Ordered),
            Event::Sync(root(), Durability::Ordered),
            Event::Remove(journal),
            Event::Sync(root(), Durability::Durable),
        ],
        "events: {:?}",
        disk.events
    );
}

#[test]
fn many_writes_into_one_directory_cost_one_drain() {
    let mut disk = Disk::new();
    let mut cs = ChangeSet::new();
    cs.write("a.md", "a");
    cs.write("b.md", "b");
    cs.write("c.md", "c");
    cs.write("d.md", "d");
    disk.run(&cs).unwrap();

    let drains = disk.events.iter().filter(|e| is_drain(e)).count();
    assert_eq!(drains, 2, "events: {:?}", disk.events);
}

#[test]
fn a_flipped_bit_survives_its_name_being_renamed_away() {
    let mut disk = Disk::new();
    disk.put("z.sh", "#!/bin/sh");
    let mut cs = ChangeSet::new();
    cs.set_executable("z.sh", true);
    cs.rename("z.sh", "a.sh");
    disk.run(&cs).unwrap();

    assert!(disk.is_runnable("a.sh"));
    let journal = s(&Journal::default().path_in(&p(ROOT)));
    let jtmp = temp_sibling(&journal);
    assert_eq!(
        disk.events,
        vec![
            Event::Write(jtmp.clone()),
            Event::Sync(jtmp.clone(), Durability::Ordered),
            Event::Rename(jtmp, journal.clone()),
            Event::Sync(root(), Durability::Durable),
            Event::SetExecutable(at("z.sh"), true),
            Event::Sync(at("z.sh"), Durability::Ordered),
            Event::Rename(at("z.sh"), at("a.sh")),
            Event::Sync(root(), Durability::Durable),
            Event::Remove(journal),
        ]
    );
}

#[test]
fn an_abort_flushes_the_entry_a_restored_removal_recreates() {
    let mut disk = Disk::failing_at(0);
    disk.put("sub/gone.md", "kept after all");

    let mut cs = ChangeSet::new();
    cs.remove("sub/gone.md");
    cs.write("doomed.md", "never lands");
    disk.run(&cs).unwrap_err();

    assert_eq!(disk.read("sub/gone.md").as_deref(), Some("kept after all"));
    let entry_flushed = disk
        .events
        .iter()
        .position(|e| matches!(e, Event::Sync(w, _) if *w == at("sub")));
    let journal_retired = disk
        .events
        .iter()
        .rposition(|e| matches!(e, Event::Remove(w) if disk.owns(w)));
    match (entry_flushed, journal_retired) {
        (Some(flush), Some(retire)) => assert!(
            flush < retire,
            "the recreated entry must be flushed before the journal goes; events: {:?}",
            disk.events
        ),
        _ => panic!("expected a flush and a retirement; events: {:?}", disk.events),
    }
}

#[test]
fn a_failed_certification_rolls_the_set_back() {
    let mut disk = Disk::new();
    disk.put("existing.md", "before");
    // The first drain of the root is the journal's, the second certifies the set and fails, the
    // third is the abort's own.
    disk.fail_drain = Some((root(), 1));
    let mut cs = ChangeSet::new();
    cs.write("existing.md", "after");
    cs.write("fresh.md", "fresh");
    let err = disk.run(&cs).unwrap_err();

    assert!(matches!(err, Error::Io(_)), "a clean rollback: {err:?}");
    assert_eq!(disk.read("existing.md").as_deref(), Some("before"));
    assert_eq!(disk.read("fresh.md"), None);
    assert!(!disk.has_journal(), "the abort durably retired the journal");
}

#[test]
fn a_failed_rename_set_restores_the_file_the_rename_displaced() {
    let mut disk = Disk::failing_at(0);
    disk.put("a.md", "the mover");
    disk.put("b.md", "the victim");

    let mut cs = ChangeSet::new();
    cs.rename("a.md", "b.md");
    cs.write("doomed.md", "never lands");
    disk.run(&cs).unwrap_err();

    assert_eq!(disk.read("a.md").as_deref(), Some("the mover"));
    assert_eq!(disk.read("b.md").as_deref(), Some("the victim"));
}

#[test]
fn a_deep_chain_written_through_a_set_is_flushed_link_by_link() {
    let mut disk = Disk::new();
    let mut cs = ChangeSet::new();
    cs.write("deep/nested/a.md", "a");
    cs.write("b.md", "b");
    disk.run(&cs).unwrap();

    for dir in [root(), at("deep"), at("deep/nested")] {
        assert!(
            disk.events.iter().any(|e| matches!(e, Event::Sync(w, _) if *w == dir)),
            "{dir} never flushed; events: {:?}",
            disk.events
        );
    }
}

#[test]
fn a_clean_rollback_reports_the_cause_not_a_tear() {
    let mut disk = Disk::failing_at(1);
    disk.put("existing.md", "before");
    let mut cs = ChangeSet::new();
    cs.write("existing.md", "after");
    cs.write("brand-new.md", "never lands");
    let err = disk.run(&cs).unwrap_err();

    assert!(
        matches!(err, Error::Io(_)),
        "a clean rollback should surface the cause itself, got: {err:?}"
    );
    assert_eq!(disk.read("existing.md").as_deref(), Some("before"));
    assert_eq!(disk.read("brand-new.md"), None);
}

#[test]
fn a_failed_write_after_a_rename_moves_the_file_back() {
    let mut disk = Disk::failing_at(1);
    disk.put("a.md", "original");
    let mut cs = ChangeSet::new();
    cs.rename("a.md", "sub/a.md");
    cs.write("sub/a.md", "rewritten");
    cs.write("parent.md", "never gets here");
    let err = disk.run(&cs).unwrap_err();
    assert!(told(&err).contains("disk full"), "{err:?}");

    assert_eq!(disk.read("a.md").as_deref(), Some("original"));
    assert_eq!(disk.read("sub/a.md"), None);
}

#[test]
fn a_failed_write_restores_a_removed_file() {
    let mut disk = Disk::failing_at(0);
    disk.put("gone.md", "precious");
    let mut cs = ChangeSet::new();
    cs.remove("gone.md");
    cs.write("parent.md", "boom");
    let err = disk.run(&cs).unwrap_err();
    assert!(told(&err).contains("disk full"), "{err:?}");
    assert_eq!(disk.read("gone.md").as_deref(), Some("precious"));
}

#[test]
fn every_document_write_lands_atomically_and_leaves_no_temp_files() {
    let mut disk = Disk::new();
    disk.put("parent.md", "old parent");
    let mut cs = ChangeSet::new();
    cs.write("child.md", "child");
    cs.write("parent.md", "new parent");
    disk.run(&cs).unwrap();

    assert_eq!(disk.read("child.md").as_deref(), Some("child"));
    assert_eq!(disk.read("parent.md").as_deref(), Some("new parent"));
    for event in &disk.events {
        if let Event::Write(w) = event {
            assert!(w.contains("fstx-tmp"), "wrote a document non-atomically: {w}");
        }
    }
    assert!(
        disk.nodes.keys().all(|k| !k.contains("fstx-tmp")),
        "staging files survived: {:?}",
        disk.nodes
    );
}

#[test]
fn apply_journals_before_touching_documents_and_clears_it_after() {
    let mut disk = Disk::new();
    disk.put("parent.md", "old parent");
    let mut cs = ChangeSet::new();
    cs.write("child.md", "child");
    cs.write("parent.md", "new parent");
    disk.run(&cs).unwrap();

    let journal = s(&Journal::default().path_in(&p(ROOT)));
    let committed = disk
        .events
        .iter()
        .position(|e| matches!(e, Event::Rename(_, to) if *to == journal))
        .expect("journal must be committed");
    let first_doc_write = disk
        .events
        .iter()
        .position(|e| matches!(e, Event::Write(w) if !disk.owns(w)))
        .expect("a document must be written");
    assert!(
        committed < first_doc_write,
        "the journal must be durable before any document is touched"
    );
    assert_eq!(disk.events.last(), Some(&Event::Remove(journal)));
    assert!(!disk.has_journal());
}

#[test]
fn a_set_of_one_lands_without_a_journal_at_all() {
    let mut disk = Disk::new();
    disk.put("doc.md", "old");
    let mut cs = ChangeSet::new();
    cs.write("doc.md", "new");
    disk.run(&cs).unwrap();

    let (target, temp) = (at("doc.md"), at(".doc.md.fstx-tmp"));
    assert_eq!(disk.read("doc.md").as_deref(), Some("new"));
    assert_eq!(
        disk.events,
        vec![
            Event::Write(temp.clone()),
            Event::Sync(temp.clone(), Durability::Ordered),
            Event::Rename(temp, target),
            Event::Sync(root(), Durability::Durable),
        ],
        "a set of one must cost exactly one atomic write and nothing else"
    );
    assert!(!disk.has_journal());
}

#[test]
fn a_set_of_one_still_refuses_to_run_over_a_stale_journal() {
    let mut disk = Disk::new();
    disk.put("doc.md", "old");
    disk.put(".fstx-journal", "a previous change's intent");

    let mut cs = ChangeSet::new();
    cs.write("doc.md", "new");
    let err = disk.run(&cs).unwrap_err();

    assert!(matches!(err, Error::StaleJournal(_)), "got {err:?}");
    assert_eq!(
        disk.read("doc.md").as_deref(),
        Some("old"),
        "the refused write must not have happened"
    );
}

#[test]
fn a_set_of_one_does_not_read_the_file_it_is_about_to_replace() {
    let mut disk = Disk::new();
    disk.nodes.insert(
        at("doc.md"),
        Node::File { bytes: b"old".to_vec(), runnable: false, readable: false },
    );

    let mut cs = ChangeSet::new();
    cs.write("doc.md", "new");
    disk.run(&cs).expect("a write-only target is still replaceable");

    assert!(disk.reads.is_empty());
    assert_eq!(
        disk.nodes[&at("doc.md")],
        Node::File { bytes: b"new".to_vec(), runnable: false, readable: false },
        "replacing the contents must not have changed who may read it"
    );
}

#[test]
fn a_caught_error_reverts_and_leaves_no_journal_behind() {
    let mut disk = Disk::failing_at(1);
    disk.put("existing.md", "before");
    let mut cs = ChangeSet::new();
    cs.write("existing.md", "after");
    cs.write("brand-new.md", "never lands");
    let err = disk.run(&cs).unwrap_err();

    assert!(told(&err).contains("disk full"), "{err:?}");
    assert_eq!(disk.read("existing.md").as_deref(), Some("before"));
    assert_eq!(disk.read("brand-new.md"), None);
    assert!(
        !disk.has_journal(),
        "a cleanly-reverted change must not leave a journal to roll forward"
    );
}

#[test]
fn apply_refuses_a_path_that_escapes_the_root() {
    let mut disk = Disk::new();
    let mut cs = ChangeSet::new();
    cs.write("../escape.md", "should never land");
    let err = disk.run(&cs).unwrap_err();
    assert!(matches!(err, Error::Escape(_)), "expected Escape, got {err:?}");
    assert!(disk.nodes.is_empty());
    assert!(!disk.has_journal());
}

#[test]
fn apply_refuses_an_absolute_path() {
    let mut disk = Disk::new();
    let mut cs = ChangeSet::new();
    cs.write("/tmp/fstx-abs-escape-should-not-exist.md", "nope");
    let err = disk.run(&cs).unwrap_err();
    assert!(matches!(err, Error::Escape(_)), "expected Escape, got {err:?}");
}

#[test]
fn apply_refuses_to_clobber_a_stale_journal() {
    let mut disk = Disk::new();
    disk.put("doc.md", "before");
    disk.put(".fstx-journal", "prior");

    let mut cs = ChangeSet::new();
    cs.write("doc.md", "after");
    let err = disk.run(&cs).unwrap_err();
    assert!(matches!(err, Error::StaleJournal(_)), "expected StaleJournal, got {err:?}");
    assert_eq!(disk.read("doc.md").as_deref(), Some("before"));
    assert!(disk.has_journal());
}

#[test]
fn an_expectation_that_holds_lets_the_set_apply() {
    let mut disk = Disk::new();
    disk.put("doc.md", "as read");
    let mut cs = ChangeSet::new();
    cs.expect("doc.md", "as read");
    cs.write("doc.md", "rewritten");
    cs.write("index.md", "points at doc");
    disk.run(&cs).unwrap();
    assert_eq!(disk.read("doc.md").as_deref(), Some("rewritten"));
    assert_eq!(disk.read("index.md").as_deref(), Some("points at doc"));
}

#[test]
fn a_drifted_expectation_refuses_the_set_before_anything_is_written() {
    let mut disk = Disk::new();
    disk.put("doc.md", "someone else's edit");
    let mut cs = ChangeSet::new();
    cs.expect("doc.md", "as read");
    cs.write("doc.md", "rewritten");
    cs.write("index.md", "points at doc");
    let err = disk.run(&cs).unwrap_err();
    assert!(
        matches!(&err, Error::Drifted(path) if *path == p("doc.md")),
        "expected Drifted(doc.md), got {err:?}"
    );
    assert_eq!(disk.read("doc.md").as_deref(), Some("someone else's edit"));
    assert_eq!(disk.read("index.md"), None);
    assert!(!disk.has_journal());
}

#[test]
fn an_expectation_of_a_missing_file_is_drift_not_io() {
    let mut disk = Disk::new();
    let mut cs = ChangeSet::new();
    cs.expect("doc.md", "as read");
    cs.write("doc.md", "rewritten");
    let err = disk.run(&cs).unwrap_err();
    assert!(
        matches!(&err, Error::Drifted(path) if *path == p("doc.md")),
        "expected Drifted, got {err:?}"
    );
}

#[test]
fn an_expected_absence_is_drift_when_the_path_is_occupied() {
    let mut disk = Disk::new();
    disk.put("new.md", "raced you to it");
    let mut cs = ChangeSet::new();
    cs.expect_absent("new.md");
    cs.write("new.md", "mine");
    let err = disk.run(&cs).unwrap_err();
    assert!(
        matches!(&err, Error::Drifted(path) if *path == p("new.md")),
        "expected Drifted, got {err:?}"
    );
    assert_eq!(disk.read("new.md").as_deref(), Some("raced you to it"));
}

#[test]
fn a_dangling_link_counts_as_occupied_for_absence() {
    let mut disk = Disk::new();
    disk.link("new.md", "points-at-nothing.md");
    let mut cs = ChangeSet::new();
    cs.expect_absent("new.md");
    cs.write("new.md", "mine");
    let err = disk.run(&cs).unwrap_err();
    assert!(
        matches!(&err, Error::Drifted(path) if *path == p("new.md")),
        "expected Drifted, got {err:?}"
    );
}

#[test]
fn expectations_speak_of_the_tree_before_the_set_runs() {
    let mut disk = Disk::new();
    let mut cs = ChangeSet::new();
    cs.expect_absent("new.md");
    cs.write("new.md", "mine");
    cs.write("index.md", "names it");
    disk.run(&cs).unwrap();
    assert_eq!(disk.read("new.md").as_deref(), Some("mine"));

    let err = disk.run(&cs).unwrap_err();
    assert!(
        matches!(&err, Error::Drifted(path) if *path == p("new.md")),
        "expected Drifted on the second apply, got {err:?}"
    );
}

#[test]
fn a_lone_op_is_guarded_exactly_as_a_set_of_many() {
    let mut disk = Disk::new();
    disk.put("doc.md", "someone else's edit");
    let mut cs = ChangeSet::new();
    cs.expect("doc.md", "as read");
    cs.write("doc.md", "rewritten");
    assert_eq!(cs.len(), 1);
    let err = disk.run(&cs).unwrap_err();
    assert!(matches!(err, Error::Drifted(_)), "expected Drifted, got {err:?}");
    assert_eq!(disk.read("doc.md").as_deref(), Some("someone else's edit"));
}

#[test]
fn an_expectation_only_set_checks_without_writing() {
    let mut disk = Disk::new();
    disk.put("doc.md", "as read");
    let mut cs = ChangeSet::new();
    cs.expect("doc.md", "as read");
    assert!(!cs.is_empty(), "an expectation is staged state");
    disk.run(&cs).unwrap();

    disk.put("doc.md", "moved");
    let err = disk.run(&cs).unwrap_err();
    assert!(matches!(err, Error::Drifted(_)), "expected Drifted, got {err:?}");
    assert!(!disk.has_journal());
}

#[test]
fn a_stale_journal_wins_over_a_drifted_expectation() {
    let mut disk = Disk::new();
    disk.put("doc.md", "drifted");
    disk.put(".fstx-journal", "prior");
    let mut cs = ChangeSet::new();
    cs.expect("doc.md", "as read");
    cs.write("doc.md", "rewritten");
    let err = disk.run(&cs).unwrap_err();
    assert!(matches!(err, Error::StaleJournal(_)), "expected StaleJournal, got {err:?}");
}

#[test]
fn an_escaping_expectation_path_is_refused() {
    let mut disk = Disk::new();
    let mut cs = ChangeSet::new();
    cs.expect("../secret.md", "sniffed");
    cs.write("doc.md", "cover");
    let err = disk.run(&cs).unwrap_err();
    assert!(matches!(err, Error::Escape(_)), "expected Escape, got {err:?}");
    assert_eq!(disk.read("doc.md"), None);
}

#[test]
fn extend_carries_expectations_along() {
    let mut disk = Disk::new();
    disk.put("doc.md", "moved");
    let mut guarded = ChangeSet::new();
    guarded.expect("doc.md", "as read");
    guarded.write("doc.md", "rewritten");
    let mut cs = ChangeSet::new();
    cs.write("index.md", "names it");
    cs.extend(guarded);
    assert_eq!(cs.expected().len(), 1);
    let err = disk.run(&cs).unwrap_err();
    assert!(matches!(err, Error::Drifted(_)), "expected Drifted, got {err:?}");
    assert_eq!(disk.read("index.md"), None);
}

#[test]
fn staged_ops_are_readable_without_applying() {
    let disk = Disk::new();
    let mut cs = ChangeSet::new();
    cs.write("child.md", "child");
    cs.remove("old.md");
    assert_eq!(cs.len(), 2);
    assert_eq!(
        cs.ops().iter().map(FileOp::path).collect::<Vec<_>>(),
        [&p("child.md"), &p("old.md")]
    );
    assert_eq!(disk.read("child.md"), None);
}

#[test]
fn lands_every_tier_in_order() {
    let mut disk = Disk::new();
    let mut batch = OrderedBatch::new();
    batch.create_new("blobs/payload", "bytes");
    batch.barrier();
    batch.create_new("revisions/rev", "names the payload");
    batch.write("bookmark", "points at the revision");
    disk.run_batch(&batch, Durability::Durable).unwrap();

    assert_eq!(disk.read("blobs/payload").as_deref(), Some("bytes"));
    assert_eq!(disk.read("revisions/rev").as_deref(), Some("names the payload"));
    assert_eq!(disk.read("bookmark").as_deref(), Some("points at the revision"));
}

#[test]
fn flushes_each_tier_to_the_barrier_and_the_last_to_finality() {
    let mut disk = Disk::new();
    let mut batch = OrderedBatch::new();
    batch.create_new("blobs/a", "a");
    batch.barrier();
    batch.create_new("rev", "names a");
    disk.run_batch(&batch, Durability::Durable).unwrap();

    assert_eq!(
        disk.events,
        vec![
            Event::CreateNew(at("blobs/a")),
            Event::Sync(at("blobs/a"), Durability::Pushed),
            Event::Sync(at("blobs"), Durability::Pushed),
            Event::Sync(root(), Durability::Ordered),
            Event::CreateNew(at("rev")),
            Event::Sync(at("rev"), Durability::Pushed),
            Event::Sync(root(), Durability::Durable),
        ]
    );
}

#[test]
fn a_tier_costs_a_push_per_debt_and_one_barrier() {
    let mut disk = Disk::new();
    disk.add_dirs(&at("blobs"));
    disk.add_dirs(&at("ops"));
    let mut batch = OrderedBatch::new();
    for i in 0..5 {
        batch.create_new(format!("blobs/{i}"), "payload");
    }
    for i in 0..3 {
        batch.create_new(format!("ops/{i}"), "op");
    }
    batch.barrier();
    batch.create_new("rev", "names them all");
    disk.run_batch(&batch, Durability::Ordered).unwrap();

    let syncs = |need: Durability| -> Vec<String> {
        disk.events
            .iter()
            .filter_map(|e| match e {
                Event::Sync(w, n) if *n == need => Some(w.clone()),
                _ => None,
            })
            .collect()
    };
    assert_eq!(syncs(Durability::Pushed).len(), 11, "{:?}", disk.events);
    assert_eq!(syncs(Durability::Ordered), vec![root(), root()], "{:?}", disk.events);
    assert!(syncs(Durability::Durable).is_empty(), "{:?}", disk.events);
    let first_barrier = disk
        .events
        .iter()
        .position(|e| matches!(e, Event::Sync(_, Durability::Ordered)))
        .unwrap();
    let rev = disk
        .events
        .iter()
        .position(|e| matches!(e, Event::CreateNew(w) if *w == at("rev")))
        .unwrap();
    assert_eq!(first_barrier, 8 + 8 + 2, "{:?}", disk.events);
    assert_eq!(rev, first_barrier + 1, "{:?}", disk.events);
}

#[test]
fn a_pushed_finality_hands_the_last_tier_over_and_barriers_nothing() {
    let mut disk = Disk::new();
    let mut batch = OrderedBatch::new();
    batch.create_new("blobs/a", "a");
    batch.barrier();
    batch.create_new("blobs/b", "b");
    disk.run_batch(&batch, Durability::Pushed).unwrap();

    assert_eq!(
        disk.events,
        vec![
            Event::CreateNew(at("blobs/a")),
            Event::Sync(at("blobs/a"), Durability::Pushed),
            Event::Sync(at("blobs"), Durability::Pushed),
            Event::Sync(root(), Durability::Ordered),
            Event::CreateNew(at("blobs/b")),
            Event::Sync(at("blobs/b"), Durability::Pushed),
            Event::Sync(at("blobs"), Durability::Pushed),
        ]
    );
    assert_eq!(disk.read("blobs/b").as_deref(), Some("b"));
}

#[test]
fn a_freshly_minted_directory_chain_is_flushed_link_by_link() {
    let mut disk = Disk::new();
    let mut batch = OrderedBatch::new();
    batch.create_new("a/b/c/blob", "bytes");
    disk.run_batch(&batch, Durability::Durable).unwrap();

    for dir in [root(), at("a"), at("a/b"), at("a/b/c")] {
        assert!(
            disk.events.iter().any(|e| matches!(e, Event::Sync(w, _) if *w == dir)),
            "{dir} never flushed; events: {:?}",
            disk.events
        );
    }
    let drains: Vec<usize> = disk
        .events
        .iter()
        .enumerate()
        .filter(|(_, e)| is_drain(e))
        .map(|(i, _)| i)
        .collect();
    assert_eq!(drains.len(), 1, "events: {:?}", disk.events);
    assert_eq!(drains[0], disk.events.len() - 1, "events: {:?}", disk.events);
}

#[test]
fn an_ordered_finality_never_drains_the_device() {
    let mut disk = Disk::new();
    let mut batch = OrderedBatch::new();
    batch.create_new("blobs/a", "a");
    batch.barrier();
    batch.create_new("rev", "names a");
    batch.write("bookmark", "points at rev");
    disk.run_batch(&batch, Durability::Ordered).unwrap();

    assert!(disk.events.iter().all(|e| !is_drain(e)), "events: {:?}", disk.events);
}

#[test]
fn a_replaced_write_lands_through_the_backends_replace() {
    let mut disk = Disk::new();
    disk.put("bookmark", "old");
    let mut batch = OrderedBatch::new();
    batch.write("bookmark", "new");
    disk.run_batch(&batch, Durability::Durable).unwrap();

    let temp = temp_sibling(&at("bookmark"));
    assert_eq!(
        disk.events,
        vec![
            Event::Write(temp.clone()),
            Event::Sync(temp.clone(), Durability::Ordered),
            Event::Rename(temp, at("bookmark")),
            Event::Sync(root(), Durability::Durable),
        ]
    );
    assert_eq!(disk.read("bookmark").as_deref(), Some("new"));
}

#[test]
fn a_replaced_write_respects_a_backends_native_atomic_replace() {
    let mut disk = Disk::new();
    disk.put("bookmark", "old");
    let mut batch = OrderedBatch::new();
    batch.write("bookmark", "new");
    // The storage's own replacement is all that the batch asks for.
    let mut apply = batch.apply(&p(ROOT), true, Durability::Durable);
    let mut asked = Vec::new();
    while let Some(request) = apply.request() {
        asked.push(request.copy());
        apply = apply.resume(disk.perform(request, ""));
    }
    assert_eq!(apply.outcome(), Some(&Ok(())));
    assert_eq!(
        asked,
        vec![
            Request::CreateDirs(p(ROOT)),
            Request::Replace(p("/tree/bookmark"), b"new".to_vec()),
            Request::Sync(p(ROOT), Durability::Durable),
        ]
    );
    assert_eq!(disk.read("bookmark").as_deref(), Some("new"));
}

#[test]
fn an_error_leaves_a_consistent_prefix() {
    let mut disk = Disk::failing_at(1);
    let mut batch = OrderedBatch::new();
    batch.create_new("blobs/a", "a");
    batch.barrier();
    batch.create_new("rev", "never lands");
    batch.create_new("after", "never reached");
    let err = disk.run_batch(&batch, Durability::Durable).unwrap_err();
    assert!(told(&err).contains("disk full"), "{err:?}");

    assert_eq!(disk.read("blobs/a").as_deref(), Some("a"));
    assert_eq!(disk.read("rev"), None);
    assert_eq!(disk.read("after"), None);
    assert!(!disk.has_journal(), "an ordered batch must never plant a journal");
}

#[test]
fn an_occupied_create_surfaces_already_exists_and_stops() {
    let mut disk = Disk::new();
    disk.put("blobs/a", "already here");
    let mut batch = OrderedBatch::new();
    batch.create_new("blobs/a", "different bytes");
    batch.barrier();
    batch.create_new("rev", "never lands");
    let err = disk.run_batch(&batch, Durability::Durable).unwrap_err();
    match err {
        Error::Io(fault) => assert_eq!(fault.kind, FaultKind::AlreadyExists),
        other => panic!("expected Io(AlreadyExists), got {other:?}"),
    }
    assert_eq!(disk.read("blobs/a").as_deref(), Some("already here"));
    assert_eq!(disk.read("rev"), None);
}

#[test]
fn a_path_escaping_the_root_is_refused_before_anything_lands() {
    let mut disk = Disk::new();
    let mut batch = OrderedBatch::new();
    batch.create_new("fine", "fine");
    batch.barrier();
    batch.write("../outside", "never");
    let err = disk.run_batch(&batch, Durability::Durable).unwrap_err();
    assert!(matches!(err, Error::Escape(_)), "{err:?}");
    assert_eq!(
        disk.read("fine"),
        None,
        "the guard must run before the first tier, not between tiers"
    );
}

#[test]
fn barriers_at_the_edges_and_doubled_up_cost_nothing() {
    let mut batch = OrderedBatch::new();
    batch.barrier();
    batch.create_new("a", "a");
    batch.barrier();
    batch.barrier();
    batch.create_new("b", "b");
    batch.barrier();
    assert_eq!(batch.tiers().len(), 2);
    assert_eq!(batch.len(), 2);

    let mut disk = Disk::new();
    disk.run_batch(&batch, Durability::Durable).unwrap();
    assert_eq!(disk.read("a").as_deref(), Some("a"));
    assert_eq!(disk.read("b").as_deref(), Some("b"));
}

#[test]
fn an_empty_batch_applies_as_nothing() {
    let batch = OrderedBatch::new();
    assert!(batch.is_empty());
    let apply = batch.apply(&p("/nonexistent"), true, Durability::Durable);
    assert_eq!(apply.request(), None);
    assert_eq!(apply.outcome(), Some(&Ok(())));
}

#[test]
fn works_over_a_backend_that_cannot_flush_at_all() {
    let mut disk = Disk::new();
    let mut batch = OrderedBatch::new();
    batch.create_new("blobs/a", "a");
    batch.barrier();
    batch.create_new("rev", "names a");
    // Every flush is answered and does nothing.
    let mut apply = batch.apply(&p(ROOT), true, Durability::Durable);
    while let Some(request) = apply.request() {
        let reply = match request {
            Request::Sync(_, _) => Reply::Done,
            other => disk.perform(other, ""),
        };
        apply = apply.resume(reply);
    }
    assert_eq!(apply.outcome(), Some(&Ok(())));
    assert_eq!(disk.read("rev").as_deref(), Some("names a"));
}

/// A set with every kind of operation in it, and the tree that it is for.
fn varied() -> (ChangeSet, Disk) {
    let mut disk = Disk::new();
    disk.put("doc.md", "doc");
    disk.put("old.md", "old");
    disk.put("taken.md", "taken");
    disk.put("stale.md", "stale");
    disk.put("run.sh", "#!/bin/sh");
    disk.put("blob", "payload");
    disk.link("link.md", "doc.md");
    let mut cs = ChangeSet::new();
    cs.expect("doc.md", "doc");
    cs.expect_absent("new/file.md");
    cs.write("doc.md", "doc, rewritten");
    cs.write("new/file.md", "new");
    cs.rename("old.md", "taken.md");
    cs.remove("stale.md");
    cs.copy_from("link.md", "blob");
    cs.set_executable("run.sh", true);
    cs.set_link("run-too.sh", "run.sh");
    cs.set_link("blob", "elsewhere");
    (cs, disk)
}

/// The tree without the journal.
fn documents(disk: &Disk) -> BTreeMap<String, Node> {
    let mut nodes = disk.nodes.clone();
    nodes.remove(&disk.journal);
    nodes
}

/// What the tree of `varied` holds once everything has landed.
fn varied_landed(disk: &Disk) -> bool {
    disk.read("doc.md").as_deref() == Some("doc, rewritten")
        && disk.read("new/file.md").as_deref() == Some("new")
        && disk.read("old.md").is_none()
        && disk.read("taken.md").as_deref() == Some("old")
        && disk.read("stale.md").is_none()
        && disk.link_at("link.md").is_none()
        && disk.read("link.md").as_deref() == Some("payload")
        && disk.is_runnable("run.sh")
        && disk.link_at("run-too.sh").as_deref() == Some("run.sh")
        && disk.link_at("blob").as_deref() == Some("elsewhere")
}

#[test]
fn whatever_fails_all_or_nothing_lands() {
    for atomic in [true, false] {
        let mut failures = 0;
        let mut fail_at = 0;
        loop {
            let (cs, mut disk) = varied();
            disk.atomic = atomic;
            let before = documents(&disk);
            let mut apply = cs.apply(&p(ROOT), atomic);
            let mut n = 0;
            while let Some(request) = apply.request() {
                let reply = if n == fail_at {
                    fault(FaultKind::Other, "broken (test)")
                } else {
                    disk.perform(request, "the whole intent")
                };
                apply = apply.resume(reply);
                n += 1;
            }
            match apply.outcome().unwrap() {
                Ok(()) => {
                    assert!(varied_landed(&disk), "request {fail_at}: {:?}", disk.nodes);
                    assert!(!disk.has_journal());
                }
                Err(Error::Io(_)) => {
                    assert_eq!(documents(&disk), before, "request {fail_at}");
                    assert!(!disk.has_journal());
                    failures += 1;
                }
                Err(Error::Torn { .. }) => {
                    // Only the removal of the journal itself can fail here.
                    assert!(varied_landed(&disk));
                    assert!(disk.has_journal());
                }
                Err(other) => panic!("request {fail_at}: {other:?}"),
            }
            if fail_at >= n {
                break;
            }
            fail_at += 1;
        }
        assert!(failures > 20, "{failures}");
    }
}

#[test]
fn the_journal_stands_whenever_the_set_is_half_applied() {
    let (cs, mut disk) = varied();
    disk.fail_write = Some(2);
    let before = documents(&disk);
    let mut half = 0;
    let mut apply = cs.apply(&p(ROOT), true);
    while let Some(request) = apply.request() {
        let now = documents(&disk);
        if now != before {
            half += 1;
            assert_eq!(disk.read(".fstx-journal").as_deref(), Some("the whole intent"));
        }
        apply = apply.resume(disk.perform(request, "the whole intent"));
    }
    assert!(matches!(apply.outcome(), Some(Err(Error::Io(_)))));
    assert_eq!(documents(&disk), before);
    assert!(half > 0);
}

#[test]
fn every_application_comes_to_an_end() {
    // Whatever the answers are: here, every request that can be is refused in turn.
    for bits in 0..64u32 {
        let (cs, mut disk) = varied();
        let mut apply = cs.apply(&p(ROOT), true);
        let mut n = 0;
        while let Some(request) = apply.request() {
            let reply = if bits & (1 << (n % 6)) != 0 {
                fault(FaultKind::NotFound, "nothing (test)")
            } else {
                disk.perform(request, "")
            };
            apply = apply.resume(reply);
            n += 1;
            assert!(n < 200);
        }
        assert!(apply.outcome().is_some());
    }
}

#[test]
fn a_rollback_that_fails_is_torn_and_keeps_the_journal() {
    let mut disk = Disk::failing_at(1);
    disk.stuck.insert(at("fresh.md"));
    let mut cs = ChangeSet::new();
    cs.write("fresh.md", "fresh");
    cs.write("doomed.md", "never lands");
    let err = disk.run(&cs).unwrap_err();
    assert_eq!(
        err,
        Error::Torn {
            cause: b"disk full (test)".to_vec(),
            rollback: b"cannot remove (test)".to_vec(),
        }
    );
    assert_eq!(disk.read(".fstx-journal").as_deref(), Some("the whole intent"));
}

#[test]
fn a_rollback_goes_on_past_a_failure_and_reports_the_first() {
    let mut disk = Disk::failing_at(3);
    disk.put("kept.md", "before");
    disk.stuck.insert(at("one.md"));
    disk.stuck.insert(at("two.md"));
    let mut cs = ChangeSet::new();
    cs.write("kept.md", "after");
    cs.write("one.md", "1");
    cs.write("two.md", "2");
    cs.write("doomed.md", "never lands");
    let err = disk.run(&cs).unwrap_err();
    assert!(matches!(err, Error::Torn { .. }), "{err:?}");
    assert_eq!(disk.read("kept.md").as_deref(), Some("before"), "the rest is put back");
    assert!(disk.has_journal());
}

#[test]
fn a_journal_that_cannot_be_retired_is_torn_though_the_set_landed() {
    let mut disk = Disk::new();
    disk.stuck.insert(at(".fstx-journal"));
    let mut cs = ChangeSet::new();
    cs.write("a.md", "a");
    cs.write("b.md", "b");
    let err = disk.run(&cs).unwrap_err();
    assert_eq!(
        err,
        Error::Torn {
            cause: b"the set applied and was certified durable, but its journal could not be \
                     retired: cannot remove (test)"
                .to_vec(),
            rollback: b"the surviving journal will be replayed idempotently and cleared by the \
                        next recovery"
                .to_vec(),
        }
    );
    assert_eq!(disk.read("a.md").as_deref(), Some("a"));
    assert_eq!(disk.read("b.md").as_deref(), Some("b"));
    assert!(disk.has_journal());
}

#[test]
fn an_abort_that_cannot_be_certified_is_torn() {
    let mut disk = Disk::failing_at(1);
    disk.put("existing.md", "before");
    // The first drain of the root is the journal's, the second closes the abort.
    disk.fail_drain = Some((root(), 1));
    let mut cs = ChangeSet::new();
    cs.write("existing.md", "after");
    cs.write("doomed.md", "never lands");
    let err = disk.run(&cs).unwrap_err();
    assert_eq!(
        err,
        Error::Torn {
            cause: b"disk full (test)".to_vec(),
            rollback: b"cannot drain (test)".to_vec(),
        }
    );
    assert_eq!(disk.read("existing.md").as_deref(), Some("before"));
    assert!(!disk.has_journal());
}

#[test]
fn a_lone_write_whose_flush_fails_has_landed_all_the_same() {
    let mut disk = Disk::new();
    disk.fail_drain = Some((root(), 0));
    let mut cs = ChangeSet::new();
    cs.write("a.md", "a");
    let err = disk.run(&cs).unwrap_err();
    assert_eq!(told(&err), "cannot drain (test)");
    assert_eq!(disk.read("a.md").as_deref(), Some("a"));
}

#[test]
fn a_homed_journal_is_written_only_once_its_home_is_durable() {
    let mut disk = Disk::new();
    let journal = Journal { name: p(".app-journal"), home: Some(p("/cache/app")) };
    disk.journal = "/cache/app/.app-journal".to_string();
    let mut cs = ChangeSet::new();
    cs.write("a.md", "a");
    cs.write("b.md", "b");
    disk.run_journaled(&journal, &cs).unwrap();

    let jtmp = temp_sibling("/cache/app/.app-journal");
    assert_eq!(
        &disk.events[..6],
        &[
            Event::Sync("/cache/app".to_string(), Durability::Durable),
            Event::Sync("/cache".to_string(), Durability::Durable),
            Event::Sync(String::new(), Durability::Durable),
            Event::Write(jtmp.clone()),
            Event::Sync(jtmp.clone(), Durability::Ordered),
            Event::Rename(jtmp, "/cache/app/.app-journal".to_string()),
        ]
    );
    assert!(!disk.has_journal());
}

#[test]
fn the_abort_of_a_homed_set_drains_the_root_before_the_journal_goes() {
    let mut disk = Disk::failing_at(1);
    disk.put("existing.md", "before");
    disk.add_dirs("/cache");
    let journal = Journal { name: p(".app-journal"), home: Some(p("/cache")) };
    disk.journal = "/cache/.app-journal".to_string();
    let mut cs = ChangeSet::new();
    cs.write("existing.md", "after");
    cs.write("doomed.md", "never lands");
    disk.run_journaled(&journal, &cs).unwrap_err();

    let tail = &disk.events[disk.events.len() - 4..];
    assert_eq!(
        tail,
        &[
            Event::Sync(root(), Durability::Ordered),
            Event::Sync(root(), Durability::Durable),
            Event::Remove("/cache/.app-journal".to_string()),
            Event::Sync("/cache".to_string(), Durability::Durable),
        ]
    );
}

#[test]
fn a_storage_that_cannot_replace_in_one_step_journals_a_single_write() {
    let mut disk = Disk::new();
    disk.atomic = false;
    let mut cs = ChangeSet::new();
    cs.write("a.md", "a");
    disk.run(&cs).unwrap();

    assert_eq!(
        disk.events,
        vec![
            Event::Write(at(".fstx-journal")),
            Event::Sync(root(), Durability::Durable),
            Event::Write(at("a.md")),
            Event::Sync(at("a.md"), Durability::Ordered),
            Event::Sync(root(), Durability::Durable),
            Event::Remove(at(".fstx-journal")),
        ]
    );
}

#[test]
fn a_file_that_was_half_written_is_put_back() {
    let mut disk = Disk::failing_at(1);
    disk.atomic = false;
    disk.tears = true;
    disk.put("a.md", "whole a");
    disk.put("b.md", "whole b");
    let mut cs = ChangeSet::new();
    cs.write("a.md", "new a");
    cs.write("b.md", "new b");
    let err = disk.run(&cs).unwrap_err();
    assert_eq!(told(&err), "disk full (test)");
    assert_eq!(disk.read("a.md").as_deref(), Some("whole a"));
    assert_eq!(disk.read("b.md").as_deref(), Some("whole b"));
}

#[test]
fn a_directory_that_was_moved_is_moved_back_with_what_it_holds() {
    let mut disk = Disk::failing_at(1);
    disk.put("d/one.md", "1");
    disk.put("d/sub/two.md", "2");
    let before = documents(&disk);
    let mut cs = ChangeSet::new();
    cs.rename("d", "e");
    cs.write("e/one.md", "one, rewritten");
    cs.write("doomed.md", "never lands");
    disk.run(&cs).unwrap_err();
    assert_eq!(documents(&disk), before);
}

#[test]
fn a_runnable_file_that_gave_way_comes_back_runnable() {
    for runnable in [true, false] {
        for op in 0..3 {
            let mut disk = Disk::new();
            disk.nodes.insert(
                at("run.sh"),
                Node::File { bytes: b"#!/bin/sh".to_vec(), runnable, readable: true },
            );
            disk.put("other.sh", "other");
            let before = documents(&disk);
            let mut cs = ChangeSet::new();
            match op {
                0 => cs.remove("run.sh"),
                1 => cs.rename("other.sh", "run.sh"),
                _ => cs.set_link("run.sh", "other.sh"),
            };
            cs.remove("missing.md");
            disk.run(&cs).unwrap_err();
            assert_eq!(documents(&disk), before);
            assert_eq!(disk.is_runnable("run.sh"), runnable);
            assert!(!disk.has_journal());
        }
    }
}

#[test]
fn a_runnable_file_that_was_rewritten_keeps_its_bit() {
    for (fail_at, contents) in [(9, "new"), (1, "old")] {
        let mut disk = Disk::failing_at(fail_at);
        disk.nodes.insert(
            at("run.sh"),
            Node::File { bytes: b"old".to_vec(), runnable: true, readable: true },
        );
        let mut cs = ChangeSet::new();
        cs.write("run.sh", "new");
        cs.write("other.md", "other");
        let outcome = disk.run(&cs);
        assert_eq!(outcome.is_ok(), fail_at == 9);
        assert_eq!(disk.read("run.sh").as_deref(), Some(contents));
        assert!(disk.is_runnable("run.sh"));
    }
}

#[test]
fn removing_what_is_not_there_fails_and_unwinds() {
    let mut disk = Disk::new();
    disk.put("a.md", "old");
    let mut cs = ChangeSet::new();
    cs.write("a.md", "new");
    cs.remove("missing.md");
    let err = disk.run(&cs).unwrap_err();
    assert!(matches!(&err, Error::Io(f) if f.kind == FaultKind::NotFound), "{err:?}");
    assert_eq!(disk.read("a.md").as_deref(), Some("old"));
}

#[test]
fn a_directory_counts_as_occupied_for_absence() {
    let mut disk = Disk::new();
    disk.add_dirs(&at("new.md"));
    let mut cs = ChangeSet::new();
    cs.expect_absent("new.md");
    assert_eq!(disk.run(&cs), Err(Error::Drifted(p("new.md"))));
}

#[test]
fn the_first_expectation_that_does_not_hold_is_named() {
    let mut disk = Disk::new();
    disk.put("one.md", "1");
    disk.put("two.md", "2");
    let mut cs = ChangeSet::new();
    cs.expect("one.md", "1");
    cs.expect("two.md", "other");
    cs.expect_absent("one.md");
    assert_eq!(disk.run(&cs), Err(Error::Drifted(p("two.md"))));
    assert!(disk.events.is_empty());
}

#[test]
fn an_expectation_reads_through_a_link() {
    let mut disk = Disk::new();
    disk.put("doc.md", "as read");
    disk.link("link.md", "doc.md");
    let mut cs = ChangeSet::new();
    cs.expect("link.md", "as read");
    assert_eq!(disk.run(&cs), Ok(()));
}

#[test]
fn a_fault_while_comparing_is_told_as_it_is() {
    let mut disk = Disk::new();
    disk.add_dirs(&at("dir"));
    let mut cs = ChangeSet::new();
    cs.expect("dir", "bytes");
    let err = disk.run(&cs).unwrap_err();
    assert_eq!(told(&err), "is a directory");
}

#[test]
fn an_empty_set_asks_nothing() {
    let cs = ChangeSet::new();
    assert!(cs.is_empty());
    let apply = cs.apply(&p("/nonexistent"), true);
    assert_eq!(apply.request(), None);
    assert_eq!(apply.outcome(), Some(&Ok(())));
}

#[test]
fn a_reply_that_does_not_answer_changes_nothing() {
    let mut cs = ChangeSet::new();
    cs.write("a.md", "a");
    let apply = cs.apply(&p(ROOT), true);
    let asked = Request::Exists(p("/tree/.fstx-journal"));
    assert_eq!(apply.request(), Some(asked.copy()));
    let apply = apply.resume(Reply::Done);
    assert_eq!(apply.request(), Some(asked));
    let apply = apply.resume(Reply::Found(false));
    assert_eq!(apply.request(), Some(Request::CreateDirs(p(ROOT))));

    let mut batch = OrderedBatch::new();
    batch.write("a", "a");
    let apply = batch.apply(&p(ROOT), true, Durability::Ordered);
    let apply = apply.resume(Reply::Done);
    assert_eq!(apply.request(), Some(Request::CreateDirs(p(ROOT))));
}

#[test]
fn a_batch_over_a_storage_that_cannot_replace_hands_its_writes_over() {
    let mut disk = Disk::new();
    disk.atomic = false;
    let mut batch = OrderedBatch::new();
    batch.write("a", "a");
    disk.run_batch(&batch, Durability::Ordered).unwrap();
    assert_eq!(
        disk.events,
        vec![
            Event::Write(at("a")),
            Event::Sync(at("a"), Durability::Pushed),
            Event::Sync(root(), Durability::Ordered),
        ]
    );
}

#[test]
fn a_batch_stops_at_a_flush_that_fails() {
    let mut disk = Disk::new();
    disk.fail_drain = Some((root(), 0));
    let mut batch = OrderedBatch::new();
    batch.write("a", "a");
    let err = disk.run_batch(&batch, Durability::Durable).unwrap_err();
    assert_eq!(told(&err), "cannot drain (test)");
    assert_eq!(disk.read("a").as_deref(), Some("a"));
}

#[test]
fn a_runnable_file_is_made_runnable_before_it_is_flushed() {
    let mut disk = Disk::new();
    disk.nodes.insert(
        at("run.sh"),
        Node::File { bytes: b"#!/bin/sh".to_vec(), runnable: true, readable: true },
    );
    let mut cs = ChangeSet::new();
    cs.remove("run.sh");
    cs.remove("missing.md");
    disk.run(&cs).unwrap_err();
    let tail = &disk.events[disk.events.len() - 6..];
    assert_eq!(
        tail,
        &[
            Event::Write(at("run.sh")),
            Event::SetExecutable(at("run.sh"), true),
            Event::Sync(at("run.sh"), Durability::Ordered),
            Event::Sync(root(), Durability::Ordered),
            Event::Remove(at(".fstx-journal")),
            Event::Sync(root(), Durability::Durable),
        ]
    );
}

#[test]
fn a_journal_that_cannot_be_drained_is_taken_back() {
    for atomic in [true, false] {
        let mut disk = Disk::new();
        disk.atomic = atomic;
        disk.put("a.md", "old");
        disk.fail_drain = Some((root(), 0));
        let before = documents(&disk);
        let mut cs = ChangeSet::new();
        cs.write("a.md", "new");
        cs.write("b.md", "new");
        let err = disk.run(&cs).unwrap_err();
        assert!(matches!(err, Error::Io(_)), "{err:?}");
        assert_eq!(told(&err), "cannot drain (test)");
        assert_eq!(documents(&disk), before);
        assert!(!disk.has_journal());
        let tail = &disk.events[disk.events.len() - 2..];
        assert_eq!(
            tail,
            &[Event::Remove(at(".fstx-journal")), Event::Sync(root(), Durability::Durable)]
        );
        disk.run(&cs).unwrap();
        assert_eq!(disk.read("a.md").as_deref(), Some("new"));
    }
}

#[test]
fn a_journal_that_can_be_neither_drained_nor_taken_back_is_told() {
    let mut disk = Disk::new();
    disk.put("a.md", "old");
    disk.fail_drain = Some((root(), 0));
    disk.stuck.insert(at(".fstx-journal"));
    let mut cs = ChangeSet::new();
    cs.write("a.md", "new");
    cs.write("b.md", "new");
    let err = disk.run(&cs).unwrap_err();
    assert!(matches!(err, Error::Torn { .. }), "{err:?}");
    assert_eq!(disk.read("a.md").as_deref(), Some("old"));
    assert!(disk.has_journal());
}

#[test]
fn a_journal_that_was_never_put_need_not_be_taken_back() {
    let mut cs = ChangeSet::new();
    cs.write("a.md", "a").write("b.md", "b");
    let apply = cs.apply(&p(ROOT), true);
    let apply = apply.resume(Reply::Found(false));
    let apply = apply.resume(Reply::Bytes(b"ops".to_vec()));
    let journal = p("/tree/.fstx-journal");
    assert_eq!(apply.request(), Some(Request::WriteAtomic(journal.copy(), b"ops".to_vec())));
    let apply = apply.resume(fault(FaultKind::Other, "disk full"));
    assert_eq!(apply.request(), Some(Request::Remove(journal)));
    let apply = apply.resume(not_found());
    assert_eq!(apply.request(), Some(Request::Sync(p(ROOT), Durability::Durable)));
    let apply = apply.resume(Reply::Done);
    assert_eq!(
        apply.outcome(),
        Some(&Err(Error::Io(Fault {
            kind: FaultKind::Other,
            message: b"disk full".to_vec(),
        })))
    );
}

#[test]
fn a_directory_that_was_changed_is_flushed_before_it_is_moved() {
    let mut disk = Disk::new();
    disk.put("d/one.md", "1");
    disk.put("other/two.md", "2");
    let mut cs = ChangeSet::new();
    cs.write("d/one.md", "one");
    cs.write("other/two.md", "two");
    cs.rename("d", "sub/e");
    disk.run(&cs).unwrap();
    assert_eq!(disk.read("sub/e/one.md").as_deref(), Some("one"));

    let tail = &disk.events[disk.events.len() - 7..];
    assert_eq!(
        tail,
        &[
            Event::Sync(at("d"), Durability::Ordered),
            Event::Rename(at("d"), at("sub/e")),
            Event::Sync(at("d"), Durability::Pushed),
            Event::Sync(at("other"), Durability::Pushed),
            Event::Sync(at("sub"), Durability::Pushed),
            Event::Sync(root(), Durability::Durable),
            Event::Remove(at(".fstx-journal")),
        ]
    );
}

#[test]
fn a_directory_that_was_put_back_is_flushed_before_it_is_moved_back() {
    let mut disk = Disk::new();
    disk.put("d/one.md", "1");
    let before = documents(&disk);
    let mut cs = ChangeSet::new();
    cs.rename("d", "e");
    cs.write("e/one.md", "one");
    cs.remove("missing.md");
    disk.run(&cs).unwrap_err();
    assert_eq!(documents(&disk), before);

    let tail = &disk.events[disk.events.len() - 8..];
    assert_eq!(
        tail,
        &[
            Event::Write(at("e/one.md")),
            Event::Sync(at("e/one.md"), Durability::Ordered),
            Event::Sync(at("e"), Durability::Ordered),
            Event::Rename(at("e"), at("d")),
            Event::Sync(root(), Durability::Ordered),
            Event::Sync(at("e"), Durability::Ordered),
            Event::Remove(at(".fstx-journal")),
            Event::Sync(root(), Durability::Durable),
        ]
    );
}

#[test]
fn a_move_beside_what_was_changed_flushes_nothing() {
    let mut disk = Disk::new();
    disk.put("d/one.md", "1");
    let mut cs = ChangeSet::new();
    cs.write("d/one.md", "one");
    cs.rename("d/one.md", "two.md");
    disk.run(&cs).unwrap();
    let moved = disk
        .events
        .iter()
        .position(|e| *e == Event::Rename(at("d/one.md"), at("two.md")))
        .unwrap();
    assert!(matches!(disk.events[moved - 1], Event::Rename(_, _)));
}

#[test]
fn a_link_target_is_handed_on_as_it_was_given() {
    for target in ["dir/", "a//b", "a/./b", "./x", "/abs//y"] {
        let mut disk = Disk::new();
        let mut cs = ChangeSet::new();
        cs.set_link("l", target);
        disk.run(&cs).unwrap();
        assert_eq!(disk.link_at("l").as_deref(), Some(target));
    }
}

#[test]
fn a_link_that_gave_way_comes_back_as_it_was() {
    for target in ["dir/", "a//b", "a/./b"] {
        let mut disk = Disk::new();
        disk.link("l", target);
        let mut cs = ChangeSet::new();
        cs.write("l", "a file");
        cs.remove("missing.md");
        disk.run(&cs).unwrap_err();
        assert_eq!(disk.link_at("l").as_deref(), Some(target));
    }
}

#[test]
fn a_refusal_names_the_path_as_it_was_given() {
    let mut cs = ChangeSet::new();
    cs.write("..//out/", "x");
    match cs.apply(&p(ROOT), true).outcome() {
        Some(Err(Error::Escape(path))) => assert_eq!(s(path), "..//out/"),
        other => panic!("{other:?}"),
    }

    let mut cs = ChangeSet::new();
    cs.expect("sub//doc.md", "as read");
    let apply = cs.apply(&p("/tree/"), true);
    let apply = apply.resume(Reply::Found(false));
    match apply.request() {
        Some(Request::Read(path)) => assert_eq!(s(&path), "/tree/sub//doc.md"),
        other => panic!("{other:?}"),
    }
    let apply = apply.resume(not_found());
    match apply.outcome() {
        Some(Err(Error::Drifted(path))) => assert_eq!(s(path), "sub//doc.md"),
        other => panic!("{other:?}"),
    }

    let journal = Journal { name: p("./.mine"), home: Some(p("/cache//app/")) };
    let apply = journal.apply(&cs, &p(ROOT), true).resume(Reply::Found(true));
    match apply.outcome() {
        Some(Err(Error::StaleJournal(path))) => assert_eq!(s(path), "/cache//app/./.mine"),
        other => panic!("{other:?}"),
    }
}

#[test]
fn a_bit_that_cannot_be_told_stops_nothing() {
    let mut cs = ChangeSet::new();
    cs.remove("run.sh").remove("other.sh");
    let apply = cs.apply(&p(ROOT), true);
    let apply = apply.resume(Reply::Found(false));
    let apply = apply.resume(Reply::Bytes(b"ops".to_vec()));
    let apply = apply.resume(Reply::Done);
    assert_eq!(apply.request(), Some(Request::ReadLink(p("/tree/run.sh"))));
    let apply = apply.resume(fault(FaultKind::InvalidInput, "not a link"));
    let apply = apply.resume(Reply::Bytes(b"#!/bin/sh".to_vec()));
    assert_eq!(apply.request(), Some(Request::Executable(p("/tree/run.sh"))));
    let apply = apply.resume(fault(FaultKind::Other, "cannot say"));
    assert_eq!(apply.request(), Some(Request::Remove(p("/tree/run.sh"))));
    let apply = apply.resume(Reply::Done);
    assert_eq!(apply.request(), Some(Request::ReadLink(p("/tree/other.sh"))));
    let apply = apply.resume(not_found());
    let apply = apply.resume(not_found());
    assert_eq!(apply.request(), Some(Request::Write(p("/tree/run.sh"), b"#!/bin/sh".to_vec())));
    let apply = apply.resume(Reply::Done);
    assert_eq!(apply.request(), Some(Request::Sync(p("/tree/run.sh"), Durability::Ordered)));
}

#[test]
fn a_batch_that_is_cut_off_leaves_its_first_files() {
    let mut batch = OrderedBatch::new();
    batch.write("a", "a").write("b", "b").barrier().write("c", "c");
    let mut all = 0;
    for steps in 0..20 {
        let mut disk = Disk::new();
        let mut apply = batch.apply(&p(ROOT), true, Durability::Durable);
        for _ in 0..steps {
            if let Some(request) = apply.request() {
                let reply = disk.perform(request, "");
                apply = apply.resume(reply);
            }
        }
        let there: Vec<bool> = ["a", "b", "c"].iter().map(|f| disk.read(f).is_some()).collect();
        assert!(there[0] || !there[1]);
        assert!(there[1] || !there[2]);
        all += usize::from(there[2]);
    }
    assert!(all > 0);
}
