//! Paths, change sets, batches and what is asked of a storage, as values.

use fs_transaction::change::{guard_in_root, guard_ops};
use fs_transaction::exec::{capture_bit, capture_link, capture_read, Site};
use fs_transaction::flush::flush_all;
use fs_transaction::path_set::PathSet;
use fs_transaction::undo::Undo;
use fs_transaction::unwind::Unwind;
use fs_transaction::{
    BatchOp, ChangeSet, Component, Durability, Error, Expected, Fault, FaultKind, FileOp, Journal,
    OrderedBatch, Reply, Request, TreePath,
};

fn p(text: &str) -> TreePath {
    TreePath::new(text.as_bytes())
}

fn spelled(path: &TreePath) -> String {
    String::from_utf8(path.text()).unwrap()
}

fn fault(kind: FaultKind) -> Fault {
    Fault { kind, message: b"broken".to_vec() }
}

#[test]
fn a_path_is_read_piece_by_piece() {
    for (text, spelling) in [
        ("a/b", "a/b"),
        ("a//b/", "a/b"),
        ("a/./b/.", "a/b"),
        ("./a", "./a"),
        ("/", "/"),
        ("/a/../b", "/a/../b"),
        ("//a", "/a"),
        ("", ""),
        ("..", ".."),
        (".fstx-journal", ".fstx-journal"),
    ] {
        assert_eq!(p(text), p(spelling), "{text}");
        assert!(p(text).same(&p(spelling)), "{text}");
        assert_eq!(spelled(&p(text)), text);
        assert_eq!(spelled(&p(text).copy()), text);
    }
}

#[test]
fn a_path_is_joined_to_its_root() {
    for (base, rel, joined) in [
        ("/tree", "a/b", "/tree/a/b"),
        ("/tree", "./a", "/tree/./a"),
        ("/tree", "/etc", "/etc"),
        ("/tree", "", "/tree/"),
        ("/tree/", "a//b/", "/tree/a//b/"),
        ("/", "a", "/a"),
        ("", "a", "a"),
        ("tree", "../x", "tree/../x"),
    ] {
        assert_eq!(spelled(&p(base).join(&p(rel))), joined);
    }
    assert_eq!(p("/tree").join(&p("./a")), p("/tree/a"));
    assert_eq!(p("/tree").join(&p("")), p("/tree"));
}

#[test]
fn a_path_says_which_directory_holds_it() {
    assert_eq!(p("/tree/a").parent_dir(), Some(p("/tree")));
    assert_eq!(p("/a").parent_dir(), Some(p("/")));
    assert_eq!(p("a/b/c").parent_dir(), Some(p("a/b")));
    assert_eq!(p("a").parent_dir(), None);
    assert_eq!(p("/").parent_dir(), None);
    assert_eq!(p("").parent_dir(), None);
    for (path, dir) in [
        ("/tree//a/", "/tree"),
        ("/tree//x/./a", "/tree//x"),
        ("//a", "/"),
        ("a/./.b/", "a"),
        ("./a", "."),
        ("a/..", "a"),
        ("a/../..x", "a/.."),
    ] {
        assert_eq!(spelled(&p(path).parent_dir().unwrap()), dir, "{path}");
    }
}

#[test]
fn a_path_stays_inside_its_root_or_is_refused() {
    for text in ["a", "a/b", "", ".", "a/..", "a/../b", "a/b/../../c", "./a", "..a", "a..b/c"] {
        assert!(p(text).is_inside(), "{text}");
        assert_eq!(guard_in_root(&p(text)), Ok(()), "{text}");
    }
    for text in ["..", "../a", "a/../..", "a/../../b", "/", "/a", "./..", "a/../../a/b"] {
        assert!(!p(text).is_inside(), "{text}");
        assert_eq!(guard_in_root(&p(text)), Err(Error::Escape(p(text))), "{text}");
    }
}

#[test]
fn operations_are_judged_by_every_path_but_the_target_of_a_link() {
    let mut cs = ChangeSet::new();
    cs.set_link("inside", "/anywhere");
    cs.rename("a", "b");
    assert_eq!(guard_ops(cs.ops()), Ok(()));
    cs.rename("../a", "/b");
    cs.remove("..");
    assert_eq!(guard_ops(cs.ops()), Err(Error::Escape(p("../a"))));
    let mut cs = ChangeSet::new();
    cs.rename("a", "/b");
    assert_eq!(guard_ops(cs.ops()), Err(Error::Escape(p("/b"))));
    let mut cs = ChangeSet::new();
    cs.copy_from("a", "../b");
    assert_eq!(guard_ops(cs.ops()), Err(Error::Escape(p("../b"))));
    let mut cs = ChangeSet::new();
    cs.set_executable("../x", true);
    assert_eq!(guard_ops(cs.ops()), Err(Error::Escape(p("../x"))));
}

#[test]
fn paths_are_ordered_component_by_component() {
    let ordered = ["", "/", "/a", "/a/b", ".", "..", "a", "a/a", "a/b", "a-", "ab", "b"];
    for (i, a) in ordered.iter().enumerate() {
        for (j, b) in ordered.iter().enumerate() {
            assert_eq!(p(a).is_before(&p(b)), i < j, "{a} {b}");
            assert_eq!(p(a).same(&p(b)), i == j, "{a} {b}");
        }
    }
}

#[test]
fn a_set_of_paths_lists_each_once_and_in_order() {
    let mut set = PathSet::new();
    set.insert(p("b"));
    set.insert_all(vec![p("a/b"), p("c"), p("b")]);
    set.insert(p("a"));
    let listed: Vec<String> = set.paths().iter().map(spelled).collect();
    assert_eq!(listed, ["a", "a/b", "b", "c"]);
}

#[test]
fn many_paths_are_flushed_for_one_barrier() {
    let paths = vec![p("/t/a"), p("/t"), p("/t/b")];
    assert_eq!(
        flush_all(&paths, &p("/t"), Durability::Durable),
        vec![
            Request::Sync(p("/t/a"), Durability::Pushed),
            Request::Sync(p("/t/b"), Durability::Pushed),
            Request::Sync(p("/t"), Durability::Durable),
        ]
    );
    assert_eq!(
        flush_all(&paths, &p("/t"), Durability::Pushed),
        vec![
            Request::Sync(p("/t/a"), Durability::Pushed),
            Request::Sync(p("/t"), Durability::Pushed),
            Request::Sync(p("/t/b"), Durability::Pushed),
        ]
    );
    assert_eq!(
        flush_all(&vec![p("/t/a")], &p("/t"), Durability::Ordered),
        vec![
            Request::Sync(p("/t/a"), Durability::Pushed),
            Request::Sync(p("/t"), Durability::Ordered),
        ]
    );
    assert_eq!(flush_all(&Vec::new(), &p("/t"), Durability::Durable), vec![]);
}

#[test]
fn the_last_write_is_the_one_that_is_staged() {
    let mut cs = ChangeSet::new();
    cs.write("a", "first").write("b", "other").write("a", "second");
    cs.remove("b").copy_from("c", "a").rename("a", "d");
    assert_eq!(cs.staged(&p("a")), Some(b"second".as_slice()));
    assert_eq!(cs.staged(&p("b")), Some(b"other".as_slice()));
    assert_eq!(cs.staged(&p("c")), None);
    assert_eq!(cs.staged(&p("d")), None);
}

#[test]
fn a_chain_of_renames_is_followed_to_its_end() {
    let mut cs = ChangeSet::new();
    cs.rename("a", "b").rename("x", "y").rename("b", "c").rename("a", "z");
    assert_eq!(cs.renamed_to(&p("a")), Some(p("c")));
    assert_eq!(cs.renamed_to(&p("b")), Some(p("c")));
    assert_eq!(cs.renamed_to(&p("x")), Some(p("y")));
    assert_eq!(cs.renamed_to(&p("c")), None);
    let mut cs = ChangeSet::new();
    cs.rename("a", "b").rename("b", "a");
    assert_eq!(cs.renamed_to(&p("a")), None);
    assert_eq!(cs.renamed_to(&p("b")), Some(p("a")));
    let mut cs = ChangeSet::new();
    cs.rename("a.md", "a.md");
    assert_eq!(cs.renamed_to(&p("a.md")), None);
}

#[test]
fn a_change_set_holds_what_was_staged_in_order() {
    let mut cs = ChangeSet::new();
    assert!(cs.is_empty());
    cs.write("a", "1").rename("b", "c").remove("d").copy_from("e", "f");
    cs.set_executable("g", true).set_link("h", "i");
    cs.expect("j", "2").expect_absent("k");
    assert_eq!(
        cs.ops(),
        [
            FileOp::Write { path: p("a"), bytes: b"1".to_vec() },
            FileOp::Rename { from: p("b"), to: p("c") },
            FileOp::Remove { path: p("d") },
            FileOp::CopyFrom { path: p("e"), source: p("f") },
            FileOp::SetExecutable { path: p("g"), executable: true },
            FileOp::SetLink { path: p("h"), target: p("i") },
        ]
    );
    assert_eq!(
        cs.expected(),
        [(p("j"), Expected::Bytes(b"2".to_vec())), (p("k"), Expected::Absent)]
    );
    assert_eq!(cs.len(), 6);
    assert!(!cs.is_empty());
    let paths: Vec<String> = cs.ops().iter().map(|op| spelled(op.path())).collect();
    assert_eq!(paths, ["a", "c", "d", "e", "g", "h"]);
}

#[test]
fn a_set_takes_over_another_behind_its_own() {
    let mut first = ChangeSet::new();
    first.write("a", "1").expect("a", "0");
    let mut second = ChangeSet::new();
    second.write("b", "2").expect_absent("b");
    let mut both = ChangeSet::default();
    both.write("a", "1").write("b", "2").expect("a", "0").expect_absent("b");
    first.extend(second);
    assert_eq!(first, both);
}

#[test]
fn a_batch_is_staged_tier_by_tier() {
    let mut batch = OrderedBatch::new();
    assert!(batch.is_empty());
    assert_eq!(batch.tiers().len(), 0);
    batch.write("a", "1").create_new("b", "2").barrier().write("c", "3").barrier();
    assert_eq!(
        batch.tiers(),
        [
            vec![
                BatchOp::Write { path: p("a"), bytes: b"1".to_vec() },
                BatchOp::CreateNew { path: p("b"), bytes: b"2".to_vec() },
            ],
            vec![BatchOp::Write { path: p("c"), bytes: b"3".to_vec() }],
        ]
    );
    assert_eq!(batch.len(), 3);
    assert!(!batch.is_empty());
    assert_eq!(batch.tiers()[0][1].path(), &p("b"));
}

#[test]
fn a_batch_is_judged_before_its_first_tier() {
    let mut batch = OrderedBatch::default();
    batch.write("fine", "1").barrier().write("/etc", "2").write("../x", "3");
    let apply = batch.apply(&p("/t"), true, Durability::Durable);
    assert_eq!(apply.request(), None);
    assert_eq!(apply.outcome(), Some(&Err(Error::Escape(p("/etc")))));
}

#[test]
fn a_journal_lives_in_the_root_or_where_it_is_kept() {
    assert_eq!(Journal::default().path_in(&p("/t")), p("/t/.fstx-journal"));
    let kept = Journal { name: p(".mine"), home: Some(p("/cache")) };
    assert_eq!(kept.path_in(&p("/t")), p("/cache/.mine"));
}

#[test]
fn each_request_has_its_form_of_answer() {
    let a = p("a");
    let failed: Reply = Reply::Failed(fault(FaultKind::Other));
    let forms: Vec<(Request, Reply)> = vec![
        (Request::Exists(a.copy()), Reply::Found(true)),
        (Request::Read(a.copy()), Reply::Bytes(vec![1])),
        (Request::ReadLink(a.copy()), Reply::Link(None)),
        (Request::Executable(a.copy()), Reply::Executable(Some(true))),
        (Request::CreateDirs(a.copy()), Reply::Made(vec![])),
        (Request::Remove(a.copy()), Reply::Done),
    ];
    for (i, (request, _)) in forms.iter().enumerate() {
        assert!(request.is_answered_by(&failed));
        assert_eq!(&request.copy(), request);
        for (j, (_, reply)) in forms.iter().enumerate() {
            assert_eq!(request.is_answered_by(reply), i == j, "{request:?} {reply:?}");
        }
    }
    assert!(Request::<TreePath, Vec<u8>>::Encode.is_answered_by(&Reply::Bytes(vec![])));
    for request in [
        Request::Write(a.copy(), vec![]),
        Request::Replace(a.copy(), vec![]),
        Request::WriteAtomic(a.copy(), vec![]),
        Request::CreateNew(a.copy(), vec![]),
        Request::Rename(a.copy(), a.copy()),
        Request::SetExecutable(a.copy(), true),
        Request::SetLink(a.copy(), a.copy()),
        Request::Sync(a.copy(), Durability::Ordered),
    ] {
        assert!(request.is_answered_by(&Reply::Done));
        assert!(!request.is_answered_by(&Reply::Found(true)));
        assert_eq!(request.copy(), request);
    }
}

#[test]
fn what_gives_way_is_recorded_as_what_it_was() {
    let site = Site { root: p("/t"), atomic: true, recording: true };
    let write = FileOp::Write { path: p("a"), bytes: vec![] };
    let remove: FileOp = FileOp::Remove { path: p("a") };
    let link: FileOp = FileOp::SetLink { path: p("a"), target: p("b") };
    let full = p("/t/a");
    let relink = Undo::Relink { path: full.copy(), target: p("x") };
    let delete = Undo::Delete { path: full.copy() };

    for op in [&write, &remove, &link] {
        assert_eq!(capture_link(&site, op, Ok(Some(p("x")))), Some(Some(relink.clone())));
    }
    assert_eq!(capture_link(&site, &write, Ok(None)), None);
    assert_eq!(capture_link(&site, &link, Ok(None)), Some(None));
    let gone = || Err(fault(FaultKind::NotFound));
    assert_eq!(capture_link(&site, &write, gone()), Some(Some(delete.clone())));
    assert_eq!(capture_link(&site, &link, gone()), Some(Some(delete.clone())));
    assert_eq!(capture_link(&site, &remove, gone()), None);
    let no_link = Err(fault(FaultKind::InvalidInput));
    assert_eq!(capture_link(&site, &write, no_link), None);

    let bytes = b"held".to_vec();
    assert_eq!(
        capture_read(&site, &write, &Ok(bytes.clone())),
        Ok(Some(Undo::Restore { path: full.copy(), bytes: bytes.clone(), bit: None }))
    );
    for op in [&remove, &link] {
        assert_eq!(capture_read(&site, op, &Ok(bytes.clone())), Ok(None));
    }
    assert_eq!(
        capture_bit(&site, &remove, bytes.clone(), Some(true)),
        Undo::Restore { path: full.copy(), bytes: bytes.clone(), bit: Some(true) }
    );
    assert_eq!(
        capture_bit(&site, &link, bytes.clone(), None),
        Undo::RestoreOverLink { path: full.copy(), bytes, bit: None }
    );
    let gone = Err(fault(FaultKind::NotFound));
    assert_eq!(capture_read(&site, &write, &gone), Ok(Some(delete)));
    assert_eq!(capture_read(&site, &remove, &gone), Err(fault(FaultKind::NotFound)));
    assert_eq!(capture_read(&site, &link, &gone), Err(fault(FaultKind::NotFound)));
    let broken = Err(fault(FaultKind::Other));
    assert_eq!(capture_read(&site, &write, &broken), Err(fault(FaultKind::Other)));
}

#[test]
fn reversals_are_made_last_first_and_then_certified() {
    let mut unwind = Unwind::new(vec![
        Undo::RestoreOverLink { path: p("/t/x/a"), bytes: b"a".to_vec(), bit: Some(false) },
        Undo::Restore { path: p("/t/w"), bytes: b"w".to_vec(), bit: None },
        Undo::Rename { from: p("/t/c"), to: p("/t/y/b") },
        Undo::SetExecutable { path: p("/t/z/d"), executable: true },
    ]);
    let mut asked = Vec::new();
    while unwind.is_pending() {
        let request = unwind.request();
        let reply = match &request {
            Request::Remove(_) => Reply::Failed(fault(FaultKind::NotFound)),
            _ => Reply::Done,
        };
        asked.push(request);
        unwind = unwind.resume(reply);
    }
    assert_eq!(
        asked,
        vec![
            Request::SetExecutable(p("/t/z/d"), true),
            Request::Sync(p("/t/z/d"), Durability::Ordered),
            Request::Rename(p("/t/c"), p("/t/y/b")),
            Request::Write(p("/t/w"), b"w".to_vec()),
            Request::Sync(p("/t/w"), Durability::Ordered),
            Request::Remove(p("/t/x/a")),
            Request::Write(p("/t/x/a"), b"a".to_vec()),
            Request::SetExecutable(p("/t/x/a"), false),
            Request::Sync(p("/t/x/a"), Durability::Ordered),
        ]
    );
    assert_eq!(
        unwind.finish(&p("/t"), &p("/t/.j")),
        Ok(vec![
            Request::Sync(p("/t"), Durability::Ordered),
            Request::Sync(p("/t/x"), Durability::Ordered),
            Request::Sync(p("/t/y"), Durability::Ordered),
            Request::Remove(p("/t/.j")),
            Request::Sync(p("/t"), Durability::Durable),
        ])
    );
}

#[test]
fn components_can_be_told_apart() {
    assert_ne!(
        Component::Normal(b"a".to_vec()),
        Component::Normal(b"b".to_vec())
    );
    assert_ne!(Component::<Vec<u8>>::CurDir, Component::ParentDir);
    assert_eq!(fault(FaultKind::Other).copy(), fault(FaultKind::Other));
}

#[test]
fn a_path_lies_below_another_by_its_names() {
    for (path, top, below) in [
        ("/t/d", "/t/d", true),
        ("/t/d/x", "/t/d", true),
        ("/t/dx", "/t/d", false),
        ("/t", "/t/d", false),
        ("/t/a/../d/x", "/t/./d", true),
        ("/t/d/../e", "/t/d", false),
        ("../x/y", "../x", true),
        ("../../x", "../x", false),
        ("t/d", "/t", false),
        ("/../t/d", "/t", true),
        ("a", "d/..", true),
    ] {
        assert_eq!(p(path).lies_below(&p(top)), below, "{path} below {top}");
    }
}

#[test]
fn what_is_staged_keeps_its_text() {
    let mut cs = ChangeSet::new();
    cs.write("a//b/", "1").set_link("l", "dir/").expect("a/./b", "0");
    assert_eq!(spelled(cs.ops()[0].path()), "a//b/");
    assert!(matches!(&cs.ops()[1], FileOp::SetLink { target, .. } if spelled(target) == "dir/"));
    assert_eq!(spelled(&cs.expected()[0].0), "a/./b");
    assert_eq!(cs.staged(&p("a/b")), Some(&b"1"[..]));
    cs.rename("x//y", "z/");
    assert_eq!(cs.renamed_to(&p("x/y")).map(|to| spelled(&to)), Some("z/".to_string()));
    match guard_in_root(&p("..//a/")) {
        Err(Error::Escape(path)) => assert_eq!(spelled(&path), "..//a/"),
        other => panic!("{other:?}"),
    }
}

#[test]
fn a_set_keeps_the_first_of_paths_that_are_the_same() {
    let mut set = PathSet::new();
    set.insert_all(vec![p("a//b"), p("a/b"), p("a/b/.")]);
    let listed: Vec<String> = set.paths().iter().map(spelled).collect();
    assert_eq!(listed, ["a//b"]);
}
