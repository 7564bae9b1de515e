use minicp::answer::answer_is_yes;
use minicp::copy::{copy_node, Notice};
use minicp::driver::run_invocation;
use minicp::fs_model::{Entry, Node};
use minicp::invoke::{exit_code, plan_invocation, Options, Plan, SourceKind};

fn file(data: &[u8]) -> Node {
    Node::File { data: data.to_vec() }
}

fn dir(entries: Vec<(&str, Node)>) -> Node {
    Node::Dir {
        entries: entries
            .into_iter()
            .map(|(n, node)| Entry { name: n.as_bytes().to_vec(), node })
            .collect(),
    }
}

fn path(parts: &[&str]) -> Vec<Vec<u8>> {
    parts.iter().map(|p| p.as_bytes().to_vec()).collect()
}

fn lines(ls: &[&str]) -> Vec<Vec<u8>> {
    ls.iter().map(|l| l.as_bytes().to_vec()).collect()
}

fn opts(recursive: bool, verbose: bool, interactive: bool) -> Options {
    Options { recursive, verbose, interactive }
}

#[test]
fn copy_file_to_new_path_preserves_bytes() {
    let src = file(b"hi");
    let r = copy_node(
        &src,
        None,
        &opts(false, false, false),
        &lines(&[]),
        0,
        &path(&["a"]),
        &path(&["b"]),
    );
    assert_eq!(r.result.unwrap(), file(b"hi"));
    assert_eq!(r.next_answer, 0);
    assert!(r.log.is_empty());
}

#[test]
fn copy_chain_is_identity() {
    for content in [&b"hi"[..], &b""[..], &[0u8, 255, 7, 10][..]] {
        let a = file(content);
        let o = opts(false, false, false);
        let answers = lines(&[]);
        let b = copy_node(&a, None, &o, &answers, 0, &path(&["a"]), &path(&["b"]))
            .result
            .unwrap();
        let c = copy_node(&b, None, &o, &answers, 0, &path(&["b"]), &path(&["c"]))
            .result
            .unwrap();
        assert_eq!(c, a);
    }
}

#[test]
fn recursive_copy_mirrors_tree() {
    let src = dir(vec![
        ("x.txt", file(b"hi")),
        ("sub", dir(vec![("y.txt", file(b"bye"))])),
    ]);
    let r = copy_node(
        &src,
        None,
        &opts(true, false, false),
        &lines(&[]),
        0,
        &path(&["a"]),
        &path(&["b"]),
    );
    assert_eq!(r.result.unwrap(), src);
}

#[test]
fn merge_keeps_destination_only_entries() {
    let src = dir(vec![
        ("x.txt", file(b"new")),
        ("sub", dir(vec![("y.txt", file(b"bye"))])),
    ]);
    let dest = dir(vec![("x.txt", file(b"old")), ("z.txt", file(b"keep"))]);
    let r = copy_node(
        &src,
        Some(&dest),
        &opts(true, false, false),
        &lines(&[]),
        0,
        &path(&["a"]),
        &path(&["b"]),
    );
    let expected = dir(vec![
        ("x.txt", file(b"new")),
        ("z.txt", file(b"keep")),
        ("sub", dir(vec![("y.txt", file(b"bye"))])),
    ]);
    assert_eq!(r.result.unwrap(), expected);
}

#[test]
fn decline_keeps_destination() {
    let src = file(b"new");
    let dest = file(b"OLD");
    let r = copy_node(
        &src,
        Some(&dest),
        &opts(false, false, true),
        &lines(&["n"]),
        0,
        &path(&["a"]),
        &path(&["b"]),
    );
    assert_eq!(r.result.unwrap(), file(b"OLD"));
    assert_eq!(r.next_answer, 1);
    assert_eq!(
        r.log,
        vec![Notice::NotOverwriting { dest: path(&["b"]) }]
    );
}

#[test]
fn decline_on_end_of_input() {
    let src = file(b"new");
    let dest = file(b"OLD");
    let r = copy_node(
        &src,
        Some(&dest),
        &opts(false, false, true),
        &lines(&[]),
        0,
        &path(&["a"]),
        &path(&["b"]),
    );
    assert_eq!(r.result.unwrap(), file(b"OLD"));
    assert_eq!(r.next_answer, 0);
}

#[test]
fn confirm_overwrites() {
    for answer in ["y", "Y", " y ", "Y\n", "\ty\n"] {
        let src = file(b"new");
        let dest = file(b"OLD");
        let r = copy_node(
            &src,
            Some(&dest),
            &opts(false, false, true),
            &lines(&[answer]),
            0,
            &path(&["a"]),
            &path(&["b"]),
        );
        assert_eq!(r.result.unwrap(), file(b"new"), "answer {:?}", answer);
        assert_eq!(r.next_answer, 1);
        assert!(r.log.is_empty());
    }
}

#[test]
fn other_answers_decline() {
    for answer in ["yes", "", "n", "N", "Y es", "yy"] {
        let src = file(b"new");
        let dest = file(b"OLD");
        let r = copy_node(
            &src,
            Some(&dest),
            &opts(false, false, true),
            &lines(&[answer]),
            0,
            &path(&["a"]),
            &path(&["b"]),
        );
        assert_eq!(r.result.unwrap(), file(b"OLD"), "answer {:?}", answer);
    }
}

#[test]
fn answer_recognition() {
    for yes in ["y", "Y", " y\n", "\t Y \r\n"] {
        assert!(answer_is_yes(&yes.as_bytes().to_vec()), "answer {:?}", yes);
    }
    for no in ["", " ", "yes", "n", "N", "x", "y y", "what"] {
        assert!(!answer_is_yes(&no.as_bytes().to_vec()), "answer {:?}", no);
    }
}

#[test]
fn plan_covers_every_invocation() {
    assert_eq!(
        plan_invocation(SourceKind::Missing, false),
        Plan::RejectMissingSource
    );
    assert_eq!(
        plan_invocation(SourceKind::Missing, true),
        Plan::RejectMissingSource
    );
    assert_eq!(
        plan_invocation(SourceKind::Directory, false),
        Plan::RejectDirectoryNotRecursive
    );
    assert_eq!(plan_invocation(SourceKind::Directory, true), Plan::CopyTree);
    assert_eq!(
        plan_invocation(SourceKind::Regular, false),
        Plan::CopySingleFile
    );
    assert_eq!(
        plan_invocation(SourceKind::Regular, true),
        Plan::CopySingleFile
    );
}

#[test]
fn exit_codes() {
    assert_eq!(exit_code(true), 0);
    assert_eq!(exit_code(false), 1);
}

#[test]
fn missing_source_rejected_without_mutation() {
    let dest = dir(vec![("kept.txt", file(b"data"))]);
    let r = run_invocation(
        None,
        Some(&dest),
        &opts(false, true, true),
        &lines(&["y"]),
        &path(&["gone"]),
        &path(&["b"]),
    );
    assert_eq!(r.exit, 1);
    assert_eq!(r.dest_after.unwrap(), dest);
    assert!(r.log.is_empty());
    assert_eq!(r.next_answer, 0);
}

#[test]
fn directory_source_without_flag_rejected_without_mutation() {
    let src = dir(vec![("x.txt", file(b"hi"))]);
    let dest = file(b"keep");
    let r = run_invocation(
        Some(&src),
        Some(&dest),
        &opts(false, true, true),
        &lines(&["y"]),
        &path(&["a"]),
        &path(&["b"]),
    );
    assert_eq!(r.exit, 1);
    assert_eq!(r.dest_after.unwrap(), file(b"keep"));
    assert!(r.log.is_empty());
    assert_eq!(r.next_answer, 0);
}

#[test]
fn scenario_recursive_verbose() {
    let src = dir(vec![
        ("x.txt", file(b"hi")),
        ("sub", dir(vec![("y.txt", file(b"bye"))])),
    ]);
    let r = run_invocation(
        Some(&src),
        None,
        &opts(true, true, false),
        &lines(&[]),
        &path(&["a"]),
        &path(&["b"]),
    );
    assert_eq!(r.exit, 0);
    assert_eq!(r.dest_after.unwrap(), src);
    let expected_log = vec![
        Notice::CopiedFile { src: path(&["a", "x.txt"]), dest: path(&["b", "x.txt"]) },
        Notice::CopiedFile {
            src: path(&["a", "sub", "y.txt"]),
            dest: path(&["b", "sub", "y.txt"]),
        },
        Notice::CopiedDir { src: path(&["a", "sub"]), dest: path(&["b", "sub"]) },
        Notice::CopiedDir { src: path(&["a"]), dest: path(&["b"]) },
    ];
    assert_eq!(r.log, expected_log);
}

#[test]
fn file_onto_directory_fails() {
    let src = file(b"hi");
    let dest = dir(vec![]);
    let r = copy_node(
        &src,
        Some(&dest),
        &opts(false, false, false),
        &lines(&[]),
        0,
        &path(&["a"]),
        &path(&["b"]),
    );
    let e = r.result.unwrap_err();
    assert_eq!(e.source, path(&["a"]));
    assert_eq!(e.dest, path(&["b"]));
}

#[test]
fn directory_onto_file_fails() {
    let src = dir(vec![("x.txt", file(b"hi"))]);
    let dest = file(b"block");
    let r = copy_node(
        &src,
        Some(&dest),
        &opts(true, false, false),
        &lines(&[]),
        0,
        &path(&["a"]),
        &path(&["b"]),
    );
    assert!(r.result.is_err());
}

#[test]
fn nested_conflict_fails_run() {
    let src = dir(vec![("x", dir(vec![("y.txt", file(b"hi"))]))]);
    let dest = dir(vec![("x", file(b"block"))]);
    let r = run_invocation(
        Some(&src),
        Some(&dest),
        &opts(true, false, false),
        &lines(&[]),
        &path(&["a"]),
        &path(&["b"]),
    );
    assert_eq!(r.exit, 1);
    assert!(r.dest_after.is_none());
}

#[test]
fn interactive_skip_inside_tree() {
    let src = dir(vec![("x.txt", file(b"new")), ("w.txt", file(b"fresh"))]);
    let dest = dir(vec![("x.txt", file(b"OLD"))]);
    let r = copy_node(
        &src,
        Some(&dest),
        &opts(true, false, true),
        &lines(&["n"]),
        0,
        &path(&["a"]),
        &path(&["b"]),
    );
    let expected = dir(vec![("x.txt", file(b"OLD")), ("w.txt", file(b"fresh"))]);
    assert_eq!(r.result.unwrap(), expected);
    assert_eq!(r.next_answer, 1);
    assert_eq!(
        r.log,
        vec![Notice::NotOverwriting { dest: path(&["b", "x.txt"]) }]
    );
}

#[test]
fn verbose_file_copy_notice() {
    let src = file(b"hi");
    let r = copy_node(
        &src,
        None,
        &opts(false, true, false),
        &lines(&[]),
        0,
        &path(&["a"]),
        &path(&["b"]),
    );
    assert!(r.result.is_ok());
    assert_eq!(
        r.log,
        vec![Notice::CopiedFile { src: path(&["a"]), dest: path(&["b"]) }]
    );
}

#[test]
fn empty_directory_copies_with_notice() {
    let src = dir(vec![]);
    let r = copy_node(
        &src,
        None,
        &opts(true, true, false),
        &lines(&[]),
        0,
        &path(&["a"]),
        &path(&["b"]),
    );
    assert_eq!(r.result.unwrap(), dir(vec![]));
    assert_eq!(
        r.log,
        vec![Notice::CopiedDir { src: path(&["a"]), dest: path(&["b"]) }]
    );
}

#[test]
fn deep_tree_mirrors_with_empty_file() {
    let src = dir(vec![(
        "one",
        dir(vec![(
            "two",
            dir(vec![("empty.bin", file(b"")), ("data.bin", file(&[1, 2, 3]))]),
        )]),
    )]);
    let r = copy_node(
        &src,
        None,
        &opts(true, false, false),
        &lines(&[]),
        0,
        &path(&["a"]),
        &path(&["b"]),
    );
    assert_eq!(r.result.unwrap(), src);
}

#[test]
fn prompts_consume_answers_in_order() {
    let src = dir(vec![("a.txt", file(b"new-a")), ("b.txt", file(b"new-b"))]);
    let dest = dir(vec![("a.txt", file(b"old-a")), ("b.txt", file(b"old-b"))]);
    let r = copy_node(
        &src,
        Some(&dest),
        &opts(true, false, true),
        &lines(&["n", "y"]),
        0,
        &path(&["s"]),
        &path(&["d"]),
    );
    let expected = dir(vec![("a.txt", file(b"old-a")), ("b.txt", file(b"new-b"))]);
    assert_eq!(r.result.unwrap(), expected);
    assert_eq!(r.next_answer, 2);
}

#[test]
fn answers_running_out_declines_the_rest() {
    let src = dir(vec![("a.txt", file(b"new-a")), ("b.txt", file(b"new-b"))]);
    let dest = dir(vec![("a.txt", file(b"old-a")), ("b.txt", file(b"old-b"))]);
    let r = copy_node(
        &src,
        Some(&dest),
        &opts(true, false, true),
        &lines(&["y"]),
        0,
        &path(&["s"]),
        &path(&["d"]),
    );
    let expected = dir(vec![("a.txt", file(b"new-a")), ("b.txt", file(b"old-b"))]);
    assert_eq!(r.result.unwrap(), expected);
    assert_eq!(r.next_answer, 1);
}

#[test]
fn declined_single_file_run_still_succeeds() {
    let src = file(b"new");
    let dest = file(b"OLD");
    let r = run_invocation(
        Some(&src),
        Some(&dest),
        &opts(false, false, true),
        &lines(&["no"]),
        &path(&["a"]),
        &path(&["b"]),
    );
    assert_eq!(r.exit, 0);
    assert_eq!(r.dest_after.unwrap(), file(b"OLD"));
}

#[test]
fn overwrite_on_confirm_inside_tree() {
    let src = dir(vec![("x.txt", file(b"Y-content"))]);
    let dest = dir(vec![("x.txt", file(b"X-content"))]);
    let r = copy_node(
        &src,
        Some(&dest),
        &opts(true, false, true),
        &lines(&["y"]),
        0,
        &path(&["a"]),
        &path(&["b"]),
    );
    assert_eq!(r.result.unwrap(), dir(vec![("x.txt", file(b"Y-content"))]));
}
