use std::cell::RefCell;

use proctree::tree::threads::{BuildError, ThreadEntry};
use proctree::tree::walk::failures;
use proctree::tree::{ProcessEntry, ProcessTree, Threads};
use proctree::util::pid::ProcessID;

fn entry(pid: i32, ppid: i32) -> ProcessEntry {
    ProcessEntry {
        pid: ProcessID(pid),
        ppid: ProcessID(ppid),
    }
}

fn thread(tid: i32) -> ThreadEntry {
    ThreadEntry {
        tid: ProcessID(tid),
        readable: true,
    }
}

fn lost(tid: i32) -> ThreadEntry {
    ThreadEntry {
        tid: ProcessID(tid),
        readable: false,
    }
}

/// The tree written with brackets: `1(2(4) 3)`.
fn written(tree: &ProcessTree) -> String {
    let mut s = format!("{}", tree.root.0);
    if !tree.children.is_empty() {
        let inner: Vec<String> = tree.children.iter().map(written).collect();
        s = format!("{}({})", s, inner.join(" "));
    }
    s
}

fn no_threads(_: ProcessID) -> Result<Vec<ThreadEntry>, String> {
    Ok(vec![])
}

fn chain() -> ProcessTree {
    ProcessTree::build(ProcessID(1), &vec![entry(2, 1), entry(3, 2)])
}

#[test]
fn tree_shape() {
    let (a, b, c, d) = (10, 20, 30, 40);
    let listing = vec![entry(b, a), entry(c, a), entry(d, b)];
    let tree = ProcessTree::build(ProcessID(a), &listing);
    assert_eq!(tree.root, ProcessID(a));
    assert_eq!(tree.children.len(), 2);
    assert_eq!(tree.children[0].root, ProcessID(b));
    assert_eq!(tree.children[1].root, ProcessID(c));
    assert_eq!(tree.children[0].children.len(), 1);
    assert_eq!(tree.children[0].children[0].root, ProcessID(d));
    assert!(tree.children[0].children[0].children.is_empty());
    assert!(tree.children[1].children.is_empty());
    assert_eq!(written(&tree), "10(20(40) 30)");
}

#[test]
fn tree_of_a_subtree_root() {
    let listing = vec![entry(20, 10), entry(30, 10), entry(40, 20)];
    assert_eq!(written(&ProcessTree::build(ProcessID(20), &listing)), "20(40)");
    assert_eq!(written(&ProcessTree::build(ProcessID(30), &listing)), "30");
}

#[test]
fn tree_of_a_leaf_process() {
    let tree = ProcessTree::build(ProcessID(7), &vec![entry(7, 1), entry(8, 1)]);
    assert_eq!(tree.root, ProcessID(7));
    assert!(tree.children.is_empty());
}

#[test]
fn tree_from_an_empty_listing() {
    let tree = ProcessTree::build(ProcessID(7), &vec![]);
    assert_eq!(written(&tree), "7");
}

#[test]
fn siblings_keep_the_order_of_the_listing() {
    let listing = vec![
        entry(9, 1),
        entry(50, 9),
        entry(3, 1),
        entry(40, 9),
        entry(5, 1),
        entry(60, 3),
    ];
    let tree = ProcessTree::build(ProcessID(1), &listing);
    assert_eq!(written(&tree), "1(9(50 40) 3(60) 5)");
}

#[test]
fn tree_of_the_kernel_root() {
    let listing = vec![entry(1, 0), entry(2, 0), entry(10, 1), entry(11, 2)];
    let tree = ProcessTree::build(ProcessID(0), &listing);
    assert_eq!(written(&tree), "0(1(10) 2(11))");
}

#[test]
fn a_cycle_in_the_listing_ends() {
    let listing = vec![entry(2, 1), entry(1, 2)];
    let tree = ProcessTree::build(ProcessID(1), &listing);
    assert_eq!(written(&tree), "1(2(1))");
}

#[test]
fn a_process_that_is_its_own_parent() {
    let tree = ProcessTree::build(ProcessID(5), &vec![entry(5, 5), entry(6, 5)]);
    assert_eq!(written(&tree), "5(5 6)");
}

#[test]
fn a_group_is_attached_once() {
    let listing = vec![entry(2, 1), entry(3, 1), entry(2, 3), entry(4, 2)];
    let tree = ProcessTree::build(ProcessID(1), &listing);
    assert_eq!(written(&tree), "1(2(4) 3(2))");
}

#[test]
fn a_deep_tree() {
    let mut listing = Vec::new();
    for pid in 2..=200 {
        listing.push(entry(pid, pid - 1));
    }
    let tree = ProcessTree::build(ProcessID(1), &listing);
    let mut node = &tree;
    let mut depth = 1;
    while let Some(child) = node.children.first() {
        assert_eq!(node.children.len(), 1);
        assert_eq!(child.root, ProcessID(depth + 1));
        node = child;
        depth += 1;
    }
    assert_eq!(depth, 200);
}

#[test]
fn a_tree_of_one_node() {
    let tree = ProcessTree::from(ProcessID(3));
    assert_eq!(tree.root, ProcessID(3));
    assert!(tree.children.is_empty());
}

#[test]
fn thread_expansion() {
    let (a, t1, t2) = (100, 101, 102);
    let list = |pid: ProcessID| -> Result<Vec<ThreadEntry>, String> {
        assert_eq!(pid, ProcessID(a));
        Ok(vec![thread(a), thread(t1), thread(t2)])
    };
    let tree = ProcessTree::new(
        a,
        true,
        Ok(vec![entry(a, 1), entry(999, 1)]),
        Threads(true),
        &list,
    )
    .unwrap();
    assert_eq!(tree.root, ProcessID(a));
    assert_eq!(tree.children.len(), 2);
    let mut leaves: Vec<i32> = tree.children.iter().map(|c| c.root.0).collect();
    leaves.sort();
    assert_eq!(leaves, vec![t1, t2]);
    assert!(tree.children.iter().all(|c| c.children.is_empty()));
}

#[test]
fn threads_stand_behind_the_children() {
    let list = |pid: ProcessID| -> Result<Vec<ThreadEntry>, String> {
        Ok(match pid.0 {
            1 => vec![thread(1), thread(11)],
            2 => vec![thread(21), thread(2), thread(22)],
            _ => vec![thread(pid.0)],
        })
    };
    let mut tree = ProcessTree::build(ProcessID(1), &vec![entry(2, 1), entry(3, 1), entry(4, 2)]);
    assert_eq!(tree.add_threads(&list).is_ok(), true);
    assert_eq!(written(&tree), "1(2(4 21 22) 3 11)");
}

#[test]
fn threads_are_listed_once_for_every_process() {
    let asked = RefCell::new(Vec::new());
    let list = |pid: ProcessID| -> Result<Vec<ThreadEntry>, String> {
        asked.borrow_mut().push(pid.0);
        Ok(vec![thread(pid.0), thread(pid.0 + 100)])
    };
    let mut tree = ProcessTree::build(ProcessID(1), &vec![entry(2, 1), entry(3, 1), entry(4, 2)]);
    assert!(tree.add_threads(&list).is_ok());
    let mut asked = asked.into_inner();
    asked.sort();
    assert_eq!(asked, vec![1, 2, 3, 4]);
    assert_eq!(written(&tree), "1(2(4(104) 102) 3(103) 101)");
}

#[test]
fn no_threads_without_the_switch() {
    let list = |_: ProcessID| -> Result<Vec<ThreadEntry>, String> {
        panic!("threads were not asked for")
    };
    let tree = ProcessTree::new(1, true, Ok(vec![entry(2, 1)]), Threads(false), &list).unwrap();
    assert_eq!(written(&tree), "1(2)");
}

#[test]
fn a_thread_that_cannot_be_looked_up() {
    let list = |pid: ProcessID| -> Result<Vec<ThreadEntry>, String> {
        Ok(match pid.0 {
            2 => vec![thread(2), thread(21), lost(22), lost(23)],
            _ => vec![],
        })
    };
    let error = ProcessTree::new(1, true, Ok(vec![entry(2, 1)]), Threads(true), &list).unwrap_err();
    match &error {
        BuildError::Thread { process, thread } => {
            assert_eq!(*process, ProcessID(2));
            assert_eq!(*thread, ProcessID(22));
        }
        other => panic!("unexpected error {:?}", other),
    }
    assert_eq!(
        error.message(),
        "adding threads to tree failed: reading thread 22 of process 2 failed"
    );
}

#[test]
fn the_process_itself_is_no_thread_to_look_up() {
    let list = |pid: ProcessID| -> Result<Vec<ThreadEntry>, String> {
        Ok(vec![lost(pid.0), thread(pid.0 + 1)])
    };
    let tree = ProcessTree::new(7, true, Ok(vec![]), Threads(true), &list).unwrap();
    assert_eq!(written(&tree), "7(8)");
}

#[test]
fn threads_that_cannot_be_listed() {
    let list = |pid: ProcessID| -> Result<Vec<ThreadEntry>, String> {
        if pid.0 == 3 {
            Err(String::from("permission denied"))
        } else {
            Ok(vec![])
        }
    };
    let error = ProcessTree::new(
        1,
        true,
        Ok(vec![entry(2, 1), entry(3, 2)]),
        Threads(true),
        &list,
    )
    .unwrap_err();
    match &error {
        BuildError::Threads { process, message } => {
            assert_eq!(*process, ProcessID(3));
            assert_eq!(message, "permission denied");
        }
        other => panic!("unexpected error {:?}", other),
    }
    assert_eq!(
        error.message(),
        "adding threads to tree failed: listing threads of process 3 failed: permission denied"
    );
}

#[test]
fn a_root_that_cannot_be_found() {
    let error = ProcessTree::new(
        4242,
        false,
        Ok(vec![entry(4242, 1)]),
        Threads(false),
        &no_threads,
    )
    .unwrap_err();
    assert!(matches!(error, BuildError::Root(ProcessID(4242))));
    assert_eq!(error.message(), "reading process 4242 failed");
}

#[test]
fn a_listing_that_cannot_be_read() {
    let error = ProcessTree::new(
        1,
        true,
        Err(String::from("no /proc")),
        Threads(true),
        &no_threads,
    )
    .unwrap_err();
    match &error {
        BuildError::Listing(message) => assert_eq!(message, "no /proc"),
        other => panic!("unexpected error {:?}", other),
    }
    assert_eq!(error.message(), "reading all processes failed: no /proc");
}

#[test]
fn a_missing_root_comes_before_a_missing_listing() {
    let error = ProcessTree::new(
        -5,
        false,
        Err(String::from("no /proc")),
        Threads(true),
        &no_threads,
    )
    .unwrap_err();
    assert_eq!(error.message(), "reading process -5 failed");
}

#[test]
fn modify_isolates_a_failing_node() {
    let changed = RefCell::new(Vec::new());
    let f = |pid: ProcessID| -> Result<(), String> {
        if pid.0 == 2 {
            Err(String::from("cannot change 2"))
        } else {
            changed.borrow_mut().push(pid.0);
            Ok(())
        }
    };
    let outcomes = chain().modify(&f);
    assert_eq!(changed.into_inner(), vec![1, 3]);
    assert_eq!(
        outcomes,
        vec![Ok(()), Err(String::from("cannot change 2")), Ok(())]
    );
    assert_eq!(failures(&outcomes), vec![String::from("cannot change 2")]);
}

#[test]
fn modify_walks_a_node_before_its_children() {
    let seen = RefCell::new(Vec::new());
    let f = |pid: ProcessID| -> Result<(), String> {
        seen.borrow_mut().push(pid.0);
        Err(format!("no {}", pid.0))
    };
    let listing = vec![
        entry(2, 1),
        entry(3, 1),
        entry(4, 2),
        entry(5, 2),
        entry(6, 3),
    ];
    let outcomes = ProcessTree::build(ProcessID(1), &listing).modify(&f);
    assert_eq!(seen.into_inner(), vec![1, 2, 4, 5, 3, 6]);
    assert_eq!(
        failures(&outcomes),
        vec!["no 1", "no 2", "no 4", "no 5", "no 3", "no 6"]
    );
}

#[test]
fn modify_without_failures_reports_nothing() {
    let outcomes = chain().modify(&|_: ProcessID| -> Result<(), String> { Ok(()) });
    assert_eq!(outcomes, vec![Ok(()), Ok(()), Ok(())]);
    assert!(failures(&outcomes).is_empty());
}

#[test]
fn render_isolates_a_failing_node() {
    let payload = |pid: ProcessID| -> Result<String, String> {
        if pid.0 == 2 {
            Err(String::from("2 is gone"))
        } else {
            Ok(format!("{} ok", pid.0))
        }
    };
    let text = chain().render(&payload);
    assert_eq!(text, "1 ok\n└── 2 is gone\n    └── 3 ok\n");
    let lines: Vec<&str> = text.lines().collect();
    assert_eq!(lines.len(), 3);
    assert!(lines[0].contains("1 ok"));
    assert!(lines[1].ends_with("2 is gone"));
    assert!(lines[2].contains("3 ok"));
}

#[test]
fn render_is_the_same_twice() {
    let payload = |pid: ProcessID| -> Result<String, String> {
        if pid.0 % 2 == 0 {
            Ok(format!("{} even\nsecond line", pid.0))
        } else {
            Err(format!("{} odd", pid.0))
        }
    };
    let listing = vec![entry(2, 1), entry(3, 1), entry(4, 2), entry(5, 4)];
    let tree = ProcessTree::build(ProcessID(1), &listing);
    let first = tree.render(&payload);
    let second = tree.render(&payload);
    assert_eq!(first.as_bytes(), second.as_bytes());
}

#[test]
fn render_draws_branches() {
    let payload = |pid: ProcessID| -> Result<String, String> { Ok(format!("{}", pid.0)) };
    let listing = vec![entry(2, 1), entry(3, 1), entry(4, 2), entry(5, 2), entry(6, 3)];
    let tree = ProcessTree::build(ProcessID(1), &listing);
    assert_eq!(
        tree.render(&payload),
        "1\n├── 2\n│   ├── 4\n│   └── 5\n└── 3\n    └── 6\n"
    );
}

#[test]
fn render_keeps_the_lines_of_a_node_together() {
    let payload = |pid: ProcessID| -> Result<String, String> {
        Ok(format!("{} #0 main\n{} #1 start", pid.0, pid.0))
    };
    let listing = vec![entry(2, 1), entry(3, 1)];
    let tree = ProcessTree::build(ProcessID(1), &listing);
    assert_eq!(
        tree.render(&payload),
        "1 #0 main\n1 #1 start\n├── 2 #0 main\n│   2 #1 start\n└── 3 #0 main\n    3 #1 start\n"
    );
}

#[test]
fn render_of_a_single_node() {
    let tree = ProcessTree::from(ProcessID(1));
    assert_eq!(
        tree.render(&|_: ProcessID| -> Result<String, String> { Ok(String::new()) }),
        "\n"
    );
}

#[test]
fn termtree_has_the_shape_of_the_tree() {
    let payload = |pid: ProcessID| -> Result<String, String> {
        if pid.0 == 3 {
            Err(String::from("three"))
        } else {
            Ok(format!("<{}>", pid.0))
        }
    };
    let listing = vec![entry(2, 1), entry(3, 1), entry(4, 2)];
    let drawn = ProcessTree::build(ProcessID(1), &listing).to_termtree(&payload);
    assert_eq!(drawn.root, "<1>");
    assert_eq!(drawn.leaves.len(), 2);
    assert_eq!(drawn.leaves[0].root, "<2>");
    assert_eq!(drawn.leaves[1].root, "three");
    assert_eq!(drawn.leaves[0].leaves.len(), 1);
    assert_eq!(drawn.leaves[0].leaves[0].root, "<4>");
    assert!(drawn.leaves[1].leaves.is_empty());
    assert_eq!(format!("{}", drawn), "<1>\n├── <2>\n│   └── <4>\n└── three\n");
}

#[test]
fn the_payload_is_asked_once_for_every_node() {
    let asked = RefCell::new(Vec::new());
    let payload = |pid: ProcessID| -> Result<String, String> {
        asked.borrow_mut().push(pid.0);
        Ok(String::new())
    };
    let listing = vec![entry(2, 1), entry(3, 1), entry(4, 2)];
    let _ = ProcessTree::build(ProcessID(1), &listing).to_termtree(&payload);
    assert_eq!(asked.into_inner(), vec![1, 2, 4, 3]);
}

#[test]
fn a_root_with_its_own_entry_alone() {
    let tree = ProcessTree::new(1, true, Ok(vec![entry(1, 0)]), Threads(false), &no_threads);
    assert_eq!(written(&tree.unwrap()), "1");
}

fn has_its_children(tree: &ProcessTree, listing: &Vec<ProcessEntry>) -> bool {
    let named: Vec<ProcessID> = listing
        .iter()
        .filter(|e| e.ppid == tree.root)
        .map(|e| e.pid)
        .collect();
    let found: Vec<ProcessID> = tree.children.iter().map(|c| c.root).collect();
    named == found && tree.children.iter().all(|c| has_its_children(c, listing))
}

#[test]
fn every_node_has_the_processes_that_name_it() {
    let listing = vec![
        entry(31, 7),
        entry(1, 0),
        entry(7, 1),
        entry(2, 0),
        entry(12, 2),
        entry(30, 7),
        entry(8, 1),
        entry(300, 30),
        entry(301, 30),
        entry(9, 1),
        entry(90, 9),
    ];
    for root in [0, 1, 2, 7, 8, 9, 30, 300, 4711] {
        let tree = ProcessTree::build(ProcessID(root), &listing);
        assert_eq!(tree.root, ProcessID(root));
        assert!(has_its_children(&tree, &listing), "tree of {}", root);
    }
    assert_eq!(
        written(&ProcessTree::build(ProcessID(1), &listing)),
        "1(7(31 30(300 301)) 8 9(90))"
    );
}

#[test]
fn a_root_met_again_below_has_no_children() {
    let listing = vec![entry(2, 1), entry(3, 2), entry(1, 3), entry(4, 1)];
    let tree = ProcessTree::build(ProcessID(1), &listing);
    assert_eq!(written(&tree), "1(2(3(1)) 4)");
}
