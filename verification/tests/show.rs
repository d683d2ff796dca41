use proctree::config::Config;
use proctree::tree::modify::{cpuset, modifying, nice_target};
use proctree::tree::show::{affinity, backtrace, command, node_text, DebuggerRun};

#[test]
fn the_command_of_a_node() {
    let words = Some(vec![String::from("sleep"), String::from("10")]);
    assert_eq!(command(true, &words, "sleep"), "sleep 10");
    assert_eq!(command(false, &words, "sleep"), "sleep");
    assert_eq!(command(true, &None, "kthreadd"), "kthreadd");
    assert_eq!(command(false, &None, "kthreadd"), "kthreadd");
    assert_eq!(command(true, &Some(vec![]), "kworker"), "");
}

#[test]
fn the_text_of_a_node_without_payload() {
    assert_eq!(node_text(1, "init", ""), "1 init");
    assert_eq!(node_text(1, "init", " \n\t"), "1 init");
}

#[test]
fn the_text_of_a_node_with_payload() {
    assert_eq!(node_text(42, "sh", "[0, 1]"), "42 sh [0, 1]");
    assert_eq!(node_text(42, "sh -c ls", "10"), "42 sh -c ls 10");
}

#[test]
fn the_text_of_a_node_with_a_payload_of_several_lines() {
    assert_eq!(
        node_text(42, "sh", "#0 read\n#1 main\n"),
        "42 sh #0 read\n42 sh #1 main"
    );
    assert_eq!(node_text(42, "sh", "a\r\n\r\nb"), "42 sh a\n42 sh \n42 sh b");
}

#[test]
fn the_frames_of_a_backtrace() {
    let output = "[New LWP 7]\n#0  0x1 in read ()\nwarning: x\n#1  0x2 in main ()\n";
    let run = DebuggerRun::Done(String::from(output));
    assert_eq!(
        backtrace(7, "cat", &run, false),
        Ok(String::from("#0  0x1 in read ()\n#1  0x2 in main ()"))
    );
    assert_eq!(
        backtrace(7, "cat", &run, true),
        Ok(String::from(
            "[New LWP 7]\n#0  0x1 in read ()\nwarning: x\n#1  0x2 in main ()"
        ))
    );
}

#[test]
fn a_backtrace_without_frames() {
    let run = DebuggerRun::Done(String::from("nothing\n to see\n"));
    assert_eq!(backtrace(7, "cat", &run, false), Ok(String::new()));
    let run = DebuggerRun::Done(String::new());
    assert_eq!(backtrace(7, "cat", &run, true), Ok(String::new()));
}

#[test]
fn a_debugger_that_failed() {
    let run = DebuggerRun::Failed(String::from("ptrace: denied\nNo stack.\n"));
    assert_eq!(
        backtrace(7, "cat", &run, false),
        Err(String::from("7 cat  ptrace: denied No stack."))
    );
    let run = DebuggerRun::Failed(String::new());
    assert_eq!(backtrace(7, "cat", &run, true), Err(String::from("7 cat ")));
}

#[test]
fn a_debugger_that_did_not_start() {
    let run = DebuggerRun::NotStarted(String::from("No such file or directory"));
    assert_eq!(
        backtrace(7, "cat", &run, false),
        Err(String::from(
            "7 cat failed to run gdb: No such file or directory"
        ))
    );
}

#[test]
fn a_list_of_processors() {
    assert_eq!(affinity(&vec![]), "[]");
    assert_eq!(affinity(&vec![3]), "[3]");
    assert_eq!(affinity(&vec![0, 1, 12]), "[0, 1, 12]");
    let cpus = vec![0, 7, usize::MAX];
    assert_eq!(affinity(&cpus), format!("{:?}", cpus));
}

#[test]
fn the_processors_of_an_argument() {
    assert_eq!(cpuset("free", 4), Some(vec![0, 1, 2, 3]));
    assert_eq!(cpuset("free", 0), Some(vec![]));
    assert_eq!(cpuset("free", 1024).map(|cpus| cpus.len()), Some(1024));
    assert_eq!(cpuset("2", 4), Some(vec![2]));
    assert_eq!(cpuset("9", 4), Some(vec![9]));
    assert_eq!(cpuset("x", 4), None);
    assert_eq!(cpuset("-1", 4), None);
    assert_eq!(cpuset("", 4), None);
}

#[test]
fn the_process_of_a_niceness() {
    assert_eq!(nice_target(0), Ok(0));
    assert_eq!(nice_target(4711), Ok(4711));
    assert_eq!(nice_target(i32::MAX), Ok(2147483647));
    assert_eq!(nice_target(-1), Err(String::from("invalid process id: -1")));
}

#[test]
fn the_line_of_a_change() {
    assert_eq!(modifying(12, "bash"), "modifying process 12 bash");
}

#[test]
fn the_switches_of_a_run() {
    let config = Config {
        arguments: true,
        threads: false,
        verbose: true,
    };
    let copy = config;
    assert_eq!(copy, config);
    assert!(copy.arguments && !copy.threads && copy.verbose);
}
