use proctree::cli::is_pid;

#[test]
fn pid() {
    assert!(is_pid("x").is_err());

    assert!(is_pid("0").is_err());

    assert_eq!(is_pid("1"), Ok(1));

    let pid_max = procfs::sys::kernel::pid_max().unwrap();
    let too_high = format!("{}", pid_max + 1);

    assert!(is_pid(&too_high).is_err());
}
