use xmux::process::{can_cut_stat, foreground_pgid, process_name, shell_name};

#[test]
fn foreground_pgid_reads_the_sixth_field_after_the_name() {
    let stat = "1234 (bash) S 1000 1234 1234 34816 5678 4194304 1000 0 0 0";
    assert!(can_cut_stat(stat));
    assert_eq!(foreground_pgid(stat), Some(5678));
}

#[test]
fn foreground_pgid_handles_spaces_in_the_name() {
    let stat = "77 (my prog) R 1 77 77 0 91 0";
    assert_eq!(foreground_pgid(stat), Some(91));
}

#[test]
fn foreground_pgid_none_cases() {
    assert_eq!(foreground_pgid("no bracket here"), None);
    assert_eq!(foreground_pgid("1 (sh) S 1 2 3"), None);
    assert_eq!(foreground_pgid("1 (sh) S 1 2 3 4 0 9"), None);
    assert_eq!(foreground_pgid("1 (sh) S 1 2 3 4 -1 9"), None);
    assert_eq!(foreground_pgid("1 (sh) S 1 2 3 4 4294967296 9"), None);
    assert_eq!(foreground_pgid("1 (sh) S 1 2 3 4 +42 9"), Some(42));
}

#[test]
fn stat_lines_that_cannot_be_cut() {
    assert!(!can_cut_stat("1 (sh)"));
    assert!(!can_cut_stat("1 (sh)\u{e9} S"));
    assert!(can_cut_stat("no bracket"));
}

#[test]
fn shell_name_is_the_last_path_component() {
    assert_eq!(shell_name("/bin/zsh"), "zsh");
    assert_eq!(shell_name("/usr/local/bin/fish"), "fish");
    assert_eq!(shell_name("bash"), "bash");
    assert_eq!(shell_name("/bin/"), "");
}

#[test]
fn process_name_is_trimmed() {
    assert_eq!(process_name("vim\n"), "vim");
    assert_eq!(process_name("  top \t\n"), "top");
}
