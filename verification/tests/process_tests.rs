use memlib::{filter_processes, name_from_wide, sort_processes, ProcessInfo};

fn p(pid: u32, name: &str) -> ProcessInfo {
    ProcessInfo { pid, name: name.to_string(), exe_path: String::new(), is_64bit: true }
}

#[test]
fn names_from_wide_buffers() {
    let mut buf = [0u16; 8];
    for (i, c) in "game.exe".encode_utf16().enumerate().take(7) {
        buf[i] = c;
    }
    assert_eq!(name_from_wide(&buf), "game.ex");
    let full: Vec<u16> = "ab".encode_utf16().collect();
    assert_eq!(name_from_wide(&full), "ab");
    assert_eq!(name_from_wide(&[0x61, 0xD800, 0x62, 0]), "a\u{FFFD}b");
    assert_eq!(name_from_wide(&[0xD83D, 0xDE00, 0x78, 0]), "\u{1F600}x");
    assert_eq!(name_from_wide(&[0xDE00, 0xD83D]), "\u{FFFD}\u{FFFD}");
}

#[test]
fn processes_sorted_by_folded_name_stably() {
    let list = vec![p(3, "zeta.exe"), p(1, "Alpha.exe"), p(2, "beta.exe"), p(4, "alpha.EXE"), p(5, "ALPHA.exe")];
    let sorted = sort_processes(list);
    let pids: Vec<u32> = sorted.iter().map(|x| x.pid).collect();
    assert_eq!(pids, vec![1, 4, 5, 2, 3]);
    assert!(sort_processes(vec![]).is_empty());
}

#[test]
fn filter_by_name_or_pid() {
    let list = vec![p(1234, "Game.exe"), p(99, "explorer.exe"), p(5, "notepad.exe")];
    let names = |v: Vec<ProcessInfo>| v.into_iter().map(|x| x.name).collect::<Vec<_>>();
    assert_eq!(names(filter_processes(&list, "")), vec!["Game.exe", "explorer.exe", "notepad.exe"]);
    assert_eq!(names(filter_processes(&list, "GAME")), vec!["Game.exe"]);
    assert_eq!(names(filter_processes(&list, "23")), vec!["Game.exe"]);
    assert_eq!(names(filter_processes(&list, "e.exe")), vec!["Game.exe"]);
    assert_eq!(names(filter_processes(&list, ".EXE")), vec!["Game.exe", "explorer.exe", "notepad.exe"]);
    assert_eq!(names(filter_processes(&list, "9")), vec!["explorer.exe"]);
    assert!(filter_processes(&list, "xyz").is_empty());
}
