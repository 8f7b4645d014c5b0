use task_manager::report::{decimal_text, describe_process, join_texts, ProcessInfo};

fn info(image: Option<&str>) -> ProcessInfo {
    ProcessInfo {
        name: "notepad.exe".to_string(),
        command: vec!["notepad.exe".to_string(), "a.txt".to_string()],
        exe: Some("C:\\Windows\\notepad.exe".to_string()),
        cwd: None,
        memory: 20480,
        cpu_usage: "1.5".to_string(),
        status: "Run".to_string(),
        image_path: image.map(|s| s.to_string()),
    }
}

#[test]
fn report_lists_every_item() {
    let text = describe_process(&Some(info(Some("\\Device\\HarddiskVolume3\\Windows\\notepad.exe"))));
    assert_eq!(
        text,
        "Name: notepad.exe\nCommand: notepad.exe a.txt\nExecutable Path: C:\\Windows\\notepad.exe\nCurrent Working Directory: Unknown\nMemory Usage: 20480 KB\nCPU Usage: 1.5%\nStatus: Run\nFull Image Path: \\Device\\HarddiskVolume3\\Windows\\notepad.exe\n"
    );
}

#[test]
fn report_without_image_path_has_no_such_line() {
    let text = describe_process(&Some(info(None)));
    assert!(text.ends_with("Status: Run\n"));
    assert!(!text.contains("Full Image Path"));
}

#[test]
fn report_on_missing_process() {
    assert_eq!(describe_process(&None), "Process not found");
}

#[test]
fn decimal_text_writes_numbers() {
    assert_eq!(decimal_text(0), "0");
    assert_eq!(decimal_text(7), "7");
    assert_eq!(decimal_text(10), "10");
    assert_eq!(decimal_text(1234567890), "1234567890");
    assert_eq!(decimal_text(u64::MAX), "18446744073709551615");
}

#[test]
fn join_texts_puts_separator_between() {
    assert_eq!(join_texts(&vec![], " "), "");
    assert_eq!(join_texts(&vec!["a".to_string()], " "), "a");
    assert_eq!(join_texts(&vec!["a".to_string(), "".to_string(), "c".to_string()], ", "), "a, , c");
}
