use terra_wm::cli::{parse_args, Backend};

fn args(list: &[&str]) -> Vec<String> {
    list.iter().map(|s| s.to_string()).collect()
}

#[test]
fn winit_with_command() {
    let inv = parse_args(&args(&["--winit", "-c", "foot"]));
    assert_eq!(inv.backend, Backend::Winit);
    assert_eq!(inv.command, Some("foot".to_string()));
}

#[test]
fn first_command_wins() {
    let inv = parse_args(&args(&["--tty-udev", "x", "--command", "a b", "-c", "b"]));
    assert_eq!(inv.backend, Backend::TtyUdev);
    assert_eq!(inv.command, Some("a b".to_string()));
}

#[test]
fn unknown_backend_prints_usage() {
    let inv = parse_args(&args(&[]));
    assert_eq!(inv.backend, Backend::Usage);
    assert_eq!(inv.command, None);
    let inv = parse_args(&args(&["-c", "foot"]));
    assert_eq!(inv.backend, Backend::Usage);
    assert_eq!(inv.command, None);
}

#[test]
fn flag_without_value() {
    let inv = parse_args(&args(&["--winit", "-c"]));
    assert_eq!(inv.backend, Backend::Winit);
    assert_eq!(inv.command, None);
}
