use window_layout::args::{Args, Command, LogLevel};

#[test]
fn command_defaults_to_restore() {
    let args = Args::new(LogLevel::Info, "~/.layout.yaml".to_string(), None);
    assert_eq!(args.command(), Command::Restore);
}

#[test]
fn command_is_the_one_given() {
    let save = Args::new(LogLevel::Debug, "layout.yaml".to_string(), Some(Command::Save));
    assert_eq!(save.command(), Command::Save);
    let restore = Args::new(LogLevel::Off, "layout.yaml".to_string(), Some(Command::Restore));
    assert_eq!(restore.command(), Command::Restore);
}

#[test]
fn arguments_are_kept() {
    let args = Args::new(LogLevel::Trace, "/tmp/x.yaml".to_string(), Some(Command::Save));
    assert_eq!(args.log_level, LogLevel::Trace);
    assert_eq!(args.path, "/tmp/x.yaml");
    assert_eq!(args.command, Some(Command::Save));
}
