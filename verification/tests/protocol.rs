//! Lines between processes, and the options of a command.

use classagent::json::Json;
use classagent::opts::command;
use classagent::opts::parse_opts;
use classagent::protocol::bad_line;
use classagent::protocol::read_line;
use classagent::protocol::shorten;
use classagent::protocol::write_line;

fn strings(v: &[&str]) -> Vec<String> {
    v.iter().map(|s| s.to_string()).collect()
}

#[test]
fn lines_are_read() {
    assert!(read_line("  \r\n").unwrap().is_none());
    let j = read_line("{\"a\":1}\r\n").unwrap().unwrap();
    assert_eq!(j.u64_at("a"), Some(1));
    let e = read_line("{ bad\n").unwrap_err();
    let own = serde_json::from_str::<serde_json::Value>("{ bad").unwrap_err().to_string();
    assert_eq!(e, format!("{own}; line={{ bad"));
    assert_eq!(bad_line("e", &"x".repeat(201)), format!("e; line={}…", "x".repeat(200)));
}

#[test]
fn lines_are_written_whole() {
    let j = Json::parse("{\"text\":\"一\\n二\"}").unwrap();
    let line = write_line(&j);
    assert!(line.ends_with('\n') && line.matches('\n').count() == 1);
    assert_eq!(read_line(&line).unwrap().unwrap().to_text(), j.to_text());
}

#[test]
fn text_is_shortened_by_characters() {
    assert_eq!(shorten("课堂观察", 4), "课堂观察");
    assert_eq!(shorten("课堂观察", 2), "课堂…");
    assert_eq!(shorten("", 0), "");
}

#[test]
fn options_follow_the_command() {
    let args = strings(&["export", "--lesson", "L1", "--allow-write", "--port", "80", "--port", "90"]);
    let (cmd, from) = command(&args);
    assert_eq!((cmd.as_str(), from), ("export", 1));
    let o = parse_opts(&args[from..]);
    assert_eq!(o.val("lesson"), Some("L1"));
    assert_eq!(o.num("port"), Some(90));
    assert_eq!(o.num("lesson"), None);
    assert!(o.flag("allow-write") && !o.flag("data"));
    assert_eq!(o.val("allow-write"), Some("1"));
    assert_eq!(command(&strings(&["--data", "d"])), ("run".to_string(), 0));
    assert_eq!(command(&vec![]), ("run".to_string(), 0));
}
