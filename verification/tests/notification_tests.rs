use xmux::event::AppEvent;
use xmux::notification::{
    message_event, notification_line, notify_target, number_members, parse_notify_args, socket_path_from, NotifyArgs,
};

fn args(v: &[&str]) -> Vec<String> {
    v.iter().map(|s| s.to_string()).collect()
}

#[test]
fn notify_options_are_read() {
    let a = parse_notify_args(&args(&["--title", "Build", "--body", "done", "--window", "2", "--pane", "7"]));
    assert_eq!(a.title, "Build");
    assert_eq!(a.body, "done");
    assert_eq!(a.window, Some(2));
    assert_eq!(a.pane, Some(7));
}

#[test]
fn notify_options_skip_unknown_and_missing_values() {
    let a = parse_notify_args(&args(&["extra", "--title", "A", "--title", "B", "--window", "x", "--body"]));
    assert_eq!(a.title, "B");
    assert_eq!(a.body, "");
    assert_eq!(a.window, None);
    assert_eq!(a.pane, None);
}

#[test]
fn notify_target_falls_back_on_the_environment() {
    let a = NotifyArgs { title: "t".to_string(), body: String::new(), window: None, pane: None };
    let t = notify_target(a, Some("3".to_string()), Some("12".to_string())).unwrap();
    assert_eq!(t.window, Some(3));
    assert_eq!(t.pane, Some(12));

    let a = NotifyArgs { title: "t".to_string(), body: String::new(), window: Some(1), pane: None };
    let t = notify_target(a, Some("3".to_string()), Some("bad".to_string())).unwrap();
    assert_eq!(t.window, Some(1));
    assert_eq!(t.pane, None);

    let a = NotifyArgs { title: "t".to_string(), body: String::new(), window: None, pane: Some(4) };
    assert!(notify_target(a, None, None).is_none());
}

#[test]
fn notification_line_is_one_json_object() {
    let a = NotifyArgs { title: "Hi \"you\"".to_string(), body: "b".to_string(), window: Some(1), pane: Some(3) };
    let line = notification_line(&a);
    assert!(line.ends_with('\n'));
    let v: serde_json::Value = serde_json::from_str(line.trim_end()).unwrap();
    assert_eq!(v["title"], "Hi \"you\"");
    assert_eq!(v["body"], "b");
    assert_eq!(v["window"], 1);
    assert_eq!(v["pane"], 3);
    assert_eq!(line, "{\"body\":\"b\",\"pane\":3,\"title\":\"Hi \\\"you\\\"\",\"window\":1}\n");
    let a = NotifyArgs { title: String::new(), body: String::new(), window: None, pane: None };
    assert_eq!(notification_line(&a), "{\"body\":\"\",\"title\":\"\"}\n");
}

#[test]
fn received_line_becomes_an_event() {
    let ev = message_event("{\"title\":\"T\",\"body\":\"B\",\"window\":2,\"pane\":5}").unwrap();
    match ev {
        AppEvent::ExternalNotification { title, body, window, pane } => {
            assert_eq!(title, "T");
            assert_eq!(body, "B");
            assert_eq!(window, Some(2));
            assert_eq!(pane, Some(5));
        },
        _ => panic!("not a notification"),
    }
    let ev = message_event("{\"window\":-1,\"title\":3}").unwrap();
    match ev {
        AppEvent::ExternalNotification { title, body, window, pane } => {
            assert_eq!(title, "");
            assert_eq!(body, "");
            assert_eq!(window, None);
            assert_eq!(pane, None);
        },
        _ => panic!("not a notification"),
    }
    assert!(message_event("not json").is_none());
}

#[test]
fn sent_line_reads_back_as_the_same_notification() {
    let a = NotifyArgs { title: "x\ny".to_string(), body: "\u{3042}".to_string(), window: Some(4), pane: None };
    let line = notification_line(&a);
    match message_event(line.trim_end()).unwrap() {
        AppEvent::ExternalNotification { title, body, window, pane } => {
            assert_eq!((title.as_str(), body.as_str(), window, pane), ("x\ny", "\u{3042}", Some(4), None));
        },
        _ => panic!("not a notification"),
    }
}

#[test]
fn socket_path_choices() {
    assert_eq!(socket_path_from(Some("/tmp/test-xmux.sock".to_string()), Some("/run".to_string())), "/tmp/test-xmux.sock");
    assert_eq!(socket_path_from(None, Some("/run/user/1000".to_string())), "/run/user/1000/xmux.sock");
    assert_eq!(socket_path_from(None, Some("/run/".to_string())), "/run/xmux.sock");
    assert_eq!(socket_path_from(None, Some(String::new())), "xmux.sock");
    assert_eq!(socket_path_from(None, None), "/tmp/xmux.sock");
    assert!(socket_path_from(None, None).ends_with("xmux.sock"));
}

#[test]
fn number_members_hold_only_the_given_numbers() {
    assert_eq!(number_members(Some(2), None), vec![("window".to_string(), 2)]);
    assert_eq!(number_members(None, Some(7)), vec![("pane".to_string(), 7)]);
    assert_eq!(
        number_members(Some(1), Some(3)),
        vec![("window".to_string(), 1), ("pane".to_string(), 3)]
    );
    assert!(number_members(None, None).is_empty());
}
