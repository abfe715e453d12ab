use chat_trigger::record::{Channel, Record};
use chat_trigger::trigger::{accepts_lowered, Pattern, Trigger};

#[test]
fn test_notify_try_match() {
    let text = r#"你感觉到一股不可思议的力量，而『挑战赛通道』好像快消失了。"#;
    let matched = Trigger::new(r#"你感觉到一股不可思议的力量，而『(\w+)』好像快消失了。"#)
        .try_match(text)
        .unwrap();
    println!("{:?}", matched);
    assert!(matched.len() == 2);
    assert_eq!(matched[1].as_deref(), Some("挑战赛通道"));

    let matched = Trigger::new(r#"你感觉到一股不可思议的力量"#)
        .try_match(text)
        .unwrap();
    println!("{:?}", matched);
    assert!(matched.len() == 1);

    let matched = Trigger::new(r#"丂你感觉到一股不可思议的力量"#).try_match(text);
    println!("{:?}", matched);
    assert!(matched.is_none());
}

#[test]
fn test_notify_match_group() {
    let text = r#"画眉鸟离开了队伍。"#;
    let trigger = Trigger::new(r#"(\w+)离开了队伍。"#);
    let matched = trigger.try_match(text).unwrap();
    println!("{:?}", matched);
    assert!(matched[1].as_deref() == Some("画眉鸟"));
}

#[test]
fn test_notify_match_card() {
    let text = r#"您账号剩余时间为1小时1分26秒"#;
    let trigger = Trigger::new(r#"您账号剩余时间为(\w+)"#);
    let matched = trigger.try_match(text).unwrap();
    println!("{:?}", matched);
    assert!(matched[1].as_deref() == Some("1小时1分26秒"));
}

#[test]
fn test_trigger_format() {
    let text = r#"你感觉到一股不可思议的力量，而『挑战赛通道』好像快消失了。"#;
    let trigger = Trigger::new(r#"你感觉到一股不可思议的力量，而『(\w+)』好像快消失了。"#);
    let matched = trigger.try_match(text).unwrap();
    println!("{:?}", matched);
    let fmt = trigger.format(&matched);
    println!("{:?}", fmt);
    assert_eq!(fmt, "");
}

fn trigger(regex: &str, format: &str, channel: &str) -> Trigger {
    let mut t = Trigger::new(regex);
    t.format = format.to_owned();
    t.channel = channel.to_owned();
    t
}

#[test]
fn format_replaces_numbered_placeholders() {
    let t = trigger("", "{1} 出现了（{0}）{2}", "");
    let matched = vec![Some("整句".to_owned()), Some("挑战赛通道".to_owned())];
    assert_eq!(t.format(&matched), "挑战赛通道 出现了（整句）{2}");
}

#[test]
fn format_handles_two_digit_placeholders() {
    let t = trigger("", "{10}|{1}", "");
    let matched: Vec<Option<String>> = (0..11).map(|i| Some(format!("v{}", i))).collect();
    assert_eq!(t.format(&matched), "v10|v1");
}

#[test]
fn alert_fills_time_without_groups() {
    let t = trigger("", "[{time}] 注意 {0}", "");
    let record = Record::from("07:08:09丂有人").unwrap();
    assert_eq!(t.alert(&vec![], &record), "[07:08:09] 注意 {0}");
    assert_eq!(t.alert(&vec![Some("有人".to_owned())], &record), "[07:08:09] 注意 有人");
}

#[test]
fn invalid_pattern_matches_nothing() {
    assert!(Trigger::new("(").try_match("(").is_none());
    assert!(Pattern::new("(").is_err());
}

#[test]
fn optional_group_keeps_its_position() {
    let p = Pattern::new("a(b)?(c)").unwrap();
    let groups = p.groups("ac").unwrap();
    assert_eq!(groups, vec![Some("ac".to_owned()), None, Some("c".to_owned())]);
    let t = trigger("(a)?(b)", "[{1}|{2}]", "");
    let matched = t.try_match("b").unwrap();
    assert_eq!(matched, vec![Some("b".to_owned()), None, Some("b".to_owned())]);
    assert_eq!(t.format(&matched), "[{1}|b]");
}

#[test]
fn accept_ignores_case() {
    assert!(trigger("", "", "World").accept(&Channel::World));
    assert!(!trigger("", "", "WORLD").accept(&Channel::Common));
    assert!(trigger("", "", "common").accept(&Channel::Common));
    assert!(!trigger("", "", "common").accept(&Channel::Group));
    assert!(trigger("", "", "").accept(&Channel::Group));
    assert!(trigger("", "", "any").accept(&Channel::Region));
}

#[test]
fn world_filter_never_accepts_other_channels() {
    let t = trigger("", "", "world");
    assert!(!t.accept(&Channel::Common));
    assert!(!t.accept(&Channel::Region));
    assert!(!t.accept(&Channel::Group));
    assert!(t.accept(&Channel::World));
    assert!(!accepts_lowered("group", &Channel::World));
    assert!(accepts_lowered("region", &Channel::Region));
}
