use chat_trigger::config::compile_rules;
use chat_trigger::dispatch::{jobs_for, plan, Rule};
use chat_trigger::record::Record;
use chat_trigger::trigger::{ConfigError, Trigger};

fn trigger(regex: &str, format: &str, channel: &str, notifiers: &[&str]) -> Trigger {
    let mut t = Trigger::new(regex);
    t.format = format.to_owned();
    t.channel = channel.to_owned();
    t.notifier = notifiers.iter().map(|n| n.to_string()).collect();
    t
}

#[test]
fn evaluate_fires_with_groups_and_time() {
    let rule = Rule::compile(trigger("您账号剩余时间为(\\w+)", "{time} 剩余 {1}", "common", &[])).unwrap();
    let record = Record::from("01:02:03丂您账号剩余时间为1小时1分26秒").unwrap();
    assert_eq!(rule.evaluate(&record).unwrap(), "01:02:03 剩余 1小时1分26秒");
    let other = Record::from("01:02:03丂别的").unwrap();
    assert!(rule.evaluate(&other).is_none());
}

#[test]
fn world_rule_does_not_fire_on_common() {
    let rule = Rule::compile(trigger("你好", "x", "world", &[])).unwrap();
    let record = Record::from("01:02:03丂你好").unwrap();
    assert!(rule.evaluate(&record).is_none());
}

#[test]
fn plan_sends_each_alert_to_every_notifier() {
    let rules = compile_rules(vec![
        trigger("(\\w+)离开了队伍。", "{1} 走了 {time}", "", &["simple", "dingtalk"]),
        trigger("离开", "有人离开", "", &["invoke"]),
    ])
    .unwrap();
    let lines = vec![
        "10:00:02丂乙离开了队伍。".to_owned(),
        "10:00:01丂甲离开了队伍。".to_owned(),
        "10:00:01丂甲离开了队伍。".to_owned(),
        "10:00:03丂[世界] 丙离开了队伍。".to_owned(),
        "半行".to_owned(),
    ];
    let jobs = plan(&rules, &lines);
    let got: Vec<(String, String)> = jobs.into_iter().map(|j| (j.notifier, j.message)).collect();
    let want = vec![
        ("simple", "甲 走了 10:00:01"),
        ("dingtalk", "甲 走了 10:00:01"),
        ("invoke", "有人离开"),
        ("simple", "乙 走了 10:00:02"),
        ("dingtalk", "乙 走了 10:00:02"),
        ("invoke", "有人离开"),
    ];
    let want: Vec<(String, String)> = want.into_iter().map(|(a, b)| (a.to_owned(), b.to_owned())).collect();
    assert_eq!(got, want);
}

#[test]
fn jobs_for_no_records_is_empty() {
    let rules = compile_rules(vec![trigger("a", "b", "", &["simple"])]).unwrap();
    assert!(jobs_for(&rules, &Vec::new()).is_empty());
}

#[test]
fn compile_rules_refuses_bad_pattern() {
    let r = compile_rules(vec![trigger("(", "", "", &[])]);
    assert!(matches!(r, Err(ConfigError::InvalidPattern(_))));
}

#[test]
fn compile_rules_refuses_unknown_notifier() {
    let r = compile_rules(vec![trigger("a", "", "", &["simple", "pager"])]);
    match r {
        Err(ConfigError::UnknownNotifier(n)) => assert_eq!(n, "pager"),
        _ => panic!("expected an unknown notifier"),
    }
}
