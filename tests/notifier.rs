use chat_trigger::config::{
    kind_named, Config, Console, Dingtalk, Game, Invoke as InvokeConfig, Kind, Notifier, Ringtone,
    Simple as SimpleConfig, Backend,
};
use chat_trigger::notifier::{DingTalk, Invoke, Notifiable, Simple};
use chat_trigger::trigger::ConfigError;

#[test]
fn test_invoke() {
    let invoke = Invoke::new(
        "cmd".to_owned(),
        vec!["/C".to_owned(), "echo {message}".to_owned()],
        String::new(),
    );
    let args = invoke.arguments("Hello, World!");
    assert_eq!(args, vec!["/C".to_owned(), "echo Hello, World!".to_owned()]);
    assert!(invoke.working_dir().is_none());
}

#[test]
fn test_invoke_shutdown() {
    let invoke = Invoke::new(
        "cmd".to_owned(),
        vec!["/C".to_owned(), "shutdown /s /f /t 60".to_owned()],
        String::new(),
    );
    let args = invoke.arguments("Hello, World!");
    assert_eq!(args, vec!["/C".to_owned(), "shutdown /s /f /t 60".to_owned()]);
}

#[test]
fn test_dingtalk() {
    let dingtalk = DingTalk::new(
        "https://oapi.dingtalk.com/robot/send?access_token=XXXXXXXXXXXXXXXXXXXX".to_owned(),
        "Notice: {message}".to_owned(),
    );
    assert_eq!(dingtalk.content("Hello, World!"), "Notice: Hello, World!");
    assert!(DingTalk::outcome(Some(200)));
    assert!(!DingTalk::outcome(Some(500)));
    assert!(!DingTalk::outcome(None));
}

#[test]
fn simple_always_succeeds() {
    assert!(Simple::new().notify("Hello").unwrap());
}

#[test]
fn invoke_working_dir() {
    let invoke = Invoke::new("p".to_owned(), vec![], "/tmp".to_owned());
    assert_eq!(invoke.working_dir(), Some("/tmp"));
}

fn config() -> Config {
    Config {
        game: Game { path: "C:/game".to_owned() },
        notifier: Notifier {
            simple: SimpleConfig {},
            console: Console { color: "red".to_owned(), format: "{message}".to_owned(), by_log: true },
            ringtone: Ringtone { audio: "a.mp3".to_owned(), device: String::new() },
            dingtalk: Dingtalk { webhook: "https://x".to_owned(), template: "T {message}".to_owned() },
            invoke: InvokeConfig {
                path: "run".to_owned(),
                workdir: String::new(),
                args: vec!["{message}".to_owned()],
            },
        },
        trigger: vec![],
    }
}

#[test]
fn find_builds_each_backend() {
    let cfg = config();
    assert!(matches!(Notifier::find(&cfg, "simple"), Ok(Backend::Simple(_))));
    match Notifier::find(&cfg, "dingtalk") {
        Ok(Backend::DingTalk(d)) => assert_eq!(d.content("hi"), "T hi"),
        _ => panic!("expected a webhook backend"),
    }
    match Notifier::find(&cfg, "invoke") {
        Ok(Backend::Invoke(i)) => assert_eq!(i.arguments("hi"), vec!["hi".to_owned()]),
        _ => panic!("expected a process backend"),
    }
    assert!(matches!(Notifier::find(&cfg, "console"), Ok(Backend::Console { by_log: true, .. })));
    assert!(matches!(Notifier::find(&cfg, "ringtone"), Ok(Backend::Ringtone { .. })));
}

#[test]
fn find_refuses_unknown_name() {
    match Notifier::find(&config(), "Simple") {
        Err(ConfigError::UnknownNotifier(n)) => assert_eq!(n, "Simple"),
        _ => panic!("expected an unknown notifier"),
    }
    assert_eq!(kind_named("invoke"), Some(Kind::Invoke));
    assert_eq!(kind_named(""), None);
}
