use chat_trigger::record::{dedupe, Channel, Record, Time};

#[test]
fn test_record() {
    let line = "12:34:56丂[世界] 你好";
    let record = Record::from(line).unwrap();
    assert_eq!(record.time, Time::new(12, 34, 56));
    assert_eq!(record.channel, Channel::World);
    assert_eq!(record.message, "[世界] 你好");

    let line = "12:34:56丂[地图] 你好";
    let record = Record::from(line).unwrap();
    assert_eq!(record.time, Time::new(12, 34, 56));
    assert_eq!(record.channel, Channel::Region);
    assert_eq!(record.message, "[地图] 你好");

    let line = "12:34:56丂[GP] 你好";
    let record = Record::from(line).unwrap();
    assert_eq!(record.time, Time::new(12, 34, 56));
    assert_eq!(record.channel, Channel::Group);
    assert_eq!(record.message, "[GP] 你好");

    let line = "12:34:56丂 你好";
    let record = Record::from(line).unwrap();
    assert_eq!(record.time, Time::new(12, 34, 56));
    assert_eq!(record.channel, Channel::Common);
    assert_eq!(record.message, "你好");
}

#[test]
fn test_record_hash() {
    let line = "12:34:56丂[世界] 你好";
    let record = Record::from(line).unwrap();
    let mut set = std::collections::HashSet::new();
    set.insert(Record::from(line).unwrap());
    assert!(set.contains(&record));
}

#[test]
fn test_record_btree() {
    let lines = vec![
        " 21:40:12丂[世界]盛明兰oO: 半山来个合格车头  大号3带2".to_owned(),
        " 21:40:12丂[世界]盛明兰oO: 半山来个合格车头  大号3带2".to_owned(),
        " 21:40:12丂[世界]盛明兰oO: 半山来个合格车头  大号3带2".to_owned(),
    ];
    let records = dedupe(&lines);
    for r in &records {
        println!("{:?}", r);
    }
    assert_eq!(records.len(), 1);
}

#[test]
fn parse_keeps_tag_and_trims_message() {
    let record = Record::from("08:05:09丂[未知频道] 有人吗  ").unwrap();
    assert_eq!(record.time, Time::new(8, 5, 9));
    assert_eq!(record.channel, Channel::Common);
    assert_eq!(record.msg(), "[未知频道] 有人吗");
    assert_eq!(record.fmt_time(), "08:05:09");
}

#[test]
fn parse_tag_without_closing_bracket_is_common() {
    let record = Record::from("23:59:59丂[世界 你好").unwrap();
    assert_eq!(record.channel, Channel::Common);
    assert_eq!(record.message, "[世界 你好");
}

#[test]
fn parse_empty_tag_is_common() {
    let record = Record::from("00:00:00丂[]x").unwrap();
    assert_eq!(record.channel, Channel::Common);
    assert!(record.is_channel(Channel::Common));
}

#[test]
fn parse_message_may_hold_delimiter() {
    let record = Record::from("10:00:00丂a丂b").unwrap();
    assert_eq!(record.message, "a丂b");
}

#[test]
fn parse_rejects_malformed_lines() {
    assert!(Record::from("").is_none());
    assert!(Record::from("   ").is_none());
    assert!(Record::from("12:34:56 你好").is_none());
    assert!(Record::from("12:34丂你好").is_none());
    assert!(Record::from("25:00:00丂你好").is_none());
    assert!(Record::from("ab:cd:ef丂你好").is_none());
}

#[test]
fn channel_names() {
    assert_eq!(Channel::World.name(), "世界");
    assert_eq!(Channel::Region.name(), "地图");
    assert_eq!(Channel::Group.name(), "队伍");
    assert_eq!(Channel::Common.name(), "普通");
    assert_eq!(Channel::from_tag(&['G', 'P']), Channel::Group);
    assert_eq!(Channel::from_tag(&['g', 'p']), Channel::Common);
}

#[test]
fn dedupe_orders_by_time_and_drops_noise() {
    let lines = vec![
        "12:00:03丂c".to_owned(),
        "not a chat line".to_owned(),
        "12:00:01丂a".to_owned(),
        "12:00:03丂c".to_owned(),
        "12:00:01丂b".to_owned(),
        "12:00:02丂[世界] w".to_owned(),
    ];
    let records = dedupe(&lines);
    let msgs: Vec<&str> = records.iter().map(|r| r.msg()).collect();
    assert_eq!(msgs, vec!["a", "b", "[世界] w", "c"]);
}

#[test]
fn dedupe_keeps_distinct_records_of_one_time() {
    let lines = vec!["12:00:00丂x".to_owned(), "12:00:00丂y".to_owned(), "12:00:00丂x".to_owned()];
    assert_eq!(dedupe(&lines).len(), 2);
}

#[test]
fn dedupe_of_nothing_is_empty() {
    assert!(dedupe(&Vec::new()).is_empty());
}

#[test]
fn time_seconds_of_day() {
    assert_eq!(Time::new(1, 2, 3).seconds_of_day(), 3723);
    assert_eq!(Time::new(23, 59, 59).seconds_of_day(), 86399);
}

#[test]
fn describe_shows_time_channel_and_message() {
    let record = Record::from("12:34:56丂[世界] 你好").unwrap();
    assert_eq!(record.describe(), "12:34:56: [世界] [世界] 你好");
    let record = Record::from("01:02:03丂你好").unwrap();
    assert_eq!(record.describe(), "01:02:03: [普通] 你好");
}

#[test]
fn leap_second_is_kept() {
    let record = Record::from("23:59:60丂闰秒").unwrap();
    assert_eq!(record.time, Time::new(23, 59, 60));
    assert_eq!(record.fmt_time(), "23:59:60");
    let lines = vec!["23:59:59丂x".to_owned(), "23:59:60丂x".to_owned()];
    assert_eq!(dedupe(&lines).len(), 2);
}
