//! Chat records: one line of the log, parsed into its time of day, channel and message.
use crate::text::{
    chars_of, copy_range, find_char, first_index, is_white, lemma_trim_keeps_prefix,
    lemma_trim_nonempty, string_of, trim,
    trim_chars,
};
use chrono::Timelike;
use vstd::prelude::*;

verus! {

/// The character that separates the time field from the message field.
pub const DELIMITER: char = '丂';

/// Broadcast scope of a chat record.
#[derive(Clone, Copy, Debug, PartialEq, Eq, Structural, Hash)]
pub enum Channel {
    World,
    Region,
    Group,
    Common,
}

/// The channel that a bracketed tag names; any other tag is `Common`.
pub open spec fn channel_of(tag: Seq<char>) -> Channel {
    if tag == seq!['世', '界'] {
        Channel::World
    } else if tag == seq!['地', '图'] {
        Channel::Region
    } else if tag == seq!['G', 'P'] {
        Channel::Group
    } else {
        Channel::Common
    }
}

/// The display name of a channel.
pub open spec fn channel_name(c: Channel) -> Seq<char> {
    match c {
        Channel::World => seq!['世', '界'],
        Channel::Region => seq!['地', '图'],
        Channel::Group => seq!['队', '伍'],
        Channel::Common => seq!['普', '通'],
    }
}

impl Channel {
    /// Classifies the text between the brackets of a message's tag.
    pub fn from_tag(tag: &[char]) -> (r: Channel)
        ensures
            r == channel_of(tag@),
    {
        if tag.len() == 2 {
            if tag[0] == '世' && tag[1] == '界' {
                assert(tag@ =~= seq!['世', '界']);
                return Channel::World;
            }
            if tag[0] == '地' && tag[1] == '图' {
                assert(tag@ =~= seq!['地', '图']);
                return Channel::Region;
            }
            if tag[0] == 'G' && tag[1] == 'P' {
                assert(tag@ =~= seq!['G', 'P']);
                return Channel::Group;
            }
            assert(tag@ != seq!['世', '界'] && tag@ != seq!['地', '图'] && tag@ != seq!['G', 'P']) by {
                if tag@ == seq!['世', '界'] {
                    assert(tag@[0] == '世');
                }
                if tag@ == seq!['地', '图'] {
                    assert(tag@[0] == '地');
                }
                if tag@ == seq!['G', 'P'] {
                    assert(tag@[0] == 'G');
                }
            }
        }
        Channel::Common
    }

    /// The channel's display name.
    pub fn name(&self) -> (r: String)
        ensures
            r@ == channel_name(*self),
    {
        let v: Vec<char> = match self {
            Channel::World => vec!['世', '界'],
            Channel::Region => vec!['地', '图'],
            Channel::Group => vec!['队', '伍'],
            Channel::Common => vec!['普', '通'],
        };
        assert(v@ =~= channel_name(*self));
        string_of(&v)
    }
}

/// A wall-clock time of day.
#[derive(Clone, Copy, Debug, PartialEq, Eq, Structural, Hash)]
pub struct Time {
    pub hour: u8,
    pub minute: u8,
    pub second: u8,
}

impl Time {
    pub open spec fn wf(&self) -> bool {
        self.hour < 24 && self.minute < 60 && self.second <= 60
    }

    /// Seconds since midnight: the order of times.
    pub open spec fn seconds(&self) -> int {
        self.hour * 3600 + self.minute * 60 + self.second
    }

    pub fn new(hour: u8, minute: u8, second: u8) -> (r: Time)
        requires
            hour < 24,
            minute < 60,
            second <= 60,
        ensures
            r == (Time { hour, minute, second }),
    {
        Time { hour, minute, second }
    }

    /// Seconds since midnight.
    pub fn seconds_of_day(&self) -> (r: u32)
        ensures
            r == self.seconds(),
    {
        self.hour as u32 * 3600 + self.minute as u32 * 60 + self.second as u32
    }
}

/// The digit character for `d` below ten.
pub open spec fn digit(d: int) -> char {
    ((48 + d) as u8) as char
}

/// `n` below one hundred as two decimal digits.
pub open spec fn two_digits(n: int) -> Seq<char> {
    seq![digit(n / 10), digit(n % 10)]
}

/// `HH:MM:SS`.
pub open spec fn hms_text(t: Time) -> Seq<char> {
    two_digits(t.hour as int) + seq![':'] + two_digits(t.minute as int) + seq![':'] + two_digits(
        t.second as int,
    )
}

fn push_two_digits(v: &mut Vec<char>, n: u8)
    requires
        n < 100,
    ensures
        final(v)@ == old(v)@ + two_digits(n as int),
{
    let hi: u8 = 48 + n / 10;
    let lo: u8 = 48 + n % 10;
    v.push(hi as char);
    v.push(lo as char);
    assert(final(v)@ =~= old(v)@ + two_digits(n as int));
}

/// Whether `c` is an ASCII digit.
pub open spec fn is_digit(c: char) -> bool {
    '0' <= c && c <= '9'
}

/// The value of two ASCII digits.
pub open spec fn two_digit_value(a: char, b: char) -> int {
    (a as int - 48) * 10 + (b as int - 48)
}

/// A field `HH:MM:SS` of two ASCII digits each, with an hour below 24, a minute below
/// 60 and a second of at most 60 (a leap second): the time it spells.
pub open spec fn clock_time(s: Seq<char>) -> Option<Time> {
    if s.len() == 8 && is_digit(s[0]) && is_digit(s[1]) && s[2] == ':' && is_digit(s[3])
        && is_digit(s[4]) && s[5] == ':' && is_digit(s[6]) && is_digit(s[7]) {
        let h = two_digit_value(s[0], s[1]);
        let m = two_digit_value(s[3], s[4]);
        let sec = two_digit_value(s[6], s[7]);
        if h < 24 && m < 60 && sec <= 60 {
            Some(Time { hour: h as u8, minute: m as u8, second: sec as u8 })
        } else {
            None
        }
    } else {
        None
    }
}

/// Relies on chrono's `NaiveTime::parse_from_str` with the format `%H:%M:%S`, and on
/// `Timelike`: hour below 24, minute and second below 60, and a nanosecond from one
/// billion on for a leap second. A field of two digits per part reads as the time it
/// spells, a second of 60 as second 59 plus one billion nanoseconds (`Parsed::to_naive_time`).
#[verifier::external_body]
fn parse_hms(s: &str) -> (r: Option<(u32, u32, u32, u32)>)
    ensures
        r == hms_of(s@),
        r matches Some(t) ==> t.0 < 24 && t.1 < 60 && t.2 < 60 && t.3 < 2_000_000_000,
        clock_time(s@) matches Some(c) ==> r == Some(
            (
                c.hour as u32,
                c.minute as u32,
                if c.second == 60 {
                    59u32
                } else {
                    c.second as u32
                },
                if c.second == 60 {
                    1_000_000_000u32
                } else {
                    0u32
                },
            ),
        ),
{
    chrono::NaiveTime::parse_from_str(s, "%H:%M:%S").ok().map(
        |t| (t.hour(), t.minute(), t.second(), t.nanosecond()),
    )
}

/// What chrono reads from a time field with the format `%H:%M:%S`: hour, minute,
/// second and nanosecond.
pub uninterp spec fn hms_of(s: Seq<char>) -> Option<(u32, u32, u32, u32)>;

/// The time that a time field holds, if it holds one; a leap second is second 60.
pub open spec fn time_of(s: Seq<char>) -> Option<Time> {
    match hms_of(s) {
        Some(t) => Some(
            Time {
                hour: t.0 as u8,
                minute: t.1 as u8,
                second: (if t.3 >= 1_000_000_000 {
                    t.2 + 1
                } else {
                    t.2 as int
                }) as u8,
            },
        ),
        None => None,
    }
}

/// The time that a line's field before its first delimiter spells, when it is
/// `HH:MM:SS` in two-digit parts.
pub open spec fn clock_line(line: Seq<char>) -> Option<Time> {
    match first_index(line, DELIMITER) {
        Some(k) => clock_time(line.take(k)),
        None => None,
    }
}

/// The mathematical value of a record.
pub struct RecordView {
    pub time: Time,
    pub channel: Channel,
    pub message: Seq<char>,
}

/// A parsed chat line.
#[derive(Clone, Debug, Hash)]
pub struct Record {
    pub time: Time,
    pub channel: Channel,
    pub message: String,
}

impl View for Record {
    type V = RecordView;

    open spec fn view(&self) -> RecordView {
        RecordView { time: self.time, channel: self.channel, message: self.message@ }
    }
}

impl PartialEq for Record {
    fn eq(&self, other: &Record) -> (r: bool) {
        self.time == other.time && self.channel == other.channel && self.message == other.message
    }
}

impl vstd::std_specs::cmp::PartialEqSpecImpl for Record {
    open spec fn obeys_eq_spec() -> bool {
        true
    }

    open spec fn eq_spec(&self, other: &Record) -> bool {
        self@ == other@
    }
}

impl Eq for Record {

}

/// The channel of a trimmed message: given by its leading `[tag]`, else `Common`.
pub open spec fn message_channel(msg: Seq<char>) -> Channel {
    if msg.len() > 0 && msg[0] == '[' {
        match first_index(msg, ']') {
            Some(j) => if j > 0 {
                channel_of(msg.subrange(1, j))
            } else {
                Channel::Common
            },
            None => Channel::Common,
        }
    } else {
        Channel::Common
    }
}

/// What a line of the log holds: nothing for a blank line, a line without the
/// delimiter, or one whose time field does not read as a time.
pub open spec fn parse_line(line: Seq<char>) -> Option<RecordView> {
    if trim(line).len() == 0 {
        None
    } else {
        match first_index(line, DELIMITER) {
            None => None,
            Some(k) => match time_of(line.take(k)) {
                None => None,
                Some(t) => {
                    let msg = trim(line.skip(k + 1));
                    Some(RecordView { time: t, channel: message_channel(msg), message: msg })
                },
            },
        }
    }
}

impl Record {
    pub open spec fn wf(&self) -> bool {
        self.time.wf()
    }

    /// Parses one line of the log.
    pub fn from(line: &str) -> (r: Option<Record>)
        ensures
            r matches Some(x) ==> parse_line(line@) == Some(x@) && x.wf(),
            r is None ==> parse_line(line@) is None,
            clock_line(line@) matches Some(t) ==> r matches Some(x) && x.time == t,
    {
        let chars = chars_of(line);
        let trimmed = trim_chars(&chars);
        proof {
            if clock_line(line@) is Some {
                let k = first_index(line@, DELIMITER)->0;
                assert(line@.take(k)[0] == line@[0]);
                lemma_trim_nonempty(line@, 0);
            }
        }
        if trimmed.len() == 0 {
            return None;
        }
        let k = match find_char(&chars, DELIMITER) {
            Some(k) => k,
            None => return None,
        };
        let field = copy_range(&chars, 0, k);
        assert(field@ =~= line@.take(k as int));
        let (hour, minute, sec, nano) = match parse_hms(string_of(&field).as_str()) {
            Some(t) => t,
            None => return None,
        };
        let second: u32 = if nano >= 1_000_000_000 {
            sec + 1
        } else {
            sec
        };
        let rest = copy_range(&chars, k + 1, chars.len());
        assert(rest@ =~= line@.skip(k + 1));
        let msg = trim_chars(&rest);
        let mut channel = Channel::Common;
        if msg.len() > 0 && msg[0] == '[' {
            match find_char(&msg, ']') {
                Some(j) => {
                    if j > 0 {
                        let tag = copy_range(&msg, 1, j);
                        channel = Channel::from_tag(&tag);
                    }
                },
                None => {},
            }
        }
        let time = Time { hour: hour as u8, minute: minute as u8, second: second as u8 };
        Some(Record { time, channel, message: string_of(&msg) })
    }

    /// The message text, with its tag.
    pub fn msg(&self) -> (r: &str)
        ensures
            r@ == self.message@,
    {
        self.message.as_str()
    }

    /// The time as `HH:MM:SS`.
    pub fn fmt_time(&self) -> (r: String)
        requires
            self.wf(),
        ensures
            r@ == hms_text(self.time),
    {
        let mut v: Vec<char> = Vec::new();
        push_two_digits(&mut v, self.time.hour);
        v.push(':');
        push_two_digits(&mut v, self.time.minute);
        v.push(':');
        push_two_digits(&mut v, self.time.second);
        assert(v@ =~= hms_text(self.time));
        string_of(&v)
    }

    /// The record as `HH:MM:SS: [channel] message`.
    pub fn describe(&self) -> (r: String)
        requires
            self.wf(),
        ensures
            r@ == hms_text(self.time) + seq![':', ' ', '['] + channel_name(self.channel) + seq![
                ']',
                ' ',
            ] + self.message@,
    {
        let mut v = chars_of(self.fmt_time().as_str());
        v.push(':');
        v.push(' ');
        v.push('[');
        let mut name = chars_of(self.channel.name().as_str());
        v.append(&mut name);
        v.push(']');
        v.push(' ');
        let mut msg = chars_of(self.message.as_str());
        v.append(&mut msg);
        string_of(&v)
    }

    pub fn get_channel(&self) -> (r: &Channel)
        ensures
            *r == self.channel,
    {
        &self.channel
    }

    pub fn is_channel(&self, channel: Channel) -> (r: bool)
        ensures
            r == (self.channel == channel),
    {
        self.channel == channel
    }
}

/// No record twice, in ascending order of time.
pub open spec fn sorted_distinct(out: Seq<RecordView>) -> bool {
    &&& forall|i: int, j: int| 0 <= i < j < out.len() ==> out[i] != out[j]
    &&& forall|i: int, j: int|
        0 <= i < j < out.len() ==> #[trigger] out[i].time.seconds() <= #[trigger] out[j].time.seconds()
}

pub open spec fn holds(out: Seq<RecordView>, v: RecordView) -> bool {
    exists|k: int| 0 <= k < out.len() && out[k] == v
}

/// Some line of `lines` reads as `v`.
pub open spec fn read_from(lines: Seq<Seq<char>>, v: RecordView) -> bool {
    exists|l: int| 0 <= l < lines.len() && parse_line(lines[l]) == Some(v)
}

/// `out` is the batch `lines` deduplicated: every record parsed from a line once,
/// nothing else, in ascending order of time.
pub open spec fn dedup_of(lines: Seq<Seq<char>>, out: Seq<RecordView>) -> bool {
    &&& sorted_distinct(out)
    &&& forall|k: int| 0 <= k < out.len() ==> read_from(lines, #[trigger] out[k])
    &&& forall|l: int|
        0 <= l < lines.len() && (#[trigger] parse_line(lines[l])) is Some ==> holds(
            out,
            parse_line(lines[l])->0,
        )
}

pub open spec fn line_views(lines: Seq<String>) -> Seq<Seq<char>> {
    lines.map_values(|s: String| s@)
}

pub open spec fn record_views(rs: Seq<Record>) -> Seq<RecordView> {
    rs.map_values(|r: Record| r@)
}

/// Adds `rec` to the sorted records `out` unless it is there already.
fn insert_unique(out: &mut Vec<Record>, rec: Record)
    requires
        sorted_distinct(record_views(old(out)@)),
        forall|k: int| 0 <= k < old(out)@.len() ==> (#[trigger] old(out)@[k]).wf(),
        rec.wf(),
    ensures
        sorted_distinct(record_views(final(out)@)),
        forall|k: int| 0 <= k < final(out)@.len() ==> (#[trigger] final(out)@[k]).wf(),
        holds(record_views(final(out)@), rec@),
        forall|k: int|
            0 <= k < old(out)@.len() ==> holds(
                record_views(final(out)@),
                #[trigger] record_views(old(out)@)[k],
            ),
        forall|k: int|
            0 <= k < final(out)@.len() ==> #[trigger] record_views(final(out)@)[k] == rec@ || holds(
                record_views(old(out)@),
                record_views(final(out)@)[k],
            ),
{
    let ghost ov = record_views(out@);
    let mut k: usize = 0;
    let mut found = false;
    while k < out.len() && !found
        invariant
            k <= out@.len(),
            out@ == old(out)@,
            ov == record_views(out@),
            !found ==> forall|m: int| 0 <= m < k ==> ov[m] != rec@,
            found ==> holds(ov, rec@),
        decreases out.len() - k,
    {
        if out[k] == rec {
            assert(ov[k as int] == rec@);
            found = true;
        }
        k = k + 1;
    }
    if found {
        assert forall|m: int| 0 <= m < ov.len() implies holds(ov, #[trigger] ov[m]) by {}
        return;
    }
    let t = rec.time.seconds_of_day();
    let mut pos: usize = 0;
    while pos < out.len() && out[pos].time.seconds_of_day() <= t
        invariant
            pos <= out@.len(),
            out@ == old(out)@,
            ov == record_views(out@),
            forall|m: int| 0 <= m < pos ==> (#[trigger] ov[m]).time.seconds() <= t,
        decreases out.len() - pos,
    {
        pos = pos + 1;
    }
    proof {
        if pos < out@.len() {
            assert(ov[pos as int].time.seconds() > t);
        }
    }
    let ghost oo = out@;
    out.insert(pos, rec);
    let ghost nv = record_views(out@);
    assert(nv =~= ov.insert(pos as int, rec@));
    assert forall|a: int, b: int| 0 <= a < b < nv.len() implies nv[a] != nv[b] by {
        if a < pos && b > pos {
            assert(nv[b] == ov[b - 1]);
        }
    }
    assert forall|a: int, b: int| 0 <= a < b < nv.len() implies #[trigger] nv[a].time.seconds()
        <= #[trigger] nv[b].time.seconds() by {
        if a < pos && b == pos {
        } else if a < pos && b > pos {
            assert(nv[b] == ov[b - 1]);
        } else if a == pos && b > pos {
            assert(nv[b] == ov[b - 1]);
            assert(ov[pos as int].time.seconds() <= ov[b - 1].time.seconds());
        } else if a > pos {
            assert(nv[a] == ov[a - 1]);
            assert(nv[b] == ov[b - 1]);
        }
    }
    assert(nv[pos as int] == rec@);
    assert forall|m: int| 0 <= m < ov.len() implies holds(nv, #[trigger] ov[m]) by {
        let nk = if m < pos { m } else { m + 1 };
        assert(nv[nk] == ov[m]);
    }
    assert forall|m: int| 0 <= m < nv.len() implies #[trigger] nv[m] == rec@ || holds(ov, nv[m]) by {
        if m < pos {
            assert(nv[m] == ov[m]);
        } else if m > pos {
            assert(nv[m] == ov[m - 1]);
        }
    }
    assert forall|m: int| 0 <= m < out@.len() implies (#[trigger] out@[m]).wf() by {
        if m > pos {
            assert(out@[m] == oo[m - 1]);
        }
    }
}

/// Parses a batch of lines and keeps each distinct record once, in ascending order of
/// time. Lines that are no record are dropped without a word.
pub fn dedupe(lines: &Vec<String>) -> (r: Vec<Record>)
    ensures
        dedup_of(line_views(lines@), record_views(r@)),
        forall|k: int| 0 <= k < r@.len() ==> (#[trigger] r@[k]).wf(),
{
    let ghost ls = line_views(lines@);
    let mut out: Vec<Record> = Vec::new();
    let mut i: usize = 0;
    while i < lines.len()
        invariant
            i <= lines@.len(),
            ls == line_views(lines@),
            forall|k: int| 0 <= k < out@.len() ==> (#[trigger] out@[k]).wf(),
            dedup_of(ls.take(i as int), record_views(out@)),
        decreases lines.len() - i,
    {
        let ghost ov = record_views(out@);
        let ghost li = ls.take(i as int);
        let ghost lj = ls.take(i + 1);
        assert(lj =~= li.push(ls[i as int]));
        assert(ls[i as int] == lines@[i as int]@);
        assert forall|v: RecordView| read_from(li, v) implies read_from(lj, v) by {
            let l = choose|l: int| 0 <= l < li.len() && parse_line(li[l]) == Some(v);
            assert(lj[l] == li[l]);
        }
        match Record::from(lines[i].as_str()) {
            None => {
                assert forall|l: int| 0 <= l < lj.len() && (#[trigger] parse_line(lj[l])) is Some implies holds(
                    ov,
                    parse_line(lj[l])->0,
                ) by {
                    assert(lj[l] == li[l]);
                }
            },
            Some(rec) => {
                assert(read_from(lj, rec@)) by {
                    assert(lj[i as int] == ls[i as int]);
                }
                insert_unique(&mut out, rec);
                let ghost nv = record_views(out@);
                assert forall|k: int| 0 <= k < nv.len() implies read_from(lj, #[trigger] nv[k]) by {
                    if nv[k] != rec@ {
                        let m = choose|m: int| 0 <= m < ov.len() && ov[m] == nv[k];
                        assert(read_from(li, ov[m]));
                    }
                }
                assert forall|l: int| 0 <= l < lj.len() && (#[trigger] parse_line(lj[l])) is Some implies holds(
                    nv,
                    parse_line(lj[l])->0,
                ) by {
                    if l < li.len() {
                        assert(lj[l] == li[l]);
                        let m = choose|m: int| 0 <= m < ov.len() && ov[m] == parse_line(li[l])->0;
                        assert(holds(nv, ov[m]));
                    }
                }
            },
        }
        i = i + 1;
    }
    assert(ls.take(lines@.len() as int) =~= ls);
    out
}

/// The first occurrence of `c` in `a + seq![c] + b`, where `a` holds no `c`, ends `a`.
proof fn lemma_first_after(a: Seq<char>, c: char, b: Seq<char>)
    requires
        forall|i: int| 0 <= i < a.len() ==> a[i] != c,
    ensures
        first_index(a + seq![c] + b, c) == Some(a.len() as int),
{
    let s = a + seq![c] + b;
    let k = a.len() as int;
    assert(s[k] == c);
    assert(forall|j: int| 0 <= j < k ==> s[j] == a[j]);
    let w = first_index(s, c)->0;
    assert(w == k) by {
        if w < k {
            assert(s[w] == a[w]);
        }
        if w > k {
            assert(s[k] != c);
        }
    }
}

/// A well-formed line `time丂[tag] msg`, whose time field reads as a time and holds
/// no delimiter and whose tag holds no `]`, parses into that time, the channel that
/// the tag names, and the trimmed message field with its tag.
#[verifier::rlimit(60)]
pub proof fn lemma_parse_tagged_line(time: Seq<char>, tag: Seq<char>, msg: Seq<char>)
    requires
        time_of(time) is Some,
        forall|i: int| 0 <= i < time.len() ==> time[i] != DELIMITER,
        forall|i: int| 0 <= i < tag.len() ==> tag[i] != ']',
    ensures
        ({
            let body = seq!['['] + tag + seq![']', ' '] + msg;
            parse_line(time + seq![DELIMITER] + body) == Some(
                RecordView {
                    time: time_of(time)->0,
                    channel: channel_of(tag),
                    message: trim(body),
                },
            )
        }),
{
    let body = seq!['['] + tag + seq![']', ' '] + msg;
    let line = time + seq![DELIMITER] + body;
    let k = time.len() as int;
    lemma_first_after(time, DELIMITER, body);
    assert(line.take(k) =~= time);
    assert(line.skip(k + 1) =~= body);
    let n = tag.len() as int;
    assert(body[0] == '[' && !is_white(body[0]));
    assert(body[n + 1] == ']' && !is_white(body[n + 1]));
    lemma_trim_keeps_prefix(body, n + 1);
    assert(line[k + 1] == '[');
    lemma_trim_nonempty(line, k + 1);
    let m = trim(body);
    assert forall|j: int| 0 <= j < n + 1 implies m.take(n + 1)[j] == (seq!['['] + tag)[j] by {
        assert(m[j] == body[j]);
    }
    assert(m.take(n + 1) =~= seq!['['] + tag);
    assert(m[n + 1] == body[n + 1]);
    assert(m =~= seq!['['] + tag + seq![']'] + m.skip(n + 2));
    lemma_first_after(seq!['['] + tag, ']', m.skip(n + 2));
    assert(m.subrange(1, n + 1) =~= tag);
}

/// A line without the delimiter parses into nothing.
pub proof fn lemma_parse_needs_delimiter(line: Seq<char>)
    requires
        forall|i: int| 0 <= i < line.len() ==> line[i] != DELIMITER,
    ensures
        parse_line(line) is None,
{
}

/// A line whose time field does not read as a time parses into nothing.
pub proof fn lemma_parse_needs_time(time: Seq<char>, rest: Seq<char>)
    requires
        forall|i: int| 0 <= i < time.len() ==> time[i] != DELIMITER,
        time_of(time) is None,
    ensures
        parse_line(time + seq![DELIMITER] + rest) is None,
{
    lemma_first_after(time, DELIMITER, rest);
    assert((time + seq![DELIMITER] + rest).take(time.len() as int) =~= time);
}

/// A batch whose lines are all one well-formed line deduplicates into one record.
pub proof fn lemma_repeated_line_once(lines: Seq<Seq<char>>, out: Seq<RecordView>)
    requires
        dedup_of(lines, out),
        lines.len() > 0,
        parse_line(lines[0]) is Some,
        forall|l: int| 0 <= l < lines.len() ==> #[trigger] lines[l] == lines[0],
    ensures
        out.len() == 1,
        out[0] == parse_line(lines[0])->0,
{
    let v = parse_line(lines[0])->0;
    assert(holds(out, v));
    assert forall|k: int| 0 <= k < out.len() implies out[k] == v by {
        assert(read_from(lines, out[k]));
    }
    if out.len() > 1 {
        assert(out[0] == out[1]);
    }
}

} // verus!
