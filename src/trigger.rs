//! Trigger rules: a regular expression over a record's message, a template for the
//! alert, a channel filter and the notifiers to alert.
use crate::record::{digit, hms_text, Channel, Record, Time};
use crate::text::{chars_of, replace_all, replace_chars, string_of};
use vstd::prelude::*;

verus! {

#[verifier::external_type_specification]
#[verifier::external_body]
pub struct ExRegex(regex::Regex);

#[verifier::external_type_specification]
#[verifier::external_body]
pub struct ExRegexError(regex::Error);

/// Whether `regex::Regex::new` accepts a pattern.
pub uninterp spec fn regex_accepts(pattern: Seq<char>) -> bool;

/// What `regex::Regex::captures` finds for a pattern in a text: for the leftmost
/// match, each group in order (the whole match first), `None` for a group that took
/// no part in the match.
pub uninterp spec fn captures_of(pattern: Seq<char>, text: Seq<char>) -> Option<Seq<Option<Seq<char>>>>;

/// Relies on `regex::Regex::new`: it compiles the pattern or reports why it cannot.
#[verifier::external_body]
fn compile(pattern: &str) -> (r: Result<regex::Regex, regex::Error>)
    ensures
        r is Ok == regex_accepts(pattern@),
{
    regex::Regex::new(pattern)
}

pub open spec fn option_views(v: Seq<Option<String>>) -> Seq<Option<Seq<char>>> {
    v.map_values(|o: Option<String>| match o {
        Some(s) => Some(s@),
        None => None,
    })
}

/// Relies on `regex::Regex::captures` and `Captures::iter`: the groups of the
/// leftmost match of a regex compiled from `pattern.source`, each at its own index;
/// group 0, the whole match, is always there (`Captures::get`).
#[verifier::external_body]
fn captures(pattern: &Pattern, text: &str) -> (r: Option<Vec<Option<String>>>)
    ensures
        r is Some == captures_of(pattern@, text@) is Some,
        r matches Some(v) ==> option_views(v@) == captures_of(pattern@, text@)->0,
        r matches Some(v) ==> v@.len() > 0 && v@[0] is Some,
{
    pattern.re.captures(text).map(
        |c| c.iter().map(|m| m.map(|m| m.as_str().to_owned())).collect(),
    )
}

/// A compiled regular expression together with its source text. The fields are
/// private and `Pattern::new` alone builds one, so `re` is always compiled from `source`.
pub struct Pattern {
    re: regex::Regex,
    source: String,
}

impl View for Pattern {
    type V = Seq<char>;

    closed spec fn view(&self) -> Seq<char> {
        self.source@
    }
}

/// Why a configured rule cannot be used.
#[derive(Debug)]
pub enum ConfigError {
    /// The rule's regular expression does not compile.
    InvalidPattern(regex::Error),
    /// The rule names a notifier that does not exist.
    UnknownNotifier(String),
}

impl Pattern {
    /// Compiles `source`.
    pub fn new(source: &str) -> (r: Result<Pattern, ConfigError>)
        ensures
            r is Ok == regex_accepts(source@),
            r matches Ok(p) ==> p@ == source@,
            r matches Err(e) ==> e is InvalidPattern,
    {
        match compile(source) {
            Ok(re) => Ok(Pattern { re, source: source.to_owned() }),
            Err(e) => Err(ConfigError::InvalidPattern(e)),
        }
    }

    /// The groups of the leftmost match in `text`, group `i` at index `i` (the whole
    /// match first), `None` for a group that took no part in the match.
    pub fn groups(&self, text: &str) -> (r: Option<Vec<Option<String>>>)
        ensures
            r is Some == captures_of(self@, text@) is Some,
            r matches Some(v) ==> option_views(v@) == captures_of(self@, text@)->0,
            r matches Some(v) ==> v@.len() > 0 && v@[0] is Some,
    {
        captures(self, text)
    }
}

pub open spec fn string_views(v: Seq<String>) -> Seq<Seq<char>> {
    v.map_values(|s: String| s@)
}

/// The decimal digits of `n`.
pub open spec fn decimal(n: nat) -> Seq<char>
    decreases n,
{
    if n < 10 {
        seq![digit(n as int)]
    } else {
        decimal(n / 10) + seq![digit((n % 10) as int)]
    }
}

/// The placeholder `{n}`.
pub open spec fn placeholder(n: nat) -> Seq<char> {
    seq!['{'] + decimal(n) + seq!['}']
}

/// The template with `{0}`, `{1}`, ... replaced in turn by the first `k` values; the
/// placeholder of a value that is missing stays as it is.
pub open spec fn fill(template: Seq<char>, values: Seq<Option<Seq<char>>>, k: nat) -> Seq<char>
    decreases k,
{
    if k == 0 {
        template
    } else {
        let prev = fill(template, values, (k - 1) as nat);
        match values[k - 1] {
            Some(v) => replace_all(prev, placeholder((k - 1) as nat), v),
            None => prev,
        }
    }
}

/// The placeholder for the record's time.
pub open spec fn time_placeholder() -> Seq<char> {
    seq!['{', 't', 'i', 'm', 'e', '}']
}

/// The alert that a template gives for the matched values and the record's time.
pub open spec fn alert_text(template: Seq<char>, values: Seq<Option<Seq<char>>>, time: Time) -> Seq<char> {
    replace_all(fill(template, values, values.len()), time_placeholder(), hms_text(time))
}

/// Whether a lower-cased channel filter lets a record of channel `c` through.
pub open spec fn filter_accepts(filter: Seq<char>, c: Channel) -> bool {
    if filter == seq!['w', 'o', 'r', 'l', 'd'] {
        c == Channel::World
    } else if filter == seq!['g', 'r', 'o', 'u', 'p'] {
        c == Channel::Group
    } else if filter == seq!['r', 'e', 'g', 'i', 'o', 'n'] {
        c == Channel::Region
    } else if filter == seq!['c', 'o', 'm', 'm', 'o', 'n'] {
        c == Channel::Common
    } else {
        true
    }
}

/// What `str::to_lowercase` gives for a string.
pub uninterp spec fn lower_of(s: Seq<char>) -> Seq<char>;

/// Relies on `str::to_lowercase`: the result depends on the characters alone.
#[verifier::external_body]
fn lowercase(s: &str) -> (r: String)
    ensures
        r@ == lower_of(s@),
{
    s.to_lowercase()
}

fn decimal_chars(n: usize) -> (r: Vec<char>)
    ensures
        r@ == decimal(n as nat),
    decreases n,
{
    if n < 10 {
        let d: u8 = 48 + n as u8;
        let r = vec![d as char];
        assert(r@ =~= decimal(n as nat));
        r
    } else {
        let mut r = decimal_chars(n / 10);
        let d: u8 = 48 + (n % 10) as u8;
        r.push(d as char);
        r
    }
}

fn equals_word(s: &[char], w: &[char]) -> (r: bool)
    ensures
        r == (s@ == w@),
{
    if s.len() != w.len() {
        return false;
    }
    let mut k: usize = 0;
    while k < s.len()
        invariant
            s@.len() == w@.len(),
            k <= s@.len(),
            forall|j: int| 0 <= j < k ==> s@[j] == w@[j],
        decreases s.len() - k,
    {
        if s[k] != w[k] {
            return false;
        }
        k = k + 1;
    }
    assert(s@ =~= w@);
    true
}

/// Whether the lower-cased channel filter `filter` lets a record of `channel` through.
pub fn accepts_lowered(filter: &str, channel: &Channel) -> (r: bool)
    ensures
        r == filter_accepts(filter@, *channel),
{
    let f = chars_of(filter);
    let world = ['w', 'o', 'r', 'l', 'd'];
    let group = ['g', 'r', 'o', 'u', 'p'];
    let region = ['r', 'e', 'g', 'i', 'o', 'n'];
    let common = ['c', 'o', 'm', 'm', 'o', 'n'];
    assert(world@ =~= seq!['w', 'o', 'r', 'l', 'd']);
    assert(group@ =~= seq!['g', 'r', 'o', 'u', 'p']);
    assert(region@ =~= seq!['r', 'e', 'g', 'i', 'o', 'n']);
    assert(common@ =~= seq!['c', 'o', 'm', 'm', 'o', 'n']);
    if equals_word(&f, &world) {
        *channel == Channel::World
    } else if equals_word(&f, &group) {
        *channel == Channel::Group
    } else if equals_word(&f, &region) {
        *channel == Channel::Region
    } else if equals_word(&f, &common) {
        *channel == Channel::Common
    } else {
        true
    }
}

/// A configured trigger rule.
pub struct Trigger {
    pub regex: String,
    pub format: String,
    pub channel: String,
    pub notifier: Vec<String>,
}

impl Trigger {
    /// A rule with the given pattern, an empty template, no channel filter and no notifier.
    pub fn new(regex: &str) -> (r: Trigger)
        ensures
            r.regex@ == regex@,
            r.format@.len() == 0,
            r.channel@.len() == 0,
            r.notifier@.len() == 0,
    {
        Trigger {
            regex: regex.to_owned(),
            format: String::new(),
            channel: String::new(),
            notifier: Vec::new(),
        }
    }

    /// The groups of the leftmost match of the rule's pattern in `text`, group `i` at
    /// index `i`, `None` for a group that took no part; nothing if the pattern does not
    /// match or does not compile.
    pub fn try_match(&self, text: &str) -> (r: Option<Vec<Option<String>>>)
        ensures
            r is Some == (regex_accepts(self.regex@) && captures_of(self.regex@, text@) is Some),
            r matches Some(v) ==> option_views(v@) == captures_of(self.regex@, text@)->0,
    {
        match Pattern::new(self.regex.as_str()) {
            Ok(p) => p.groups(text),
            Err(_) => None,
        }
    }

    /// The template with `{0}`, `{1}`, ... replaced in turn by the matched groups; the
    /// placeholder of a group that took no part stays as it is.
    pub fn format(&self, matched: &Vec<Option<String>>) -> (r: String)
        ensures
            r@ == fill(self.format@, option_views(matched@), matched@.len() as nat),
    {
        let mut fmt = chars_of(self.format.as_str());
        let mut i: usize = 0;
        while i < matched.len()
            invariant
                i <= matched@.len(),
                fmt@ == fill(self.format@, option_views(matched@), i as nat),
            decreases matched.len() - i,
        {
            match &matched[i] {
                Some(m) => {
                    let mut ph = vec!['{'];
                    let mut digits = decimal_chars(i);
                    ph.append(&mut digits);
                    ph.push('}');
                    assert(ph@ =~= placeholder(i as nat));
                    let value = chars_of(m.as_str());
                    fmt = replace_chars(&fmt, &ph, &value);
                },
                None => {},
            }
            i = i + 1;
        }
        string_of(&fmt)
    }

    /// The alert for the matched values: the filled template with `{time}` replaced
    /// by the record's time.
    pub fn alert(&self, matched: &Vec<Option<String>>, record: &Record) -> (r: String)
        requires
            record.wf(),
        ensures
            r@ == alert_text(self.format@, option_views(matched@), record.time),
    {
        let filled = self.format(matched);
        let f = chars_of(filled.as_str());
        let ph = vec!['{', 't', 'i', 'm', 'e', '}'];
        assert(ph@ =~= time_placeholder());
        let time = chars_of(record.fmt_time().as_str());
        string_of(&replace_chars(&f, &ph, &time))
    }

    /// Whether the rule's channel filter, compared without regard to case, lets a
    /// record of `channel` through; an unknown filter lets every record through.
    pub fn accept(&self, channel: &Channel) -> (r: bool)
        ensures
            r == filter_accepts(lower_of(self.channel@), *channel),
    {
        let lower = lowercase(self.channel.as_str());
        accepts_lowered(lower.as_str(), channel)
    }
}

/// Replacing changes nothing in a text that lacks the pattern's first character.
pub proof fn lemma_replace_absent(s: Seq<char>, pat: Seq<char>, to: Seq<char>)
    requires
        pat.len() > 0,
        forall|i: int| 0 <= i < s.len() ==> s[i] != pat[0],
    ensures
        replace_all(s, pat, to) == s,
    decreases s.len(),
{
    if s.len() >= pat.len() {
        assert(s.take(pat.len() as int)[0] != pat[0]);
        lemma_replace_absent(s.skip(1), pat, to);
        assert(seq![s[0]] + s.skip(1) =~= s);
    }
}

/// Replacing passes over a prefix that lacks the pattern's first character.
pub proof fn lemma_replace_after(x: Seq<char>, y: Seq<char>, pat: Seq<char>, to: Seq<char>)
    requires
        pat.len() > 0,
        forall|i: int| 0 <= i < x.len() ==> x[i] != pat[0],
    ensures
        replace_all(x + y, pat, to) == x + replace_all(y, pat, to),
    decreases x.len(),
{
    if x.len() > 0 {
        let s = x + y;
        assert(s.skip(1) =~= x.skip(1) + y);
        lemma_replace_after(x.skip(1), y, pat, to);
        if s.len() >= pat.len() {
            assert(s.take(pat.len() as int)[0] != pat[0]);
        }
        assert(x =~= seq![x[0]] + x.skip(1));
    } else {
        assert(x + y =~= y);
    }
}

/// The first character of a number's decimal digits is a digit.
pub proof fn lemma_decimal_first(n: nat)
    ensures
        decimal(n).len() > 0,
        '0' <= decimal(n)[0] <= '9',
    decreases n,
{
    if n >= 10 {
        lemma_decimal_first(n / 10);
    } else {
        assert(('0' as u8) + n == (48 + n) as u8);
    }
}

/// No numbered placeholder occurs in a text made of `{time}` and text without `{`.
proof fn lemma_fill_skips_time(a: Seq<char>, b: Seq<char>, values: Seq<Option<Seq<char>>>, k: nat)
    requires
        forall|i: int| 0 <= i < a.len() ==> a[i] != '{',
        forall|i: int| 0 <= i < b.len() ==> b[i] != '{',
    ensures
        fill(a + time_placeholder() + b, values, k) == a + time_placeholder() + b,
    decreases k,
{
    let t = a + time_placeholder() + b;
    if k > 0 {
        lemma_fill_skips_time(a, b, values, (k - 1) as nat);
    }
    if k > 0 && values[k - 1] is Some {
        let v = values[k - 1]->0;
        let pat = placeholder((k - 1) as nat);
        let y = time_placeholder() + b;
        assert(t =~= a + y);
        lemma_replace_after(a, y, pat, v);
        lemma_decimal_first((k - 1) as nat);
        assert(pat[1] == decimal((k - 1) as nat)[0]);
        let rest = y.skip(1);
        assert forall|i: int| 0 <= i < rest.len() implies rest[i] != pat[0] by {
            if i >= 5 {
                assert(rest[i] == b[i - 5]);
            }
        }
        lemma_replace_absent(rest, pat, v);
        if y.len() >= pat.len() {
            assert(y.take(pat.len() as int)[1] != pat[1]);
        }
        assert(seq![y[0]] + rest =~= y);
    }
}

/// A template `a{time}b` whose `a` and `b` hold no `{` gives `a`, the record's time
/// as `HH:MM:SS`, then `b`, whatever groups the match produced.
pub proof fn lemma_time_placeholder(a: Seq<char>, b: Seq<char>, values: Seq<Option<Seq<char>>>, time: Time)
    requires
        forall|i: int| 0 <= i < a.len() ==> a[i] != '{',
        forall|i: int| 0 <= i < b.len() ==> b[i] != '{',
    ensures
        alert_text(a + time_placeholder() + b, values, time) == a + hms_text(time) + b,
{
    let pat = time_placeholder();
    let h = hms_text(time);
    lemma_fill_skips_time(a, b, values, values.len());
    assert(a + pat + b =~= a + (pat + b));
    lemma_replace_after(a, pat + b, pat, h);
    assert((pat + b).take(6) =~= pat);
    assert((pat + b).skip(6) =~= b);
    lemma_replace_absent(b, pat, h);
    assert(a + (h + b) =~= a + h + b);
}

} // verus!
