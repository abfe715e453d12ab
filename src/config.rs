//! The configuration as the library uses it: where the game is, how each notifier
//! backend is set up, and the trigger rules; and the checks made on it at start-up.
use crate::dispatch::Rule;
use crate::notifier;
use crate::trigger::{regex_accepts, string_views, ConfigError, Trigger};
use vstd::prelude::*;

verus! {

pub struct Game {
    pub path: String,
}

pub struct Simple {}

pub struct Console {
    pub color: String,
    pub format: String,
    pub by_log: bool,
}

pub struct Ringtone {
    pub audio: String,
    pub device: String,
}

pub struct Dingtalk {
    pub webhook: String,
    pub template: String,
}

pub struct Invoke {
    pub path: String,
    pub workdir: String,
    pub args: Vec<String>,
}

pub struct Notifier {
    pub simple: Simple,
    pub console: Console,
    pub ringtone: Ringtone,
    pub dingtalk: Dingtalk,
    pub invoke: Invoke,
}

pub struct Config {
    pub game: Game,
    pub notifier: Notifier,
    pub trigger: Vec<Trigger>,
}

/// The kinds of notifier backend.
#[derive(Clone, Copy, Debug, PartialEq, Eq, Structural)]
pub enum Kind {
    Simple,
    Console,
    Ringtone,
    DingTalk,
    Invoke,
}

/// The backend kind that a notifier name names, if any.
pub open spec fn kind_of(name: Seq<char>) -> Option<Kind> {
    if name == seq!['s', 'i', 'm', 'p', 'l', 'e'] {
        Some(Kind::Simple)
    } else if name == seq!['c', 'o', 'n', 's', 'o', 'l', 'e'] {
        Some(Kind::Console)
    } else if name == seq!['r', 'i', 'n', 'g', 't', 'o', 'n', 'e'] {
        Some(Kind::Ringtone)
    } else if name == seq!['d', 'i', 'n', 'g', 't', 'a', 'l', 'k'] {
        Some(Kind::DingTalk)
    } else if name == seq!['i', 'n', 'v', 'o', 'k', 'e'] {
        Some(Kind::Invoke)
    } else {
        None
    }
}

/// A backend, ready to be called, with its settings.
pub enum Backend {
    Simple(notifier::Simple),
    Console { color: String, format: String, by_log: bool },
    Ringtone { audio: String, device: String },
    DingTalk(notifier::DingTalk),
    Invoke(notifier::Invoke),
}

impl Backend {
    pub open spec fn kind(&self) -> Kind {
        match self {
            Backend::Simple(_) => Kind::Simple,
            Backend::Console { .. } => Kind::Console,
            Backend::Ringtone { .. } => Kind::Ringtone,
            Backend::DingTalk(_) => Kind::DingTalk,
            Backend::Invoke(_) => Kind::Invoke,
        }
    }
}

fn is_word(s: &str, w: &[char]) -> (r: bool)
    ensures
        r == (s@ == w@),
{
    let c = crate::text::chars_of(s);
    if c.len() != w.len() {
        return false;
    }
    let mut k: usize = 0;
    while k < c.len()
        invariant
            c@ == s@,
            c@.len() == w@.len(),
            k <= c@.len(),
            forall|j: int| 0 <= j < k ==> c@[j] == w@[j],
        decreases c.len() - k,
    {
        if c[k] != w[k] {
            return false;
        }
        k = k + 1;
    }
    assert(c@ =~= w@);
    true
}

/// The kind of backend that `name` names.
pub fn kind_named(name: &str) -> (r: Option<Kind>)
    ensures
        r == kind_of(name@),
{
    let simple = ['s', 'i', 'm', 'p', 'l', 'e'];
    let console = ['c', 'o', 'n', 's', 'o', 'l', 'e'];
    let ringtone = ['r', 'i', 'n', 'g', 't', 'o', 'n', 'e'];
    let dingtalk = ['d', 'i', 'n', 'g', 't', 'a', 'l', 'k'];
    let invoke = ['i', 'n', 'v', 'o', 'k', 'e'];
    assert(simple@ =~= seq!['s', 'i', 'm', 'p', 'l', 'e']);
    assert(console@ =~= seq!['c', 'o', 'n', 's', 'o', 'l', 'e']);
    assert(ringtone@ =~= seq!['r', 'i', 'n', 'g', 't', 'o', 'n', 'e']);
    assert(dingtalk@ =~= seq!['d', 'i', 'n', 'g', 't', 'a', 'l', 'k']);
    assert(invoke@ =~= seq!['i', 'n', 'v', 'o', 'k', 'e']);
    if is_word(name, &simple) {
        Some(Kind::Simple)
    } else if is_word(name, &console) {
        Some(Kind::Console)
    } else if is_word(name, &ringtone) {
        Some(Kind::Ringtone)
    } else if is_word(name, &dingtalk) {
        Some(Kind::DingTalk)
    } else if is_word(name, &invoke) {
        Some(Kind::Invoke)
    } else {
        None
    }
}

fn copy_strings(v: &Vec<String>) -> (r: Vec<String>)
    ensures
        string_views(r@) == string_views(v@),
{
    let mut out: Vec<String> = Vec::new();
    let mut i: usize = 0;
    while i < v.len()
        invariant
            i <= v@.len(),
            string_views(out@) == string_views(v@).take(i as int),
        decreases v.len() - i,
    {
        let ghost before = out@;
        let s = v[i].clone();
        out.push(s);
        assert(string_views(out@) =~= string_views(before).push(v@[i as int]@));
        i = i + 1;
        assert(string_views(out@) =~= string_views(v@).take(i as int));
    }
    assert(string_views(v@).take(v@.len() as int) =~= string_views(v@));
    out
}

impl Notifier {
    /// The backend that `name` names, set up from the configuration; an unknown name
    /// is an error for that name alone.
    pub fn find(cfg: &Config, name: &str) -> (r: Result<Backend, ConfigError>)
        ensures
            r is Ok == kind_of(name@) is Some,
            r matches Ok(b) ==> Some(b.kind()) == kind_of(name@),
            r matches Ok(b) ==> match b {
                Backend::Console { color, format, by_log } => color@ == cfg.notifier.console.color@
                    && format@ == cfg.notifier.console.format@ && by_log
                    == cfg.notifier.console.by_log,
                Backend::Ringtone { audio, device } => audio@ == cfg.notifier.ringtone.audio@
                    && device@ == cfg.notifier.ringtone.device@,
                Backend::DingTalk(d) => d.webhook@ == cfg.notifier.dingtalk.webhook@
                    && d.template@ == cfg.notifier.dingtalk.template@,
                Backend::Invoke(i) => i.path@ == cfg.notifier.invoke.path@ && i.workdir@
                    == cfg.notifier.invoke.workdir@ && string_views(i.args@) == string_views(
                    cfg.notifier.invoke.args@,
                ),
                Backend::Simple(_) => true,
            },
            r matches Err(e) ==> e matches ConfigError::UnknownNotifier(n) && n@ == name@,
    {
        match kind_named(name) {
            Some(Kind::Simple) => Ok(Backend::Simple(notifier::Simple::new())),
            Some(Kind::Console) => {
                let cc = &cfg.notifier.console;
                Ok(Backend::Console { color: cc.color.clone(), format: cc.format.clone(), by_log: cc.by_log })
            },
            Some(Kind::Ringtone) => {
                let rc = &cfg.notifier.ringtone;
                Ok(Backend::Ringtone { audio: rc.audio.clone(), device: rc.device.clone() })
            },
            Some(Kind::DingTalk) => {
                let dc = &cfg.notifier.dingtalk;
                Ok(Backend::DingTalk(notifier::DingTalk::new(dc.webhook.clone(), dc.template.clone())))
            },
            Some(Kind::Invoke) => {
                let ic = &cfg.notifier.invoke;
                Ok(Backend::Invoke(notifier::Invoke::new(ic.path.clone(), copy_strings(&ic.args), ic.workdir.clone())))
            },
            None => Err(ConfigError::UnknownNotifier(name.to_owned())),
        }
    }
}

/// Every pattern compiles and every notifier name is known.
pub open spec fn triggers_valid(ts: Seq<Trigger>) -> bool {
    forall|i: int|
        0 <= i < ts.len() ==> regex_accepts((#[trigger] ts[i]).regex@) && forall|j: int|
            0 <= j < ts[i].notifier@.len() ==> kind_of(#[trigger] ts[i].notifier@[j]@) is Some
}

/// Compiles the configured triggers into rules, in order; a pattern that does not
/// compile or a notifier name that is unknown stops the start-up.
pub fn compile_rules(triggers: Vec<Trigger>) -> (r: Result<Vec<Rule>, ConfigError>)
    ensures
        r is Ok == triggers_valid(triggers@),
        r matches Ok(rules) ==> rules@.len() == triggers@.len() && forall|i: int|
            0 <= i < rules@.len() ==> (#[trigger] rules@[i]).wf() && rules@[i].trigger
                == triggers@[i],
{
    let ghost all = triggers@;
    let mut rest = triggers;
    let mut rules: Vec<Rule> = Vec::new();
    while rest.len() > 0
        invariant
            all == triggers@,
            rules@.len() + rest@.len() == all.len(),
            rest@ == all.skip(rules@.len() as int),
            triggers_valid(all.take(rules@.len() as int)),
            forall|i: int|
                0 <= i < rules@.len() ==> (#[trigger] rules@[i]).wf() && rules@[i].trigger == all[i],
        decreases rest.len(),
    {
        let t = rest.remove(0);
        let n = rules.len();
        assert(t == all[n as int]);
        let ghost tv = t;
        let mut j: usize = 0;
        while j < t.notifier.len()
            invariant
                j <= t.notifier@.len(),
                tv == t,
                all == triggers@,
                n < all.len(),
                all[n as int] == t,
                forall|m: int| 0 <= m < j ==> kind_of(#[trigger] t.notifier@[m]@) is Some,
            decreases t.notifier.len() - j,
        {
            if kind_named(t.notifier[j].as_str()).is_none() {
                let name = t.notifier[j].clone();
                proof {
                    assert(!triggers_valid(all)) by {
                        assert(kind_of(all[n as int].notifier@[j as int]@) is None);
                    }
                }
                return Err(ConfigError::UnknownNotifier(name));
            }
            j = j + 1;
        }
        match Rule::compile(t) {
            Ok(rule) => {
                rules.push(rule);
                assert(all.take(rules@.len() as int) =~= all.take(n as int).push(all[n as int]));
                assert(rest@ =~= all.skip(rules@.len() as int));
            },
            Err(e) => {
                proof {
                    assert(!triggers_valid(all)) by {
                        assert(!regex_accepts(all[n as int].regex@));
                    }
                }
                return Err(e);
            },
        }
    }
    assert(all.take(all.len() as int) =~= all);
    Ok(rules)
}

} // verus!
