//! Notifier backends as far as they decide anything: the text each one sends and how
//! a delivery's outcome is read. Making the delivery is left to the caller.
use crate::text::{chars_of, replace_all, replace_chars, string_of};
use vstd::prelude::*;

verus! {

/// Why a delivery failed.
#[derive(Debug)]
pub struct NotifyError {
    pub reason: String,
}

/// Something that delivers a message and reports whether it was taken.
pub trait Notifiable {
    fn notify(&self, message: &str) -> Result<bool, NotifyError>;
}

/// The placeholder for the alert text in a backend's template or arguments.
pub open spec fn message_placeholder() -> Seq<char> {
    seq!['{', 'm', 'e', 's', 's', 'a', 'g', 'e', '}']
}

fn fill_message(template: &str, message: &str) -> (r: String)
    ensures
        r@ == replace_all(template@, message_placeholder(), message@),
{
    let ph = vec!['{', 'm', 'e', 's', 's', 'a', 'g', 'e', '}'];
    assert(ph@ =~= message_placeholder());
    let t = chars_of(template);
    let m = chars_of(message);
    string_of(&replace_chars(&t, &ph, &m))
}

/// A backend that only reports the message in the log.
pub struct Simple {}

impl Simple {
    pub fn new() -> (r: Simple) {
        Simple {  }
    }
}

impl Notifiable for Simple {
    fn notify(&self, message: &str) -> (r: Result<bool, NotifyError>) {
        Ok(true)
    }
}

/// A backend that runs a program with the message in its arguments.
pub struct Invoke {
    pub path: String,
    pub args: Vec<String>,
    pub workdir: String,
}

impl Invoke {
    pub fn new(path: String, args: Vec<String>, workdir: String) -> (r: Invoke)
        ensures
            r.path == path,
            r.args == args,
            r.workdir == workdir,
    {
        Invoke { path, args, workdir }
    }

    /// The program's arguments: each configured one with `{message}` replaced by the message.
    pub fn arguments(&self, message: &str) -> (r: Vec<String>)
        ensures
            r@.len() == self.args@.len(),
            forall|i: int|
                0 <= i < r@.len() ==> #[trigger] r@[i]@ == replace_all(
                    self.args@[i]@,
                    message_placeholder(),
                    message@,
                ),
    {
        let mut out: Vec<String> = Vec::new();
        let mut i: usize = 0;
        while i < self.args.len()
            invariant
                i <= self.args@.len(),
                out@.len() == i,
                forall|j: int|
                    0 <= j < i ==> #[trigger] out@[j]@ == replace_all(
                        self.args@[j]@,
                        message_placeholder(),
                        message@,
                    ),
            decreases self.args.len() - i,
        {
            out.push(fill_message(self.args[i].as_str(), message));
            i = i + 1;
        }
        out
    }

    /// The directory to run the program in; none when it is not configured, and the
    /// program then runs in the current one.
    pub fn working_dir(&self) -> (r: Option<&str>)
        ensures
            r is None == (self.workdir@.len() == 0),
            r matches Some(d) ==> d@ == self.workdir@,
    {
        if self.workdir.as_str().is_empty() {
            None
        } else {
            Some(self.workdir.as_str())
        }
    }
}

/// A backend that posts the message to a chat robot's webhook.
pub struct DingTalk {
    pub webhook: String,
    pub template: String,
}

impl DingTalk {
    pub fn new(webhook: String, template: String) -> (r: DingTalk)
        ensures
            r.webhook == webhook,
            r.template == template,
    {
        DingTalk { webhook, template }
    }

    /// The text that the robot posts: the template with `{message}` replaced.
    pub fn content(&self, message: &str) -> (r: String)
        ensures
            r@ == replace_all(self.template@, message_placeholder(), message@),
    {
        fill_message(self.template.as_str(), message)
    }

    /// Whether a post succeeded, from the HTTP status that came back, if any.
    pub fn outcome(status: Option<u16>) -> (r: bool)
        ensures
            r == (status == Some(200u16)),
    {
        match status {
            Some(code) => code == 200,
            None => false,
        }
    }
}

} // verus!
