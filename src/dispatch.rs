//! From a batch of new lines to the deliveries to make: each firing rule yields one
//! delivery per notifier that it names, decided before any of them is made.
use crate::record::{dedup_of, dedupe, line_views, record_views, Channel, Record, RecordView};
use crate::trigger::{
    alert_text, captures_of, filter_accepts, lower_of, string_views, ConfigError, Pattern, Trigger,
};
use vstd::prelude::*;

verus! {

/// A trigger rule with its pattern compiled.
pub struct Rule {
    pub trigger: Trigger,
    pub pattern: Pattern,
}

/// The mathematical value of a rule.
pub struct RuleView {
    pub pattern: Seq<char>,
    pub format: Seq<char>,
    pub filter: Seq<char>,
    pub names: Seq<Seq<char>>,
}

impl View for Rule {
    type V = RuleView;

    open spec fn view(&self) -> RuleView {
        RuleView {
            pattern: self.pattern@,
            format: self.trigger.format@,
            filter: self.trigger.channel@,
            names: string_views(self.trigger.notifier@),
        }
    }
}

/// The alert that a rule raises for a record, if it fires.
pub open spec fn firing(rule: RuleView, rec: RecordView) -> Option<Seq<char>> {
    if filter_accepts(lower_of(rule.filter), rec.channel) {
        match captures_of(rule.pattern, rec.message) {
            Some(g) => Some(alert_text(rule.format, g, rec.time)),
            None => None,
        }
    } else {
        None
    }
}

impl Rule {
    pub open spec fn wf(&self) -> bool {
        self.pattern@ == self.trigger.regex@
    }

    /// Compiles a configured trigger; a pattern that does not compile is refused.
    pub fn compile(trigger: Trigger) -> (r: Result<Rule, ConfigError>)
        ensures
            r is Ok == crate::trigger::regex_accepts(trigger.regex@),
            r matches Ok(rule) ==> rule.wf() && rule.trigger == trigger,
            r matches Err(e) ==> e is InvalidPattern,
    {
        match Pattern::new(trigger.regex.as_str()) {
            Ok(pattern) => Ok(Rule { trigger, pattern }),
            Err(e) => Err(e),
        }
    }

    /// The alert that the rule raises for `record`, if it fires.
    pub fn evaluate(&self, record: &Record) -> (r: Option<String>)
        requires
            record.wf(),
        ensures
            r is Some == firing(self@, record@) is Some,
            r matches Some(a) ==> firing(self@, record@) == Some(a@),
    {
        if !self.trigger.accept(&record.channel) {
            return None;
        }
        match self.pattern.groups(record.message.as_str()) {
            Some(g) => Some(self.trigger.alert(&g, record)),
            None => None,
        }
    }
}

/// One delivery: the notifier to call and the text to hand it.
pub struct Job {
    pub notifier: String,
    pub message: String,
}

impl View for Job {
    type V = (Seq<char>, Seq<char>);

    open spec fn view(&self) -> (Seq<char>, Seq<char>) {
        (self.notifier@, self.message@)
    }
}

pub open spec fn job_views(jobs: Seq<Job>) -> Seq<(Seq<char>, Seq<char>)> {
    jobs.map_values(|j: Job| j@)
}

pub open spec fn rule_views(rules: Seq<Rule>) -> Seq<RuleView> {
    rules.map_values(|r: Rule| r@)
}

/// The deliveries that one rule asks for on a record.
pub open spec fn rule_jobs(rule: RuleView, rec: RecordView) -> Seq<(Seq<char>, Seq<char>)> {
    match firing(rule, rec) {
        Some(a) => rule.names.map_values(|n: Seq<char>| (n, a)),
        None => Seq::empty(),
    }
}

/// The deliveries that the rules ask for on a record, rule by rule.
pub open spec fn rules_jobs(rules: Seq<RuleView>, rec: RecordView) -> Seq<(Seq<char>, Seq<char>)>
    decreases rules.len(),
{
    if rules.len() == 0 {
        Seq::empty()
    } else {
        rules_jobs(rules.drop_last(), rec) + rule_jobs(rules.last(), rec)
    }
}

/// The deliveries for one record: only records of the common channel raise alerts.
pub open spec fn record_jobs(rules: Seq<RuleView>, rec: RecordView) -> Seq<(Seq<char>, Seq<char>)> {
    if rec.channel == Channel::Common {
        rules_jobs(rules, rec)
    } else {
        Seq::empty()
    }
}

/// The deliveries for a sequence of records, record by record.
pub open spec fn batch_jobs(rules: Seq<RuleView>, recs: Seq<RecordView>) -> Seq<(Seq<char>, Seq<char>)>
    decreases recs.len(),
{
    if recs.len() == 0 {
        Seq::empty()
    } else {
        batch_jobs(rules, recs.drop_last()) + record_jobs(rules, recs.last())
    }
}

fn push_rule_jobs(jobs: &mut Vec<Job>, rule: &Rule, record: &Record)
    requires
        record.wf(),
    ensures
        job_views(final(jobs)@) == job_views(old(jobs)@) + rule_jobs(rule@, record@),
{
    let ghost j0 = job_views(jobs@);
    match rule.evaluate(record) {
        None => {
            assert(job_views(jobs@) =~= j0 + rule_jobs(rule@, record@));
        },
        Some(alert) => {
            let names = &rule.trigger.notifier;
            let ghost a = alert@;
            let mut k: usize = 0;
            while k < names.len()
                invariant
                    k <= names@.len(),
                    names == &rule.trigger.notifier,
                    alert@ == a,
                    firing(rule@, record@) == Some(a),
                    job_views(jobs@) == j0 + rule@.names.take(k as int).map_values(
                        |n: Seq<char>| (n, a),
                    ),
                decreases names.len() - k,
            {
                let ghost before = job_views(jobs@);
                jobs.push(Job { notifier: names[k].clone(), message: alert.clone() });
                assert(job_views(jobs@) =~= before.push((names@[k as int]@, a)));
                assert(rule@.names.take(k + 1).map_values(|n: Seq<char>| (n, a)) =~= rule@.names.take(
                    k as int,
                ).map_values(|n: Seq<char>| (n, a)).push((names@[k as int]@, a)));
                k = k + 1;
            }
            assert(rule@.names.take(names@.len() as int) =~= rule@.names);
        },
    }
}

/// The deliveries that the rules ask for on the records, in the order of the records
/// and, for each record, of the rules and of the notifiers each rule names.
pub fn jobs_for(rules: &Vec<Rule>, records: &Vec<Record>) -> (r: Vec<Job>)
    requires
        forall|k: int| 0 <= k < records@.len() ==> (#[trigger] records@[k]).wf(),
    ensures
        job_views(r@) == batch_jobs(rule_views(rules@), record_views(records@)),
{
    let ghost rv = rule_views(rules@);
    let mut jobs: Vec<Job> = Vec::new();
    let mut i: usize = 0;
    while i < records.len()
        invariant
            i <= records@.len(),
            rv == rule_views(rules@),
            forall|k: int| 0 <= k < records@.len() ==> (#[trigger] records@[k]).wf(),
            job_views(jobs@) == batch_jobs(rv, record_views(records@).take(i as int)),
        decreases records.len() - i,
    {
        let record = &records[i];
        let ghost rs = record_views(records@);
        assert(rs.take(i + 1).drop_last() =~= rs.take(i as int));
        let ghost before = job_views(jobs@);
        if record.channel == Channel::Common {
            let mut k: usize = 0;
            while k < rules.len()
                invariant
                    k <= rules@.len(),
                    rv == rule_views(rules@),
                    record == &records@[i as int],
                    record.wf(),
                    record.channel == Channel::Common,
                    job_views(jobs@) == before + rules_jobs(rv.take(k as int), record@),
                decreases rules.len() - k,
            {
                assert(rv.take(k + 1).drop_last() =~= rv.take(k as int));
                let ghost mid = job_views(jobs@);
                push_rule_jobs(&mut jobs, &rules[k], record);
                assert(job_views(jobs@) =~= before + rules_jobs(rv.take(k + 1), record@));
                k = k + 1;
            }
            assert(rv.take(rules@.len() as int) =~= rv);
        }
        assert(job_views(jobs@) =~= batch_jobs(rv, rs.take(i + 1)));
        i = i + 1;
    }
    assert(record_views(records@).take(records@.len() as int) =~= record_views(records@));
    jobs
}

/// The deliveries for a batch of new lines: the lines deduplicated into records in
/// ascending order of time, then the jobs of each record.
pub fn plan(rules: &Vec<Rule>, lines: &Vec<String>) -> (r: Vec<Job>)
    ensures
        exists|recs: Seq<RecordView>|
            dedup_of(line_views(lines@), recs) && job_views(r@) == batch_jobs(
                rule_views(rules@),
                recs,
            ),
{
    let records = dedupe(lines);
    jobs_for(rules, &records)
}

/// A rule whose channel filter reads `world` never fires on a record of another channel.
pub proof fn lemma_world_filter(rule: RuleView, rec: RecordView)
    requires
        lower_of(rule.filter) == seq!['w', 'o', 'r', 'l', 'd'],
        rec.channel != Channel::World,
    ensures
        firing(rule, rec) is None,
        rule_jobs(rule, rec).len() == 0,
{
}

/// The deliveries of a batch are those of its first records followed by those of the
/// rest: what the first records ask for, or how their deliveries fare, leaves the
/// deliveries of the later records as they are.
pub proof fn lemma_batch_split(rules: Seq<RuleView>, recs: Seq<RecordView>, i: int)
    requires
        0 <= i <= recs.len(),
    ensures
        batch_jobs(rules, recs) == batch_jobs(rules, recs.take(i)) + batch_jobs(rules, recs.skip(i)),
    decreases recs.len(),
{
    if recs.len() == i {
        assert(recs.take(i) =~= recs);
        assert(batch_jobs(rules, recs.skip(i)) =~= Seq::empty());
        assert(batch_jobs(rules, recs) + Seq::empty() =~= batch_jobs(rules, recs));
    } else {
        lemma_batch_split(rules, recs.drop_last(), i);
        assert(recs.drop_last().take(i) =~= recs.take(i));
        assert(recs.skip(i).drop_last() =~= recs.drop_last().skip(i));
        assert(recs.skip(i).last() == recs.last());
    }
}

/// A firing rule asks for a delivery of its alert to each notifier that it names.
proof fn lemma_rules_member(rules: Seq<RuleView>, rec: RecordView, r: int, j: int)
    requires
        0 <= r < rules.len(),
        firing(rules[r], rec) is Some,
        0 <= j < rules[r].names.len(),
    ensures
        rules_jobs(rules, rec).contains((rules[r].names[j], firing(rules[r], rec)->0)),
    decreases rules.len(),
{
    let pre = rules_jobs(rules.drop_last(), rec);
    let own = rule_jobs(rules.last(), rec);
    if r == rules.len() - 1 {
        assert((pre + own)[pre.len() + j] == own[j]);
    } else {
        lemma_rules_member(rules.drop_last(), rec, r, j);
        let m = choose|m: int| 0 <= m < pre.len() && pre[m] == (rules[r].names[j], firing(rules[r], rec)->0);
        assert((pre + own)[m] == pre[m]);
    }
}

/// Every delivery that a firing rule asks for on a common-channel record of the batch
/// is in the batch's deliveries, whatever the other records and rules ask for.
pub proof fn lemma_delivery_planned(rules: Seq<RuleView>, recs: Seq<RecordView>, k: int, r: int, j: int)
    requires
        0 <= k < recs.len(),
        0 <= r < rules.len(),
        recs[k].channel == Channel::Common,
        firing(rules[r], recs[k]) is Some,
        0 <= j < rules[r].names.len(),
    ensures
        batch_jobs(rules, recs).contains((rules[r].names[j], firing(rules[r], recs[k])->0)),
    decreases recs.len(),
{
    let job = (rules[r].names[j], firing(rules[r], recs[k])->0);
    let pre = batch_jobs(rules, recs.drop_last());
    let own = record_jobs(rules, recs.last());
    if k == recs.len() - 1 {
        lemma_rules_member(rules, recs[k], r, j);
        let m = choose|m: int| 0 <= m < own.len() && own[m] == job;
        assert((pre + own)[pre.len() + m] == own[m]);
    } else {
        lemma_delivery_planned(rules, recs.drop_last(), k, r, j);
        let m = choose|m: int| 0 <= m < pre.len() && pre[m] == job;
        assert((pre + own)[m] == pre[m]);
    }
}

} // verus!
