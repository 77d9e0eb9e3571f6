//! Turns rules into operations for one file: the first enabled rule whose
//! conditions hold decides, and each of its actions becomes an operation.
use vstd::prelude::*;

use super::condition::{condition_outcome, system_moment, Condition, ConditionError, FileFacts};
use super::patterns::Patterns;
use super::{Action, Combinator, Rule};
use crate::journal::{Operation, OperationView};
use crate::pathname::{file_name, file_name_exec, join, join_exec, lemma_file_name_of_join, parent_components, parent_exec, text_of};
use crate::templates::{
    calendar_moment, date_for, date_needed, date_needed_exec, date_of_file, forbidden_char, lemma_rendered_name_is_valid, lemma_rendering_date_free, render_on,
    render_subfolder_on, rendered, rendered_folder, valid_date, CalendarDate, TemplateError,
};
use crate::text::{copy_string, append_chars, chars_of, string_of};

verus! {

/// Why a file could not be planned for.
#[derive(Debug, Clone, PartialEq, Eq)]
pub enum EvaluationError {
    /// A condition of the named rule could not be evaluated.
    Condition { rule: String, source: ConditionError },
    /// A template of the named rule could not be applied.
    Template { rule: String, source: TemplateError },
    /// The file has no name to keep or no folder to stay in.
    NamelessFile,
}

/// An evaluation error with the rule's name as a character sequence.
pub enum EvaluationErrorView {
    Condition { rule: Seq<char>, source: ConditionError },
    Template { rule: Seq<char>, source: TemplateError },
    NamelessFile,
}

impl View for EvaluationError {
    type V = EvaluationErrorView;

    open spec fn view(&self) -> EvaluationErrorView {
        match self {
            EvaluationError::Condition { rule, source } => EvaluationErrorView::Condition {
                rule: rule@,
                source: *source,
            },
            EvaluationError::Template { rule, source } => EvaluationErrorView::Template {
                rule: rule@,
                source: *source,
            },
            EvaluationError::NamelessFile => EvaluationErrorView::NamelessFile,
        }
    }
}

/// The text that describes an error.
pub open spec fn evaluation_error_text(e: EvaluationError) -> Seq<char> {
    match e {
        EvaluationError::Condition { rule, .. } => "a condition of rule '"@ + rule@ + "' could not be evaluated"@,
        EvaluationError::Template { rule, .. } => "a rename template of rule '"@ + rule@ + "' could not be applied"@,
        EvaluationError::NamelessFile => "the file has no usable name"@,
    }
}

/// `before`, then `name`, then `after`.
fn quoted(before: &str, name: &String, after: &str) -> (r: String)
    ensures
        r@ == before@ + name@ + after@,
{
    let mut text = chars_of(before);
    let middle = chars_of(name.as_str());
    append_chars(&mut text, &middle);
    let tail = chars_of(after);
    append_chars(&mut text, &tail);
    string_of(&text)
}

impl EvaluationError {
    /// The message that describes the error.
    pub fn message(&self) -> (r: String)
        ensures
            r@ == evaluation_error_text(*self),
    {
        match self {
            EvaluationError::Condition { rule, .. } => quoted("a condition of rule '", rule, "' could not be evaluated"),
            EvaluationError::Template { rule, .. } => quoted("a rename template of rule '", rule, "' could not be applied"),
            EvaluationError::NamelessFile => String::from_str("the file has no usable name"),
        }
    }
}

/// When planning happens and which number the file gets in its batch.
#[derive(Debug, Clone, Copy, PartialEq, Eq, Structural)]
pub struct PlanContext {
    /// The current time, in nanoseconds since the Unix epoch.
    pub now: i128,
    /// The running number of the file within the batch.
    pub counter: u32,
}

/// The outcomes of `conds`, in order; the first error stops the evaluation.
pub open spec fn outcomes(conds: Seq<Condition>, facts: FileFacts, now: i128) -> Result<Seq<bool>, ConditionError>
    decreases conds.len(),
{
    if conds.len() == 0 {
        Ok(Seq::empty())
    } else {
        match condition_outcome(conds[0], facts, now) {
            Err(e) => Err(e),
            Ok(b) => match outcomes(conds.drop_first(), facts, now) {
                Err(e) => Err(e),
                Ok(rest) => Ok(seq![b] + rest),
            },
        }
    }
}

/// Every outcome holds.
pub open spec fn all_true(bs: Seq<bool>) -> bool {
    forall|i: int| 0 <= i < bs.len() ==> #[trigger] bs[i]
}

/// Some outcome holds.
pub open spec fn any_true(bs: Seq<bool>) -> bool {
    exists|i: int| 0 <= i < bs.len() && #[trigger] bs[i]
}

/// Whether a rule selects the file. A rule without conditions selects nothing.
pub open spec fn rule_applies(rule: Rule, facts: FileFacts, now: i128) -> Result<bool, ConditionError> {
    if rule.conditions@.len() == 0 {
        Ok(false)
    } else {
        match outcomes(rule.conditions@, facts, now) {
            Err(e) => Err(e),
            Ok(bs) => Ok(
                match rule.combinator {
                    Combinator::All => all_true(bs),
                    Combinator::Any => any_true(bs),
                },
            ),
        }
    }
}

/// A template error attributed to a rule.
pub open spec fn template_error(rule: Rule, e: TemplateError) -> EvaluationErrorView {
    EvaluationErrorView::Template { rule: rule.name@, source: e }
}

/// The folder a move or copy lands in: `folder`, below the rendered subfolder if any.
pub open spec fn target_folder(
    rule: Rule,
    folder: Seq<char>,
    subfolder: Option<String>,
    facts: FileFacts,
    ctx: PlanContext,
    date: CalendarDate,
) -> Result<Seq<char>, EvaluationErrorView> {
    match subfolder {
        None => Ok(folder),
        Some(t) => match rendered_folder(t@, facts.path@, date, ctx.counter) {
            Err(e) => Err(template_error(rule, e)),
            Ok(rel) => Ok(join(folder, rel)),
        },
    }
}

/// The name a move or copy gives the file: the rendered template, or its own name.
pub open spec fn target_name(
    rule: Rule,
    rename: Option<String>,
    facts: FileFacts,
    ctx: PlanContext,
    date: CalendarDate,
) -> Result<Seq<char>, EvaluationErrorView> {
    match rename {
        Some(t) => match rendered(t@, facts.path@, date, ctx.counter) {
            Err(e) => Err(template_error(rule, e)),
            Ok(n) => Ok(n),
        },
        None => match file_name(facts.path@) {
            Some(n) => Ok(n),
            None => Err(EvaluationErrorView::NamelessFile),
        },
    }
}

/// Where a move or copy takes the file.
pub open spec fn target_path(
    rule: Rule,
    folder: Seq<char>,
    subfolder: Option<String>,
    rename: Option<String>,
    facts: FileFacts,
    ctx: PlanContext,
    date: CalendarDate,
) -> Result<Seq<char>, EvaluationErrorView> {
    match target_folder(rule, folder, subfolder, facts, ctx, date) {
        Err(e) => Err(e),
        Ok(dir) => match target_name(rule, rename, facts, ctx, date) {
            Err(e) => Err(e),
            Ok(name) => Ok(join(dir, name)),
        },
    }
}

/// The operation one action of a rule asks for.
pub open spec fn action_operation(
    rule: Rule,
    action: Action,
    facts: FileFacts,
    ctx: PlanContext,
    date: CalendarDate,
) -> Result<OperationView, EvaluationErrorView> {
    let from = facts.path@;
    match action {
        Action::MoveTo { folder, subfolder, rename } => match target_path(rule, folder@, subfolder, rename, facts, ctx, date) {
            Err(e) => Err(e),
            Ok(to) => Ok(OperationView::Move { from, to }),
        },
        Action::CopyTo { folder, subfolder, rename } => match target_path(rule, folder@, subfolder, rename, facts, ctx, date) {
            Err(e) => Err(e),
            Ok(to) => Ok(OperationView::Copy { from, to }),
        },
        Action::RenameTo { template } => match parent_components(from) {
            None => Err(EvaluationErrorView::NamelessFile),
            Some(parent) => match rendered(template@, from, date, ctx.counter) {
                Err(e) => Err(template_error(rule, e)),
                Ok(name) => Ok(OperationView::Move { from, to: join(text_of(parent), name) }),
            },
        },
        Action::Trash => Ok(OperationView::Trash { from }),
    }
}

/// The operations of a list of actions, in order; the first error stops.
pub open spec fn actions_operations(
    rule: Rule,
    actions: Seq<Action>,
    facts: FileFacts,
    ctx: PlanContext,
    date: CalendarDate,
) -> Result<Seq<OperationView>, EvaluationErrorView>
    decreases actions.len(),
{
    if actions.len() == 0 {
        Ok(Seq::empty())
    } else {
        match action_operation(rule, actions[0], facts, ctx, date) {
            Err(e) => Err(e),
            Ok(op) => match actions_operations(rule, actions.drop_first(), facts, ctx, date) {
                Err(e) => Err(e),
                Ok(rest) => Ok(seq![op] + rest),
            },
        }
    }
}

/// The plan for a file: the operations of the first enabled rule that
/// selects it, or nothing when no rule does.
pub open spec fn planned(
    rules: Seq<Rule>,
    facts: FileFacts,
    ctx: PlanContext,
    date: CalendarDate,
) -> Result<Seq<OperationView>, EvaluationErrorView>
    decreases rules.len(),
{
    if rules.len() == 0 {
        Ok(Seq::empty())
    } else if !rules[0].enabled {
        planned(rules.drop_first(), facts, ctx, date)
    } else {
        match rule_applies(rules[0], facts, ctx.now) {
            Err(e) => Err(EvaluationErrorView::Condition { rule: rules[0].name@, source: e }),
            Ok(true) => actions_operations(rules[0], rules[0].actions@, facts, ctx, date),
            Ok(false) => planned(rules.drop_first(), facts, ctx, date),
        }
    }
}

/// The views of a list of operations.
pub open spec fn operation_views(ops: Seq<Operation>) -> Seq<OperationView> {
    Seq::new(ops.len(), |i: int| ops[i]@)
}


/// Evaluates every condition of a rule against the file.
fn applies(rule: &Rule, facts: &FileFacts, now: i128, cache: &mut Patterns) -> (r: Result<bool, EvaluationError>)
    requires
        old(cache).wf(),
        system_moment(facts.modified),
        system_moment(now),
    ensures
        final(cache).wf(),
        match r {
            Ok(b) => rule_applies(*rule, *facts, now) == Ok::<bool, ConditionError>(b),
            Err(e) => rule_applies(*rule, *facts, now) matches Err(c) && e@ == EvaluationErrorView::Condition {
                rule: rule.name@,
                source: c,
            },
        },
{
    if rule.conditions.len() == 0 {
        return Ok(false);
    }
    let conds = &rule.conditions;
    let mut found: Vec<bool> = Vec::new();
    let mut i: usize = 0;
    assert(conds@.subrange(0, conds.len() as int) =~= conds@);
    assert(found@ + Seq::<bool>::empty() =~= found@);
    while i < conds.len()
        invariant
            i <= conds.len(),
            conds@ == rule.conditions@,
            conds@.len() > 0,
            cache.wf(),
            system_moment(facts.modified),
            system_moment(now),
            match outcomes(conds@.subrange(i as int, conds.len() as int), *facts, now) {
                Ok(rest) => outcomes(conds@, *facts, now) == Ok::<Seq<bool>, ConditionError>(found@ + rest),
                Err(e) => outcomes(conds@, *facts, now) == Err::<Seq<bool>, ConditionError>(e),
            },
        decreases conds.len() - i,
    {
        let ghost tail = conds@.subrange(i as int, conds.len() as int);
        assert(tail.drop_first() =~= conds@.subrange(i + 1, conds.len() as int));
        assert(tail[0] == conds@[i as int]);
        match conds[i].matches(facts, now, cache) {
            Err(source) => {
                assert(outcomes(tail, *facts, now) == Err::<Seq<bool>, ConditionError>(source));
                assert(outcomes(conds@, *facts, now) == Err::<Seq<bool>, ConditionError>(source));
                return Err(EvaluationError::Condition { rule: copy_string(&rule.name), source });
            },
            Ok(b) => {
                let ghost before = found@;
                found.push(b);
                proof {
                    match outcomes(conds@.subrange(i + 1, conds.len() as int), *facts, now) {
                        Ok(rest) => {
                            assert(before + (seq![b] + rest) =~= found@ + rest);
                        },
                        Err(e) => {},
                    }
                }
            },
        }
        i = i + 1;
    }
    assert(conds@.subrange(i as int, conds.len() as int) =~= Seq::<Condition>::empty());
    assert(found@ + Seq::<bool>::empty() =~= found@);
    assert(outcomes(conds@, *facts, now) == Ok::<Seq<bool>, ConditionError>(found@));

    match rule.combinator {
        Combinator::All => {
            let mut k: usize = 0;
            while k < found.len()
                invariant
                    k <= found.len(),
                    cache.wf(),
                    rule.conditions@.len() > 0,
                    rule.combinator == Combinator::All,
                    outcomes(rule.conditions@, *facts, now) == Ok::<Seq<bool>, ConditionError>(found@),
                    forall|j: int| 0 <= j < k ==> #[trigger] found@[j],
                decreases found.len() - k,
            {
                if !found[k] {
                    assert(!found@[k as int]);
                    assert(!all_true(found@));
                    return Ok(false);
                }
                k = k + 1;
            }
            Ok(true)
        },
        Combinator::Any => {
            let mut k: usize = 0;
            while k < found.len()
                invariant
                    k <= found.len(),
                    cache.wf(),
                    rule.conditions@.len() > 0,
                    rule.combinator == Combinator::Any,
                    outcomes(rule.conditions@, *facts, now) == Ok::<Seq<bool>, ConditionError>(found@),
                    forall|j: int| 0 <= j < k ==> !#[trigger] found@[j],
                decreases found.len() - k,
            {
                if found[k] {
                    assert(found@[k as int]);
                    assert(any_true(found@));
                    return Ok(true);
                }
                k = k + 1;
            }
            Ok(false)
        },
    }
}

fn template_failure(rule: &Rule, source: TemplateError) -> (e: EvaluationError)
    ensures
        e@ == template_error(*rule, source),
{
    EvaluationError::Template { rule: copy_string(&rule.name), source }
}

fn folder_for(
    rule: &Rule,
    folder: &String,
    subfolder: &Option<String>,
    path: &Vec<char>,
    facts: &FileFacts,
    ctx: PlanContext,
    date: CalendarDate,
) -> (r: Result<Vec<char>, EvaluationError>)
    requires
        path@ == facts.path@,
    ensures
        match r {
            Ok(v) => target_folder(*rule, folder@, *subfolder, *facts, ctx, date) == Ok::<Seq<char>, EvaluationErrorView>(v@),
            Err(e) => target_folder(*rule, folder@, *subfolder, *facts, ctx, date) == Err::<Seq<char>, EvaluationErrorView>(e@),
        },
{
    let base = chars_of(folder.as_str());
    match subfolder {
        None => Ok(base),
        Some(t) => {
            let tc = chars_of(t.as_str());
            match render_subfolder_on(&tc, path, date, ctx.counter) {
                Err(e) => Err(template_failure(rule, e)),
                Ok(rel) => Ok(join_exec(&base, &rel)),
            }
        },
    }
}

fn name_for(
    rule: &Rule,
    rename: &Option<String>,
    path: &Vec<char>,
    facts: &FileFacts,
    ctx: PlanContext,
    date: CalendarDate,
) -> (r: Result<Vec<char>, EvaluationError>)
    requires
        path@ == facts.path@,
    ensures
        match r {
            Ok(v) => target_name(*rule, *rename, *facts, ctx, date) == Ok::<Seq<char>, EvaluationErrorView>(v@),
            Err(e) => target_name(*rule, *rename, *facts, ctx, date) == Err::<Seq<char>, EvaluationErrorView>(e@),
        },
{
    match rename {
        Some(t) => {
            let tc = chars_of(t.as_str());
            match render_on(&tc, path, date, ctx.counter) {
                Err(e) => Err(template_failure(rule, e)),
                Ok(n) => Ok(n),
            }
        },
        None => match file_name_exec(path) {
            Some(n) => Ok(n),
            None => Err(EvaluationError::NamelessFile),
        },
    }
}

fn path_for(
    rule: &Rule,
    folder: &String,
    subfolder: &Option<String>,
    rename: &Option<String>,
    path: &Vec<char>,
    facts: &FileFacts,
    ctx: PlanContext,
    date: CalendarDate,
) -> (r: Result<String, EvaluationError>)
    requires
        path@ == facts.path@,
    ensures
        match r {
            Ok(v) => target_path(*rule, folder@, *subfolder, *rename, *facts, ctx, date) == Ok::<Seq<char>, EvaluationErrorView>(v@),
            Err(e) => target_path(*rule, folder@, *subfolder, *rename, *facts, ctx, date) == Err::<Seq<char>, EvaluationErrorView>(e@),
        },
{
    let dir = match folder_for(rule, folder, subfolder, path, facts, ctx, date) {
        Ok(d) => d,
        Err(e) => return Err(e),
    };
    let name = match name_for(rule, rename, path, facts, ctx, date) {
        Ok(n) => n,
        Err(e) => return Err(e),
    };
    Ok(string_of(&join_exec(&dir, &name)))
}

/// The operation one action asks for.
fn operation_for(rule: &Rule, action: &Action, facts: &FileFacts, ctx: PlanContext, date: CalendarDate) -> (r: Result<
    Operation,
    EvaluationError,
>)
    ensures
        match r {
            Ok(op) => action_operation(*rule, *action, *facts, ctx, date) == Ok::<OperationView, EvaluationErrorView>(op@),
            Err(e) => action_operation(*rule, *action, *facts, ctx, date) == Err::<OperationView, EvaluationErrorView>(e@),
        },
{
    let path = chars_of(facts.path.as_str());
    match action {
        Action::MoveTo { folder, subfolder, rename } => match path_for(rule, folder, subfolder, rename, &path, facts, ctx, date) {
            Ok(to) => Ok(Operation::Move { from: copy_string(&facts.path), to }),
            Err(e) => Err(e),
        },
        Action::CopyTo { folder, subfolder, rename } => match path_for(rule, folder, subfolder, rename, &path, facts, ctx, date) {
            Ok(to) => Ok(Operation::Copy { from: copy_string(&facts.path), to }),
            Err(e) => Err(e),
        },
        Action::RenameTo { template } => match parent_exec(&path) {
            None => Err(EvaluationError::NamelessFile),
            Some(parent) => {
                let tc = chars_of(template.as_str());
                match render_on(&tc, &path, date, ctx.counter) {
                    Err(e) => Err(template_failure(rule, e)),
                    Ok(name) => Ok(Operation::Move { from: copy_string(&facts.path), to: string_of(&join_exec(&parent, &name)) }),
                }
            },
        },
        Action::Trash => Ok(Operation::Trash { from: copy_string(&facts.path) }),
    }
}

/// The operations of every action of a rule.
fn operations(rule: &Rule, facts: &FileFacts, ctx: PlanContext, date: CalendarDate) -> (r: Result<Vec<Operation>, EvaluationError>)
    ensures
        match r {
            Ok(ops) => actions_operations(*rule, rule.actions@, *facts, ctx, date) == Ok::<Seq<OperationView>, EvaluationErrorView>(operation_views(ops@)),
            Err(e) => actions_operations(*rule, rule.actions@, *facts, ctx, date) == Err::<Seq<OperationView>, EvaluationErrorView>(e@),
        },
{
    let actions = &rule.actions;
    let mut out: Vec<Operation> = Vec::new();
    let mut i: usize = 0;
    assert(actions@.subrange(0, actions.len() as int) =~= actions@);
    assert(operation_views(out@) + Seq::<OperationView>::empty() =~= operation_views(out@));
    while i < actions.len()
        invariant
            i <= actions.len(),
            actions@ == rule.actions@,
            match actions_operations(*rule, actions@.subrange(i as int, actions.len() as int), *facts, ctx, date) {
                Ok(rest) => actions_operations(*rule, actions@, *facts, ctx, date) == Ok::<Seq<OperationView>, EvaluationErrorView>(operation_views(out@) + rest),
                Err(e) => actions_operations(*rule, actions@, *facts, ctx, date) == Err::<Seq<OperationView>, EvaluationErrorView>(e),
            },
        decreases actions.len() - i,
    {
        let ghost tail = actions@.subrange(i as int, actions.len() as int);
        assert(tail.drop_first() =~= actions@.subrange(i + 1, actions.len() as int));
        assert(tail[0] == actions@[i as int]);
        match operation_for(rule, &actions[i], facts, ctx, date) {
            Err(e) => {
                assert(actions_operations(*rule, tail, *facts, ctx, date) == Err::<Seq<OperationView>, EvaluationErrorView>(e@));
                return Err(e);
            },
            Ok(op) => {
                let ghost before = operation_views(out@);
                let ghost v = op@;
                out.push(op);
                assert(operation_views(out@) =~= before.push(v));
                proof {
                    match actions_operations(*rule, actions@.subrange(i + 1, actions.len() as int), *facts, ctx, date) {
                        Ok(rest) => {
                            assert(before + (seq![v] + rest) =~= operation_views(out@) + rest);
                        },
                        Err(e) => {},
                    }
                }
            },
        }
        i = i + 1;
    }
    assert(actions@.subrange(i as int, actions.len() as int) =~= Seq::<Action>::empty());
    assert(operation_views(out@) + Seq::<OperationView>::empty() =~= operation_views(out@));
    Ok(out)
}

/// The plan for a file once its local date is known.
pub fn plan_on(rules: &Vec<Rule>, facts: &FileFacts, context: PlanContext, date: CalendarDate, cache: &mut Patterns) -> (r: Result<
    Vec<Operation>,
    EvaluationError,
>)
    requires
        old(cache).wf(),
        system_moment(facts.modified),
        system_moment(context.now),
    ensures
        final(cache).wf(),
        match r {
            Ok(ops) => planned(rules@, *facts, context, date) == Ok::<Seq<OperationView>, EvaluationErrorView>(operation_views(ops@)),
            Err(e) => planned(rules@, *facts, context, date) == Err::<Seq<OperationView>, EvaluationErrorView>(e@),
        },
{
    let mut i: usize = 0;
    assert(rules@.subrange(0, rules.len() as int) =~= rules@);
    while i < rules.len()
        invariant
            i <= rules.len(),
            cache.wf(),
            system_moment(facts.modified),
            system_moment(context.now),
            planned(rules@, *facts, context, date) == planned(rules@.subrange(i as int, rules.len() as int), *facts, context, date),
        decreases rules.len() - i,
    {
        let ghost tail = rules@.subrange(i as int, rules.len() as int);
        assert(tail.drop_first() =~= rules@.subrange(i + 1, rules.len() as int));
        assert(tail[0] == rules@[i as int]);
        let rule = &rules[i];
        if rule.enabled {
            match applies(rule, facts, context.now, cache) {
                Err(e) => {
                    return Err(e);
                },
                Ok(true) => {
                    return operations(rule, facts, context, date);
                },
                Ok(false) => {},
            }
        }
        i = i + 1;
    }
    assert(rules@.subrange(i as int, rules.len() as int) =~= Seq::<Rule>::empty());
    let none: Vec<Operation> = Vec::new();
    assert(operation_views(none@) =~= Seq::<OperationView>::empty());
    Ok(none)
}

/// The operations that the rules call for on one file: those of the first
/// enabled rule whose conditions hold, or none. The date placeholders take the
/// file's modification time in the machine's local time zone, so the plan is
/// the one for some valid calendar date.
pub fn plan(rules: &Vec<Rule>, facts: &FileFacts, context: PlanContext, cache: &mut Patterns) -> (r: Result<
    Vec<Operation>,
    EvaluationError,
>)
    requires
        old(cache).wf(),
        system_moment(facts.modified),
        calendar_moment(facts.modified) || !deciding_rule_reads_date(rules@, *facts, context.now),
        system_moment(context.now),
    ensures
        final(cache).wf(),
        exists|d: CalendarDate|
            #![trigger planned(rules@, *facts, context, d)]
            date_of_file(facts.modified, d) && match r {
                Ok(ops) => planned(rules@, *facts, context, d) == Ok::<Seq<OperationView>, EvaluationErrorView>(operation_views(ops@)),
                Err(e) => planned(rules@, *facts, context, d) == Err::<Seq<OperationView>, EvaluationErrorView>(e@),
            },
        !deciding_rule_reads_date(rules@, *facts, context.now) ==> forall|d: CalendarDate|
            #![trigger planned(rules@, *facts, context, d)]
            match r {
                Ok(ops) => planned(rules@, *facts, context, d) == Ok::<Seq<OperationView>, EvaluationErrorView>(operation_views(ops@)),
                Err(e) => planned(rules@, *facts, context, d) == Err::<Seq<OperationView>, EvaluationErrorView>(e@),
            },
{
    let date = date_for(facts.modified);
    let r = plan_on(rules, facts, context, date, cache);
    proof {
        if !deciding_rule_reads_date(rules@, *facts, context.now) {
            assert forall|d: CalendarDate| #[trigger] planned(rules@, *facts, context, d) == planned(rules@, *facts, context, date) by {
                lemma_plan_date_free(rules@, *facts, context, d, date);
            }
        }
    }
    r
}

/// A template of an action that reads the date.
pub open spec fn template_needs_date(t: Option<String>) -> bool {
    match t {
        Some(x) => date_needed(x@),
        None => false,
    }
}

/// An action whose templates read the date.
pub open spec fn action_needs_date(a: Action) -> bool {
    match a {
        Action::MoveTo { subfolder, rename, .. } => template_needs_date(subfolder) || template_needs_date(rename),
        Action::CopyTo { subfolder, rename, .. } => template_needs_date(subfolder) || template_needs_date(rename),
        Action::RenameTo { template } => date_needed(template@),
        Action::Trash => false,
    }
}

/// Some action of the rule reads the date of the file.
pub open spec fn rule_needs_date(rule: Rule) -> bool {
    exists|j: int| 0 <= j < rule.actions@.len() && #[trigger] action_needs_date(rule.actions@[j])
}

/// The rule that decides the plan of the file (the first enabled rule whose
/// conditions hold, picked as `planned` picks it) has an action that reads
/// the file's date. False when no rule selects the file, or when a condition
/// fails first.
pub open spec fn deciding_rule_reads_date(rules: Seq<Rule>, facts: FileFacts, now: i128) -> bool
    decreases rules.len(),
{
    if rules.len() == 0 {
        false
    } else if !rules[0].enabled {
        deciding_rule_reads_date(rules.drop_first(), facts, now)
    } else {
        match rule_applies(rules[0], facts, now) {
            Err(_) => false,
            Ok(true) => rule_needs_date(rules[0]),
            Ok(false) => deciding_rule_reads_date(rules.drop_first(), facts, now),
        }
    }
}

fn template_needs_date_exec(t: &Option<String>) -> (r: bool)
    ensures
        r == template_needs_date(*t),
{
    match t {
        Some(x) => {
            let c = chars_of(x.as_str());
            date_needed_exec(&c)
        },
        None => false,
    }
}

fn action_needs_date_exec(a: &Action) -> (r: bool)
    ensures
        r == action_needs_date(*a),
{
    match a {
        Action::MoveTo { subfolder, rename, .. } => template_needs_date_exec(subfolder) || template_needs_date_exec(rename),
        Action::CopyTo { subfolder, rename, .. } => template_needs_date_exec(subfolder) || template_needs_date_exec(rename),
        Action::RenameTo { template } => {
            let c = chars_of(template.as_str());
            date_needed_exec(&c)
        },
        Action::Trash => false,
    }
}

fn rule_needs_date_exec(rule: &Rule) -> (r: bool)
    ensures
        r == rule_needs_date(*rule),
{
    let mut j: usize = 0;
    while j < rule.actions.len()
        invariant
            j <= rule.actions@.len(),
            forall|k: int| 0 <= k < j ==> !#[trigger] action_needs_date(rule.actions@[k]),
        decreases rule.actions@.len() - j,
    {
        if action_needs_date_exec(&rule.actions[j]) {
            assert(action_needs_date(rule.actions@[j as int]));
            return true;
        }
        j = j + 1;
    }
    false
}

/// Whether the rule that decides the plan of the file reads its date: the
/// conditions are evaluated as `plan` evaluates them, and no template is
/// rendered.
pub fn deciding_rule_reads_date_exec(rules: &Vec<Rule>, facts: &FileFacts, now: i128, cache: &mut Patterns) -> (r: bool)
    requires
        old(cache).wf(),
        system_moment(facts.modified),
        system_moment(now),
    ensures
        final(cache).wf(),
        r == deciding_rule_reads_date(rules@, *facts, now),
{
    let mut i: usize = 0;
    assert(rules@.subrange(0, rules.len() as int) =~= rules@);
    while i < rules.len()
        invariant
            i <= rules.len(),
            cache.wf(),
            system_moment(facts.modified),
            system_moment(now),
            deciding_rule_reads_date(rules@, *facts, now) == deciding_rule_reads_date(rules@.subrange(i as int, rules.len() as int), *facts, now),
        decreases rules.len() - i,
    {
        let ghost tail = rules@.subrange(i as int, rules.len() as int);
        assert(tail.drop_first() =~= rules@.subrange(i + 1, rules.len() as int));
        assert(tail[0] == rules@[i as int]);
        let rule = &rules[i];
        if rule.enabled {
            match applies(rule, facts, now, cache) {
                Err(_) => {
                    return false;
                },
                Ok(true) => {
                    return rule_needs_date_exec(rule);
                },
                Ok(false) => {},
            }
        }
        i = i + 1;
    }
    assert(rules@.subrange(i as int, rules.len() as int) =~= Seq::<Rule>::empty());
    false
}

/// An action none of whose templates reads the date asks for the same
/// operation whatever the date.
pub proof fn lemma_action_date_free(
    rule: Rule,
    action: Action,
    facts: FileFacts,
    ctx: PlanContext,
    d1: CalendarDate,
    d2: CalendarDate,
)
    requires
        !action_needs_date(action),
    ensures
        action_operation(rule, action, facts, ctx, d1) == action_operation(rule, action, facts, ctx, d2),
{
    match action {
        Action::MoveTo { subfolder, rename, .. } | Action::CopyTo { subfolder, rename, .. } => {
            if let Some(t) = subfolder {
                lemma_rendering_date_free(t@, facts.path@, d1, d2, ctx.counter);
            }
            if let Some(t) = rename {
                lemma_rendering_date_free(t@, facts.path@, d1, d2, ctx.counter);
            }
        },
        Action::RenameTo { template } => {
            lemma_rendering_date_free(template@, facts.path@, d1, d2, ctx.counter);
        },
        Action::Trash => {},
    }
}

/// Actions none of which reads the date ask for the same operations whatever
/// the date.
proof fn lemma_actions_date_free(
    rule: Rule,
    actions: Seq<Action>,
    facts: FileFacts,
    ctx: PlanContext,
    d1: CalendarDate,
    d2: CalendarDate,
)
    requires
        forall|j: int| 0 <= j < actions.len() ==> !#[trigger] action_needs_date(actions[j]),
    ensures
        actions_operations(rule, actions, facts, ctx, d1) == actions_operations(rule, actions, facts, ctx, d2),
    decreases actions.len(),
{
    if actions.len() > 0 {
        assert(!action_needs_date(actions[0]));
        lemma_action_date_free(rule, actions[0], facts, ctx, d1, d2);
        let rest = actions.drop_first();
        assert forall|j: int| 0 <= j < rest.len() implies !#[trigger] action_needs_date(rest[j]) by {
            assert(rest[j] == actions[j + 1]);
        }
        lemma_actions_date_free(rule, rest, facts, ctx, d1, d2);
    }
}

/// Law: where the rule that decides the file's plan reads no date, the plan
/// is the same whatever the date.
pub proof fn lemma_plan_date_free(rules: Seq<Rule>, facts: FileFacts, ctx: PlanContext, d1: CalendarDate, d2: CalendarDate)
    requires
        !deciding_rule_reads_date(rules, facts, ctx.now),
    ensures
        planned(rules, facts, ctx, d1) == planned(rules, facts, ctx, d2),
    decreases rules.len(),
{
    if rules.len() > 0 {
        if !rules[0].enabled {
            lemma_plan_date_free(rules.drop_first(), facts, ctx, d1, d2);
        } else {
            match rule_applies(rules[0], facts, ctx.now) {
                Err(_) => {},
                Ok(true) => {
                    lemma_actions_date_free(rules[0], rules[0].actions@, facts, ctx, d1, d2);
                },
                Ok(false) => {
                    lemma_plan_date_free(rules.drop_first(), facts, ctx, d1, d2);
                },
            }
        }
    }
}

/// Law: the first enabled rule that selects the file decides its plan; the
/// rules after it are never consulted.
pub proof fn lemma_first_selecting_rule_decides(
    rules: Seq<Rule>,
    facts: FileFacts,
    ctx: PlanContext,
    date: CalendarDate,
    k: int,
)
    requires
        0 <= k < rules.len(),
        rules[k].enabled,
        rule_applies(rules[k], facts, ctx.now) == Ok::<bool, ConditionError>(true),
        forall|j: int| 0 <= j < k ==> !(#[trigger] rules[j]).enabled || rule_applies(rules[j], facts, ctx.now) == Ok::<bool, ConditionError>(false),
    ensures
        planned(rules, facts, ctx, date) == actions_operations(rules[k], rules[k].actions@, facts, ctx, date),
    decreases k,
{
    if k > 0 {
        assert(!rules[0].enabled || rule_applies(rules[0], facts, ctx.now) == Ok::<bool, ConditionError>(false));
        let rest = rules.drop_first();
        assert forall|j: int| 0 <= j < k - 1 implies !(#[trigger] rest[j]).enabled || rule_applies(rest[j], facts, ctx.now) == Ok::<bool, ConditionError>(false) by {
            assert(rest[j] == rules[j + 1]);
        }
        lemma_first_selecting_rule_decides(rest, facts, ctx, date, k - 1);
    }
}

/// Law: a disabled rule has no effect on any plan.
pub proof fn lemma_disabled_rule_is_ignored(
    rules: Seq<Rule>,
    facts: FileFacts,
    ctx: PlanContext,
    date: CalendarDate,
    i: int,
)
    requires
        0 <= i < rules.len(),
        !rules[i].enabled,
    ensures
        planned(rules.remove(i), facts, ctx, date) == planned(rules, facts, ctx, date),
    decreases i,
{
    if i == 0 {
        assert(rules.remove(0) =~= rules.drop_first());
    } else {
        let rest = rules.drop_first();
        lemma_disabled_rule_is_ignored(rest, facts, ctx, date, i - 1);
        assert(rules.remove(i).drop_first() =~= rest.remove(i - 1));
        assert(rules.remove(i)[0] == rules[0]);
    }
}

/// Law: a rule without conditions selects no file at all.
pub proof fn lemma_rule_without_conditions_never_applies(rule: Rule, facts: FileFacts, now: i128)
    requires
        rule.conditions@.len() == 0,
    ensures
        rule_applies(rule, facts, now) == Ok::<bool, ConditionError>(false),
{
}

/// Law: when no enabled rule selects the file, nothing is planned for it.
pub proof fn lemma_unselected_file_is_left_alone(
    rules: Seq<Rule>,
    facts: FileFacts,
    ctx: PlanContext,
    date: CalendarDate,
)
    requires
        forall|j: int| 0 <= j < rules.len() ==> !(#[trigger] rules[j]).enabled || rule_applies(rules[j], facts, ctx.now) == Ok::<bool, ConditionError>(false),
    ensures
        planned(rules, facts, ctx, date) == Ok::<Seq<OperationView>, EvaluationErrorView>(Seq::empty()),
    decreases rules.len(),
{
    if rules.len() > 0 {
        let rest = rules.drop_first();
        assert(!rules[0].enabled || rule_applies(rules[0], facts, ctx.now) == Ok::<bool, ConditionError>(false));
        assert forall|j: int| 0 <= j < rest.len() implies !(#[trigger] rest[j]).enabled || rule_applies(rest[j], facts, ctx.now) == Ok::<bool, ConditionError>(false) by {
            assert(rest[j] == rules[j + 1]);
        }
        lemma_unselected_file_is_left_alone(rest, facts, ctx, date);
    }
}

/// Law: every operation a plan holds starts from the file it was planned for,
/// and a plan holds exactly one operation per action of the deciding rule.
pub proof fn lemma_actions_map_one_to_one(
    rule: Rule,
    actions: Seq<Action>,
    facts: FileFacts,
    ctx: PlanContext,
    date: CalendarDate,
)
    requires
        actions_operations(rule, actions, facts, ctx, date) is Ok,
    ensures
        ({
            let ops = actions_operations(rule, actions, facts, ctx, date)->Ok_0;
            &&& ops.len() == actions.len()
            &&& forall|i: int| 0 <= i < ops.len() ==> crate::journal::source_of(#[trigger] ops[i]) == facts.path@
        }),
    decreases actions.len(),
{
    if actions.len() > 0 {
        lemma_actions_map_one_to_one(rule, actions.drop_first(), facts, ctx, date);
        let ops = actions_operations(rule, actions, facts, ctx, date)->Ok_0;
        let rest = actions_operations(rule, actions.drop_first(), facts, ctx, date)->Ok_0;
        assert forall|i: int| 0 <= i < ops.len() implies crate::journal::source_of(#[trigger] ops[i]) == facts.path@ by {
            if i > 0 {
                assert(ops[i] == rest[i - 1]);
            }
        }
    }
}

/// The rules that can ever select a file: enabled ones with at least one condition.
pub open spec fn active_rules(rules: Seq<Rule>) -> Seq<Rule>
    decreases rules.len(),
{
    if rules.len() == 0 {
        rules
    } else if rules[0].enabled && rules[0].conditions@.len() > 0 {
        seq![rules[0]] + active_rules(rules.drop_first())
    } else {
        active_rules(rules.drop_first())
    }
}

/// Law: planning over the rules is planning over the enabled rules that have
/// conditions; disabled rules and rules without conditions play no part.
pub proof fn lemma_only_active_rules_count(rules: Seq<Rule>, facts: FileFacts, ctx: PlanContext, date: CalendarDate)
    ensures
        planned(rules, facts, ctx, date) == planned(active_rules(rules), facts, ctx, date),
    decreases rules.len(),
{
    if rules.len() > 0 {
        let rest = rules.drop_first();
        lemma_only_active_rules_count(rest, facts, ctx, date);
        if rules[0].enabled && rules[0].conditions@.len() > 0 {
            let kept = seq![rules[0]] + active_rules(rest);
            assert(kept[0] == rules[0]);
            assert(kept.drop_first() =~= active_rules(rest));
        }
    }
}

/// Law: a copy lands where a move with the same folder, subfolder and
/// rename template would: both start from the file, have the same
/// destination, and fail with the same error.
pub proof fn lemma_copy_lands_where_a_move_would(
    rule: Rule,
    folder: String,
    subfolder: Option<String>,
    rename: Option<String>,
    facts: FileFacts,
    ctx: PlanContext,
    date: CalendarDate,
)
    ensures
        match (
            action_operation(rule, Action::CopyTo { folder, subfolder, rename }, facts, ctx, date),
            action_operation(rule, Action::MoveTo { folder, subfolder, rename }, facts, ctx, date),
        ) {
            (Ok(OperationView::Copy { from: cf, to: ct }), Ok(OperationView::Move { from: mf, to: mt })) => cf == facts.path@ && mf == facts.path@ && ct == mt,
            (Err(a), Err(b)) => a == b,
            _ => false,
        },
{
}

/// Law: a move with a rename template takes the file to a path whose file
/// name is the rendered template.
pub proof fn lemma_renamed_move_takes_the_rendered_name(
    rule: Rule,
    folder: String,
    subfolder: Option<String>,
    template: String,
    facts: FileFacts,
    ctx: PlanContext,
    date: CalendarDate,
)
    requires
        action_operation(rule, Action::MoveTo { folder, subfolder, rename: Some(template) }, facts, ctx, date) is Ok,
    ensures
        rendered(template@, facts.path@, date, ctx.counter) is Ok,
        action_operation(rule, Action::MoveTo { folder, subfolder, rename: Some(template) }, facts, ctx, date) matches Ok(
            OperationView::Move { from, to },
        ) && from == facts.path@ && file_name(to) == Some(rendered(template@, facts.path@, date, ctx.counter)->Ok_0),
{
    lemma_rendered_name_is_valid(template@, facts.path@, date, ctx.counter);
    let name = rendered(template@, facts.path@, date, ctx.counter)->Ok_0;
    assert forall|i: int| 0 <= i < name.len() implies name[i] != '/' by {
        assert(!forbidden_char(name[i]));
    }
    let dir = target_folder(rule, folder@, subfolder, facts, ctx, date)->Ok_0;
    lemma_file_name_of_join(dir, name);
}

} // verus!
