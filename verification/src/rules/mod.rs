//! Rules: conditions that select files and actions that say what to do with them.
pub mod condition;
pub mod evaluator;
pub mod patterns;

use vstd::prelude::*;

use condition::Condition;

verus! {

/// How the outcomes of a rule's conditions combine.
#[derive(Debug, Clone, Copy, PartialEq, Eq, Structural)]
pub enum Combinator {
    All,
    Any,
}

/// What to do with a file a rule selects.
#[derive(Debug, Clone, PartialEq, Eq)]
pub enum Action {
    /// Move into `folder`, optionally below a rendered `subfolder` and under a rendered name.
    MoveTo { folder: String, subfolder: Option<String>, rename: Option<String> },
    /// Copy into `folder`, optionally below a rendered `subfolder` and under a rendered name.
    CopyTo { folder: String, subfolder: Option<String>, rename: Option<String> },
    /// Rename in place with a template.
    RenameTo { template: String },
    /// Send to the trash.
    Trash,
}

/// A named set of conditions and the actions taken on files that meet them.
#[derive(Debug, Clone, PartialEq, Eq)]
pub struct Rule {
    pub id: String,
    pub name: String,
    pub enabled: bool,
    pub combinator: Combinator,
    pub conditions: Vec<Condition>,
    pub actions: Vec<Action>,
}

} // verus!
