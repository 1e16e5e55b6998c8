use vstd::prelude::*;

use crate::text::push_text;

verus! {

/// What to do when the target file does not exist.
#[derive(Debug, Clone, Copy, PartialEq, Eq, Structural)]
pub enum CreationPolicy {
    AlwaysCreate,
    NeverCreate,
    Prompt,
}

/// Why a missing file was not created.
#[derive(Debug, Clone, Copy, PartialEq, Eq, Structural)]
pub enum NotFoundError {
    CreationNotAllowed,
    CreationDeclined,
}

/// The next step once the target file turns out not to exist.
#[derive(Debug, Clone, Copy, PartialEq, Eq, Structural)]
pub enum MissingFileStep {
    /// Go on as if the file were empty.
    StartEmpty,
    /// Ask the user whether to create the file, then call `on_answer`.
    AskUser,
    /// Stop with this error.
    Fail(NotFoundError),
}

/// The policy that two mutually exclusive flags select.
pub open spec fn policy_of_flags(create: bool, no_create: bool) -> CreationPolicy {
    if create && !no_create {
        CreationPolicy::AlwaysCreate
    } else if no_create && !create {
        CreationPolicy::NeverCreate
    } else {
        CreationPolicy::Prompt
    }
}

/// The step for a missing file under a policy.
pub open spec fn missing_file_step(policy: CreationPolicy) -> MissingFileStep {
    match policy {
        CreationPolicy::AlwaysCreate => MissingFileStep::StartEmpty,
        CreationPolicy::NeverCreate => MissingFileStep::Fail(NotFoundError::CreationNotAllowed),
        CreationPolicy::Prompt => MissingFileStep::AskUser,
    }
}

/// The step once the user has answered the prompt.
pub open spec fn answer_step(accepted: bool) -> MissingFileStep {
    if accepted {
        MissingFileStep::StartEmpty
    } else {
        MissingFileStep::Fail(NotFoundError::CreationDeclined)
    }
}

impl CreationPolicy {
    /// `--create` selects `AlwaysCreate`, `--no-create` selects `NeverCreate`,
    /// neither selects `Prompt`.
    pub fn from_flags(create: bool, no_create: bool) -> (r: CreationPolicy)
        ensures
            r == policy_of_flags(create, no_create),
    {
        if create && !no_create {
            CreationPolicy::AlwaysCreate
        } else if no_create && !create {
            CreationPolicy::NeverCreate
        } else {
            CreationPolicy::Prompt
        }
    }
}

/// What to do when the target file does not exist.
pub fn on_missing_file(policy: CreationPolicy) -> (r: MissingFileStep)
    ensures
        r == missing_file_step(policy),
{
    match policy {
        CreationPolicy::AlwaysCreate => MissingFileStep::StartEmpty,
        CreationPolicy::NeverCreate => MissingFileStep::Fail(NotFoundError::CreationNotAllowed),
        CreationPolicy::Prompt => MissingFileStep::AskUser,
    }
}

/// What to do once the user has answered whether to create the file.
pub fn on_answer(accepted: bool) -> (r: MissingFileStep)
    ensures
        r == answer_step(accepted),
{
    if accepted {
        MissingFileStep::StartEmpty
    } else {
        MissingFileStep::Fail(NotFoundError::CreationDeclined)
    }
}

/// The question put to the user for a missing file.
pub open spec fn prompt_text_of(filename: Seq<char>) -> Seq<char> {
    filename + " does not exist. create it? (y/n) >"@
}

/// The question put to the user for a missing file, without a trailing newline.
pub fn prompt_text(filename: &str) -> (r: String)
    ensures
        r@ == prompt_text_of(filename@),
{
    let mut s = String::new();
    push_text(&mut s, filename);
    push_text(&mut s, " does not exist. create it? (y/n) >");
    s
}

/// The message of a `NotFoundError`.
pub open spec fn not_found_message(e: NotFoundError) -> Seq<char> {
    match e {
        NotFoundError::CreationNotAllowed => "file not found and creation is not allowed"@,
        NotFoundError::CreationDeclined => "file not found and user declined creation"@,
    }
}

impl NotFoundError {
    /// The message shown for this error.
    pub fn message(&self) -> (r: String)
        ensures
            r@ == not_found_message(*self),
    {
        let mut s = String::new();
        match self {
            NotFoundError::CreationNotAllowed => push_text(&mut s, "file not found and creation is not allowed"),
            NotFoundError::CreationDeclined => push_text(&mut s, "file not found and user declined creation"),
        }
        s
    }
}

} // verus!
