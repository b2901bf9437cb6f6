//! Safety guardrails for destructive bulk operations.
use vstd::prelude::*;
use crate::text::{
    ascii_lower, ascii_upper, has_substring, has_word, str_has_word, is_ascii_text, lemma_ascii_case_folds, lowercase, starts_with,
    str_contains, str_starts_with, to_lowercase,
};

verus! {

/// The lowercase command `c` contains one of the dangerous patterns.
pub open spec fn destructive_lowered(c: Seq<char>) -> bool {
    ||| has_substring(c, "rm "@)
    ||| has_substring(c, "delete"@)
    ||| has_substring(c, "reset --hard"@)
    ||| has_substring(c, "push -f"@)
    ||| has_substring(c, "force"@)
    ||| has_substring(c, "prune"@)
    ||| has_substring(c, "drop "@)
    ||| has_substring(c, "truncate"@)
}

/// A command is destructive when its lowercase form contains one of the
/// dangerous patterns.
pub open spec fn destructive(command: Seq<char>) -> bool {
    destructive_lowered(lowercase(command))
}

/// Checks if a command string contains potentially destructive patterns.
///
/// Returns `true` if the command is considered "dangerous".
pub fn is_destructive(command: &str) -> (r: bool)
    ensures
        r == destructive(command@),
        is_ascii_text(command@) ==> r == destructive_lowered(ascii_lower(command@)),
{
    let lower = to_lowercase(command);
    let c = lower.as_str();
    str_contains(c, "rm ") || str_contains(c, "delete") || str_contains(c, "reset --hard")
        || str_contains(c, "push -f") || str_contains(c, "force") || str_contains(c, "prune")
        || str_contains(c, "drop ") || str_contains(c, "truncate")
}

/// The stack mismatch rule, over the lowercase command `c` and the
/// lowercase project stack `s`. A Go command asks for `go` or `golang` as a
/// word of the stack, so that a stack such as `django` is not taken for Go.
pub open spec fn mismatch_lowered(c: Seq<char>, s: Seq<char>) -> bool {
    ||| starts_with(c, "cargo "@) && !has_substring(s, "rust"@)
    ||| (starts_with(c, "npm "@) || starts_with(c, "pnpm "@) || starts_with(c, "yarn "@))
        && !(has_substring(s, "node"@) || has_substring(s, "javascript"@) || has_substring(
        s,
        "typescript"@,
    ))
    ||| starts_with(c, "go "@) && !(has_word(s, "go"@) || has_word(s, "golang"@))
    ||| (starts_with(c, "python "@) || starts_with(c, "pip "@) || starts_with(c, "poetry "@))
        && !has_substring(s, "python"@)
}

/// A command names a tool of another stack than the project's.
pub open spec fn stack_mismatch(command: Seq<char>, project_stack: Seq<char>) -> bool {
    mismatch_lowered(lowercase(command), lowercase(project_stack))
}

/// Checks if a command name implies a stack that doesn't match the project stack.
pub fn is_stack_mismatch(command: &str, project_stack: &str) -> (r: bool)
    ensures
        r == stack_mismatch(command@, project_stack@),
        is_ascii_text(command@) && is_ascii_text(project_stack@) ==> r == mismatch_lowered(
            ascii_lower(command@),
            ascii_lower(project_stack@),
        ),
{
    let cmd_lower = to_lowercase(command);
    let stack_lower = to_lowercase(project_stack);
    let c = cmd_lower.as_str();
    let s = stack_lower.as_str();

    if str_starts_with(c, "cargo ") && !str_contains(s, "rust") {
        return true;
    }
    if (str_starts_with(c, "npm ") || str_starts_with(c, "pnpm ") || str_starts_with(c, "yarn "))
        && !(str_contains(s, "node") || str_contains(s, "javascript") || str_contains(
        s,
        "typescript",
    )) {
        return true;
    }
    if str_starts_with(c, "go ") && !(str_has_word(s, "go") || str_has_word(s, "golang")) {
        return true;
    }
    if (str_starts_with(c, "python ") || str_starts_with(c, "pip ") || str_starts_with(
        c,
        "poetry ",
    )) && !str_contains(s, "python") {
        return true;
    }
    false
}

/// On ASCII text, letter case does not decide whether a command is
/// destructive: the capitalised command gives the same answer.
pub proof fn lemma_destructive_ignores_case(command: Seq<char>)
    requires
        is_ascii_text(command),
    ensures
        is_ascii_text(ascii_upper(command)),
        destructive_lowered(ascii_lower(ascii_upper(command))) == destructive_lowered(ascii_lower(command)),
{
    lemma_ascii_case_folds(command);
}

/// On ASCII text, letter case does not decide whether a command mismatches
/// the project's stack: capitalising the command, the stack or both gives
/// the same answer.
pub proof fn lemma_stack_mismatch_ignores_case(command: Seq<char>, project_stack: Seq<char>)
    requires
        is_ascii_text(command),
        is_ascii_text(project_stack),
    ensures
        is_ascii_text(ascii_upper(command)),
        is_ascii_text(ascii_upper(project_stack)),
        mismatch_lowered(ascii_lower(ascii_upper(command)), ascii_lower(ascii_upper(project_stack)))
            == mismatch_lowered(ascii_lower(command), ascii_lower(project_stack)),
        mismatch_lowered(ascii_lower(ascii_upper(command)), ascii_lower(project_stack))
            == mismatch_lowered(ascii_lower(command), ascii_lower(project_stack)),
        mismatch_lowered(ascii_lower(command), ascii_lower(ascii_upper(project_stack)))
            == mismatch_lowered(ascii_lower(command), ascii_lower(project_stack)),
{
    lemma_ascii_case_folds(command);
    lemma_ascii_case_folds(project_stack);
}

} // verus!
