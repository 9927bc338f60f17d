//! The prompts that frame a request to the language model.
use vstd::prelude::*;
use vstd::string::StringExecFns;

verus! {

/// What comes before the query when examples are asked for.
pub const EXPLANATION_WITH_EXAMPLES: &'static str = "Help explain the following in simple english.\n\
    It is likely a unix / powershell command.\n\
    Explain what it does, how to use it, and 1-2 short examples.\n\
    \n\
    Here are some examples:\n\
    Question)\n\
    ls | grep match\n\
    \n\
    Answer)\n\
    The command 'ls | grep match' lists non-hidden files and folders in the current directory, filtered to those that contain the search term 'match'. We can use this command to search for files in the current directory, for example, 'ls | grep example', will find files or folders containing example.\n\
    \n\
    Question)\n\
    rm -rf dir\n\
    \n\
    Answer)\n\
    The command 'rm -rf dir' will remove the file 'dir', or if 'dir' is a folder, it will recursively delete the contents of the folder. The 'r' flag is for recursively deleting contents, and the 'f' flag is for force, meaning it will not ask for confirmation. We can use this command to delete a folder / file without having to be asked for confirmation. For example 'rm -rf git-repo' will delete 'git-repo', without us having to provide any confirmation.\n\
    \n\
    Question)\n";

/// What follows the query when examples are asked for.
pub const EXPLANATION_ANSWER: &'static str = "\n\
    \n\
    Answer)\n";

/// What comes before the query when no examples are asked for.
pub const EXPLANATION_BRIEF: &'static str = "Help explain the following in simple english.\n\
    \x20               It is likely a unix / powershell command.\n\
    \x20               Explain what it does.\n\
    \n\
    \x20               Here is the concept / command:\n\
    \x20               ";

/// What follows the query when no examples are asked for.
pub const EXPLANATION_BRIEF_END: &'static str = "\n\
    \x20               ";

/// What comes before the history in a request for alias suggestions.
pub const SUGGESTION_HISTORY: &'static str = "Given the terminal history of the user, along with their current aliases, please provide suggestions for new aliases to help speed up their workflows.\n\
    \n\
    History:\n";

/// What stands between the history and the aliases.
pub const SUGGESTION_ALIASES: &'static str = "\n\
    \n\
    Aliases:\n";

/// What follows the aliases.
pub const SUGGESTION_END: &'static str = "\n";

/// What comes before the file contents in a request for a summary.
pub const SUMMARY_CONTENT: &'static str = "Given the contents of a file please provide a summary. The user may then ask questions regarding the file's contents.\n\
    \n\
    file content:\n";

/// What follows the file contents.
pub const SUMMARY_END: &'static str = "\n";

/// What opens a chat that starts with the user's input.
pub const CHAT_FIRST_INPUT: &'static str = "You are an AI assistant for the terminal, commonly referred to as 'her'. The user is likely to ask about help with unix / powershell commands, or programming related content.\n\
    Here is the user's first input:\n";

/// What opens a chat that starts without input.
pub const CHAT_GREETING: &'static str = "You are an AI assistant for the terminal, commonly referred to as 'her'. The user is likely to ask about help with unix / powershell commands, or programming related content. Please greet the user.";

/// What parts the words of the user's input.
pub const WORD_GAP: &'static str = " ";

/// The parts in their order, with `gap` between each two neighbours.
pub open spec fn joined(parts: Seq<Seq<char>>, gap: Seq<char>) -> Seq<char>
    decreases parts.len(),
{
    if parts.len() == 0 {
        Seq::empty()
    } else if parts.len() == 1 {
        parts[0]
    } else {
        joined(parts.drop_last(), gap) + gap + parts.last()
    }
}

/// The request to explain `query`.
pub open spec fn explanation_text(query: Seq<char>, verbose: bool) -> Seq<char> {
    if verbose {
        EXPLANATION_WITH_EXAMPLES@ + query + EXPLANATION_ANSWER@
    } else {
        EXPLANATION_BRIEF@ + query + EXPLANATION_BRIEF_END@
    }
}

/// The request for alias suggestions.
pub open spec fn suggestion_text(prev_commands: Seq<char>, aliases: Seq<char>) -> Seq<char> {
    SUGGESTION_HISTORY@ + prev_commands + SUGGESTION_ALIASES@ + aliases + SUGGESTION_END@
}

/// The request to summarize a file.
pub open spec fn summary_text(file_contents: Seq<char>) -> Seq<char> {
    SUMMARY_CONTENT@ + file_contents + SUMMARY_END@
}

/// The opening of a chat.
pub open spec fn chat_text(user_input: Option<Seq<Seq<char>>>) -> Seq<char> {
    match user_input {
        Some(words) => CHAT_FIRST_INPUT@ + joined(words, WORD_GAP@),
        None => CHAT_GREETING@,
    }
}

/// Joins `parts` with `gap` between each two neighbours.
pub fn join(parts: &Vec<String>, gap: &str) -> (text: String)
    ensures
        text@ == joined(parts.deep_view(), gap@),
{
    let ghost all = parts.deep_view();
    let mut text = String::new();
    let mut i: usize = 0;
    while i < parts.len()
        invariant
            i <= parts.len(),
            all == parts.deep_view(),
            text@ == joined(all.take(i as int), gap@),
        decreases parts.len() - i,
    {
        proof {
            let next = all.take(i + 1);
            assert(next.drop_last() =~= all.take(i as int));
            assert(next.last() == parts[i as int]@);
            if i > 0 {
                assert(all.take(i as int).len() > 0);
            } else {
                assert(Seq::<char>::empty() + parts[i as int]@ =~= parts[i as int]@);
            }
        }
        if i > 0 {
            text.append(gap);
        }
        text.append(parts[i].as_str());
        i = i + 1;
    }
    assert(all.take(i as int) =~= all);
    text
}

/// Asks for an explanation of `query`: with worked examples when `verbose`,
/// in a few words otherwise.
pub fn explanation_prompt(query: String, verbose: bool) -> (prompt: String)
    ensures
        prompt@ == explanation_text(query@, verbose),
{
    if verbose {
        let mut prompt = String::from_str(EXPLANATION_WITH_EXAMPLES);
        prompt.append(query.as_str());
        prompt.append(EXPLANATION_ANSWER);
        prompt
    } else {
        let mut prompt = String::from_str(EXPLANATION_BRIEF);
        prompt.append(query.as_str());
        prompt.append(EXPLANATION_BRIEF_END);
        prompt
    }
}

/// Asks for new aliases, given the commands the user ran and the aliases the
/// user has.
pub fn suggestion_prompt(prev_commands: String, aliases: String) -> (prompt: String)
    ensures
        prompt@ == suggestion_text(prev_commands@, aliases@),
{
    let mut prompt = String::from_str(SUGGESTION_HISTORY);
    prompt.append(prev_commands.as_str());
    prompt.append(SUGGESTION_ALIASES);
    prompt.append(aliases.as_str());
    prompt.append(SUGGESTION_END);
    prompt
}

/// Asks for a summary of a file's contents.
pub fn summarize_prompt(file_contents: String) -> (prompt: String)
    ensures
        prompt@ == summary_text(file_contents@),
{
    let mut prompt = String::from_str(SUMMARY_CONTENT);
    prompt.append(file_contents.as_str());
    prompt.append(SUMMARY_END);
    prompt
}

/// Opens a chat: with the user's words, joined by single spaces, or with a
/// request to greet the user when there are none.
pub fn chat_prompt(user_input: Option<Vec<String>>) -> (prompt: String)
    ensures
        prompt@ == chat_text(
            match user_input {
                Some(words) => Some(words.deep_view()),
                None => None,
            },
        ),
{
    match user_input {
        Some(input) => {
            let mut prompt = String::from_str(CHAT_FIRST_INPUT);
            let words = join(&input, WORD_GAP);
            prompt.append(words.as_str());
            prompt
        },
        None => String::from_str(CHAT_GREETING),
    }
}

} // verus!
