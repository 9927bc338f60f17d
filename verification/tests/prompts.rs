use her::prompts::{chat_prompt, explanation_prompt, join, suggestion_prompt, summarize_prompt};

#[test]
fn explanation_with_examples_frames_the_query() {
    let prompt = explanation_prompt("tar -xzf a.tgz".to_string(), true);
    assert_eq!(
        prompt,
        format!(
            "Help explain the following in simple english.\nIt is likely a unix / powershell command.\nExplain what it does, how to use it, and 1-2 short examples.\n\nHere are some examples:\nQuestion)\nls | grep match\n\nAnswer)\nThe command 'ls | grep match' lists non-hidden files and folders in the current directory, filtered to those that contain the search term 'match'. We can use this command to search for files in the current directory, for example, 'ls | grep example', will find files or folders containing example.\n\nQuestion)\nrm -rf dir\n\nAnswer)\nThe command 'rm -rf dir' will remove the file 'dir', or if 'dir' is a folder, it will recursively delete the contents of the folder. The 'r' flag is for recursively deleting contents, and the 'f' flag is for force, meaning it will not ask for confirmation. We can use this command to delete a folder / file without having to be asked for confirmation. For example 'rm -rf git-repo' will delete 'git-repo', without us having to provide any confirmation.\n\nQuestion)\n{}\n\nAnswer)\n",
            "tar -xzf a.tgz"
        )
    );
    assert!(prompt.ends_with("Question)\ntar -xzf a.tgz\n\nAnswer)\n"));
}

#[test]
fn brief_explanation_frames_the_query() {
    let prompt = explanation_prompt("chmod".to_string(), false);
    assert_eq!(
        prompt,
        format!(
            "Help explain the following in simple english.\n                It is likely a unix / powershell command.\n                Explain what it does.\n\n                Here is the concept / command:\n                {}\n                ",
            "chmod"
        )
    );
    assert!(prompt.starts_with("Help explain the following in simple english.\n                It is likely"));
    assert!(prompt.ends_with("command:\n                chmod\n                "));
}

#[test]
fn explanation_of_an_empty_query() {
    assert_eq!(
        explanation_prompt(String::new(), false),
        format!(
            "Help explain the following in simple english.\n                It is likely a unix / powershell command.\n                Explain what it does.\n\n                Here is the concept / command:\n                {}\n                ",
            ""
        )
    );
}

#[test]
fn suggestion_holds_history_then_aliases() {
    let prompt = suggestion_prompt("git status\nls\n".to_string(), "alias gs='git status'".to_string());
    assert_eq!(
        prompt,
        format!(
            "Given the terminal history of the user, along with their current aliases, please provide suggestions for new aliases to help speed up their workflows.\n\nHistory:\n{}\n\nAliases:\n{}\n",
            "git status\nls\n", "alias gs='git status'"
        )
    );
    assert!(prompt.ends_with("History:\ngit status\nls\n\n\nAliases:\nalias gs='git status'\n"));
}

#[test]
fn summary_holds_the_file_contents() {
    let prompt = summarize_prompt("fn main() {}\n".to_string());
    assert_eq!(
        prompt,
        format!(
            "Given the contents of a file please provide a summary. The user may then ask questions regarding the file's contents.\n\nfile content:\n{}\n",
            "fn main() {}\n"
        )
    );
    assert!(prompt.ends_with("file content:\nfn main() {}\n\n"));
}

#[test]
fn chat_with_input_joins_the_words() {
    let words = vec!["how".to_string(), "do".to_string(), "I".to_string(), "rebase".to_string()];
    let prompt = chat_prompt(Some(words));
    assert_eq!(
        prompt,
        format!(
            "You are an AI assistant for the terminal, commonly referred to as 'her'. The user is likely to ask about help with unix / powershell commands, or programming related content.\nHere is the user's first input:\n{}",
            "how do I rebase"
        )
    );
    assert!(prompt.ends_with("first input:\nhow do I rebase"));
}

#[test]
fn chat_with_no_words_ends_after_the_opening() {
    assert_eq!(
        chat_prompt(Some(Vec::new())),
        format!(
            "You are an AI assistant for the terminal, commonly referred to as 'her'. The user is likely to ask about help with unix / powershell commands, or programming related content.\nHere is the user's first input:\n{}",
            ""
        )
    );
}

#[test]
fn chat_without_input_asks_for_a_greeting() {
    assert_eq!(
        chat_prompt(None),
        "You are an AI assistant for the terminal, commonly referred to as 'her'. The user is likely to ask about help with unix / powershell commands, or programming related content. Please greet the user."
    );
}

#[test]
fn join_puts_the_gap_between_neighbours_only() {
    let words = vec!["a".to_string(), "".to_string(), "b c".to_string()];
    assert_eq!(join(&words, " "), "a  b c");
    assert_eq!(join(&words, ", "), "a, , b c");
    assert_eq!(join(&words, ""), "ab c");
    assert_eq!(join(&vec!["one".to_string()], " "), "one");
    assert_eq!(join(&Vec::new(), " "), "");
}
