//! What the program is asked to do on its command line.
use vstd::prelude::*;

use crate::text::same_text;

verus! {

/// A task for the program.
#[derive(Debug)]
pub enum Command {
    /// Serve the input bus.
    Serve,
    /// Write the dictionary to a file.
    Export(String),
    /// Write the dictionary to a file, but the file is missing.
    ExportWithoutFile,
    /// Read words from a file.
    Import(String),
    /// Read words from a file, but the file is missing.
    ImportWithoutFile,
    /// Switch the language model on.
    LlmOn,
    /// Switch the language model off.
    LlmOff,
    /// Tell how the language model is doing.
    LlmStatus,
    /// Something unknown about the language model.
    UnknownLlm(String),
    /// Tell how the program is used.
    Help,
    /// Something unknown.
    Unknown(String),
}

/// The contents of a task.
#[verifier::ext_equal]
pub enum CommandView {
    Serve,
    Export(Seq<char>),
    ExportWithoutFile,
    Import(Seq<char>),
    ImportWithoutFile,
    LlmOn,
    LlmOff,
    LlmStatus,
    UnknownLlm(Seq<char>),
    Help,
    Unknown(Seq<char>),
}

impl View for Command {
    type V = CommandView;

    open spec fn view(&self) -> CommandView {
        match self {
            Command::Serve => CommandView::Serve,
            Command::Export(p) => CommandView::Export(p@),
            Command::ExportWithoutFile => CommandView::ExportWithoutFile,
            Command::Import(p) => CommandView::Import(p@),
            Command::ImportWithoutFile => CommandView::ImportWithoutFile,
            Command::LlmOn => CommandView::LlmOn,
            Command::LlmOff => CommandView::LlmOff,
            Command::LlmStatus => CommandView::LlmStatus,
            Command::UnknownLlm(w) => CommandView::UnknownLlm(w@),
            Command::Help => CommandView::Help,
            Command::Unknown(w) => CommandView::Unknown(w@),
        }
    }
}

/// What is asked about the language model.
pub open spec fn llm_command(word: Option<Seq<char>>) -> CommandView {
    match word {
        None => CommandView::LlmStatus,
        Some(w) => if w == "on"@ {
            CommandView::LlmOn
        } else if w == "off"@ {
            CommandView::LlmOff
        } else if w == "status"@ {
            CommandView::LlmStatus
        } else {
            CommandView::UnknownLlm(w)
        },
    }
}

/// What the words behind the program's name ask for. Words behind the second
/// one do not matter.
pub open spec fn command_of(words: Seq<Seq<char>>) -> CommandView {
    if words.len() == 0 {
        CommandView::Serve
    } else {
        let second = if words.len() > 1 {
            Some(words[1])
        } else {
            None
        };
        let w = words[0];
        if w == "export"@ {
            match second {
                Some(p) => CommandView::Export(p),
                None => CommandView::ExportWithoutFile,
            }
        } else if w == "import"@ {
            match second {
                Some(p) => CommandView::Import(p),
                None => CommandView::ImportWithoutFile,
            }
        } else if w == "llm"@ {
            llm_command(second)
        } else if w == "help"@ || w == "--help"@ || w == "-h"@ {
            CommandView::Help
        } else {
            CommandView::Unknown(w)
        }
    }
}

/// What is asked about the language model.
fn parse_llm(word: &String) -> (command: Command)
    ensures
        command@ == llm_command(Some(word@)),
{
    if same_text(word.as_str(), "on") {
        Command::LlmOn
    } else if same_text(word.as_str(), "off") {
        Command::LlmOff
    } else if same_text(word.as_str(), "status") {
        Command::LlmStatus
    } else {
        Command::UnknownLlm(word.clone())
    }
}

/// What the words behind the program's name ask for.
pub fn parse_command(words: &Vec<String>) -> (command: Command)
    ensures
        command@ == command_of(words@.map_values(|w: String| w@)),
{
    let ghost all = words@.map_values(|w: String| w@);
    assert(all.len() == words@.len());
    if words.len() == 0 {
        return Command::Serve;
    }
    assert(all[0] == words@[0]@);
    let first: &str = words[0].as_str();
    let more: bool = words.len() > 1;
    if same_text(first, "export") {
        if more {
            Command::Export(words[1].clone())
        } else {
            Command::ExportWithoutFile
        }
    } else if same_text(first, "import") {
        if more {
            Command::Import(words[1].clone())
        } else {
            Command::ImportWithoutFile
        }
    } else if same_text(first, "llm") {
        if more {
            parse_llm(&words[1])
        } else {
            Command::LlmStatus
        }
    } else if same_text(first, "help") || same_text(first, "--help") || same_text(first, "-h") {
        Command::Help
    } else {
        Command::Unknown(words[0].clone())
    }
}

/// What the words on the command line ask for. Without any the program serves; `export`
/// and `import` need a file; `llm` tells how things stand unless it is told otherwise.
pub proof fn law_words_ask_for(words: Seq<Seq<char>>)
    ensures
        words.len() == 0 ==> command_of(words) == CommandView::Serve,
        words.len() == 1 && words[0] == "export"@ ==> command_of(words)
            == CommandView::ExportWithoutFile,
        words.len() > 1 && words[0] == "export"@ ==> command_of(words) == CommandView::Export(
            words[1],
        ),
        words.len() == 1 && words[0] == "import"@ ==> command_of(words)
            == CommandView::ImportWithoutFile,
        words.len() > 1 && words[0] == "import"@ ==> command_of(words) == CommandView::Import(
            words[1],
        ),
        words.len() > 0 && words[0] == "llm"@ ==> ({
            let c = command_of(words);
            if words.len() == 1 || words[1] == "status"@ {
                c == CommandView::LlmStatus
            } else if words[1] == "on"@ {
                c == CommandView::LlmOn
            } else if words[1] == "off"@ {
                c == CommandView::LlmOff
            } else {
                c == CommandView::UnknownLlm(words[1])
            }
        }),
        words.len() > 0 && (words[0] == "help"@ || words[0] == "--help"@ || words[0] == "-h"@)
            ==> command_of(words) == CommandView::Help,
        words.len() > 0 && words[0] != "export"@ && words[0] != "import"@ && words[0] != "llm"@
            && words[0] != "help"@ && words[0] != "--help"@ && words[0] != "-h"@ ==> command_of(
            words,
        ) == CommandView::Unknown(words[0]),
{
    reveal_strlit("export");
    reveal_strlit("import");
    reveal_strlit("llm");
    reveal_strlit("help");
    reveal_strlit("--help");
    reveal_strlit("-h");
    reveal_strlit("on");
    reveal_strlit("off");
    reveal_strlit("status");
    assert("export"@[0] == 'e' && "import"@[0] == 'i' && "help"@[0] == 'h' && "--help"@[0] == '-');
    assert("on"@.len() == 2 && "off"@.len() == 3 && "status"@.len() == 6);
    assert("-h"@.len() == 2 && "llm"@.len() == 3 && "help"@.len() == 4);
}

} // verus!
