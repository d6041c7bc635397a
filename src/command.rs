use vstd::prelude::*;
use vstd::string::*;

verus! {

/// A command of the interactive menu.
#[derive(Debug, PartialEq, Eq, Structural, Clone, Copy)]
pub enum Command {
    Save,
    Pick,
    MoveNext,
    Exit,
    Help,
    List,
    CreateStorage,
    OpenStorage,
    StorageList,
}

/// The command that the word `s` names, if any.
pub open spec fn command_of(s: Seq<char>) -> Option<Command> {
    if s == "save"@ {
        Some(Command::Save)
    } else if s == "pick"@ {
        Some(Command::Pick)
    } else if s == "next"@ {
        Some(Command::MoveNext)
    } else if s == "exit"@ {
        Some(Command::Exit)
    } else if s == "help"@ {
        Some(Command::Help)
    } else if s == "list"@ {
        Some(Command::List)
    } else if s == "create-storage"@ {
        Some(Command::CreateStorage)
    } else if s == "open-storage"@ {
        Some(Command::OpenStorage)
    } else if s == "storage-list"@ {
        Some(Command::StorageList)
    } else {
        None
    }
}

impl Command {
    pub fn parse(s: &str) -> (r: Option<Command>)
        ensures
            r == command_of(s@),
    {
        let word = String::from_str(s);
        if word == String::from_str("save") {
            Some(Command::Save)
        } else if word == String::from_str("pick") {
            Some(Command::Pick)
        } else if word == String::from_str("next") {
            Some(Command::MoveNext)
        } else if word == String::from_str("exit") {
            Some(Command::Exit)
        } else if word == String::from_str("help") {
            Some(Command::Help)
        } else if word == String::from_str("list") {
            Some(Command::List)
        } else if word == String::from_str("create-storage") {
            Some(Command::CreateStorage)
        } else if word == String::from_str("open-storage") {
            Some(Command::OpenStorage)
        } else if word == String::from_str("storage-list") {
            Some(Command::StorageList)
        } else {
            None
        }
    }
}

} // verus!
