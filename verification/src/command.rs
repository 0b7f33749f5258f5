use vstd::prelude::*;

verus! {

/// A logical mutation of the store; one record of the log holds one command.
#[derive(Debug)]
pub enum Command {
    Put { key: String, value: String },
    Remove { key: String },
}

/// A `Command` as contracts see it: its key and value as character sequences.
pub enum CommandView {
    Put { key: Seq<char>, value: Seq<char> },
    Remove { key: Seq<char> },
}

impl CommandView {
    /// The key that the command mentions.
    pub open spec fn key(self) -> Seq<char> {
        match self {
            CommandView::Put { key, .. } => key,
            CommandView::Remove { key } => key,
        }
    }
}

impl View for Command {
    type V = CommandView;

    open spec fn view(&self) -> CommandView {
        match self {
            Command::Put { key, value } => CommandView::Put { key: key@, value: value@ },
            Command::Remove { key } => CommandView::Remove { key: key@ },
        }
    }
}

} // verus!
