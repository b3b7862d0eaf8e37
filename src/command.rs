//! The command tree of `/gamemode`.
use vstd::prelude::*;

verus! {

/// What parses an argument.
#[derive(Debug, Clone, Copy, PartialEq, Eq, Structural)]
pub enum ArgumentConsumer {
    GameMode,
    Players,
}

/// What runs at the end of a branch.
#[derive(Debug, Clone, Copy, PartialEq, Eq, Structural)]
pub enum CommandExecutor {
    /// Sets the sender's own game mode.
    GamemodeTargetSelf,
    /// Sets the game mode of the given players.
    GamemodeTargetPlayer,
}

/// One step along a branch of a command tree.
pub enum CommandNode {
    /// A named argument parsed by a consumer.
    Argument(String, ArgumentConsumer),
    /// Only a player may go on.
    RequirePlayer,
}

/// A path from the command's name to an executor.
pub struct CommandBranch {
    pub path: Vec<CommandNode>,
    pub executor: CommandExecutor,
}

/// A command: its names, its description, and its branches.
pub struct CommandTree {
    pub names: Vec<String>,
    pub description: String,
    pub branches: Vec<CommandBranch>,
}

/// Whether `n` is the argument `name` parsed by `c`.
pub open spec fn is_argument(n: CommandNode, name: Seq<char>, c: ArgumentConsumer) -> bool {
    n matches CommandNode::Argument(s, k) && s@ == name && k == c
}

/// The tree of `/gamemode <gamemode>`, which a player runs on themself, and of
/// `/gamemode <gamemode> <target>`.
pub fn init_command_tree() -> (r: CommandTree)
    ensures
        r.names@.len() == 1,
        r.names@[0]@ == "gamemode"@,
        r.description@ == "Change a player's gamemode."@,
        r.branches@.len() == 2,
        r.branches@[0].path@.len() == 2,
        is_argument(r.branches@[0].path@[0], "gamemode"@, ArgumentConsumer::GameMode),
        r.branches@[0].path@[1] matches CommandNode::RequirePlayer,
        r.branches@[0].executor == CommandExecutor::GamemodeTargetSelf,
        r.branches@[1].path@.len() == 2,
        is_argument(r.branches@[1].path@[0], "gamemode"@, ArgumentConsumer::GameMode),
        is_argument(r.branches@[1].path@[1], "target"@, ArgumentConsumer::Players),
        r.branches@[1].executor == CommandExecutor::GamemodeTargetPlayer,
{
    let mut names: Vec<String> = Vec::new();
    names.push("gamemode".to_owned());
    let mut own: Vec<CommandNode> = Vec::new();
    own.push(CommandNode::Argument("gamemode".to_owned(), ArgumentConsumer::GameMode));
    own.push(CommandNode::RequirePlayer);
    let mut others: Vec<CommandNode> = Vec::new();
    others.push(CommandNode::Argument("gamemode".to_owned(), ArgumentConsumer::GameMode));
    others.push(CommandNode::Argument("target".to_owned(), ArgumentConsumer::Players));
    let mut branches: Vec<CommandBranch> = Vec::new();
    branches.push(CommandBranch { path: own, executor: CommandExecutor::GamemodeTargetSelf });
    branches.push(CommandBranch { path: others, executor: CommandExecutor::GamemodeTargetPlayer });
    CommandTree { names, description: "Change a player's gamemode.".to_owned(), branches }
}

} // verus!
