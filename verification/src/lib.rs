//! The logic of an interactive shell: reading command lines (quoting,
//! redirections), the builtins and their messages, the completer scripts
//! registered with `complete -C`, and tab completion of commands and file
//! names. The terminal, the file system and running programs are left to the
//! caller, which hands this library plain values.
pub mod text;
pub mod order;
pub mod lexer;
pub mod redirect;
pub mod paths;
pub mod matching;
pub mod registry;
pub mod commands;
pub mod completion;

pub use commands::{describe_type, interpret, Action};
pub use completion::{
    complete_command, complete_files, completer_reply, plan_completion, Candidate, Effect,
    FileRequest, Reply, Request, TabMemory,
};
pub use lexer::parse_command_with_quotes;
pub use matching::{
    command_matches, is_builtin, longest_common_prefix,
    longest_common_prefix_files, select_completions,
};
pub use paths::{
    expand_tilde, mode_is_executable, resolve_cd_target, resolve_relative_path, split_on,
};
pub use redirect::{parse_with_redirection, Redirection};
pub use registry::CompletionRegistry;
