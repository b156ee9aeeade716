//! Reader for line-oriented message tables: `{index}{secondary}{value}` records,
//! comments and blank lines, assembled into a dictionary keyed by
//! `(primary index, sub-index)`.

pub mod dictionary;
pub mod laws;
pub mod lexer;
pub mod msg_line;
pub mod parser;

pub use dictionary::MsgDictionary;
pub use lexer::{tokenize_msg, Entry, Line, Msg};
pub use msg_line::{LineView, MsgLine};
pub use parser::{
    build_dictionary, cp1251_line, line_from_decoded, parse_msg, parse_msg_ext, utf8_line,
};
