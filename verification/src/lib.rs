//! A trigram index for regular-expression search over source trees.
//!
//! * `cindex` extracts the set of distinct three-byte trigrams from every text
//!   file and writes a compact posting-list index: `trigram`, `bitmap`,
//!   `write`, `image`, `layout`, `varint`; which directories and files it
//!   covers: `roots`, `files`, `order`, `paths`, `plan`; when it is due:
//!   `gitstate`, `hooks`.
//! * `csearch` turns a regular expression into a boolean trigram query,
//!   evaluates it against the index to get a small candidate set, and greps
//!   those files: `syntax`, `expr`, `facts`, `regexp`, `query`, `read`,
//!   `eval`, `results`, `grep`.
//!
//! That no file with a match is missed on the way is proved in `cover` (of the
//! query), `roundtrip` (of the index file) and `search` (of the whole); that the
//! query narrows the search as far as the pattern allows, in `precision`.

pub mod bitmap;
pub mod bounds;
pub mod cover;
pub mod eval;
pub mod expr;
pub mod facts;
pub mod files;
pub mod gitstate;
pub mod grep;
pub mod hooks;
pub mod image;
pub mod layout;
pub mod order;
pub mod paths;
pub mod plan;
pub mod precision;
pub mod query;
pub mod read;
pub mod regexp;
pub mod results;
pub mod roots;
pub mod roundtrip;
pub mod search;
pub mod sets;
pub mod strset;
pub mod syntax;
pub mod text;
pub mod trigram;
pub mod varint;
pub mod write;
