//! A path-and-filesystem access layer built around three elements: a
//! present-or-absent path view (`PathObj`), an owned growable path buffer
//! (`PathBuffer`), and a point-in-time metadata snapshot (`MetaSnapshot`).
//! All path text is UTF-8; path arithmetic (push, pop, parent, join,
//! strip-prefix, file-name surgery) is implemented and verified here over
//! plain bytes.  Failure is always signalled by a sentinel: an absent view,
//! a `false`/`None` result, or an extremal number.

pub mod utf8;
pub mod syntax;
pub mod path;
pub mod meta;
