//! A host for gemtext sites: people keep plain-text documents in gemtext, and
//! the host shows them as HTML.
//!
//! The heart of the library is the conversion of gemtext to HTML in
//! [`gemtext2html`], with the escaping that it rests on in [`escape`]. Every
//! function states in its contract what it returns, over the characters of
//! the texts it is given, and is verified against it.
//!
//! - [`utf8`], [`text`], [`whitespace`]: strings as UTF-8, lines, prefixes
//!   and suffixes, trimming and words.
//! - [`escape`]: escaping for HTML text and for `href` values.
//! - [`urls`]: absolute URLs, as parsed and joined by the `url` crate.
//! - [`gemtext2html`]: the conversion itself.
//! - [`filename`], [`records`], [`timeago`], [`utils`], [`templates`],
//!   [`config`], [`error`], [`client`]: what the host keeps and shows around
//!   the documents.

pub mod client;
pub mod config;
pub mod error;
pub mod escape;
pub mod filename;
pub mod gemtext2html;
pub mod records;
pub mod templates;
pub mod text;
pub mod timeago;
pub mod urls;
pub mod utf8;
pub mod utils;
pub mod whitespace;
