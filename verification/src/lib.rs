//! A language-tooling core that resolves translation-function calls in
//! source code to the values of structured translation files, for
//! completion and hover.
//!
//! Three subsystems do the work: an incremental text-document model that
//! keeps offsets and positions consistent under live edits ([`document`]),
//! a grammar-driven indexer that walks a parsed translation file and
//! reconstructs each value's dotted key path ([`syntax`], [`indexer`]),
//! and a textual locator that finds the key under a cursor or the span
//! being typed ([`string_helper`]). They feed a definition index queried
//! by the request handlers ([`index`], [`backend`]).

pub mod backend;
pub mod config;
pub mod definition;
pub mod document;
pub mod index;
pub mod indexer;
pub mod patterns;
pub mod string_helper;
pub mod syntax;
pub mod textutil;
