// A recipe catalog over a small relational store.
//
// `entity` and `table` give every entity type a uniform CRUD contract over a table with
// unique primary keys; `relations` adds the four relationship shapes (belongs-to,
// has-one / has-zero-or-one, has-many, has-many-through) and the transactional
// replacement of a many-to-many set. `ordering` lists collections in a declared order.
// The recipe domain (`models`, `catalog`), the subcommands (`commands`,
// `tag_commands`), the recipe editor (`editor`, `parse`, `search`) and the text they
// produce (`text`, `render`) are built on these.
pub mod entity;
pub mod table;
pub mod relations;
pub mod ordering;
pub mod models;
pub mod catalog;
pub mod commands;
pub mod tag_commands;
pub mod editor;
pub mod parse;
pub mod search;
pub mod text;
pub mod render;
