use vstd::prelude::*;

use crate::models::{Ingredient, Recipe, RecipeIngredient, RecipeTag, Tag};
use crate::table::Table;

verus! {

/// The whole recipe store: one table per entity type.
pub struct Catalog {
    pub recipes: Table<Recipe>,
    pub ingredients: Table<Ingredient>,
    pub tags: Table<Tag>,
    pub recipe_tags: Table<RecipeTag>,
    pub recipe_ingredients: Table<RecipeIngredient>,
}

/// What a command did, for the caller to report.
pub enum Outcome {
    /// The command did its work.
    Done,
    /// The user declined; nothing changed.
    Cancelled,
    /// No recipe has this id; nothing changed.
    NoSuchRecipe(i32),
    /// No tag has this id; nothing changed.
    NoSuchTag(String),
    /// A tag with this id exists already; nothing changed.
    ExistingTag(String),
    /// The recipe with this id was deleted.
    DeletedRecipe(i32),
}

impl Catalog {
    /// Every table keeps its primary keys unique.
    pub open spec fn wf(&self) -> bool {
        &&& self.recipes.wf()
        &&& self.ingredients.wf()
        &&& self.tags.wf()
        &&& self.recipe_tags.wf()
        &&& self.recipe_ingredients.wf()
    }

    /// `self` and `other` hold the same rows in every table.
    pub open spec fn same_rows(&self, other: &Catalog) -> bool {
        &&& self.recipes@ == other.recipes@
        &&& self.ingredients@ == other.ingredients@
        &&& self.tags@ == other.tags@
        &&& self.recipe_tags@ == other.recipe_tags@
        &&& self.recipe_ingredients@ == other.recipe_ingredients@
    }

    /// `self` and `other` hold the same rows in every table but the tags table.
    pub open spec fn same_rows_but_tags(&self, other: &Catalog) -> bool {
        &&& self.recipes@ == other.recipes@
        &&& self.ingredients@ == other.ingredients@
        &&& self.recipe_tags@ == other.recipe_tags@
        &&& self.recipe_ingredients@ == other.recipe_ingredients@
    }

    /// `self` and `other` hold the same rows in every table but the recipes table.
    pub open spec fn same_rows_but_recipes(&self, other: &Catalog) -> bool {
        &&& self.ingredients@ == other.ingredients@
        &&& self.tags@ == other.tags@
        &&& self.recipe_tags@ == other.recipe_tags@
        &&& self.recipe_ingredients@ == other.recipe_ingredients@
    }

    /// An empty store.
    pub fn new() -> (c: Catalog)
        ensures
            c.wf(),
            c.recipes@.len() == 0,
            c.ingredients@.len() == 0,
            c.tags@.len() == 0,
            c.recipe_tags@.len() == 0,
            c.recipe_ingredients@.len() == 0,
    {
        Catalog {
            recipes: Table::new(),
            ingredients: Table::new(),
            tags: Table::new(),
            recipe_tags: Table::new(),
            recipe_ingredients: Table::new(),
        }
    }

    /// A copy of the whole store.
    pub fn snapshot(&self) -> (c: Catalog)
        ensures
            c.same_rows(self),
    {
        Catalog {
            recipes: self.recipes.snapshot(),
            ingredients: self.ingredients.snapshot(),
            tags: self.tags.snapshot(),
            recipe_tags: self.recipe_tags.snapshot(),
            recipe_ingredients: self.recipe_ingredients.snapshot(),
        }
    }
}

} // verus!
