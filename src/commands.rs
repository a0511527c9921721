use vstd::prelude::*;

use crate::catalog::{Catalog, Outcome};
use crate::entity::Entity;
use crate::models::{
    item_lines, kebab_of, recipe_markdown, with_ingredients, Ingredient, Recipe, RecipeIngredient,
    RecipeTag, Tag,
};
use crate::ordering::sorted;
use crate::relations::{get_related_ordered, related_of};
use crate::table::{children_of, has_key, key_index};
use crate::tag_commands::TagSubcommand;
use crate::text::{decimal, int_text, join, joined, texts};

verus! {

/// Arguments of `create`: the recipe is written in the editor.
pub struct CreateArgs;

/// Arguments of `delete`: the recipe's id, and whether to skip the confirmation.
pub struct DeleteArgs {
    pub id: i32,
    pub force: bool,
}

/// Arguments of `dump`: the directory to write to, and whether to skip the SQL dump.
pub struct DumpArgs {
    pub dump_path: String,
    pub skip_sql: bool,
}

/// Arguments of `edit`: the recipe's id.
pub struct EditArgs {
    pub id: i32,
}

/// Arguments of `list`.
pub struct ListArgs;

/// Arguments of `print`: the recipe's id, and whether to print through a browser.
pub struct PrintArgs {
    pub id: i32,
    pub web: bool,
}

/// The top-level subcommands.
pub enum OptSubcommand {
    List(ListArgs),
    Create(CreateArgs),
    Edit(EditArgs),
    Print(PrintArgs),
    Delete(DeleteArgs),
    Dump(DumpArgs),
    Tag { subcommand: TagSubcommand },
}

impl DeleteArgs {
    /// Deletes the recipe when `force` is set or the user `confirmed`; reports
    /// `NoSuchRecipe` when there is none, and `Cancelled` when the user declined.
    pub fn execute(self, db: &mut Catalog, confirmed: bool) -> (r: Outcome)
        requires
            old(db).wf(),
        ensures
            final(db).wf(),
            final(db).same_rows_but_recipes(old(db)),
            !has_key(old(db).recipes@, self.id) ==> r == Outcome::NoSuchRecipe(self.id)
                && final(db).recipes@ == old(db).recipes@,
            has_key(old(db).recipes@, self.id) && (self.force || confirmed) ==> r
                == Outcome::DeletedRecipe(self.id) && final(db).recipes@ == old(db).recipes@.remove(
                key_index(old(db).recipes@, self.id),
            ),
            has_key(old(db).recipes@, self.id) && !(self.force || confirmed) ==> r
                == Outcome::Cancelled && final(db).recipes@ == old(db).recipes@,
    {
        if !db.recipes.exists_from_id(&self.id) {
            return Outcome::NoSuchRecipe(self.id);
        }
        if !(self.force || confirmed) {
            return Outcome::Cancelled;
        }
        db.recipes.delete_from_id(&self.id);
        Outcome::DeletedRecipe(self.id)
    }
}

impl EditArgs {
    /// Saves the edited name, instructions and notes over the recipe; reports
    /// `NoSuchRecipe` when there is none.
    pub fn execute(
        self,
        db: &mut Catalog,
        name: String,
        instructions_markdown: String,
        notes_markdown: String,
    ) -> (r: Outcome)
        requires
            old(db).wf(),
        ensures
            final(db).wf(),
            final(db).same_rows_but_recipes(old(db)),
            !has_key(old(db).recipes@, self.id) ==> r == Outcome::NoSuchRecipe(self.id)
                && final(db).recipes@ == old(db).recipes@,
            has_key(old(db).recipes@, self.id) ==> r == Outcome::Done && final(db).recipes@
                == old(db).recipes@.update(
                key_index(old(db).recipes@, self.id),
                Recipe { id: self.id, name, instructions_markdown, notes_markdown },
            ),
    {
        let recipe = Recipe { id: self.id, name, instructions_markdown, notes_markdown };
        match db.recipes.update(recipe) {
            Ok(_) => Outcome::Done,
            Err(_) => Outcome::NoSuchRecipe(self.id),
        }
    }
}

/// The names of `tags`, in order.
pub open spec fn tag_names(tags: Seq<Tag>) -> Seq<Seq<char>> {
    tags.map_values(|t: Tag| t.name@)
}

/// One row of the recipe table: id, name, and tag names joined by ", ".
pub open spec fn recipe_row(r: Recipe, tags: Seq<Tag>) -> Seq<char> {
    "|"@ + decimal(r.id as int) + "|"@ + r.name@ + "|"@ + joined(tag_names(tags), ", "@) + "|"@
}

/// The Markdown table that `list` prints for the given recipes with their tags.
pub open spec fn recipe_table(rows: Seq<(Recipe, Vec<Tag>)>) -> Seq<char> {
    "| ID | Recipe Name | Tags |\n| -:|:- |:- |"@ + "\n"@ + joined(
        rows.map_values(|p: (Recipe, Vec<Tag>)| recipe_row(p.0, p.1@)),
        "\n"@,
    )
}

/// Builds `recipe_table`.
pub fn recipe_table_exec(rows: &Vec<(Recipe, Vec<Tag>)>) -> (r: String)
    ensures
        r@ == recipe_table(rows@),
{
    let mut lines: Vec<String> = Vec::new();
    let n = rows.len();
    let mut i: usize = 0;
    while i < n
        invariant
            n == rows@.len(),
            i <= n,
            texts(lines@) == rows@.subrange(0, i as int).map_values(
                |p: (Recipe, Vec<Tag>)| recipe_row(p.0, p.1@),
            ),
        decreases n - i,
    {
        let recipe = &rows[i].0;
        let tags = &rows[i].1;
        let mut names: Vec<String> = Vec::new();
        let m = tags.len();
        let mut k: usize = 0;
        while k < m
            invariant
                m == tags@.len(),
                k <= m,
                texts(names@) == tag_names(tags@.subrange(0, k as int)),
            decreases m - k,
        {
            let ghost before = names@;
            names.push(tags[k].name.clone());
            proof {
                assert(texts(names@) =~= texts(before).push(tags@[k as int].name@));
                assert(tag_names(tags@.subrange(0, k + 1)) =~= tag_names(tags@.subrange(0, k as int)).push(
                    tags@[k as int].name@,
                ));
                assert(texts(names@) =~= tag_names(tags@.subrange(0, k + 1)));
            }
            k = k + 1;
        }
        proof {
            assert(tags@.subrange(0, m as int) =~= tags@);
        }
        let mut line = String::from_str("|");
        let id_text = int_text(recipe.id);
        line.append(id_text.as_str());
        line.append("|");
        line.append(recipe.name.as_str());
        line.append("|");
        let joined_names = join(&names, ", ");
        line.append(joined_names.as_str());
        line.append("|");
        let ghost before = lines@;
        lines.push(line);
        proof {
            assert(line@ =~= recipe_row(rows@[i as int].0, rows@[i as int].1@));
            assert(texts(lines@) =~= texts(before).push(line@));
            assert(texts(lines@) =~= rows@.subrange(0, i + 1).map_values(
                |p: (Recipe, Vec<Tag>)| recipe_row(p.0, p.1@),
            ));
        }
        i = i + 1;
    }
    proof {
        assert(rows@.subrange(0, n as int) =~= rows@);
    }
    let body = join(&lines, "\n");
    let mut out = String::from_str("| ID | Recipe Name | Tags |\n| -:|:- |:- |");
    out.append("\n");
    out.append(body.as_str());
    out
}

/// The rows of the recipe table are the recipes of `db` by name, each with its tags by
/// name (rows or tags of equal name in either order).
pub open spec fn lists_catalog(db: &Catalog, rows: Seq<(Recipe, Vec<Tag>)>) -> bool {
    let recipes = rows.map_values(|p: (Recipe, Vec<Tag>)| p.0);
    &&& sorted(recipes)
    &&& recipes.to_multiset() == db.recipes@.to_multiset()
    &&& forall|i: int|
        0 <= i < rows.len() ==> sorted((#[trigger] rows[i]).1@) && rows[i].1@.to_multiset()
            == related_of::<Recipe, Tag, RecipeTag>(
            db.recipe_tags@,
            db.tags@,
            rows[i].0.id,
        ).to_multiset()
}

impl ListArgs {
    /// The Markdown table of all recipes, by name, each with its tags by name.
    pub fn execute(self, db: &Catalog) -> (r: String)
        requires
            db.wf(),
        ensures
            exists|rows: Seq<(Recipe, Vec<Tag>)>| lists_catalog(db, rows) && r@ == recipe_table(rows),
    {
        let recipes = db.recipes.all_ordered();
        let mut rows: Vec<(Recipe, Vec<Tag>)> = Vec::new();
        let n = recipes.len();
        let mut i: usize = 0;
        while i < n
            invariant
                db.wf(),
                n == recipes@.len(),
                i <= n,
                rows@.map_values(|p: (Recipe, Vec<Tag>)| p.0) == recipes@.subrange(0, i as int),
                forall|j: int|
                    0 <= j < rows@.len() ==> sorted((#[trigger] rows@[j]).1@) && rows@[j].1@.to_multiset()
                        == related_of::<Recipe, Tag, RecipeTag>(
                        db.recipe_tags@,
                        db.tags@,
                        rows@[j].0.id,
                    ).to_multiset(),
            decreases n - i,
        {
            let tags = get_related_ordered::<Recipe, Tag, RecipeTag>(
                &db.recipe_tags,
                &db.tags,
                &recipes[i].id,
            );
            let recipe = recipes[i].copy_row();
            let ghost before = rows@;
            rows.push((recipe, tags));
            proof {
                assert(rows@.map_values(|p: (Recipe, Vec<Tag>)| p.0) =~= before.map_values(
                    |p: (Recipe, Vec<Tag>)| p.0,
                ).push(recipes@[i as int]));
                assert(recipes@.subrange(0, i + 1) =~= recipes@.subrange(0, i as int).push(
                    recipes@[i as int],
                ));
                assert(rows@.map_values(|p: (Recipe, Vec<Tag>)| p.0) =~= recipes@.subrange(
                    0,
                    i + 1,
                ));
            }
            i = i + 1;
        }
        proof {
            assert(recipes@.subrange(0, n as int) =~= recipes@);
        }
        recipe_table_exec(&rows)
    }
}

impl PrintArgs {
    /// The Markdown page of the recipe, or `None` when there is no such recipe.
    pub fn execute(self, db: &Catalog) -> (r: Option<String>)
        requires
            db.wf(),
        ensures
            !has_key(db.recipes@, self.id) ==> r is None,
            has_key(db.recipes@, self.id) ==> r is Some && ({
                let recipe = db.recipes@[key_index(db.recipes@, self.id)];
                exists|items: Seq<(Ingredient, RecipeIngredient)>|
                    sorted(items) && items.to_multiset() == with_ingredients(
                        db.ingredients@,
                        children_of::<Recipe, RecipeIngredient>(db.recipe_ingredients@, self.id),
                    ).to_multiset() && r->0@ == recipe_markdown(
                        recipe.name@,
                        item_lines(items),
                        recipe.instructions_markdown@,
                        recipe.notes_markdown@,
                    )
            }),
    {
        match db.recipes.find_optional(&self.id) {
            None => None,
            Some(recipe) => Some(recipe.markdown_string(db)),
        }
    }
}

/// The name of the index file that `dump` writes.
pub const INDEX_FILENAME: &'static str = "README.md";

/// The folder, under the dump directory, that holds one Markdown file per recipe.
pub const RECIPES_FOLDER: &'static str = "recipes";

/// The name of the SQL dump file.
pub const DUMP_SQL_FILENAME: &'static str = "recipes.sql";

/// A recipe with the name of its Markdown file.
pub struct RecipeWithFilename {
    pub recipe: Recipe,
    pub filename: String,
}

/// A tag with the recipes that carry it.
pub struct TagWithRecipes {
    pub tag: Tag,
    pub recipes: Vec<RecipeWithFilename>,
}

/// What the index page of a dump is rendered from.
pub struct IndexTemplateInput {
    pub recipes_folder: String,
    pub recipes: Vec<RecipeWithFilename>,
    pub tags: Vec<TagWithRecipes>,
    pub dump_sql_filename: String,
    pub skip_sql: bool,
}

impl RecipeWithFilename {
    /// Pairs `recipe` with the name of its Markdown file.
    pub fn from(recipe: Recipe) -> (r: Self)
        ensures
            r.recipe == recipe,
            r.filename@ == kebab_of(recipe.name@) + ".md"@,
    {
        RecipeWithFilename { filename: recipe.get_filename(), recipe }
    }
}

/// The recipes of `v`, in order.
pub open spec fn recipes_of(v: Seq<RecipeWithFilename>) -> Seq<Recipe> {
    v.map_values(|e: RecipeWithFilename| e.recipe)
}

/// Every entry of `v` carries its recipe's file name.
pub open spec fn filenames_match(v: Seq<RecipeWithFilename>) -> bool {
    forall|i: int| 0 <= i < v.len() ==> (#[trigger] v[i]).filename@ == kebab_of(v[i].recipe.name@) + ".md"@
}

/// Pairs each recipe with the name of its Markdown file, keeping the order.
pub fn with_filenames(recipes: Vec<Recipe>) -> (r: Vec<RecipeWithFilename>)
    ensures
        recipes_of(r@) == recipes@,
        filenames_match(r@),
{
    let mut rest = recipes;
    let ghost all = rest@;
    let mut out: Vec<RecipeWithFilename> = Vec::new();
    let mut taken: Vec<Recipe> = Vec::new();
    while rest.len() > 0
        invariant
            all == taken@ + rest@,
            recipes_of(out@) == taken@,
            filenames_match(out@),
        decreases rest@.len(),
    {
        let ghost rest_before = rest@;
        let recipe = rest.remove(0);
        proof {
            assert(rest_before =~= seq![recipe] + rest@);
        }
        let copy = recipe.copy_row();
        let ghost before = out@;
        out.push(RecipeWithFilename::from(recipe));
        taken.push(copy);
        proof {
            assert(recipes_of(out@) =~= recipes_of(before).push(copy));
            assert(filenames_match(out@)) by {
                assert forall|i: int| 0 <= i < out@.len() implies (#[trigger] out@[i]).filename@
                    == kebab_of(out@[i].recipe.name@) + ".md"@ by {
                    if i < before.len() {
                        assert(out@[i] == before[i]);
                    }
                }
            }
            assert(taken@ + rest@ =~= all);
        }
    }
    proof {
        assert(taken@ + rest@ =~= taken@);
    }
    out
}

impl DumpArgs {
    /// The data of the index page: every recipe by name, and every tag by name with the
    /// recipes that carry it by name, each recipe with its file name.
    pub fn build_index_input(&self, db: &Catalog) -> (r: IndexTemplateInput)
        requires
            db.wf(),
        ensures
            r.recipes_folder@ == RECIPES_FOLDER@,
            r.dump_sql_filename@ == DUMP_SQL_FILENAME@,
            r.skip_sql == self.skip_sql,
            sorted(recipes_of(r.recipes@)),
            recipes_of(r.recipes@).to_multiset() == db.recipes@.to_multiset(),
            filenames_match(r.recipes@),
            sorted(r.tags@.map_values(|t: TagWithRecipes| t.tag)),
            r.tags@.map_values(|t: TagWithRecipes| t.tag).to_multiset() == db.tags@.to_multiset(),
            forall|i: int|
                0 <= i < r.tags@.len() ==> sorted(recipes_of((#[trigger] r.tags@[i]).recipes@))
                    && filenames_match(r.tags@[i].recipes@) && recipes_of(
                    r.tags@[i].recipes@,
                ).to_multiset() == related_of::<Tag, Recipe, RecipeTag>(
                    db.recipe_tags@,
                    db.recipes@,
                    r.tags@[i].tag.id@,
                ).to_multiset(),
    {
        let recipes = with_filenames(db.recipes.all_ordered());
        let all_tags = db.tags.all_ordered();
        let mut tags: Vec<TagWithRecipes> = Vec::new();
        let n = all_tags.len();
        let mut i: usize = 0;
        while i < n
            invariant
                db.wf(),
                n == all_tags@.len(),
                i <= n,
                tags@.map_values(|t: TagWithRecipes| t.tag) == all_tags@.subrange(0, i as int),
                forall|j: int|
                    0 <= j < tags@.len() ==> sorted(recipes_of((#[trigger] tags@[j]).recipes@))
                        && filenames_match(tags@[j].recipes@) && recipes_of(
                        tags@[j].recipes@,
                    ).to_multiset() == related_of::<Tag, Recipe, RecipeTag>(
                        db.recipe_tags@,
                        db.recipes@,
                        tags@[j].tag.id@,
                    ).to_multiset(),
            decreases n - i,
        {
            let tagged = get_related_ordered::<Tag, Recipe, RecipeTag>(
                &db.recipe_tags,
                &db.recipes,
                &all_tags[i].id,
            );
            let entry = TagWithRecipes { tag: all_tags[i].copy_row(), recipes: with_filenames(tagged) };
            let ghost before = tags@;
            tags.push(entry);
            proof {
                assert(tags@.map_values(|t: TagWithRecipes| t.tag) =~= before.map_values(
                    |t: TagWithRecipes| t.tag,
                ).push(all_tags@[i as int]));
                assert(all_tags@.subrange(0, i + 1) =~= all_tags@.subrange(0, i as int).push(
                    all_tags@[i as int],
                ));
            }
            i = i + 1;
        }
        proof {
            assert(all_tags@.subrange(0, n as int) =~= all_tags@);
        }
        IndexTemplateInput {
            recipes_folder: String::from_str(RECIPES_FOLDER),
            recipes,
            tags,
            dump_sql_filename: String::from_str(DUMP_SQL_FILENAME),
            skip_sql: self.skip_sql,
        }
    }
}

} // verus!
