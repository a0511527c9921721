use vstd::prelude::*;

use crate::catalog::{Catalog, Outcome};
use crate::entity::{Entity, StoreError};
use crate::models::{Recipe, RecipeTag, Tag};
use crate::ordering::sorted;
use crate::relations::{can_link, key_views, relinked, set_related_ids};
use crate::table::{has_key, key_index};
use crate::text::{join, joined, texts};

verus! {

/// Arguments of `tag create`: a new tag's id, with an optional display name and
/// description.
pub struct CreateArgs {
    pub id: String,
    pub name: Option<String>,
    pub description: Option<String>,
}

/// Arguments of `tag delete`.
pub struct DeleteArgs {
    pub id: String,
}

/// Arguments of `tag edit`: the tag's id and the attributes to replace.
pub struct EditArgs {
    pub id: String,
    pub name: Option<String>,
    pub description: Option<String>,
}

/// Arguments of `tag list`.
pub struct ListArgs;

/// Arguments of `tag apply`: the tag to apply to a chosen set of recipes.
pub struct ApplyArgs {
    pub id: String,
}

/// The `tag` subcommands.
pub enum TagSubcommand {
    List(ListArgs),
    Create(CreateArgs),
    Edit(EditArgs),
    Delete(DeleteArgs),
}

/// The text of `o`, or of `default` when `o` is `None`.
pub open spec fn text_or(o: Option<String>, default: Seq<char>) -> Seq<char> {
    match o {
        Some(s) => s@,
        None => default,
    }
}

impl CreateArgs {
    /// Inserts the tag, named by its id when no name is given and with an empty
    /// description when none is given; reports `ExistingTag` when the id is taken.
    pub fn execute(self, db: &mut Catalog) -> (r: Outcome)
        requires
            old(db).wf(),
        ensures
            final(db).wf(),
            final(db).same_rows_but_tags(old(db)),
            has_key(old(db).tags@, self.id@) ==> (match r {
                Outcome::ExistingTag(id) => id@ == self.id@,
                _ => false,
            }) && final(db).tags@ == old(db).tags@,
            !has_key(old(db).tags@, self.id@) ==> r is Done && final(db).tags@.len()
                == old(db).tags@.len() + 1 && final(db).tags@.drop_last() == old(db).tags@ && ({
                let t = final(db).tags@.last();
                &&& t.id@ == self.id@
                &&& t.name@ == text_or(self.name, self.id@)
                &&& t.description_markdown@ == text_or(self.description, Seq::empty())
            }),
    {
        if db.tags.exists_from_id(&self.id) {
            return Outcome::ExistingTag(self.id);
        }
        let id = self.id.clone();
        let name = match self.name {
            Some(n) => n,
            None => self.id,
        };
        let description_markdown = match self.description {
            Some(d) => d,
            None => String::new(),
        };
        let tag = Tag { id, name, description_markdown };
        let _ = db.tags.insert(tag);
        proof {
            assert(db.tags@.drop_last() =~= old(db).tags@);
        }
        Outcome::Done
    }
}

impl DeleteArgs {
    /// Deletes the tag; reports `NoSuchTag` when there is none. Only the tag row goes.
    pub fn execute(self, db: &mut Catalog) -> (r: Outcome)
        requires
            old(db).wf(),
        ensures
            final(db).wf(),
            final(db).same_rows_but_tags(old(db)),
            has_key(old(db).tags@, self.id@) ==> r is Done && final(db).tags@ == old(db).tags@.remove(
                key_index(old(db).tags@, self.id@),
            ),
            !has_key(old(db).tags@, self.id@) ==> (match r {
                Outcome::NoSuchTag(id) => id@ == self.id@,
                _ => false,
            }) && final(db).tags@ == old(db).tags@,
    {
        if !db.tags.exists_from_id(&self.id) {
            return Outcome::NoSuchTag(self.id);
        }
        db.tags.delete_from_id(&self.id);
        Outcome::Done
    }
}

impl EditArgs {
    /// Replaces the name and description of the tag where given; reports `NoSuchTag`
    /// when there is none.
    pub fn execute(self, db: &mut Catalog) -> (r: Outcome)
        requires
            old(db).wf(),
        ensures
            final(db).wf(),
            final(db).same_rows_but_tags(old(db)),
            has_key(old(db).tags@, self.id@) ==> r is Done && ({
                let i = key_index(old(db).tags@, self.id@);
                let before = old(db).tags@[i];
                let after = final(db).tags@[i];
                &&& final(db).tags@ == old(db).tags@.update(i, after)
                &&& after.id == before.id
                &&& after.name@ == text_or(self.name, before.name@)
                &&& after.description_markdown@ == text_or(
                    self.description,
                    before.description_markdown@,
                )
            }),
            !has_key(old(db).tags@, self.id@) ==> (match r {
                Outcome::NoSuchTag(id) => id@ == self.id@,
                _ => false,
            }) && final(db).tags@ == old(db).tags@,
    {
        let mut tag = match db.tags.find_optional(&self.id) {
            Some(t) => t,
            None => {
                return Outcome::NoSuchTag(self.id);
            },
        };
        if let Some(name) = self.name {
            tag.name = name;
        }
        if let Some(description_markdown) = self.description {
            tag.description_markdown = description_markdown;
        }
        let _ = db.tags.update(tag);
        Outcome::Done
    }
}

/// One row of the tag table: id, name and description.
pub open spec fn tag_row(t: Tag) -> Seq<char> {
    "|"@ + t.id@ + "|"@ + t.name@ + "|"@ + t.description_markdown@ + "|"@
}

/// The Markdown table that `tag list` prints for the given tags.
pub open spec fn tag_table(tags: Seq<Tag>) -> Seq<char> {
    "| Tag ID | Name | Description |\n| -:|:- |:- |"@ + "\n"@ + joined(
        tags.map_values(|t: Tag| tag_row(t)),
        "\n"@,
    )
}

/// Builds `tag_table`.
pub fn tag_table_exec(tags: &Vec<Tag>) -> (r: String)
    ensures
        r@ == tag_table(tags@),
{
    let mut lines: Vec<String> = Vec::new();
    let n = tags.len();
    let mut i: usize = 0;
    while i < n
        invariant
            n == tags@.len(),
            i <= n,
            texts(lines@) == tags@.subrange(0, i as int).map_values(|t: Tag| tag_row(t)),
        decreases n - i,
    {
        let t = &tags[i];
        let mut line = String::from_str("|");
        line.append(t.id.as_str());
        line.append("|");
        line.append(t.name.as_str());
        line.append("|");
        line.append(t.description_markdown.as_str());
        line.append("|");
        let ghost before = lines@;
        lines.push(line);
        proof {
            assert(line@ =~= tag_row(tags@[i as int]));
            assert(texts(lines@) =~= texts(before).push(line@));
            assert(texts(lines@) =~= tags@.subrange(0, i + 1).map_values(|t: Tag| tag_row(t)));
        }
        i = i + 1;
    }
    proof {
        assert(tags@.subrange(0, n as int) =~= tags@);
    }
    let body = join(&lines, "\n");
    let mut out = String::from_str("| Tag ID | Name | Description |\n| -:|:- |:- |");
    out.append("\n");
    out.append(body.as_str());
    out
}

impl ListArgs {
    /// The Markdown table of all tags, by name (tags of equal name in either order).
    pub fn execute(self, db: &Catalog) -> (r: String)
        requires
            db.wf(),
        ensures
            exists|tags: Seq<Tag>|
                sorted(tags) && tags.to_multiset() == db.tags@.to_multiset() && r@ == tag_table(
                    tags,
                ),
    {
        let tags = db.tags.all_ordered();
        tag_table_exec(&tags)
    }
}

/// The recipe with id `recipe_id` carries the tag with id `tag_id`.
pub open spec fn is_tagged(db: &Catalog, recipe_id: i32, tag_id: Seq<char>) -> bool {
    has_key(db.recipe_tags@, (recipe_id, tag_id))
}

/// The ids of the recipes at positions `chosen` of `recipes`.
pub open spec fn chosen_ids(recipes: Seq<Recipe>, chosen: Seq<usize>) -> Seq<i32> {
    chosen.map_values(|k: usize| recipes[k as int].id)
}

impl ApplyArgs {
    /// What `tag apply` offers: the tag, every recipe by name, and the positions (in
    /// increasing order) of the recipes that carry the tag; `None` when there is no such
    /// tag.
    pub fn choices(&self, db: &Catalog) -> (r: Option<(Tag, Vec<Recipe>, Vec<usize>)>)
        requires
            db.wf(),
        ensures
            !has_key(db.tags@, self.id@) ==> r is None,
            has_key(db.tags@, self.id@) ==> r is Some && ({
                let (tag, recipes, picked) = r->0;
                &&& tag == db.tags@[key_index(db.tags@, self.id@)]
                &&& sorted(recipes@)
                &&& recipes@.to_multiset() == db.recipes@.to_multiset()
                &&& forall|a: int, b: int|
                    0 <= a < b < picked@.len() ==> #[trigger] picked@[a] < #[trigger] picked@[b]
                &&& forall|k: int|
                    0 <= k < picked@.len() ==> #[trigger] picked@[k] < recipes@.len()
                        && is_tagged(db, recipes@[picked@[k] as int].id, self.id@)
                &&& forall|i: int|
                    0 <= i < recipes@.len() && is_tagged(db, #[trigger] recipes@[i].id, self.id@)
                        ==> picked@.contains(i as usize)
            }),
    {
        let tag = match db.tags.find_optional(&self.id) {
            Some(t) => t,
            None => {
                return None;
            },
        };
        let recipes = db.recipes.all_ordered();
        let mut picked: Vec<usize> = Vec::new();
        let n = recipes.len();
        let mut i: usize = 0;
        while i < n
            invariant
                db.wf(),
                n == recipes@.len(),
                i <= n,
                forall|a: int, b: int|
                    0 <= a < b < picked@.len() ==> #[trigger] picked@[a] < #[trigger] picked@[b],
                forall|k: int|
                    0 <= k < picked@.len() ==> #[trigger] picked@[k] < i && is_tagged(
                        db,
                        recipes@[picked@[k] as int].id,
                        self.id@,
                    ),
                forall|j: int|
                    0 <= j < i && is_tagged(db, #[trigger] recipes@[j].id, self.id@)
                        ==> picked@.contains(j as usize),
            decreases n - i,
        {
            let key = (recipes[i].id, self.id.clone());
            if db.recipe_tags.exists_from_id(&key) {
                let ghost before = picked@;
                picked.push(i);
                proof {
                    assert forall|j: int|
                        0 <= j < i + 1 && is_tagged(db, #[trigger] recipes@[j].id, self.id@)
                            implies picked@.contains(j as usize) by {
                        if j < i {
                            let m = choose|m: int| 0 <= m < before.len() && before[m] == j as usize;
                            assert(picked@[m] == j as usize);
                        } else {
                            assert(picked@[before.len() as int] == i);
                        }
                    }
                }
            }
            i = i + 1;
        }
        Some((tag, recipes, picked))
    }

    /// Makes the recipes at positions `chosen` of `recipes` exactly the ones that carry
    /// the tag, as one transaction (see `set_related_ids`): on `Constraint` nothing
    /// changes. Returns how many recipes now carry it.
    pub fn execute(self, db: &mut Catalog, recipes: &Vec<Recipe>, chosen: &Vec<usize>) -> (r:
        Result<usize, StoreError>)
        requires
            old(db).wf(),
            forall|k: int| 0 <= k < chosen@.len() ==> #[trigger] chosen@[k] < recipes@.len(),
        ensures
            final(db).wf(),
            final(db).recipes@ == old(db).recipes@,
            final(db).tags@ == old(db).tags@,
            final(db).ingredients@ == old(db).ingredients@,
            final(db).recipe_ingredients@ == old(db).recipe_ingredients@,
            can_link(old(db).tags@, old(db).recipes@, self.id@, chosen_ids(recipes@, chosen@))
                ==> r == Ok::<usize, StoreError>(chosen.len()) && relinked::<Tag, Recipe, RecipeTag>(
                old(db).recipe_tags@,
                final(db).recipe_tags@,
                self.id@,
                chosen_ids(recipes@, chosen@),
            ),
            !can_link(old(db).tags@, old(db).recipes@, self.id@, chosen_ids(recipes@, chosen@))
                ==> r == Err::<usize, StoreError>(StoreError::Constraint) && final(db).recipe_tags@
                == old(db).recipe_tags@,
    {
        let mut ids: Vec<i32> = Vec::new();
        let n = chosen.len();
        let mut k: usize = 0;
        while k < n
            invariant
                n == chosen@.len(),
                k <= n,
                forall|j: int| 0 <= j < n ==> #[trigger] chosen@[j] < recipes@.len(),
                ids@ == chosen_ids(recipes@, chosen@.subrange(0, k as int)),
            decreases n - k,
        {
            ids.push(recipes[chosen[k]].id);
            proof {
                assert(ids@ =~= chosen_ids(recipes@, chosen@.subrange(0, k + 1)));
            }
            k = k + 1;
        }
        proof {
            assert(chosen@.subrange(0, n as int) =~= chosen@);
            assert(key_views(ids@) =~= ids@);
        }
        let r = set_related_ids::<Tag, Recipe, RecipeTag>(
            &mut db.recipe_tags,
            &db.tags,
            &db.recipes,
            &self.id,
            &ids,
        );
        proof {
            assert(key_views(ids@) == chosen_ids(recipes@, chosen@));
        }
        r
    }
}

} // verus!
