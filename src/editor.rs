use vstd::prelude::*;

use crate::catalog::Catalog;
use crate::entity::{BelongsTo, Entity, StoreError};
use crate::models::{
    item_markdown, item_markdown_exec, recipe_markdown, Ingredient, IngredientConstructor, Recipe,
    RecipeConstructor, RecipeIngredient, RecipeTag, Tag,
};
use crate::relations::{
    can_link, distinct_keys, key_views, lemma_set_related_exact, related_of, relinked, rows_named,
    set_related_ids,
};
use crate::ordering::sorted;
use crate::models::with_ingredients;
use crate::text::{join, joined, texts};
use crate::table::{
    children_of, has_key, key_index, lemma_max_key, lemma_next_key_bound, lemma_next_key_push,
    max_key, next_key,
    not_children_of, Table,
};

verus! {

/// The text the ingredients editor starts with for a new recipe.
pub const PLACEHOLDER_INGREDIENTS: &'static str = "1 cup: Flour\n- sifted\n2: Eggs";

/// The text the instructions editor starts with for a new recipe.
pub const PLACEHOLDER_INSTRUCTIONS: &'static str = "1. ";

/// One ingredient line of the recipe being edited.
pub struct IngredientEntry {
    /// The existing ingredient it uses, or `None` for a new ingredient.
    pub ingredient_id: Option<i32>,
    pub name: String,
    pub quantity: String,
    pub notes_markdown: String,
}

/// The state of the recipe editor.
pub struct RecipeEditor {
    pub existing_recipe_id: Option<i32>,
    pub name: String,
    pub ingredients: Vec<IngredientEntry>,
    pub instructions_markdown: String,
    pub notes_markdown: String,
    pub all_tags: Vec<Tag>,
    pub selected_tags: Vec<usize>,
}

/// How many entries of `entries` name no existing ingredient.
pub open spec fn count_new(entries: Seq<IngredientEntry>) -> int
    decreases entries.len(),
{
    if entries.len() == 0 {
        0
    } else {
        count_new(entries.drop_last()) + if entries.last().ingredient_id is None {
            1int
        } else {
            0int
        }
    }
}

/// A prefix has no more new entries than the whole.
pub proof fn lemma_count_new_prefix(s: Seq<IngredientEntry>, k: int)
    requires
        0 <= k <= s.len(),
    ensures
        count_new(s.subrange(0, k)) <= count_new(s),
    decreases s.len(),
{
    if k == s.len() {
        assert(s.subrange(0, k) =~= s);
    } else {
        assert(s.drop_last().subrange(0, k) =~= s.subrange(0, k));
        lemma_count_new_prefix(s.drop_last(), k);
    }
}

/// `after` is `before` with each entry that named no ingredient given a new one: the
/// `k`-th such entry gets id `start + k`, a row of `ingredients` with its name.
pub open spec fn ids_assigned(
    before: Seq<IngredientEntry>,
    after: Seq<IngredientEntry>,
    start: int,
    ingredients: Seq<Ingredient>,
) -> bool {
    &&& after.len() == before.len()
    &&& forall|i: int|
        0 <= i < before.len() ==> {
            &&& (#[trigger] after[i]).name == before[i].name
            &&& after[i].quantity == before[i].quantity
            &&& after[i].notes_markdown == before[i].notes_markdown
            &&& before[i].ingredient_id is Some ==> after[i].ingredient_id == before[i].ingredient_id
            &&& before[i].ingredient_id is None ==> after[i].ingredient_id == Some(
                (start + count_new(before.subrange(0, i))) as i32,
            ) && has_key(ingredients, (start + count_new(before.subrange(0, i))) as i32)
                && ingredients[key_index(
                ingredients,
                (start + count_new(before.subrange(0, i))) as i32,
            )].name@ == before[i].name@
        }
}

/// The ingredient uses that the entries make for recipe `recipe_id`: one per entry, in
/// order, with display orders 1, 2, ...
pub open spec fn uses_for(recipe_id: i32, entries: Seq<IngredientEntry>) -> Seq<RecipeIngredient> {
    Seq::new(
        entries.len(),
        |i: int|
            RecipeIngredient {
                recipe_id,
                ingredient_id: entries[i].ingredient_id->0,
                display_order: (i + 1) as i32,
                quantity: entries[i].quantity,
                notes_markdown: entries[i].notes_markdown,
            },
    )
}

/// Every entry names an ingredient that exists, and no two name the same one.
pub open spec fn uses_allowed(entries: Seq<IngredientEntry>, ingredients: Seq<Ingredient>) -> bool {
    &&& forall|i: int|
        0 <= i < entries.len() ==> has_key(ingredients, (#[trigger] entries[i]).ingredient_id->0)
    &&& forall|i: int, j: int|
        0 <= i < entries.len() && 0 <= j < entries.len() && i != j ==> (#[trigger] entries[i]).ingredient_id
            != (#[trigger] entries[j]).ingredient_id
}

/// Gives each entry that names no ingredient a new ingredient row (with the entry's
/// name, under the store's generated key). Fails with `Store` when a key would not fit.
pub fn assign_ingredient_ids(entries: &mut Vec<IngredientEntry>, ingredients: &mut Table<Ingredient>) -> (r:
    Result<(), StoreError>)
    requires
        old(ingredients).wf(),
    ensures
        final(ingredients).wf(),
        r is Ok <==> next_key(old(ingredients)@) + count_new(old(entries)@) <= i32::MAX + 1,
        r is Ok ==> final(ingredients)@.len() == old(ingredients)@.len() + count_new(
            old(entries)@,
        ),
        r is Ok ==> ids_assigned(
            old(entries)@,
            final(entries)@,
            next_key(old(ingredients)@),
            final(ingredients)@,
        ) && old(ingredients)@.len() <= final(ingredients)@.len() && final(ingredients)@.subrange(
            0,
            old(ingredients)@.len() as int,
        ) == old(ingredients)@,
{
    let ghost start = next_key(ingredients@);
    let ghost first = ingredients@;
    let n = entries.len();
    let mut i: usize = 0;
    while i < n
        invariant
            ingredients.wf(),
            n == entries@.len(),
            n == old(entries)@.len(),
            i <= n,
            start == next_key(first),
            first == old(ingredients)@,
            next_key(ingredients@) == start + count_new(old(entries)@.subrange(0, i as int)),
            first.len() <= ingredients@.len(),
            ingredients@.len() == first.len() + count_new(old(entries)@.subrange(0, i as int)),
            ingredients@.subrange(0, first.len() as int) == first,
            forall|j: int| i <= j < n ==> #[trigger] entries@[j] == old(entries)@[j],
            forall|j: int|
                0 <= j < i ==> {
                    &&& (#[trigger] entries@[j]).name == old(entries)@[j].name
                    &&& entries@[j].quantity == old(entries)@[j].quantity
                    &&& entries@[j].notes_markdown == old(entries)@[j].notes_markdown
                    &&& old(entries)@[j].ingredient_id is Some ==> entries@[j].ingredient_id
                        == old(entries)@[j].ingredient_id
                    &&& old(entries)@[j].ingredient_id is None ==> entries@[j].ingredient_id
                        == Some((start + count_new(old(entries)@.subrange(0, j))) as i32)
                        && has_key(
                        ingredients@,
                        (start + count_new(old(entries)@.subrange(0, j))) as i32,
                    ) && ingredients@[key_index(
                        ingredients@,
                        (start + count_new(old(entries)@.subrange(0, j))) as i32,
                    )].name@ == old(entries)@[j].name@
                },
        decreases n - i,
    {
        proof {
            assert(old(entries)@.subrange(0, i + 1).drop_last() =~= old(entries)@.subrange(0, i as int));
        }
        if entries[i].ingredient_id.is_none() {
            let ghost before = ingredients@;
            let made = {
                let c = IngredientConstructor { name: entries[i].name.as_str() };
                ingredients.insert_with_generated_key(&c)
            };
            match made {
                Ok(row) => {
                    proof {
                        lemma_next_key_push(before, row);
                        crate::table::lemma_key_index(ingredients@, before.len() as int);
                        assert(ingredients@.subrange(0, first.len() as int) =~= before.subrange(
                            0,
                            first.len() as int,
                        ));
                        assert forall|j: int| 0 <= j < i && old(entries)@[j].ingredient_id is None implies
                            has_key(ingredients@, (start + count_new(old(entries)@.subrange(0, j))) as i32)
                            && ingredients@[key_index(
                                ingredients@,
                                (start + count_new(old(entries)@.subrange(0, j))) as i32,
                            )].name@ == old(entries)@[j].name@ by {
                            let k = (start + count_new(old(entries)@.subrange(0, j))) as i32;
                            assert(entries@[j].name == old(entries)@[j].name);
                            let x = key_index(before, k);
                            assert(before[x].key() == k);
                            assert(ingredients@[x] == before[x]);
                            crate::table::lemma_key_index(ingredients@, x);
                        }
                    }
                    let mut entry = entries.remove(i);
                    entry.ingredient_id = Some(row.id);
                    entries.insert(i, entry);
                },
                Err(e) => {
                    proof {
                        lemma_count_new_prefix(old(entries)@, i + 1);
                    }
                    return Err(e);
                },
            }
        }
        i = i + 1;
    }
    proof {
        assert(old(entries)@.subrange(0, n as int) =~= old(entries)@);
        lemma_next_key_bound(ingredients@);
    }
    Ok(())
}

/// Replaces the ingredient uses of recipe `recipe_id` with the uses that `entries` make.
/// Fails with `Constraint`, changing nothing, when an entry names an ingredient that does
/// not exist or two entries name the same one.
pub fn replace_uses(
    uses: &mut Table<RecipeIngredient>,
    ingredients: &Table<Ingredient>,
    recipe_id: i32,
    entries: &Vec<IngredientEntry>,
) -> (r: Result<usize, StoreError>)
    requires
        old(uses).wf(),
        ingredients.wf(),
        entries@.len() < i32::MAX,
        forall|i: int| 0 <= i < entries@.len() ==> (#[trigger] entries@[i]).ingredient_id is Some,
    ensures
        final(uses).wf(),
        uses_allowed(entries@, ingredients@) ==> r == Ok::<usize, StoreError>(entries.len())
            && final(uses)@ == not_children_of::<Recipe, RecipeIngredient>(old(uses)@, recipe_id)
            + uses_for(recipe_id, entries@),
        !uses_allowed(entries@, ingredients@) ==> r == Err::<usize, StoreError>(
            StoreError::Constraint,
        ) && final(uses)@ == old(uses)@,
{
    let n = entries.len();
    let mut rows: Vec<RecipeIngredient> = Vec::new();
    let mut i: usize = 0;
    while i < n
        invariant
            ingredients.wf(),
            uses.wf(),
            uses@ == old(uses)@,
            n == entries@.len(),
            n < i32::MAX,
            i <= n,
            forall|j: int| 0 <= j < n ==> (#[trigger] entries@[j]).ingredient_id is Some,
            forall|j: int| 0 <= j < i ==> has_key(ingredients@, (#[trigger] entries@[j]).ingredient_id->0),
            rows@ == uses_for(recipe_id, entries@).subrange(0, i as int),
        decreases n - i,
    {
        let e = &entries[i];
        let id = match e.ingredient_id {
            Some(id) => id,
            None => {
                return Err(StoreError::Constraint);
            },
        };
        if !ingredients.exists_from_id(&id) {
            return Err(StoreError::Constraint);
        }
        let display_order: i32 = (i + 1) as i32;
        rows.push(
            RecipeIngredient {
                recipe_id,
                ingredient_id: id,
                display_order,
                quantity: e.quantity.clone(),
                notes_markdown: e.notes_markdown.clone(),
            },
        );
        proof {
            assert(rows@ =~= uses_for(recipe_id, entries@).subrange(0, i + 1));
        }
        i = i + 1;
    }
    proof {
        assert(uses_for(recipe_id, entries@).subrange(0, n as int) =~= uses_for(recipe_id, entries@));
    }
    let mut scratch = uses.snapshot();
    scratch.delete_children::<Recipe>(&recipe_id);
    let ghost kept = scratch@;
    proof {
        let p = |u: RecipeIngredient| <RecipeIngredient as BelongsTo<Recipe>>::parent_key(&u) != Some(recipe_id);
        assert forall|m: int| 0 <= m < rows@.len() implies !has_key(kept, #[trigger] rows@[m].key()) by {
            if has_key(kept, rows@[m].key()) {
                let x = choose|x: int| 0 <= x < kept.len() && #[trigger] kept[x].key() == rows@[m].key();
                old(uses)@.lemma_filter_pred(p, x);
            }
        }
    }
    match scratch.insert_list(&rows) {
        Ok(written) => {
            *uses = scratch;
            proof {
                assert forall|a: int, b: int|
                    0 <= a < n && 0 <= b < n && a != b implies (#[trigger] entries@[a]).ingredient_id
                    != (#[trigger] entries@[b]).ingredient_id by {
                    assert(rows@[a].key() != rows@[b].key());
                }
            }
            Ok(written)
        },
        Err(e) => {
            proof {
                let (a, b) = choose|a: int, b: int|
                    0 <= a < rows@.len() && 0 <= b < rows@.len() && a != b && #[trigger] rows@[a].key()
                        == #[trigger] rows@[b].key();
                assert(entries@[a].ingredient_id == entries@[b].ingredient_id);
            }
            Err(e)
        },
    }
}

/// Prefixes of entries hold at least as many new entries as shorter prefixes, and one
/// more past a new entry.
pub proof fn lemma_count_new_grows(s: Seq<IngredientEntry>, i: int, j: int)
    requires
        0 <= i < j <= s.len(),
        s[i].ingredient_id is None,
    ensures
        count_new(s.subrange(0, i)) + 1 <= count_new(s.subrange(0, j)),
{
    let sj = s.subrange(0, j);
    lemma_count_new_prefix(sj, i + 1);
    assert(sj.subrange(0, i + 1) =~= s.subrange(0, i + 1));
    assert(s.subrange(0, i + 1).drop_last() =~= s.subrange(0, i));
}

/// The existing ingredients that the entries name exist, and no two entries name the
/// same one.
pub open spec fn existing_ids_ok(entries: Seq<IngredientEntry>, ingredients: Seq<Ingredient>) -> bool {
    &&& forall|i: int|
        0 <= i < entries.len() && (#[trigger] entries[i]).ingredient_id is Some ==> has_key(
            ingredients,
            entries[i].ingredient_id->0,
        )
    &&& forall|i: int, j: int|
        0 <= i < entries.len() && 0 <= j < entries.len() && i != j && (#[trigger] entries[i]).ingredient_id
            is Some ==> entries[i].ingredient_id != (#[trigger] entries[j]).ingredient_id
}

/// The editor's ingredient entries can be stored: there is room for the new
/// ingredients' keys, and the existing ingredients they name exist and differ.
pub open spec fn entries_storable(entries: Seq<IngredientEntry>, ingredients: Seq<Ingredient>) -> bool {
    &&& next_key(ingredients) + count_new(entries) <= i32::MAX + 1
    &&& existing_ids_ok(entries, ingredients)
}

/// Tests `existing_ids_ok`.
pub fn existing_ids_valid(entries: &Vec<IngredientEntry>, ingredients: &Table<Ingredient>) -> (r:
    bool)
    requires
        ingredients.wf(),
    ensures
        r == existing_ids_ok(entries@, ingredients@),
{
    let n = entries.len();
    let mut i: usize = 0;
    while i < n
        invariant
            ingredients.wf(),
            n == entries@.len(),
            i <= n,
            forall|a: int|
                0 <= a < i && (#[trigger] entries@[a]).ingredient_id is Some ==> has_key(
                    ingredients@,
                    entries@[a].ingredient_id->0,
                ),
            forall|a: int, b: int|
                0 <= a < i && 0 <= b < i && a != b && (#[trigger] entries@[a]).ingredient_id is Some
                    ==> entries@[a].ingredient_id != (#[trigger] entries@[b]).ingredient_id,
        decreases n - i,
    {
        if let Some(id) = entries[i].ingredient_id {
            if !ingredients.exists_from_id(&id) {
                return false;
            }
            let mut j: usize = 0;
            while j < i
                invariant
                    n == entries@.len(),
                    j <= i < n,
                    entries@[i as int].ingredient_id == Some(id),
                    forall|b: int| 0 <= b < j ==> (#[trigger] entries@[b]).ingredient_id != Some(id),
                decreases i - j,
            {
                match entries[j].ingredient_id {
                    Some(other) => {
                        if other == id {
                            proof {
                                assert(entries@[j as int].ingredient_id == entries@[i as int].ingredient_id);
                            }
                            return false;
                        }
                    },
                    None => {},
                }
                j = j + 1;
            }
        }
        i = i + 1;
    }
    true
}

/// Once new ingredients are made for storable entries, the entries' uses are allowed.
pub proof fn lemma_assigned_uses_allowed(
    before: Seq<IngredientEntry>,
    after: Seq<IngredientEntry>,
    old_rows: Seq<Ingredient>,
    new_rows: Seq<Ingredient>,
)
    requires
        entries_storable(before, old_rows),
        ids_assigned(before, after, next_key(old_rows), new_rows),
        old_rows.len() <= new_rows.len(),
        new_rows.subrange(0, old_rows.len() as int) == old_rows,
    ensures
        uses_allowed(after, new_rows),
        forall|i: int| 0 <= i < after.len() ==> (#[trigger] after[i]).ingredient_id is Some,
{
    let start = next_key(old_rows);
    lemma_max_key(old_rows);
    assert forall|i: int| 0 <= i < after.len() implies (#[trigger] after[i]).ingredient_id is Some by {
        assert(after[i].name == before[i].name);
    }
    assert forall|i: int| 0 <= i < after.len() implies has_key(
        new_rows,
        (#[trigger] after[i]).ingredient_id->0,
    ) by {
        assert(after[i].name == before[i].name);
        if before[i].ingredient_id is Some {
            let k = before[i].ingredient_id->0;
            let m = choose|m: int| 0 <= m < old_rows.len() && #[trigger] old_rows[m].key() == k;
            assert(new_rows[m] == old_rows[m]);
        }
    }
    // A new entry's id lies in [start, i32::MAX]; an existing one is below start.
    assert forall|i: int| 0 <= i < before.len() && before[i].ingredient_id is None implies start
        + count_new(#[trigger] before.subrange(0, i)) <= i32::MAX && start + count_new(
        before.subrange(0, i),
    ) >= start by {
        lemma_count_new_grows(before, i, before.len() as int);
        assert(before.subrange(0, before.len() as int) =~= before);
        lemma_count_new_nonneg(before.subrange(0, i));
    }
    assert forall|i: int, j: int|
        0 <= i < after.len() && 0 <= j < after.len() && i != j implies (#[trigger] after[i]).ingredient_id
        != (#[trigger] after[j]).ingredient_id by {
        assert(after[i].name == before[i].name);
        assert(after[j].name == before[j].name);
        if before[i].ingredient_id is Some && before[j].ingredient_id is Some {
        } else if before[i].ingredient_id is None && before[j].ingredient_id is None {
            if i < j {
                lemma_count_new_grows(before, i, j);
            } else {
                lemma_count_new_grows(before, j, i);
            }
            assert(before.subrange(0, i).len() == i);
            assert(before.subrange(0, j).len() == j);
        } else if before[i].ingredient_id is Some {
            let k = before[i].ingredient_id->0;
            let m = choose|m: int| 0 <= m < old_rows.len() && #[trigger] old_rows[m].key() == k;
            assert(old_rows[m].key() as int <= max_key(old_rows));
            assert(before.subrange(0, j).len() == j);
        } else {
            let k = before[j].ingredient_id->0;
            let m = choose|m: int| 0 <= m < old_rows.len() && #[trigger] old_rows[m].key() == k;
            assert(old_rows[m].key() as int <= max_key(old_rows));
            assert(before.subrange(0, i).len() == i);
        }
    }
}

/// A count of new entries is never negative.
pub proof fn lemma_count_new_nonneg(s: Seq<IngredientEntry>)
    ensures
        count_new(s) >= 0,
    decreases s.len(),
{
    if s.len() > 0 {
        lemma_count_new_nonneg(s.drop_last());
    }
}

/// The ids of the tags at positions `selected` of `all_tags`.
pub open spec fn selected_ids(all_tags: Seq<Tag>, selected: Seq<usize>) -> Seq<Seq<char>> {
    selected.map_values(|k: usize| all_tags[k as int].id@)
}

/// `after` is `before` once the editor's ingredients and tags are stored for recipe
/// `recipe_id`: one new ingredient per new entry is appended under generated keys (and no
/// other row), the recipe's uses are
/// exactly the entries' (in order), its tags exactly the selected ones, and the recipes
/// and tags tables are as they were.
pub open spec fn stored(before: &Catalog, after: &Catalog, recipe_id: i32, editor: &RecipeEditor) -> bool {
    &&& exists|entries: Seq<IngredientEntry>|
        #[trigger] ids_assigned(
            editor.ingredients@,
            entries,
            next_key(before.ingredients@),
            after.ingredients@,
        ) && after.recipe_ingredients@ == not_children_of::<Recipe, RecipeIngredient>(
            before.recipe_ingredients@,
            recipe_id,
        ) + uses_for(recipe_id, entries)
    &&& after.ingredients@.len() == before.ingredients@.len() + count_new(editor.ingredients@)
    &&& after.ingredients@.subrange(0, before.ingredients@.len() as int) == before.ingredients@
    &&& relinked::<Recipe, Tag, RecipeTag>(
        before.recipe_tags@,
        after.recipe_tags@,
        recipe_id,
        selected_ids(editor.all_tags@, editor.selected_tags@),
    )
    &&& after.recipes@ == before.recipes@
    &&& after.tags@ == before.tags@
}

/// The selected tags exist and none is selected twice.
pub open spec fn tags_linkable(tags: Seq<Tag>, selected: Seq<Seq<char>>) -> bool {
    &&& forall|k: int| 0 <= k < selected.len() ==> has_key(tags, #[trigger] selected[k])
    &&& distinct_keys(selected)
}

impl RecipeEditor {
    /// Stores the editor's ingredients and tags for `recipe`: creates the new
    /// ingredients, replaces the recipe's ingredient uses, and sets its tags. It succeeds
    /// exactly when the entries can be stored and the tags linked. This is not atomic by
    /// itself: callers run it inside a transaction.
    pub fn handle_ingredients_and_tags(self, recipe: &Recipe, db: &mut Catalog) -> (r: Result<
        (),
        StoreError,
    >)
        requires
            old(db).wf(),
            self.ingredients@.len() < i32::MAX,
            forall|k: int|
                0 <= k < self.selected_tags@.len() ==> #[trigger] self.selected_tags@[k]
                    < self.all_tags@.len(),
        ensures
            final(db).wf(),
            r is Ok ==> stored(old(db), final(db), recipe.id, &self),
            r is Ok ==> related_of::<Recipe, Tag, RecipeTag>(
                final(db).recipe_tags@,
                final(db).tags@,
                recipe.id,
            ) == rows_named(final(db).tags@, selected_ids(self.all_tags@, self.selected_tags@)),
            r is Ok <==> entries_storable(self.ingredients@, old(db).ingredients@) && can_link(
                old(db).recipes@,
                old(db).tags@,
                recipe.id,
                selected_ids(self.all_tags@, self.selected_tags@),
            ),
    {
        let ghost editor = self;
        let ghost before = *db;
        if !existing_ids_valid(&self.ingredients, &db.ingredients) {
            return Err(StoreError::Constraint);
        }
        let mut entries = self.ingredients;
        match assign_ingredient_ids(&mut entries, &mut db.ingredients) {
            Ok(()) => {},
            Err(e) => {
                return Err(e);
            },
        }
        let ghost assigned = entries@;
        proof {
            if entries_storable(editor.ingredients@, before.ingredients@) {
                lemma_assigned_uses_allowed(
                    editor.ingredients@,
                    entries@,
                    before.ingredients@,
                    db.ingredients@,
                );
            }
            assert forall|i: int| 0 <= i < entries@.len() implies (#[trigger] entries@[i]).ingredient_id is Some by {
                assert(entries@[i].name == editor.ingredients@[i].name);
            }
        }
        match replace_uses(&mut db.recipe_ingredients, &db.ingredients, recipe.id, &entries) {
            Ok(_) => {},
            Err(e) => {
                return Err(e);
            },
        }
        let mut ids: Vec<String> = Vec::new();
        let n = self.selected_tags.len();
        let mut k: usize = 0;
        while k < n
            invariant
                n == editor.selected_tags@.len(),
                self.selected_tags == editor.selected_tags,
                self.all_tags == editor.all_tags,
                forall|j: int|
                    0 <= j < n ==> #[trigger] editor.selected_tags@[j] < editor.all_tags@.len(),
                k <= n,
                key_views(ids@) == selected_ids(
                    editor.all_tags@,
                    editor.selected_tags@.subrange(0, k as int),
                ),
            decreases n - k,
        {
            let index = self.selected_tags[k];
            let ghost before = ids@;
            ids.push(self.all_tags[index].id.clone());
            proof {
                assert(key_views(ids@) =~= key_views(before).push(editor.all_tags@[index as int].id@));
                assert(selected_ids(editor.all_tags@, editor.selected_tags@.subrange(0, k + 1))
                    =~= selected_ids(editor.all_tags@, editor.selected_tags@.subrange(0, k as int)).push(
                    editor.all_tags@[index as int].id@,
                ));
                assert(key_views(ids@) =~= selected_ids(
                    editor.all_tags@,
                    editor.selected_tags@.subrange(0, k + 1),
                ));
            }
            k = k + 1;
        }
        proof {
            assert(editor.selected_tags@.subrange(0, n as int) =~= editor.selected_tags@);
        }
        match set_related_ids::<Recipe, Tag, RecipeTag>(
            &mut db.recipe_tags,
            &db.recipes,
            &db.tags,
            &recipe.id,
            &ids,
        ) {
            Ok(_) => {},
            Err(e) => {
                return Err(e);
            },
        }
        proof {
            assert(ids_assigned(
                editor.ingredients@,
                assigned,
                next_key(before.ingredients@),
                db.ingredients@,
            ));
            lemma_set_related_exact::<Recipe, Tag, RecipeTag>(
                before.recipe_tags@,
                db.recipe_tags@,
                db.tags@,
                recipe.id,
                selected_ids(editor.all_tags@, editor.selected_tags@),
            );
        }
        Ok(())
    }

    /// Creates the recipe, with its ingredients and tags, as one transaction: on any
    /// error the store is left as it was. The recipe gets the store's generated key. It
    /// succeeds exactly when that key fits, the entries can be stored, and the selected
    /// tags exist and differ.
    pub fn create_recipe(self, db: &mut Catalog) -> (r: Result<Recipe, StoreError>)
        requires
            old(db).wf(),
            self.ingredients@.len() < i32::MAX,
            forall|k: int|
                0 <= k < self.selected_tags@.len() ==> #[trigger] self.selected_tags@[k]
                    < self.all_tags@.len(),
        ensures
            final(db).wf(),
            r is Err ==> final(db).same_rows(old(db)),
            r is Ok <==> next_key(old(db).recipes@) <= i32::MAX && entries_storable(
                self.ingredients@,
                old(db).ingredients@,
            ) && tags_linkable(old(db).tags@, selected_ids(self.all_tags@, self.selected_tags@)),
            r matches Ok(recipe) ==> {
                &&& recipe.id as int == next_key(old(db).recipes@)
                &&& !has_key(old(db).recipes@, recipe.id)
                &&& recipe.name@ == self.name@
                &&& recipe.instructions_markdown@ == self.instructions_markdown@
                &&& recipe.notes_markdown@ == self.notes_markdown@
                &&& final(db).recipes@ == old(db).recipes@.push(recipe)
                &&& exists|mid: Catalog|
                    mid.same_rows_but_recipes(old(db)) && #[trigger] stored(
                        &mid,
                        final(db),
                        recipe.id,
                        &self,
                    )
            },
    {
        let mut scratch = db.snapshot();
        let made = {
            let c = RecipeConstructor {
                name: self.name.as_str(),
                instructions_markdown: self.instructions_markdown.as_str(),
                notes_markdown: self.notes_markdown.as_str(),
            };
            scratch.recipes.insert_with_generated_key(&c)
        };
        let recipe = match made {
            Ok(recipe) => recipe,
            Err(e) => {
                return Err(e);
            },
        };
        proof {
            lemma_max_key(db.recipes@);
            if has_key(db.recipes@, recipe.id) {
                let i = choose|i: int| 0 <= i < db.recipes@.len() && #[trigger] db.recipes@[i].key()
                    == recipe.id;
                assert(db.recipes@[i].key() as int <= max_key(db.recipes@));
            }
        }
        let ghost mid = scratch;
        let ghost editor = self;
        proof {
            assert(scratch.recipes@[db.recipes@.len() as int] == recipe);
            assert(has_key(scratch.recipes@, recipe.key()));
        }
        match self.handle_ingredients_and_tags(&recipe, &mut scratch) {
            Ok(()) => {},
            Err(e) => {
                return Err(e);
            },
        }
        *db = scratch;
        proof {
            assert(stored(&mid, db, recipe.id, &editor));
        }
        Ok(recipe)
    }

    /// Saves the edited recipe over the stored one (id `existing_recipe_id`), with its
    /// ingredients and tags, as one transaction: on any error (`NotFound` when the recipe
    /// is gone) the store is left as it was. It succeeds exactly when the recipe exists,
    /// the entries can be stored, and the selected tags exist and differ.
    pub fn update_recipe(self, db: &mut Catalog) -> (r: Result<(), StoreError>)
        requires
            old(db).wf(),
            self.existing_recipe_id is Some,
            self.ingredients@.len() < i32::MAX,
            forall|k: int|
                0 <= k < self.selected_tags@.len() ==> #[trigger] self.selected_tags@[k]
                    < self.all_tags@.len(),
        ensures
            final(db).wf(),
            r is Err ==> final(db).same_rows(old(db)),
            !has_key(old(db).recipes@, self.existing_recipe_id->0) ==> r == Err::<(), StoreError>(
                StoreError::NotFound,
            ),
            r is Ok <==> has_key(old(db).recipes@, self.existing_recipe_id->0) && entries_storable(
                self.ingredients@,
                old(db).ingredients@,
            ) && tags_linkable(old(db).tags@, selected_ids(self.all_tags@, self.selected_tags@)),
            r is Ok ==> {
                let id = self.existing_recipe_id->0;
                let i = key_index(old(db).recipes@, id);
                &&& has_key(old(db).recipes@, id)
                &&& final(db).recipes@ == old(db).recipes@.update(
                    i,
                    Recipe {
                        id,
                        name: self.name,
                        instructions_markdown: self.instructions_markdown,
                        notes_markdown: self.notes_markdown,
                    },
                )
                &&& exists|mid: Catalog|
                    mid.same_rows_but_recipes(old(db)) && #[trigger] stored(&mid, final(db), id, &self)
            },
    {
        let ghost editor = self;
        let id = match self.existing_recipe_id {
            Some(id) => id,
            None => {
                return Err(StoreError::NotFound);
            },
        };
        let mut scratch = db.snapshot();
        let recipe = Recipe {
            id,
            name: self.name.clone(),
            instructions_markdown: self.instructions_markdown.clone(),
            notes_markdown: self.notes_markdown.clone(),
        };
        let saved = match scratch.recipes.update(recipe) {
            Ok(saved) => saved,
            Err(e) => {
                return Err(e);
            },
        };
        let ghost mid = scratch;
        proof {
            crate::table::lemma_upsert_keeps_keys_unique(db.recipes@, saved);
        }
        match self.handle_ingredients_and_tags(&saved, &mut scratch) {
            Ok(()) => {},
            Err(e) => {
                return Err(e);
            },
        }
        *db = scratch;
        proof {
            assert(stored(&mid, db, id, &editor));
        }
        Ok(())
    }
}

/// The editor entry for an ingredient use: the ingredient's id and name, the use's
/// quantity and notes.
pub open spec fn entry_of(p: (Ingredient, RecipeIngredient)) -> IngredientEntry {
    IngredientEntry {
        ingredient_id: Some(p.0.id),
        name: p.0.name,
        quantity: p.1.quantity,
        notes_markdown: p.1.notes_markdown,
    }
}

/// The editable line (or two lines, with notes) of an entry: "quantity: name", then
/// "- notes" below when there are notes.
pub open spec fn entry_text(e: IngredientEntry) -> Seq<char> {
    if e.notes_markdown@.len() > 0 {
        e.quantity@ + ": "@ + e.name@ + "\n- "@ + e.notes_markdown@
    } else {
        e.quantity@ + ": "@ + e.name@
    }
}

/// The Markdown lines of the entries.
pub open spec fn entry_lines(entries: Seq<IngredientEntry>) -> Seq<Seq<char>> {
    entries.map_values(
        |e: IngredientEntry| item_markdown(e.quantity@, e.name@, e.notes_markdown@),
    )
}

impl IngredientEntry {
    /// This entry with the ingredient picked from a list that offers a new ingredient
    /// first (`selected == 0`) and then `candidates`.
    pub fn with_choice(self, candidates: &Vec<Ingredient>, selected: usize) -> (r: Self)
        requires
            selected <= candidates@.len(),
        ensures
            r.name == self.name,
            r.quantity == self.quantity,
            r.notes_markdown == self.notes_markdown,
            selected == 0 ==> r.ingredient_id is None,
            selected > 0 ==> r.ingredient_id == Some(candidates@[selected - 1].id),
    {
        let ingredient_id = if selected > 0 {
            Some(candidates[selected - 1].id)
        } else {
            None
        };
        IngredientEntry { ingredient_id, ..self }
    }

    /// The Markdown list item of this entry.
    pub fn markdown_string(&self) -> (r: String)
        ensures
            r@ == item_markdown(self.quantity@, self.name@, self.notes_markdown@),
    {
        item_markdown_exec(self.quantity.as_str(), self.name.as_str(), self.notes_markdown.as_str())
    }

    /// The editable text of this entry.
    pub fn edit_text(&self) -> (r: String)
        ensures
            r@ == entry_text(*self),
    {
        let mut out = String::from_str(self.quantity.as_str());
        out.append(": ");
        out.append(self.name.as_str());
        if self.notes_markdown.as_str().unicode_len() > 0 {
            out.append("\n- ");
            out.append(self.notes_markdown.as_str());
        }
        out
    }
}

impl RecipeEditor {
    /// An editor for a new recipe: empty but for the instructions placeholder, offering
    /// every tag by name, none selected.
    pub fn new(db: &Catalog) -> (r: Self)
        requires
            db.wf(),
        ensures
            r.existing_recipe_id is None,
            r.name@ == Seq::<char>::empty(),
            r.ingredients@ == Seq::<IngredientEntry>::empty(),
            r.instructions_markdown@ == PLACEHOLDER_INSTRUCTIONS@,
            r.notes_markdown@ == Seq::<char>::empty(),
            sorted(r.all_tags@),
            r.all_tags@.to_multiset() == db.tags@.to_multiset(),
            r.selected_tags@ == Seq::<usize>::empty(),
    {
        RecipeEditor {
            existing_recipe_id: None,
            name: String::new(),
            ingredients: Vec::new(),
            instructions_markdown: String::from_str(PLACEHOLDER_INSTRUCTIONS),
            notes_markdown: String::new(),
            all_tags: db.tags.all_ordered(),
            selected_tags: Vec::new(),
        }
    }

    /// An editor for a stored recipe: its attributes, and its ingredients by display
    /// order (uses of equal order in either order); every tag by name, none selected.
    pub fn from_recipe(recipe: Recipe, db: &Catalog) -> (r: Self)
        requires
            db.wf(),
        ensures
            r.existing_recipe_id == Some(recipe.id),
            r.name == recipe.name,
            r.instructions_markdown == recipe.instructions_markdown,
            r.notes_markdown == recipe.notes_markdown,
            exists|items: Seq<(Ingredient, RecipeIngredient)>|
                sorted(items) && items.to_multiset() == with_ingredients(
                    db.ingredients@,
                    children_of::<Recipe, RecipeIngredient>(db.recipe_ingredients@, recipe.id),
                ).to_multiset() && r.ingredients@ == items.map_values(
                    |p: (Ingredient, RecipeIngredient)| entry_of(p),
                ),
            sorted(r.all_tags@),
            r.all_tags@.to_multiset() == db.tags@.to_multiset(),
            r.selected_tags@ == Seq::<usize>::empty(),
    {
        let items = recipe.get_ingredients_with_metadata(db);
        let ghost all = items@;
        let mut rest = items;
        let mut entries: Vec<IngredientEntry> = Vec::new();
        while rest.len() > 0
            invariant
                entries@.len() <= all.len(),
                all == all.subrange(0, entries@.len() as int) + rest@,
                entries@ == all.subrange(0, entries@.len() as int).map_values(
                    |p: (Ingredient, RecipeIngredient)| entry_of(p),
                ),
            decreases rest@.len(),
        {
            let ghost before = rest@;
            let (ingredient, usage) = rest.remove(0);
            let k = entries.len();
            proof {
                assert(before =~= seq![(ingredient, usage)] + rest@);
                assert(all[k as int] == (ingredient, usage));
                assert(all =~= all.subrange(0, k + 1) + rest@);
            }
            entries.push(
                IngredientEntry {
                    ingredient_id: Some(ingredient.id),
                    name: ingredient.name,
                    quantity: usage.quantity,
                    notes_markdown: usage.notes_markdown,
                },
            );
            proof {
                assert(entries@ =~= all.subrange(0, k + 1).map_values(
                    |p: (Ingredient, RecipeIngredient)| entry_of(p),
                ));
            }
        }
        proof {
            assert(all.subrange(0, entries@.len() as int) =~= all);
        }
        RecipeEditor {
            existing_recipe_id: Some(recipe.id),
            name: recipe.name,
            ingredients: entries,
            instructions_markdown: recipe.instructions_markdown,
            notes_markdown: recipe.notes_markdown,
            all_tags: db.tags.all_ordered(),
            selected_tags: Vec::new(),
        }
    }

    /// The text the ingredients editor starts with: one entry per line (notes on a
    /// "- " line below), or the placeholder when there are no entries.
    pub fn get_ingredients_text(&self) -> (r: String)
        ensures
            self.ingredients@.len() == 0 ==> r@ == PLACEHOLDER_INGREDIENTS@,
            self.ingredients@.len() > 0 ==> r@ == joined(
                self.ingredients@.map_values(|e: IngredientEntry| entry_text(e)),
                "\n"@,
            ),
    {
        if self.ingredients.len() == 0 {
            return String::from_str(PLACEHOLDER_INGREDIENTS);
        }
        let mut lines: Vec<String> = Vec::new();
        let n = self.ingredients.len();
        let mut i: usize = 0;
        while i < n
            invariant
                n == self.ingredients@.len(),
                i <= n,
                texts(lines@) == self.ingredients@.subrange(0, i as int).map_values(
                    |e: IngredientEntry| entry_text(e),
                ),
            decreases n - i,
        {
            let ghost before = lines@;
            let line = self.ingredients[i].edit_text();
            lines.push(line);
            proof {
                assert(texts(lines@) =~= texts(before).push(line@));
                assert(texts(lines@) =~= self.ingredients@.subrange(0, i + 1).map_values(
                    |e: IngredientEntry| entry_text(e),
                ));
            }
            i = i + 1;
        }
        proof {
            assert(self.ingredients@.subrange(0, n as int) =~= self.ingredients@);
        }
        join(&lines, "\n")
    }

    /// The Markdown preview of the recipe being edited (what is shown before saving).
    pub fn current_state_markdown(&self) -> (r: String)
        ensures
            r@ == recipe_markdown(
                self.name@,
                entry_lines(self.ingredients@),
                self.instructions_markdown@,
                self.notes_markdown@,
            ),
    {
        let mut lines: Vec<String> = Vec::new();
        let n = self.ingredients.len();
        let mut i: usize = 0;
        while i < n
            invariant
                n == self.ingredients@.len(),
                i <= n,
                texts(lines@) == entry_lines(self.ingredients@.subrange(0, i as int)),
            decreases n - i,
        {
            let ghost before = lines@;
            let line = self.ingredients[i].markdown_string();
            lines.push(line);
            proof {
                assert(texts(lines@) =~= texts(before).push(line@));
                assert(texts(lines@) =~= entry_lines(self.ingredients@.subrange(0, i + 1)));
            }
            i = i + 1;
        }
        proof {
            assert(self.ingredients@.subrange(0, n as int) =~= self.ingredients@);
        }
        let body = join(&lines, "\n");
        let mut out = String::from_str("# ");
        out.append(self.name.as_str());
        out.append("\n---\n## Ingredients\n");
        out.append(body.as_str());
        out.append("\n\n## Instructions\n");
        out.append(self.instructions_markdown.as_str());
        out.append("\n");
        if self.notes_markdown.as_str().unicode_len() > 0 {
            out.append("\n**Notes:**\n");
            out.append(self.notes_markdown.as_str());
        }
        proof {
            let notes_part = if self.notes_markdown@.len() > 0 {
                "\n**Notes:**\n"@ + self.notes_markdown@
            } else {
                Seq::empty()
            };
            assert(out@ =~= "# "@ + self.name@ + "\n---\n## Ingredients\n"@ + joined(
                entry_lines(self.ingredients@),
                "\n"@,
            ) + "\n\n## Instructions\n"@ + self.instructions_markdown@ + "\n"@ + notes_part);
        }
        out
    }
}

} // verus!
