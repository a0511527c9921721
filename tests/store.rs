use recipes::entity::{ManyToManyConstructor, StoreError};
use recipes::models::{Recipe, RecipeConstructor, RecipeIngredient, RecipeTag, Tag};
use recipes::relations::{
    count_children, count_related, delete_all_children, delete_one, delete_zero_or_one,
    get_children, get_one, get_parent, get_parent_optional, get_related, get_zero_or_one,
    remove_all_links, set_related, set_related_ids,
};
use recipes::table::Table;

fn recipe(id: i32, name: &str) -> Recipe {
    Recipe {
        id,
        name: name.to_string(),
        instructions_markdown: String::new(),
        notes_markdown: String::new(),
    }
}

fn tag(id: &str) -> Tag {
    Tag { id: id.to_string(), name: id.to_string(), description_markdown: String::new() }
}

fn tag_ids(rows: &[Tag]) -> Vec<String> {
    let mut ids: Vec<String> = rows.iter().map(|t| t.id.clone()).collect();
    ids.sort();
    ids
}

fn pancakes_store() -> (Table<Recipe>, Table<Tag>, Table<RecipeTag>) {
    let mut recipes = Table::new();
    recipes.insert(recipe(1, "Pancakes")).unwrap();
    let mut tags = Table::new();
    for t in ["breakfast", "easy", "quick"] {
        tags.insert(tag(t)).unwrap();
    }
    let mut links = Table::new();
    for t in ["breakfast", "easy"] {
        links.insert(RecipeTag { recipe_id: 1, tag_id: t.to_string() }).unwrap();
    }
    (recipes, tags, links)
}

#[test]
fn insert_rejects_duplicate_key() {
    let mut t = Table::new();
    assert_eq!(t.insert(recipe(1, "a")), Ok(1));
    assert_eq!(t.insert(recipe(1, "b")), Err(StoreError::Constraint));
    assert_eq!(t.count_all(), 1);
    assert_eq!(t.find(&1).unwrap().name, "a");
}

#[test]
fn insert_list_is_all_or_nothing() {
    let mut t = Table::new();
    t.insert(recipe(1, "a")).unwrap();
    let clash = vec![recipe(2, "b"), recipe(1, "c")];
    assert_eq!(t.insert_list(&clash), Err(StoreError::Constraint));
    assert_eq!(t.count_all(), 1);
    let repeated = vec![recipe(2, "b"), recipe(2, "c")];
    assert_eq!(t.insert_list(&repeated), Err(StoreError::Constraint));
    assert_eq!(t.count_all(), 1);
    let fine = vec![recipe(2, "b"), recipe(3, "c")];
    assert_eq!(t.insert_list(&fine), Ok(2));
    assert_eq!(t.count_all(), 3);
    let names: Vec<String> = t.all().into_iter().map(|r| r.name).collect();
    assert_eq!(names, vec!["a", "b", "c"]);
}

#[test]
fn find_and_find_optional() {
    let mut t = Table::new();
    t.insert(recipe(4, "soup")).unwrap();
    assert_eq!(t.find(&4).unwrap().name, "soup");
    assert_eq!(t.find(&5).err(), Some(StoreError::NotFound));
    assert!(t.find_optional(&5).is_none());
    assert!(t.exists_from_id(&4));
    assert!(!t.exists_from_id(&5));
    assert!(t.exists_row(&recipe(4, "other name")));
}

#[test]
fn update_replaces_or_reports_not_found() {
    let mut t = Table::new();
    t.insert(recipe(1, "a")).unwrap();
    assert_eq!(t.update(recipe(1, "b")).unwrap().name, "b");
    assert_eq!(t.find(&1).unwrap().name, "b");
    assert_eq!(t.update(recipe(2, "c")).err(), Some(StoreError::NotFound));
    assert_eq!(t.count_all(), 1);
}

#[test]
fn upsert_twice_equals_once() {
    let mut once = Table::new();
    once.insert(recipe(1, "a")).unwrap();
    let mut twice = Table::new();
    twice.insert(recipe(1, "a")).unwrap();
    assert_eq!(once.insert_or_update(recipe(2, "b")), 1);
    assert_eq!(twice.insert_or_update(recipe(2, "b")), 1);
    assert_eq!(twice.insert_or_update(recipe(2, "b")), 1);
    let a: Vec<(i32, String)> = once.all().into_iter().map(|r| (r.id, r.name)).collect();
    let b: Vec<(i32, String)> = twice.all().into_iter().map(|r| (r.id, r.name)).collect();
    assert_eq!(a, b);
    assert_eq!(once.insert_or_update(recipe(1, "z")), 1);
    assert_eq!(once.find(&1).unwrap().name, "z");
    assert_eq!(once.count_all(), 2);
}

#[test]
fn keys_stay_unique_after_mixed_writes() {
    let mut t = Table::new();
    let _ = t.insert(recipe(1, "a"));
    let _ = t.insert_or_update(recipe(1, "b"));
    let _ = t.insert(recipe(1, "c"));
    let _ = t.insert_or_update(recipe(2, "d"));
    assert_eq!(t.delete_from_id(&1), 1);
    let _ = t.insert(recipe(1, "e"));
    let _ = t.insert_or_update(recipe(2, "f"));
    let mut ids: Vec<i32> = t.all().into_iter().map(|r| r.id).collect();
    ids.sort();
    assert_eq!(ids, vec![1, 2]);
}

#[test]
fn delete_reports_count() {
    let mut t = Table::new();
    t.insert(recipe(1, "a")).unwrap();
    assert_eq!(t.delete(&recipe(1, "a")), 1);
    assert_eq!(t.delete(&recipe(1, "a")), 0);
    assert_eq!(t.delete_from_id(&1), 0);
    assert_eq!(t.count_all(), 0);
}

#[test]
fn reload_reads_stored_row() {
    let mut t = Table::new();
    t.insert(recipe(1, "stored")).unwrap();
    let mut r = recipe(1, "stale");
    assert_eq!(t.reload(&mut r), Ok(()));
    assert_eq!(r.name, "stored");
    let mut gone = recipe(9, "gone");
    assert_eq!(t.reload(&mut gone), Err(StoreError::NotFound));
    assert_eq!(gone.name, "gone");
    assert_eq!(t.reload_new(&recipe(1, "x")).unwrap().name, "stored");
}

#[test]
fn generated_keys_start_at_one() {
    let mut t: Table<Recipe> = Table::new();
    let c = RecipeConstructor { name: "first", instructions_markdown: "mix", notes_markdown: "" };
    let first = t.insert_with_generated_key(&c).unwrap();
    assert_eq!(first.id, 1);
    assert_eq!(first.name, "first");
    assert_eq!(first.instructions_markdown, "mix");
    let c2 = RecipeConstructor { name: "second", instructions_markdown: "", notes_markdown: "n" };
    let second = t.insert_with_generated_key(&c2).unwrap();
    assert_eq!(second.id, 2);
    assert_eq!(t.find(&1).unwrap().name, "first");
    assert_eq!(t.find(&2).unwrap().name, "second");
}

#[test]
fn generated_key_follows_largest() {
    let mut t = Table::new();
    t.insert(recipe(7, "a")).unwrap();
    t.insert(recipe(3, "b")).unwrap();
    let c = RecipeConstructor { name: "c", instructions_markdown: "", notes_markdown: "" };
    assert_eq!(t.insert_with_generated_key(&c).unwrap().id, 8);
}

#[test]
fn generated_key_exhausted() {
    let mut t = Table::new();
    t.insert(recipe(i32::MAX, "last")).unwrap();
    let c = RecipeConstructor { name: "c", instructions_markdown: "", notes_markdown: "" };
    assert_eq!(t.insert_with_generated_key(&c).err(), Some(StoreError::Store));
    assert_eq!(t.count_all(), 1);
}

#[test]
fn set_related_replaces_membership() {
    let (recipes, tags, mut links) = pancakes_store();
    let wanted = vec!["easy".to_string(), "quick".to_string()];
    assert_eq!(set_related_ids::<Recipe, Tag, RecipeTag>(&mut links, &recipes, &tags, &1, &wanted), Ok(2));
    let related = get_related::<Recipe, Tag, RecipeTag>(&links, &tags, &1);
    assert_eq!(tag_ids(&related), vec!["easy", "quick"]);
    assert!(tags.find(&"breakfast".to_string()).is_ok());
    assert_eq!(links.count_all(), 2);
    assert_eq!(count_related::<Recipe, Tag, RecipeTag>(&links, &tags, &1), 2);
}

#[test]
fn set_related_rolls_back_on_missing_id() {
    let (recipes, tags, mut links) = pancakes_store();
    let wanted = vec!["easy".to_string(), "missing".to_string()];
    assert_eq!(
        set_related_ids::<Recipe, Tag, RecipeTag>(&mut links, &recipes, &tags, &1, &wanted),
        Err(StoreError::Constraint)
    );
    let related = get_related::<Recipe, Tag, RecipeTag>(&links, &tags, &1);
    assert_eq!(tag_ids(&related), vec!["breakfast", "easy"]);
}

#[test]
fn set_related_rolls_back_on_repeated_id() {
    let (recipes, tags, mut links) = pancakes_store();
    let wanted = vec!["quick".to_string(), "quick".to_string()];
    assert_eq!(
        set_related_ids::<Recipe, Tag, RecipeTag>(&mut links, &recipes, &tags, &1, &wanted),
        Err(StoreError::Constraint)
    );
    assert_eq!(links.count_all(), 2);
}

#[test]
fn set_related_needs_existing_anchor() {
    let (recipes, tags, mut links) = pancakes_store();
    let wanted = vec!["quick".to_string()];
    assert_eq!(
        set_related_ids::<Recipe, Tag, RecipeTag>(&mut links, &recipes, &tags, &2, &wanted),
        Err(StoreError::Constraint)
    );
    assert_eq!(set_related_ids::<Recipe, Tag, RecipeTag>(&mut links, &recipes, &tags, &2, &vec![]), Ok(0));
    assert_eq!(links.count_all(), 2);
}

#[test]
fn set_related_from_rows_and_from_tag_side() {
    let (recipes, tags, mut links) = pancakes_store();
    let rows = vec![tag("quick")];
    assert_eq!(set_related::<Recipe, Tag, RecipeTag>(&mut links, &recipes, &tags, &1, &rows), Ok(1));
    let related = get_related::<Recipe, Tag, RecipeTag>(&links, &tags, &1);
    assert_eq!(tag_ids(&related), vec!["quick"]);
    let tagged = get_related::<Tag, Recipe, RecipeTag>(&links, &recipes, &"quick".to_string());
    assert_eq!(tagged.len(), 1);
    assert_eq!(tagged[0].name, "Pancakes");
    assert_eq!(set_related_ids::<Tag, Recipe, RecipeTag>(&mut links, &tags, &recipes, &"quick".to_string(), &vec![]), Ok(0));
    assert_eq!(links.count_all(), 0);
}

#[test]
fn remove_all_links_keeps_related_rows() {
    let (_recipes, tags, mut links) = pancakes_store();
    assert_eq!(remove_all_links::<Recipe, RecipeTag>(&mut links, &1), 2);
    assert!(get_related::<Recipe, Tag, RecipeTag>(&links, &tags, &1).is_empty());
    assert_eq!(tags.count_all(), 3);
    assert!(tags.find(&"breakfast".to_string()).is_ok());
    assert!(tags.find(&"easy".to_string()).is_ok());
}

#[test]
fn belongs_to_strict_and_optional() {
    let (mut recipes, _tags, _links) = pancakes_store();
    let link = RecipeTag { recipe_id: 1, tag_id: "easy".to_string() };
    assert_eq!(get_parent::<Recipe, RecipeTag>(&link, &recipes).unwrap().unwrap().name, "Pancakes");
    assert_eq!(get_parent_optional::<Recipe, RecipeTag>(&link, &recipes).unwrap().id, 1);
    recipes.delete_from_id(&1);
    assert_eq!(get_parent::<Recipe, RecipeTag>(&link, &recipes).err(), Some(StoreError::NotFound));
    assert!(get_parent_optional::<Recipe, RecipeTag>(&link, &recipes).is_none());
}

#[test]
fn has_many_children() {
    let mut uses = Table::new();
    for (r, i) in [(1, 10), (2, 10), (1, 11)] {
        uses.insert(RecipeIngredient::new(r, i)).unwrap();
    }
    let of_one = get_children::<Recipe, RecipeIngredient>(&uses, &1);
    let ingredient_ids: Vec<i32> = of_one.iter().map(|u| u.ingredient_id).collect();
    assert_eq!(ingredient_ids, vec![10, 11]);
    assert_eq!(count_children::<Recipe, RecipeIngredient>(&uses, &1), 2);
    assert_eq!(count_children::<Recipe, RecipeIngredient>(&uses, &3), 0);
    assert_eq!(delete_all_children::<Recipe, RecipeIngredient>(&mut uses, &1), 2);
    assert_eq!(uses.count_all(), 1);
    assert_eq!(delete_all_children::<Recipe, RecipeIngredient>(&mut uses, &1), 0);
}

#[test]
fn has_one_and_zero_or_one() {
    let mut uses = Table::new();
    uses.insert(RecipeIngredient::new(1, 10)).unwrap();
    uses.insert(RecipeIngredient::new(1, 11)).unwrap();
    assert_eq!(get_one::<Recipe, RecipeIngredient>(&uses, &1).unwrap().ingredient_id, 10);
    assert_eq!(get_one::<Recipe, RecipeIngredient>(&uses, &2).err(), Some(StoreError::NotFound));
    assert!(get_zero_or_one::<Recipe, RecipeIngredient>(&uses, &2).is_none());
    assert_eq!(delete_zero_or_one::<Recipe, RecipeIngredient>(&mut uses, &2).map(|u| u.ingredient_id), None);
    assert_eq!(delete_one::<Recipe, RecipeIngredient>(&mut uses, &1).unwrap().ingredient_id, 10);
    assert_eq!(uses.count_all(), 0);
    assert_eq!(delete_one::<Recipe, RecipeIngredient>(&mut uses, &1).err(), Some(StoreError::NotFound));
}

#[test]
fn many_to_many_constructor_defaults() {
    let link = <RecipeIngredient as ManyToManyConstructor<Recipe, recipes::models::Ingredient>>::new(&3, &4);
    assert_eq!((link.recipe_id, link.ingredient_id, link.display_order), (3, 4, 0));
    assert!(link.quantity.is_empty() && link.notes_markdown.is_empty());
    let flipped = <RecipeIngredient as ManyToManyConstructor<recipes::models::Ingredient, Recipe>>::new(&4, &3);
    assert_eq!((flipped.recipe_id, flipped.ingredient_id), (3, 4));
}
