use recipes::entity::{BelongsTo, Entity, StoreError};
use recipes::models::Recipe;
use recipes::relations::{get_parent, get_parent_optional};
use recipes::table::Table;

/// A child whose reference to a recipe may be unset.
struct Note {
    id: i32,
    recipe_id: Option<i32>,
}

impl Entity for Note {
    type Key = i32;

    fn key(&self) -> i32 {
        self.id
    }

    fn key_of(&self) -> i32 {
        self.id
    }

    fn has_key(&self, k: &i32) -> bool {
        self.id == *k
    }

    fn same_key(&self, other: &Self) -> bool {
        self.id == other.id
    }

    fn copy_row(&self) -> Self {
        Note { id: self.id, recipe_id: self.recipe_id }
    }
}

impl BelongsTo<Recipe> for Note {
    fn parent_key(&self) -> Option<i32> {
        self.recipe_id
    }

    fn foreign_key(&self) -> Option<&i32> {
        self.recipe_id.as_ref()
    }

    fn refers_to(&self, k: &i32) -> bool {
        self.recipe_id == Some(*k)
    }
}

fn recipes_with_one() -> Table<Recipe> {
    let mut t = Table::new();
    t.insert(Recipe {
        id: 1,
        name: "Soup".to_string(),
        instructions_markdown: String::new(),
        notes_markdown: String::new(),
    })
    .unwrap();
    t
}

#[test]
fn unset_reference_has_no_parent() {
    let recipes = recipes_with_one();
    let note = Note { id: 7, recipe_id: None };
    assert_eq!(note.key_of(), 7);
    assert!(matches!(get_parent::<Recipe, Note>(&note, &recipes), Ok(None)));
    assert!(get_parent_optional::<Recipe, Note>(&note, &recipes).is_none());
}

#[test]
fn dangling_reference_strict_fails_optional_is_none() {
    let mut recipes = recipes_with_one();
    let note = Note { id: 8, recipe_id: Some(1) };
    assert_eq!(get_parent::<Recipe, Note>(&note, &recipes).unwrap().unwrap().name, "Soup");
    assert_eq!(recipes.delete_from_id(&1), 1);
    assert_eq!(get_parent::<Recipe, Note>(&note, &recipes).err(), Some(StoreError::NotFound));
    assert!(get_parent_optional::<Recipe, Note>(&note, &recipes).is_none());
}
