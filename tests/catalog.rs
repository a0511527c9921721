use recipes::catalog::{Catalog, Outcome};
use recipes::commands::{DeleteArgs, DumpArgs, EditArgs, ListArgs, PrintArgs, RecipeWithFilename};
use recipes::editor::{IngredientEntry, RecipeEditor, PLACEHOLDER_INGREDIENTS, PLACEHOLDER_INSTRUCTIONS};
use recipes::entity::StoreError;
use recipes::models::{item_markdown_exec, Ingredient, Recipe, RecipeIngredient, RecipeTag, Tag};
use recipes::ordering::{sort_rows, text_le_exec};
use recipes::parse::parse_ingredient_lines;
use recipes::relations::get_related;
use recipes::render::html_body;
use recipes::search::{exact_match, words_exec};
use recipes::tag_commands;
use recipes::text::{int_text, join, trim};

fn recipe(id: i32, name: &str) -> Recipe {
    Recipe {
        id,
        name: name.to_string(),
        instructions_markdown: "Mix.".to_string(),
        notes_markdown: String::new(),
    }
}

fn tag(id: &str) -> Tag {
    Tag { id: id.to_string(), name: id.to_string(), description_markdown: String::new() }
}

fn ingredient(id: i32, name: &str) -> Ingredient {
    Ingredient { id, name: name.to_string() }
}

fn usage(recipe_id: i32, ingredient_id: i32, order: i32, quantity: &str, notes: &str) -> RecipeIngredient {
    RecipeIngredient {
        recipe_id,
        ingredient_id,
        display_order: order,
        quantity: quantity.to_string(),
        notes_markdown: notes.to_string(),
    }
}

fn entry(id: Option<i32>, name: &str, quantity: &str, notes: &str) -> IngredientEntry {
    IngredientEntry {
        ingredient_id: id,
        name: name.to_string(),
        quantity: quantity.to_string(),
        notes_markdown: notes.to_string(),
    }
}

fn sample() -> Catalog {
    let mut db = Catalog::new();
    db.recipes.insert(recipe(2, "B")).unwrap();
    db.recipes.insert(recipe(1, "A")).unwrap();
    for t in ["quick", "easy", "breakfast"] {
        db.tags.insert(tag(t)).unwrap();
    }
    for (r, t) in [(1, "quick"), (2, "easy"), (1, "breakfast")] {
        db.recipe_tags.insert(RecipeTag { recipe_id: r, tag_id: t.to_string() }).unwrap();
    }
    db.ingredients.insert(ingredient(10, "Flour")).unwrap();
    db.ingredients.insert(ingredient(11, "Egg")).unwrap();
    db.recipe_ingredients.insert(usage(1, 10, 2, "1 cup", "")).unwrap();
    db.recipe_ingredients.insert(usage(1, 11, 1, "2", "beaten")).unwrap();
    db
}

#[test]
fn trim_and_join() {
    assert_eq!(trim("  a b \t\n"), "a b");
    assert_eq!(trim("\u{3000}x\u{A0}"), "x");
    assert_eq!(trim("   "), "");
    let parts = vec!["a".to_string(), "b".to_string(), "c".to_string()];
    assert_eq!(join(&parts, ", "), "a, b, c");
    assert_eq!(join(&vec![], ", "), "");
}

#[test]
fn text_order_and_sorting() {
    assert!(text_le_exec("abc", "abd"));
    assert!(text_le_exec("ab", "abc"));
    assert!(!text_le_exec("b", "abc"));
    assert!(text_le_exec("B", "a"));
    let sorted = sort_rows(vec![tag("pear"), tag("apple"), tag("fig")]);
    let names: Vec<String> = sorted.into_iter().map(|t| t.name).collect();
    assert_eq!(names, vec!["apple", "fig", "pear"]);
}

#[test]
fn ordered_views() {
    let db = sample();
    let names: Vec<String> = db.recipes.all_ordered().into_iter().map(|r| r.name).collect();
    assert_eq!(names, vec!["A", "B"]);
    let tags = recipes::relations::get_related_ordered::<Recipe, Tag, RecipeTag>(&db.recipe_tags, &db.tags, &1);
    let tag_names: Vec<String> = tags.into_iter().map(|t| t.name).collect();
    assert_eq!(tag_names, vec!["breakfast", "quick"]);
    let uses = recipes::relations::get_children_ordered::<Recipe, RecipeIngredient>(&db.recipe_ingredients, &1);
    let orders: Vec<i32> = uses.into_iter().map(|u| u.display_order).collect();
    assert_eq!(orders, vec![1, 2]);
}

#[test]
fn ingredient_item_markdown() {
    assert_eq!(item_markdown_exec("  2 cups ", "Flour", " sifted "), "- 2 cups Flour\n  - sifted");
    assert_eq!(item_markdown_exec(" ", "Salt", ""), "- Salt");
    let flour = ingredient(10, "Flour");
    let u = usage(1, 10, 1, "1 cup", "  ");
    assert_eq!(flour.markdown_string(&u), "- 1 cup Flour");
    assert_eq!(u.markdown_string(&flour), "- 1 cup Flour");
}

#[test]
fn recipe_markdown_page() {
    let db = sample();
    let r = db.recipes.find(&1).unwrap();
    let items = r.get_ingredients_with_metadata(&db);
    let names: Vec<String> = items.iter().map(|(i, _)| i.name.clone()).collect();
    assert_eq!(names, vec!["Egg", "Flour"]);
    assert_eq!(
        r.markdown_string(&db),
        "# A\n---\n## Ingredients\n- 2 Egg\n  - beaten\n- 1 cup Flour\n\n## Instructions\nMix.\n"
    );
    let mut with_notes = r;
    with_notes.notes_markdown = "Serve hot".to_string();
    assert_eq!(
        with_notes.markdown_with(&vec![]),
        "# A\n---\n## Ingredients\n\n\n## Instructions\nMix.\n\n**Notes:**\nServe hot"
    );
}

#[test]
fn recipe_file_name() {
    assert_eq!(recipe(1, "My Pancake Recipe").get_filename(), "my-pancake-recipe.md");
    assert_eq!(recipes::models::markdown_file_name("x"), "x.md");
    let entry = RecipeWithFilename::from(recipe(3, "Apple Pie"));
    assert_eq!(entry.filename, "apple-pie.md");
    assert_eq!(entry.recipe.id, 3);
}

#[test]
fn list_recipes_table() {
    let db = sample();
    assert_eq!(
        ListArgs.execute(&db),
        "| ID | Recipe Name | Tags |\n| -:|:- |:- |\n|1|A|breakfast, quick|\n|2|B|easy|"
    );
    assert_eq!(ListArgs.execute(&Catalog::new()), "| ID | Recipe Name | Tags |\n| -:|:- |:- |\n");
}

#[test]
fn list_tags_table() {
    let mut db = Catalog::new();
    db.tags
        .insert(Tag { id: "q".to_string(), name: "Quick".to_string(), description_markdown: "fast".to_string() })
        .unwrap();
    db.tags
        .insert(Tag { id: "b".to_string(), name: "Breakfast".to_string(), description_markdown: String::new() })
        .unwrap();
    assert_eq!(
        tag_commands::ListArgs.execute(&db),
        "| Tag ID | Name | Description |\n| -:|:- |:- |\n|b|Breakfast||\n|q|Quick|fast|"
    );
}

#[test]
fn print_recipe_or_nothing() {
    let db = sample();
    assert!(PrintArgs { id: 9, web: false }.execute(&db).is_none());
    let page = PrintArgs { id: 2, web: false }.execute(&db).unwrap();
    assert_eq!(page, "# B\n---\n## Ingredients\n\n\n## Instructions\nMix.\n");
}

#[test]
fn delete_recipe_outcomes() {
    let mut db = sample();
    assert!(matches!(DeleteArgs { id: 9, force: false }.execute(&mut db, true), Outcome::NoSuchRecipe(9)));
    assert!(matches!(DeleteArgs { id: 1, force: false }.execute(&mut db, false), Outcome::Cancelled));
    assert_eq!(db.recipes.count_all(), 2);
    assert!(matches!(DeleteArgs { id: 1, force: true }.execute(&mut db, false), Outcome::DeletedRecipe(1)));
    assert!(!db.recipes.exists_from_id(&1));
    assert!(matches!(DeleteArgs { id: 2, force: false }.execute(&mut db, true), Outcome::DeletedRecipe(2)));
    assert_eq!(db.recipes.count_all(), 0);
}

#[test]
fn edit_recipe_outcomes() {
    let mut db = sample();
    let out = EditArgs { id: 2 }.execute(&mut db, "Bread".to_string(), "Bake.".to_string(), "Warm".to_string());
    assert!(matches!(out, Outcome::Done));
    let r = db.recipes.find(&2).unwrap();
    assert_eq!((r.name.as_str(), r.instructions_markdown.as_str(), r.notes_markdown.as_str()), ("Bread", "Bake.", "Warm"));
    let missing = EditArgs { id: 5 }.execute(&mut db, "x".to_string(), String::new(), String::new());
    assert!(matches!(missing, Outcome::NoSuchRecipe(5)));
}

#[test]
fn tag_create_edit_delete() {
    let mut db = Catalog::new();
    let out = tag_commands::CreateArgs { id: "quick".to_string(), name: None, description: None }.execute(&mut db);
    assert!(matches!(out, Outcome::Done));
    let t = db.tags.find(&"quick".to_string()).unwrap();
    assert_eq!((t.name.as_str(), t.description_markdown.as_str()), ("quick", ""));
    let again = tag_commands::CreateArgs { id: "quick".to_string(), name: Some("Q".to_string()), description: None }
        .execute(&mut db);
    assert!(matches!(again, Outcome::ExistingTag(ref id) if id == "quick"));
    let named = tag_commands::CreateArgs {
        id: "easy".to_string(),
        name: Some("Easy".to_string()),
        description: Some("little work".to_string()),
    }
    .execute(&mut db);
    assert!(matches!(named, Outcome::Done));
    assert_eq!(db.tags.find(&"easy".to_string()).unwrap().name, "Easy");

    let edit = tag_commands::EditArgs { id: "quick".to_string(), name: None, description: Some("fast".to_string()) }
        .execute(&mut db);
    assert!(matches!(edit, Outcome::Done));
    let t = db.tags.find(&"quick".to_string()).unwrap();
    assert_eq!((t.name.as_str(), t.description_markdown.as_str()), ("quick", "fast"));
    let none = tag_commands::EditArgs { id: "nope".to_string(), name: None, description: None }.execute(&mut db);
    assert!(matches!(none, Outcome::NoSuchTag(ref id) if id == "nope"));

    let gone = tag_commands::DeleteArgs { id: "quick".to_string() }.execute(&mut db);
    assert!(matches!(gone, Outcome::Done));
    assert!(!db.tags.exists_from_id(&"quick".to_string()));
    let again = tag_commands::DeleteArgs { id: "quick".to_string() }.execute(&mut db);
    assert!(matches!(again, Outcome::NoSuchTag(_)));
}

#[test]
fn tag_apply_choices_and_execute() {
    let mut db = sample();
    let args = tag_commands::ApplyArgs { id: "easy".to_string() };
    let (t, all, picked) = args.choices(&db).unwrap();
    assert_eq!(t.id, "easy");
    let names: Vec<String> = all.iter().map(|r| r.name.clone()).collect();
    assert_eq!(names, vec!["A", "B"]);
    assert_eq!(picked, vec![1]);
    assert_eq!(args.execute(&mut db, &all, &vec![0, 1]), Ok(2));
    let tagged = get_related::<Tag, Recipe, RecipeTag>(&db.recipe_tags, &db.recipes, &"easy".to_string());
    assert_eq!(tagged.len(), 2);
    assert!(tag_commands::ApplyArgs { id: "none".to_string() }.choices(&db).is_none());
    let args = tag_commands::ApplyArgs { id: "easy".to_string() };
    assert_eq!(args.execute(&mut db, &all, &vec![0, 0]), Err(StoreError::Constraint));
    assert_eq!(get_related::<Tag, Recipe, RecipeTag>(&db.recipe_tags, &db.recipes, &"easy".to_string()).len(), 2);
}

#[test]
fn dump_index_input() {
    let db = sample();
    let input = DumpArgs { dump_path: "out".to_string(), skip_sql: true }.build_index_input(&db);
    assert_eq!(input.recipes_folder, "recipes");
    assert_eq!(input.dump_sql_filename, "recipes.sql");
    assert!(input.skip_sql);
    let files: Vec<String> = input.recipes.iter().map(|r| r.filename.clone()).collect();
    assert_eq!(files, vec!["a.md", "b.md"]);
    let tag_ids: Vec<String> = input.tags.iter().map(|t| t.tag.id.clone()).collect();
    assert_eq!(tag_ids, vec!["breakfast", "easy", "quick"]);
    assert_eq!(input.tags[0].recipes.len(), 1);
    assert_eq!(input.tags[0].recipes[0].recipe.name, "A");
}

#[test]
fn parse_ingredient_text() {
    let parsed = parse_ingredient_lines("1 cup: Flour\n- sifted\n\n  2: Eggs  \r\nSalt\n- \na:b:c");
    let parts: Vec<(String, String, String, bool)> = parsed
        .into_iter()
        .map(|e| (e.quantity, e.name, e.notes_markdown, e.ingredient_id.is_none()))
        .collect();
    let expect = vec![
        ("1 cup", "Flour", "sifted"),
        ("2", "Eggs", ""),
        ("", "Salt", ""),
        ("", "-", ""),
        ("a", "b:c", ""),
    ];
    assert_eq!(parts.len(), expect.len());
    for (got, want) in parts.iter().zip(expect.iter()) {
        assert_eq!((got.0.as_str(), got.1.as_str(), got.2.as_str(), got.3), (want.0, want.1, want.2, true));
    }
    assert!(parse_ingredient_lines("  \n \n").is_empty());
}

#[test]
fn search_ingredients_by_words() {
    let mut t = recipes::table::Table::new();
    for (id, n) in [(1, "Flour"), (2, "Brown Sugar"), (3, "sugar cubes"), (4, "Egg")] {
        t.insert(ingredient(id, n)).unwrap();
    }
    let ids = |v: Vec<Ingredient>| v.into_iter().map(|i| i.id).collect::<Vec<i32>>();
    assert_eq!(ids(Ingredient::find_by_name("SUGAR", &t)), vec![2, 3]);
    assert_eq!(ids(Ingredient::find_by_name("", &t)), vec![1, 2, 3, 4]);
    assert_eq!(ids(Ingredient::find_by_name("egg  flour", &t)), vec![1, 4]);
    assert_eq!(ids(Ingredient::find_by_name("f_our", &t)), vec![1]);
    assert_eq!(ids(Ingredient::find_by_name("b%r", &t)), vec![2]);
    assert_eq!(ids(Ingredient::find_by_name("milk", &t)), Vec::<i32>::new());
    let words: Vec<String> = words_exec(" a  bc\td ").into_iter().map(|w| w.into_iter().collect()).collect();
    assert_eq!(words, vec!["a", "bc", "d"]);
    let candidates = vec![ingredient(5, "Sugar syrup"), ingredient(6, "Sugar")];
    assert_eq!(exact_match("Sugar", &candidates), Some(1));
    assert_eq!(exact_match("sugar", &candidates), None);
}

#[test]
fn editor_texts() {
    let db = sample();
    let editor = RecipeEditor::new(&db);
    assert_eq!(editor.instructions_markdown, PLACEHOLDER_INSTRUCTIONS);
    assert_eq!(editor.get_ingredients_text(), PLACEHOLDER_INGREDIENTS);
    let names: Vec<String> = editor.all_tags.iter().map(|t| t.id.clone()).collect();
    assert_eq!(names, vec!["breakfast", "easy", "quick"]);

    let loaded = RecipeEditor::from_recipe(db.recipes.find(&1).unwrap(), &db);
    assert_eq!(loaded.existing_recipe_id, Some(1));
    assert_eq!(loaded.get_ingredients_text(), "2: Egg\n- beaten\n1 cup: Flour");
    assert_eq!(
        loaded.current_state_markdown(),
        "# A\n---\n## Ingredients\n- 2 Egg\n  - beaten\n- 1 cup Flour\n\n## Instructions\nMix.\n"
    );
    let e = entry(None, "Salt", "", " ");
    assert_eq!(e.markdown_string(), "- Salt");
    let candidates = vec![ingredient(5, "Sea salt")];
    assert_eq!(entry(None, "Salt", "", "").with_choice(&candidates, 1).ingredient_id, Some(5));
    assert_eq!(entry(Some(3), "Salt", "", "").with_choice(&candidates, 0).ingredient_id, None);
}

#[test]
fn editor_creates_recipe_in_one_transaction() {
    let mut db = Catalog::new();
    db.tags.insert(tag("easy")).unwrap();
    db.ingredients.insert(ingredient(1, "Flour")).unwrap();
    let mut editor = RecipeEditor::new(&db);
    editor.name = "Pancakes".to_string();
    editor.ingredients = vec![entry(Some(1), "Flour", "1 cup", ""), entry(None, "Milk", "1 cup", "cold")];
    editor.selected_tags = vec![0];
    let recipe = editor.create_recipe(&mut db).unwrap();
    assert_eq!(recipe.id, 1);
    assert_eq!(db.ingredients.find(&2).unwrap().name, "Milk");
    let uses = recipes::relations::get_children::<Recipe, RecipeIngredient>(&db.recipe_ingredients, &1);
    let got: Vec<(i32, i32, String)> = uses.into_iter().map(|u| (u.ingredient_id, u.display_order, u.notes_markdown)).collect();
    assert_eq!(got, vec![(1, 1, String::new()), (2, 2, "cold".to_string())]);
    let tags = get_related::<Recipe, Tag, RecipeTag>(&db.recipe_tags, &db.tags, &1);
    assert_eq!(tags.len(), 1);
    assert_eq!(tags[0].id, "easy");
}

#[test]
fn editor_failure_leaves_store_unchanged() {
    let mut db = Catalog::new();
    db.ingredients.insert(ingredient(1, "Flour")).unwrap();
    let mut editor = RecipeEditor::new(&db);
    editor.name = "Twice".to_string();
    editor.ingredients = vec![entry(Some(1), "Flour", "", ""), entry(None, "Milk", "", ""), entry(Some(1), "Flour", "", "")];
    assert_eq!(editor.create_recipe(&mut db).err(), Some(StoreError::Constraint));
    assert_eq!(db.recipes.count_all(), 0);
    assert_eq!(db.ingredients.count_all(), 1);
    assert_eq!(db.recipe_ingredients.count_all(), 0);
}

#[test]
fn editor_updates_existing_recipe() {
    let mut db = sample();
    let mut editor = RecipeEditor::from_recipe(db.recipes.find(&1).unwrap(), &db);
    editor.name = "A2".to_string();
    editor.ingredients.truncate(1);
    editor.selected_tags = vec![1];
    assert_eq!(editor.update_recipe(&mut db), Ok(()));
    assert_eq!(db.recipes.find(&1).unwrap().name, "A2");
    let uses = recipes::relations::get_children::<Recipe, RecipeIngredient>(&db.recipe_ingredients, &1);
    assert_eq!(uses.len(), 1);
    assert_eq!((uses[0].ingredient_id, uses[0].display_order), (11, 1));
    let tags = get_related::<Recipe, Tag, RecipeTag>(&db.recipe_tags, &db.tags, &1);
    assert_eq!(tags.len(), 1);
    assert_eq!(tags[0].id, "easy");

    let mut gone = RecipeEditor::new(&db);
    gone.existing_recipe_id = Some(42);
    assert_eq!(gone.update_recipe(&mut db), Err(StoreError::NotFound));
}

#[test]
fn markdown_to_html_body() {
    assert_eq!(html_body("~Venus~Mars!").ok().unwrap(), "<p><del>Venus</del>Mars!</p>");
    assert_eq!(html_body("# A\n---\n- 2 Egg").ok().unwrap(), "<h1>A</h1>\n<hr />\n<ul>\n<li>2 Egg</li>\n</ul>");
}

#[test]
fn editor_save_fails_on_missing_tag_and_changes_nothing() {
    let mut db = sample();
    let mut editor = RecipeEditor::new(&db);
    editor.name = "New".to_string();
    editor.ingredients = vec![entry(None, "Milk", "1 cup", "")];
    editor.all_tags = vec![tag("ghost")];
    editor.selected_tags = vec![0];
    assert_eq!(editor.create_recipe(&mut db).err(), Some(StoreError::Constraint));
    assert_eq!(db.recipes.count_all(), 2);
    assert_eq!(db.ingredients.count_all(), 2);

    let mut update = RecipeEditor::from_recipe(db.recipes.find(&1).unwrap(), &db);
    update.name = "Changed".to_string();
    update.all_tags = vec![tag("ghost")];
    update.selected_tags = vec![0];
    assert_eq!(update.update_recipe(&mut db).err(), Some(StoreError::Constraint));
    assert_eq!(db.recipes.find(&1).unwrap().name, "A");
    let tags = recipes::relations::get_related_ordered::<Recipe, Tag, RecipeTag>(&db.recipe_tags, &db.tags, &1);
    let names: Vec<String> = tags.into_iter().map(|t| t.id).collect();
    assert_eq!(names, vec!["breakfast", "quick"]);
}

#[test]
fn editor_save_fails_on_missing_existing_ingredient() {
    let mut db = sample();
    let mut editor = RecipeEditor::new(&db);
    editor.name = "New".to_string();
    editor.ingredients = vec![entry(Some(99), "Gone", "", "")];
    assert_eq!(editor.create_recipe(&mut db).err(), Some(StoreError::Constraint));
    assert_eq!(db.recipes.count_all(), 2);
}

#[test]
fn editor_save_without_new_entries_adds_no_ingredient_and_repeats() {
    let mut db = sample();
    let make = |db: &Catalog| {
        let mut e = RecipeEditor::from_recipe(db.recipes.find(&2).unwrap(), db);
        e.ingredients = vec![entry(Some(10), "Flour", "3 cups", "")];
        e.selected_tags = vec![0, 2];
        e
    };
    let snapshot = |db: &Catalog| {
        let uses: Vec<(i32, i32, i32, String)> = db
            .recipe_ingredients
            .all()
            .into_iter()
            .map(|u| (u.recipe_id, u.ingredient_id, u.display_order, u.quantity))
            .collect();
        let links: Vec<(i32, String)> = db.recipe_tags.all().into_iter().map(|l| (l.recipe_id, l.tag_id)).collect();
        (db.ingredients.count_all(), uses, links)
    };
    assert_eq!(make(&db).update_recipe(&mut db), Ok(()));
    let once = snapshot(&db);
    assert_eq!(once.0, 2);
    assert_eq!(make(&db).update_recipe(&mut db), Ok(()));
    assert_eq!(snapshot(&db), once);
    let mut empty = RecipeEditor::from_recipe(db.recipes.find(&2).unwrap(), &db);
    empty.ingredients = vec![];
    assert_eq!(empty.update_recipe(&mut db), Ok(()));
    assert_eq!(db.ingredients.count_all(), 2);
    assert!(recipes::relations::get_children::<Recipe, RecipeIngredient>(&db.recipe_ingredients, &2).is_empty());
}

#[test]
fn decimal_text_of_integers() {
    assert_eq!(int_text(0), "0");
    assert_eq!(int_text(7), "7");
    assert_eq!(int_text(1024), "1024");
    assert_eq!(int_text(-35), "-35");
    assert_eq!(int_text(i32::MAX), "2147483647");
    assert_eq!(int_text(i32::MIN), "-2147483648");
}
