use convert_case::{Case, Casing};
use vstd::prelude::*;

use crate::entity::{BelongsTo, Constructor, Entity, IntKeyed, ManyToManyConstructor};
use crate::catalog::Catalog;
use crate::ordering::{
    lemma_text_total, lemma_text_transitive, sort_rows, sorted, text_le, text_le_exec, Ordered,
};
use crate::relations::get_children;
use crate::table::{children_of, has_key, key_index, lemma_filter_step};
use crate::text::{join, joined, texts, trim, trimmed};

verus! {

/// A recipe.
pub struct Recipe {
    pub id: i32,
    pub name: String,
    pub instructions_markdown: String,
    pub notes_markdown: String,
}

/// The attributes of a new recipe; the store picks its id.
pub struct RecipeConstructor<'s> {
    pub name: &'s str,
    pub instructions_markdown: &'s str,
    pub notes_markdown: &'s str,
}

/// An ingredient that recipes can use.
pub struct Ingredient {
    pub id: i32,
    pub name: String,
}

/// The attributes of a new ingredient; the store picks its id.
pub struct IngredientConstructor<'s> {
    pub name: &'s str,
}

/// A tag, named by a unique textual id.
pub struct Tag {
    pub id: String,
    pub name: String,
    pub description_markdown: String,
}

/// The membership of a recipe in a tag.
pub struct RecipeTag {
    pub recipe_id: i32,
    pub tag_id: String,
}

/// The use of an ingredient by a recipe, with its place in the list and its quantity.
pub struct RecipeIngredient {
    pub recipe_id: i32,
    pub ingredient_id: i32,
    pub display_order: i32,
    pub quantity: String,
    pub notes_markdown: String,
}

impl Entity for Recipe {
    type Key = i32;

    open spec fn key(&self) -> i32 {
        self.id
    }

    fn key_of(&self) -> (r: i32) {
        self.id
    }

    fn has_key(&self, k: &i32) -> (r: bool) {
        self.id == *k
    }

    fn same_key(&self, other: &Self) -> (r: bool) {
        self.id == other.id
    }

    fn copy_row(&self) -> (r: Self) {
        Recipe {
            id: self.id,
            name: self.name.clone(),
            instructions_markdown: self.instructions_markdown.clone(),
            notes_markdown: self.notes_markdown.clone(),
        }
    }
}

impl IntKeyed for Recipe {
    fn int_key(&self) -> (r: i32) {
        self.id
    }
}

impl<'s> Constructor<Recipe> for RecipeConstructor<'s> {
    open spec fn fills(&self, r: Recipe) -> bool {
        r.name@ == self.name@ && r.instructions_markdown@ == self.instructions_markdown@
            && r.notes_markdown@ == self.notes_markdown@
    }

    fn build(&self, id: i32) -> (r: Recipe) {
        Recipe {
            id,
            name: self.name.to_owned(),
            instructions_markdown: self.instructions_markdown.to_owned(),
            notes_markdown: self.notes_markdown.to_owned(),
        }
    }
}

impl Entity for Ingredient {
    type Key = i32;

    open spec fn key(&self) -> i32 {
        self.id
    }

    fn key_of(&self) -> (r: i32) {
        self.id
    }

    fn has_key(&self, k: &i32) -> (r: bool) {
        self.id == *k
    }

    fn same_key(&self, other: &Self) -> (r: bool) {
        self.id == other.id
    }

    fn copy_row(&self) -> (r: Self) {
        Ingredient { id: self.id, name: self.name.clone() }
    }
}

impl IntKeyed for Ingredient {
    fn int_key(&self) -> (r: i32) {
        self.id
    }
}

impl<'s> Constructor<Ingredient> for IngredientConstructor<'s> {
    open spec fn fills(&self, r: Ingredient) -> bool {
        r.name@ == self.name@
    }

    fn build(&self, id: i32) -> (r: Ingredient) {
        Ingredient { id, name: self.name.to_owned() }
    }
}

impl Entity for Tag {
    type Key = String;

    open spec fn key(&self) -> Seq<char> {
        self.id@
    }

    fn key_of(&self) -> (r: String) {
        self.id.clone()
    }

    fn has_key(&self, k: &String) -> (r: bool) {
        self.id == *k
    }

    fn same_key(&self, other: &Self) -> (r: bool) {
        self.id == other.id
    }

    fn copy_row(&self) -> (r: Self) {
        Tag {
            id: self.id.clone(),
            name: self.name.clone(),
            description_markdown: self.description_markdown.clone(),
        }
    }
}

impl Entity for RecipeTag {
    type Key = (i32, String);

    open spec fn key(&self) -> (i32, Seq<char>) {
        (self.recipe_id, self.tag_id@)
    }

    fn key_of(&self) -> (r: (i32, String)) {
        (self.recipe_id, self.tag_id.clone())
    }

    fn has_key(&self, k: &(i32, String)) -> (r: bool) {
        self.recipe_id == k.0 && self.tag_id == k.1
    }

    fn same_key(&self, other: &Self) -> (r: bool) {
        self.recipe_id == other.recipe_id && self.tag_id == other.tag_id
    }

    fn copy_row(&self) -> (r: Self) {
        RecipeTag { recipe_id: self.recipe_id, tag_id: self.tag_id.clone() }
    }
}

impl BelongsTo<Recipe> for RecipeTag {
    open spec fn parent_key(&self) -> Option<i32> {
        Some(self.recipe_id)
    }

    fn foreign_key(&self) -> (r: Option<&i32>) {
        Some(&self.recipe_id)
    }

    fn refers_to(&self, k: &i32) -> (r: bool) {
        self.recipe_id == *k
    }
}

impl BelongsTo<Tag> for RecipeTag {
    open spec fn parent_key(&self) -> Option<Seq<char>> {
        Some(self.tag_id@)
    }

    fn foreign_key(&self) -> (r: Option<&String>) {
        Some(&self.tag_id)
    }

    fn refers_to(&self, k: &String) -> (r: bool) {
        self.tag_id == *k
    }
}

impl ManyToManyConstructor<Recipe, Tag> for RecipeTag {
    open spec fn is_link(&self, a: i32, b: Seq<char>) -> bool {
        self.recipe_id == a && self.tag_id@ == b
    }

    fn new(a: &i32, b: &String) -> (r: Self) {
        RecipeTag { recipe_id: *a, tag_id: b.clone() }
    }

    proof fn lemma_key_is_pair(x: Self, y: Self) {
    }
}

impl ManyToManyConstructor<Tag, Recipe> for RecipeTag {
    open spec fn is_link(&self, a: Seq<char>, b: i32) -> bool {
        self.recipe_id == b && self.tag_id@ == a
    }

    fn new(a: &String, b: &i32) -> (r: Self) {
        RecipeTag { recipe_id: *b, tag_id: a.clone() }
    }

    proof fn lemma_key_is_pair(x: Self, y: Self) {
    }
}

impl Entity for RecipeIngredient {
    type Key = (i32, i32);

    open spec fn key(&self) -> (i32, i32) {
        (self.recipe_id, self.ingredient_id)
    }

    fn key_of(&self) -> (r: (i32, i32)) {
        (self.recipe_id, self.ingredient_id)
    }

    fn has_key(&self, k: &(i32, i32)) -> (r: bool) {
        self.recipe_id == k.0 && self.ingredient_id == k.1
    }

    fn same_key(&self, other: &Self) -> (r: bool) {
        self.recipe_id == other.recipe_id && self.ingredient_id == other.ingredient_id
    }

    fn copy_row(&self) -> (r: Self) {
        RecipeIngredient {
            recipe_id: self.recipe_id,
            ingredient_id: self.ingredient_id,
            display_order: self.display_order,
            quantity: self.quantity.clone(),
            notes_markdown: self.notes_markdown.clone(),
        }
    }
}

impl BelongsTo<Recipe> for RecipeIngredient {
    open spec fn parent_key(&self) -> Option<i32> {
        Some(self.recipe_id)
    }

    fn foreign_key(&self) -> (r: Option<&i32>) {
        Some(&self.recipe_id)
    }

    fn refers_to(&self, k: &i32) -> (r: bool) {
        self.recipe_id == *k
    }
}

impl BelongsTo<Ingredient> for RecipeIngredient {
    open spec fn parent_key(&self) -> Option<i32> {
        Some(self.ingredient_id)
    }

    fn foreign_key(&self) -> (r: Option<&i32>) {
        Some(&self.ingredient_id)
    }

    fn refers_to(&self, k: &i32) -> (r: bool) {
        self.ingredient_id == *k
    }
}

impl RecipeIngredient {
    /// The use of ingredient `ingredient_id` by recipe `recipe_id`, with order 0, no
    /// quantity and no notes.
    pub fn new(recipe_id: i32, ingredient_id: i32) -> (r: Self)
        ensures
            r.recipe_id == recipe_id,
            r.ingredient_id == ingredient_id,
            r.display_order == 0,
            r.quantity@ == Seq::<char>::empty(),
            r.notes_markdown@ == Seq::<char>::empty(),
    {
        RecipeIngredient {
            recipe_id,
            ingredient_id,
            display_order: 0,
            quantity: String::new(),
            notes_markdown: String::new(),
        }
    }
}

impl ManyToManyConstructor<Recipe, Ingredient> for RecipeIngredient {
    open spec fn is_link(&self, a: i32, b: i32) -> bool {
        self.recipe_id == a && self.ingredient_id == b && self.display_order == 0
            && self.quantity@ == Seq::<char>::empty() && self.notes_markdown@ == Seq::<
            char,
        >::empty()
    }

    fn new(a: &i32, b: &i32) -> (r: Self) {
        RecipeIngredient::new(*a, *b)
    }

    proof fn lemma_key_is_pair(x: Self, y: Self) {
    }
}

impl ManyToManyConstructor<Ingredient, Recipe> for RecipeIngredient {
    open spec fn is_link(&self, a: i32, b: i32) -> bool {
        self.recipe_id == b && self.ingredient_id == a && self.display_order == 0
            && self.quantity@ == Seq::<char>::empty() && self.notes_markdown@ == Seq::<
            char,
        >::empty()
    }

    fn new(a: &i32, b: &i32) -> (r: Self) {
        RecipeIngredient::new(*b, *a)
    }

    proof fn lemma_key_is_pair(x: Self, y: Self) {
    }
}

impl Ordered for Recipe {
    /// By name, in text order.
    open spec fn precedes(&self, other: &Self) -> bool {
        text_le(self.name@, other.name@)
    }

    fn order_le(&self, other: &Self) -> (r: bool) {
        text_le_exec(self.name.as_str(), other.name.as_str())
    }

    proof fn lemma_total(a: &Self, b: &Self) {
        lemma_text_total(a.name@, b.name@, 0);
    }

    proof fn lemma_transitive(a: &Self, b: &Self, c: &Self) {
        lemma_text_transitive(a.name@, b.name@, c.name@, 0);
    }
}

impl Ordered for Ingredient {
    /// By name, in text order.
    open spec fn precedes(&self, other: &Self) -> bool {
        text_le(self.name@, other.name@)
    }

    fn order_le(&self, other: &Self) -> (r: bool) {
        text_le_exec(self.name.as_str(), other.name.as_str())
    }

    proof fn lemma_total(a: &Self, b: &Self) {
        lemma_text_total(a.name@, b.name@, 0);
    }

    proof fn lemma_transitive(a: &Self, b: &Self, c: &Self) {
        lemma_text_transitive(a.name@, b.name@, c.name@, 0);
    }
}

impl Ordered for Tag {
    /// By name, in text order.
    open spec fn precedes(&self, other: &Self) -> bool {
        text_le(self.name@, other.name@)
    }

    fn order_le(&self, other: &Self) -> (r: bool) {
        text_le_exec(self.name.as_str(), other.name.as_str())
    }

    proof fn lemma_total(a: &Self, b: &Self) {
        lemma_text_total(a.name@, b.name@, 0);
    }

    proof fn lemma_transitive(a: &Self, b: &Self, c: &Self) {
        lemma_text_transitive(a.name@, b.name@, c.name@, 0);
    }
}

impl Ordered for RecipeIngredient {
    /// By display order.
    open spec fn precedes(&self, other: &Self) -> bool {
        self.display_order <= other.display_order
    }

    fn order_le(&self, other: &Self) -> (r: bool) {
        self.display_order <= other.display_order
    }

    proof fn lemma_total(a: &Self, b: &Self) {
    }

    proof fn lemma_transitive(a: &Self, b: &Self, c: &Self) {
    }
}

/// The Markdown list item for an ingredient: "- quantity name", the quantity left out
/// when blank, with the notes on an indented line below when there are any.
pub open spec fn item_markdown(quantity: Seq<char>, name: Seq<char>, notes: Seq<char>) -> Seq<
    char,
> {
    let q = trimmed(quantity);
    let head = if q.len() > 0 {
        q + " "@ + name
    } else {
        name
    };
    let n = trimmed(notes);
    if n.len() > 0 {
        "- "@ + head + "\n  - "@ + n
    } else {
        "- "@ + head
    }
}

/// Builds `item_markdown`.
pub fn item_markdown_exec(quantity: &str, name: &str, notes: &str) -> (r: String)
    ensures
        r@ == item_markdown(quantity@, name@, notes@),
{
    let q = trim(quantity);
    let mut out = String::from_str("- ");
    if q.unicode_len() > 0 {
        out.append(q);
        out.append(" ");
    }
    out.append(name);
    let n = trim(notes);
    if n.unicode_len() > 0 {
        out.append("\n  - ");
        out.append(n);
    }
    proof {
        let head = if q@.len() > 0 {
            q@ + " "@ + name@
        } else {
            name@
        };
        if q@.len() > 0 {
            assert("- "@ + q@ + " "@ + name@ =~= "- "@ + head);
        }
        if n@.len() > 0 {
            assert(out@ =~= "- "@ + head + "\n  - "@ + n@);
        }
    }
    out
}

/// The Markdown page of a recipe with the given ingredient lines.
pub open spec fn recipe_markdown(
    name: Seq<char>,
    lines: Seq<Seq<char>>,
    instructions: Seq<char>,
    notes: Seq<char>,
) -> Seq<char> {
    let notes_part = if notes.len() > 0 {
        "\n**Notes:**\n"@ + notes
    } else {
        Seq::empty()
    };
    "# "@ + name + "\n---\n## Ingredients\n"@ + joined(lines, "\n"@) + "\n\n## Instructions\n"@
        + instructions + "\n"@ + notes_part
}

/// The Markdown lines of ingredient uses, each with its ingredient.
pub open spec fn item_lines(items: Seq<(Ingredient, RecipeIngredient)>) -> Seq<Seq<char>> {
    items.map_values(
        |p: (Ingredient, RecipeIngredient)|
            item_markdown(p.1.quantity@, p.0.name@, p.1.notes_markdown@),
    )
}

/// The uses of `uses` whose ingredient exists, each paired with that ingredient.
pub open spec fn with_ingredients(ingredients: Seq<Ingredient>, uses: Seq<RecipeIngredient>) -> Seq<
    (Ingredient, RecipeIngredient),
> {
    uses.filter(|u: RecipeIngredient| has_key(ingredients, u.ingredient_id)).map_values(
        |u: RecipeIngredient| (ingredients[key_index(ingredients, u.ingredient_id)], u),
    )
}

impl Ordered for (Ingredient, RecipeIngredient) {
    /// By the display order of the use.
    open spec fn precedes(&self, other: &Self) -> bool {
        self.1.display_order <= other.1.display_order
    }

    fn order_le(&self, other: &Self) -> (r: bool) {
        self.1.display_order <= other.1.display_order
    }

    proof fn lemma_total(a: &Self, b: &Self) {
    }

    proof fn lemma_transitive(a: &Self, b: &Self, c: &Self) {
    }
}

impl Ingredient {
    /// The Markdown list item for this ingredient as `recipe_ingredient` uses it.
    pub fn markdown_string(&self, recipe_ingredient: &RecipeIngredient) -> (r: String)
        ensures
            r@ == item_markdown(
                recipe_ingredient.quantity@,
                self.name@,
                recipe_ingredient.notes_markdown@,
            ),
    {
        recipe_ingredient.markdown_string(self)
    }
}

impl RecipeIngredient {
    /// The Markdown list item for this use of `ingredient`.
    pub fn markdown_string(&self, ingredient: &Ingredient) -> (r: String)
        ensures
            r@ == item_markdown(self.quantity@, ingredient.name@, self.notes_markdown@),
    {
        item_markdown_exec(self.quantity.as_str(), ingredient.name.as_str(), self.notes_markdown.as_str())
    }
}

impl Recipe {
    /// The ingredients of this recipe with the data of each use: the uses whose
    /// ingredient exists, each with its ingredient, listed by display order.
    pub fn get_ingredients_with_metadata(&self, db: &Catalog) -> (r: Vec<(Ingredient, RecipeIngredient)>)
        requires
            db.wf(),
        ensures
            sorted(r@),
            r@.to_multiset() == with_ingredients(
                db.ingredients@,
                children_of::<Recipe, RecipeIngredient>(db.recipe_ingredients@, self.id),
            ).to_multiset(),
    {
        let uses = get_children::<Recipe, RecipeIngredient>(&db.recipe_ingredients, &self.id);
        let ghost p = |u: RecipeIngredient| has_key(db.ingredients@, u.ingredient_id);
        let ghost f = |u: RecipeIngredient|
            (db.ingredients@[key_index(db.ingredients@, u.ingredient_id)], u);
        let mut pairs: Vec<(Ingredient, RecipeIngredient)> = Vec::new();
        let n = uses.len();
        let mut i: usize = 0;
        while i < n
            invariant
                db.wf(),
                n == uses@.len(),
                i <= n,
                p == (|u: RecipeIngredient| has_key(db.ingredients@, u.ingredient_id)),
                f == (|u: RecipeIngredient|
                    (db.ingredients@[key_index(db.ingredients@, u.ingredient_id)], u)),
                pairs@ == uses@.subrange(0, i as int).filter(p).map_values(f),
            decreases n - i,
        {
            proof {
                lemma_filter_step(uses@, i as int, p);
            }
            match db.ingredients.find_optional(&uses[i].ingredient_id) {
                Some(ingredient) => {
                    pairs.push((ingredient, uses[i].copy_row()));
                    proof {
                        let prev = uses@.subrange(0, i as int).filter(p);
                        assert(prev.push(uses@[i as int]).map_values(f) =~= prev.map_values(f).push(
                            f(uses@[i as int]),
                        ));
                    }
                },
                None => {},
            }
            i = i + 1;
        }
        proof {
            assert(uses@.subrange(0, n as int) =~= uses@);
        }
        sort_rows(pairs)
    }

    /// The Markdown page of this recipe with the given ingredients, in their order.
    pub fn markdown_with(&self, items: &Vec<(Ingredient, RecipeIngredient)>) -> (r: String)
        ensures
            r@ == recipe_markdown(
                self.name@,
                item_lines(items@),
                self.instructions_markdown@,
                self.notes_markdown@,
            ),
    {
        let mut lines: Vec<String> = Vec::new();
        let n = items.len();
        let mut i: usize = 0;
        while i < n
            invariant
                n == items@.len(),
                i <= n,
                texts(lines@) == item_lines(items@.subrange(0, i as int)),
            decreases n - i,
        {
            let line = items[i].1.markdown_string(&items[i].0);
            let ghost before = lines@;
            lines.push(line);
            proof {
                assert(texts(lines@) =~= texts(before).push(line@));
                assert(item_lines(items@.subrange(0, i + 1)) =~= item_lines(
                    items@.subrange(0, i as int),
                ).push(item_lines(items@.subrange(0, i + 1))[i as int]));
                assert(texts(lines@) =~= item_lines(items@.subrange(0, i + 1)));
            }
            i = i + 1;
        }
        proof {
            assert(items@.subrange(0, n as int) =~= items@);
        }
        let body = join(&lines, "\n");
        let mut out = String::from_str("# ");
        out.append(self.name.as_str());
        out.append("\n---\n## Ingredients\n");
        out.append(body.as_str());
        out.append("\n\n## Instructions\n");
        out.append(self.instructions_markdown.as_str());
        out.append("\n");
        if self.notes_markdown.as_str().unicode_len() > 0 {
            out.append("\n**Notes:**\n");
            out.append(self.notes_markdown.as_str());
        }
        proof {
            let notes_part = if self.notes_markdown@.len() > 0 {
                "\n**Notes:**\n"@ + self.notes_markdown@
            } else {
                Seq::empty()
            };
            assert(out@ =~= "# "@ + self.name@ + "\n---\n## Ingredients\n"@ + joined(
                item_lines(items@),
                "\n"@,
            ) + "\n\n## Instructions\n"@ + self.instructions_markdown@ + "\n"@ + notes_part);
        }
        out
    }

    /// The Markdown page of this recipe: its ingredients listed by display order (uses
    /// with equal display order in either order).
    pub fn markdown_string(&self, db: &Catalog) -> (r: String)
        requires
            db.wf(),
        ensures
            exists|items: Seq<(Ingredient, RecipeIngredient)>|
                sorted(items) && items.to_multiset() == with_ingredients(
                    db.ingredients@,
                    children_of::<Recipe, RecipeIngredient>(db.recipe_ingredients@, self.id),
                ).to_multiset() && r@ == recipe_markdown(
                    self.name@,
                    item_lines(items),
                    self.instructions_markdown@,
                    self.notes_markdown@,
                ),
    {
        let items = self.get_ingredients_with_metadata(db);
        self.markdown_with(&items)
    }
}

/// What convert_case makes of a text in kebab case.
pub uninterp spec fn kebab_of(s: Seq<char>) -> Seq<char>;

/// Relies on convert_case's `Casing::to_case` with `Case::Kebab` (the words of the text
/// in lower case, joined by hyphens): the result depends on the text alone.
#[verifier::external_body]
fn kebab_case(s: &str) -> (r: String)
    ensures
        r@ == kebab_of(s@),
{
    s.to_case(Case::Kebab)
}

/// The Markdown file name for a file stem: the stem with ".md" after it.
pub fn markdown_file_name(stem: &str) -> (r: String)
    ensures
        r@ == stem@ + ".md"@,
{
    let mut out = String::from_str(stem);
    out.append(".md");
    out
}

impl Recipe {
    /// The name of this recipe's Markdown file: its name in kebab case, with ".md".
    pub fn get_filename(&self) -> (r: String)
        ensures
            r@ == kebab_of(self.name@) + ".md"@,
    {
        let stem = kebab_case(self.name.as_str());
        markdown_file_name(stem.as_str())
    }
}

} // verus!
