//! The rows of the store as values, what each stands for, and the orders in
//! which they are kept and shown.

use vstd::prelude::*;
use crate::ranking::{views, Ranking};
use crate::recipe_parser::text_view;
use crate::text::{
    lemma_text_before_irreflexive, lemma_text_before_total, lemma_text_before_transitive, precedes,
    same_text, text_before,
};

verus! {

/// A recipe as the store shows it: with the name of its mod and with its
/// ingredients.
#[derive(Debug)]
pub struct Recipe {
    pub id: i64,
    pub mod_name: String,
    pub path: String,
    pub recipe_type: String,
    pub result_item: Option<String>,
    pub result_count: Option<i32>,
    pub ingredients: Vec<String>,
    pub raw_json: String,
}

/// What a [`Recipe`] stands for.
pub ghost struct RecipeView {
    pub id: i64,
    pub mod_name: Seq<char>,
    pub path: Seq<char>,
    pub recipe_type: Seq<char>,
    pub result_item: Option<Seq<char>>,
    pub result_count: Option<i32>,
    pub ingredients: Seq<Seq<char>>,
    pub raw_json: Seq<char>,
}

impl View for Recipe {
    type V = RecipeView;

    open spec fn view(&self) -> RecipeView {
        RecipeView {
            id: self.id,
            mod_name: self.mod_name@,
            path: self.path@,
            recipe_type: self.recipe_type@,
            result_item: text_view(self.result_item),
            result_count: self.result_count,
            ingredients: views(self.ingredients@),
            raw_json: self.raw_json@,
        }
    }
}

/// A copy of each text of `list`, in order.
pub fn copy_texts(list: &Vec<String>) -> (r: Vec<String>)
    ensures
        views(r@) == views(list@),
{
    let mut out: Vec<String> = Vec::new();
    let mut i: usize = 0;
    while i < list.len()
        invariant
            i <= list.len(),
            out.len() == i,
            forall|j: int| 0 <= j < i ==> out[j]@ == list[j]@,
        decreases list.len() - i,
    {
        out.push(list[i].clone());
        i += 1;
    }
    proof {
        assert(views(out@) =~= views(list@));
    }
    out
}

impl Clone for Recipe {
    fn clone(&self) -> (r: Recipe)
        ensures
            r@ == self@,
    {
        Recipe {
            id: self.id,
            mod_name: self.mod_name.clone(),
            path: self.path.clone(),
            recipe_type: self.recipe_type.clone(),
            result_item: match &self.result_item {
                Some(s) => Some(s.clone()),
                None => None,
            },
            result_count: self.result_count,
            ingredients: copy_texts(&self.ingredients),
            raw_json: self.raw_json.clone(),
        }
    }
}

/// A mod as the store holds it.
#[derive(Debug)]
pub struct ModRecord {
    pub id: i64,
    pub name: String,
    /// Where the archive of the mod lies. No two mods of a store share it.
    pub path: String,
    /// When the mod was registered: seconds since the Unix epoch, in decimal.
    pub scanned_at: String,
}

/// What a [`ModRecord`] stands for.
pub ghost struct ModRow {
    pub id: i64,
    pub name: Seq<char>,
    pub path: Seq<char>,
    pub scanned_at: Seq<char>,
}

impl View for ModRecord {
    type V = ModRow;

    open spec fn view(&self) -> ModRow {
        ModRow { id: self.id, name: self.name@, path: self.path@, scanned_at: self.scanned_at@ }
    }
}

/// A recipe as the store holds it: what it shows of it, and the mod that the
/// recipe belongs to.
#[derive(Debug)]
pub struct StoredRecipe {
    pub mod_id: i64,
    pub recipe: Recipe,
}

/// What a [`StoredRecipe`] stands for.
pub ghost struct RecipeRow {
    pub mod_id: i64,
    pub recipe: RecipeView,
}

impl View for StoredRecipe {
    type V = RecipeRow;

    open spec fn view(&self) -> RecipeRow {
        RecipeRow { mod_id: self.mod_id, recipe: self.recipe@ }
    }
}

/// The order in which recipes are listed: by the name of the mod, then by
/// path, then by id.
pub open spec fn listing_before(a: RecipeView, b: RecipeView) -> bool {
    ||| text_before(a.mod_name, b.mod_name)
    ||| a.mod_name == b.mod_name && text_before(a.path, b.path)
    ||| a.mod_name == b.mod_name && a.path == b.path && a.id < b.id
}

/// A missing text comes before every text, and texts go by their order.
pub open spec fn optional_text_before(a: Option<Seq<char>>, b: Option<Seq<char>>) -> bool {
    match (a, b) {
        (None, Some(_)) => true,
        (Some(x), Some(y)) => text_before(x, y),
        _ => false,
    }
}

/// The order of search results: by the resulting item, a recipe without one
/// first, then as recipes are listed.
pub open spec fn output_before(a: RecipeView, b: RecipeView) -> bool {
    ||| optional_text_before(a.result_item, b.result_item)
    ||| a.result_item == b.result_item && listing_before(a, b)
}

/// Whether `a` is listed before `b`.
fn listed_before(a: &Recipe, b: &Recipe) -> (r: bool)
    ensures
        r == listing_before(a@, b@),
{
    proof {
        lemma_text_before_irreflexive(a.mod_name@);
        lemma_text_before_irreflexive(a.path@);
    }
    if precedes(a.mod_name.as_str(), b.mod_name.as_str()) {
        true
    } else if !same_text(a.mod_name.as_str(), b.mod_name.as_str()) {
        false
    } else if precedes(a.path.as_str(), b.path.as_str()) {
        true
    } else if !same_text(a.path.as_str(), b.path.as_str()) {
        false
    } else {
        a.id < b.id
    }
}

/// The listing order is transitive.
pub proof fn lemma_listing_transitive(a: RecipeView, b: RecipeView, c: RecipeView)
    requires
        listing_before(a, b),
        listing_before(b, c),
    ensures
        listing_before(a, c),
{
    lemma_text_before_irreflexive(a.mod_name);
    lemma_text_before_irreflexive(a.path);
    if text_before(a.mod_name, b.mod_name) && text_before(b.mod_name, c.mod_name) {
        lemma_text_before_transitive(a.mod_name, b.mod_name, c.mod_name);
    }
    if text_before(a.path, b.path) && text_before(b.path, c.path) {
        lemma_text_before_transitive(a.path, b.path, c.path);
    }
}

/// No recipe is listed before itself.
pub proof fn lemma_listing_irreflexive(a: RecipeView)
    ensures
        !listing_before(a, a),
{
    lemma_text_before_irreflexive(a.mod_name);
    lemma_text_before_irreflexive(a.path);
}

/// Of two recipes with different ids one is listed before the other.
pub proof fn lemma_listing_total(a: RecipeView, b: RecipeView)
    requires
        a.id != b.id,
    ensures
        listing_before(a, b) || listing_before(b, a),
{
    lemma_text_before_total(a.mod_name, b.mod_name);
    lemma_text_before_total(a.path, b.path);
}

/// The order in which the store keeps its recipes.
pub struct ByListing;

impl Ranking<StoredRecipe> for ByListing {
    open spec fn before(a: RecipeRow, b: RecipeRow) -> bool {
        listing_before(a.recipe, b.recipe)
    }

    proof fn lemma_irreflexive(a: RecipeRow) {
        lemma_listing_irreflexive(a.recipe);
    }

    proof fn lemma_transitive(a: RecipeRow, b: RecipeRow, c: RecipeRow) {
        lemma_listing_transitive(a.recipe, b.recipe, c.recipe);
    }

    fn precedes(a: &StoredRecipe, b: &StoredRecipe) -> (r: bool) {
        listed_before(&a.recipe, &b.recipe)
    }
}

/// The order in which a search gives its results.
pub struct ByOutput;

impl Ranking<Recipe> for ByOutput {
    open spec fn before(a: RecipeView, b: RecipeView) -> bool {
        output_before(a, b)
    }

    proof fn lemma_irreflexive(a: RecipeView) {
        lemma_listing_irreflexive(a);
        if a.result_item is Some {
            lemma_text_before_irreflexive(a.result_item->Some_0);
        }
    }

    proof fn lemma_transitive(a: RecipeView, b: RecipeView, c: RecipeView) {
        if a.result_item is Some {
            lemma_text_before_irreflexive(a.result_item->Some_0);
        }
        if a.result_item is Some && b.result_item is Some && c.result_item is Some {
            if text_before(a.result_item->Some_0, b.result_item->Some_0) && text_before(
                b.result_item->Some_0,
                c.result_item->Some_0,
            ) {
                lemma_text_before_transitive(
                    a.result_item->Some_0,
                    b.result_item->Some_0,
                    c.result_item->Some_0,
                );
            }
        }
        if listing_before(a, b) && listing_before(b, c) {
            lemma_listing_transitive(a, b, c);
        }
    }

    fn precedes(a: &Recipe, b: &Recipe) -> (r: bool) {
        proof {
            if a.result_item is Some {
                lemma_text_before_irreflexive(a.result_item->Some_0@);
            }
        }
        match (&a.result_item, &b.result_item) {
            (None, Some(_)) => true,
            (Some(_), None) => false,
            (None, None) => listed_before(a, b),
            (Some(x), Some(y)) => {
                if precedes(x.as_str(), y.as_str()) {
                    true
                } else if same_text(x.as_str(), y.as_str()) {
                    listed_before(a, b)
                } else {
                    false
                }
            },
        }
    }
}

/// Of two recipes with different ids one comes before the other among search
/// results.
pub proof fn lemma_output_total(a: RecipeView, b: RecipeView)
    requires
        a.id != b.id,
    ensures
        output_before(a, b) || output_before(b, a),
{
    lemma_listing_total(a, b);
    if a.result_item is Some && b.result_item is Some {
        lemma_text_before_total(a.result_item->Some_0, b.result_item->Some_0);
    }
}

/// The order in which the store keeps its mods: by id.
pub struct ById;

impl Ranking<ModRecord> for ById {
    open spec fn before(a: ModRow, b: ModRow) -> bool {
        a.id < b.id
    }

    proof fn lemma_irreflexive(a: ModRow) {
    }

    proof fn lemma_transitive(a: ModRow, b: ModRow, c: ModRow) {
    }

    fn precedes(a: &ModRecord, b: &ModRecord) -> (r: bool) {
        a.id < b.id
    }
}

} // verus!
