//! What a store holds, what holds of every store, and how each write
//! changes it.

use vstd::prelude::*;
use vstd::string::StringExecFns;
use crate::ranking::{
    ascending, lemma_ascending_no_duplicates, lemma_ascending_unique, Lexical, Ranking,
};
use crate::records::{
    lemma_listing_irreflexive, listing_before, optional_text_before, ById, ByListing, ByOutput,
    ModRecord, ModRow, Recipe, RecipeRow, RecipeView, StoredRecipe,
};
use crate::text::{
    contains_folded, lemma_text_before_irreflexive, lemma_text_before_transitive, text_before,
};

verus! {

/// Why the store refused a write.
#[derive(Clone, Copy, Debug)]
pub enum StoreError {
    /// No mod of the store has the id that the recipe names.
    UnknownMod,
    /// The store has handed out every id that it can.
    IdsExhausted,
    /// The id was handed out before.
    IdTaken,
    /// The path is in use: by a mod, or by a recipe of the same mod.
    PlaceTaken,
}

impl StoreError {
    /// The refusal in words.
    pub open spec fn text(self) -> Seq<char> {
        match self {
            StoreError::UnknownMod => "the mod of the recipe is not in the store"@,
            StoreError::IdsExhausted => "the store has no id left"@,
            StoreError::IdTaken => "the id was handed out before"@,
            StoreError::PlaceTaken => "the path is in use"@,
        }
    }

    /// The refusal in words.
    pub fn message(&self) -> (r: String)
        ensures
            r@ == self.text(),
    {
        match self {
            StoreError::UnknownMod => String::from_str("the mod of the recipe is not in the store"),
            StoreError::IdsExhausted => String::from_str("the store has no id left"),
            StoreError::IdTaken => String::from_str("the id was handed out before"),
            StoreError::PlaceTaken => String::from_str("the path is in use"),
        }
    }
}

/// What a store holds.
pub ghost struct Store {
    /// The mods, in the order in which they were registered.
    pub mods: Seq<ModRow>,
    /// The recipes, in the order in which they are listed.
    pub recipes: Seq<RecipeRow>,
    /// The id that the next mod gets.
    pub next_mod_id: i64,
    /// The id that the next recipe gets.
    pub next_recipe_id: i64,
}

/// The mod `mod_id` of `mods` has the name `name`.
pub open spec fn mod_named(mods: Seq<ModRow>, mod_id: i64, name: Seq<char>) -> bool {
    exists|m: ModRow| #[trigger] mods.contains(m) && m.id == mod_id && m.name == name
}

/// The mod `mod_id` of `mods` lies at `path`.
pub open spec fn mod_at_path(mods: Seq<ModRow>, mod_id: i64, path: Seq<char>) -> bool {
    exists|m: ModRow| #[trigger] mods.contains(m) && m.id == mod_id && m.path == path
}

/// The mods stand in the order of their ids, which were handed out before
/// `next`, and each has a path of its own.
pub open spec fn mods_valid(mods: Seq<ModRow>, next: i64) -> bool {
    &&& ascending::<ModRecord, ById>(mods)
    &&& forall|m: ModRow| #[trigger] mods.contains(m) ==> 1 <= m.id < next
    &&& forall|a: ModRow, b: ModRow|
        #[trigger] mods.contains(a) && #[trigger] mods.contains(b) && a.path == b.path ==> a == b
}

/// The row `r` is in order: its id was handed out before `next`, its mod is
/// among `mods` under the name that the row shows, and its ingredients
/// ascend.
pub open spec fn row_valid(mods: Seq<ModRow>, r: RecipeRow, next: i64) -> bool {
    &&& 1 <= r.recipe.id < next
    &&& mod_named(mods, r.mod_id, r.recipe.mod_name)
    &&& ascending::<String, Lexical>(r.recipe.ingredients)
}

/// The recipes stand in listing order, each row is in order, each has an id
/// of its own, and each is the only one of its mod at its path.
pub open spec fn recipes_valid(mods: Seq<ModRow>, recipes: Seq<RecipeRow>, next: i64) -> bool {
    &&& recipes.len() < next
    &&& ascending::<StoredRecipe, ByListing>(recipes)
    &&& forall|r: RecipeRow| #[trigger] recipes.contains(r) ==> row_valid(mods, r, next)
    &&& forall|a: RecipeRow, b: RecipeRow|
        #[trigger] recipes.contains(a) && #[trigger] recipes.contains(b) && a.recipe.id
            == b.recipe.id ==> a == b
    &&& forall|a: RecipeRow, b: RecipeRow|
        #[trigger] recipes.contains(a) && #[trigger] recipes.contains(b) && a.mod_id == b.mod_id
            && a.recipe.path == b.recipe.path ==> a == b
}

/// The items of `s` from place `offset` on, at most `limit` of them. A
/// negative `offset` counts as 0, and a negative `limit` takes all.
pub open spec fn window<A>(s: Seq<A>, offset: int, limit: int) -> Seq<A> {
    let lo = if offset <= 0 {
        0
    } else if offset >= s.len() {
        s.len() as int
    } else {
        offset
    };
    let hi = if limit < 0 || lo + limit >= s.len() {
        s.len() as int
    } else {
        lo + limit
    };
    s.subrange(lo, hi)
}

/// The resulting item of `r` holds `needle`, ASCII letters taken without
/// their case.
pub open spec fn output_matches(r: RecipeView, needle: Seq<char>) -> bool {
    r.result_item is Some && contains_folded(r.result_item->Some_0, needle)
}

/// An ingredient of `r` holds `needle`, ASCII letters taken without their
/// case.
pub open spec fn ingredient_matches(r: RecipeView, needle: Seq<char>) -> bool {
    exists|k: int|
        0 <= k < r.ingredients.len() && contains_folded(#[trigger] r.ingredients[k], needle)
}

impl Store {
    /// The store that holds nothing.
    pub open spec fn empty() -> Store {
        Store { mods: Seq::empty(), recipes: Seq::empty(), next_mod_id: 1, next_recipe_id: 1 }
    }

    /// A mod of the store has the id `id`.
    pub open spec fn has_mod(self, id: i64) -> bool {
        exists|m: ModRow| #[trigger] self.mods.contains(m) && m.id == id
    }

    /// The recipes as the store shows them, in the order in which they are
    /// listed.
    pub open spec fn listing(self) -> Seq<RecipeView> {
        Seq::new(self.recipes.len(), |i: int| self.recipes[i].recipe)
    }

    /// What holds of every store: each mod has an id and a path of its own;
    /// each recipe has an id of its own, belongs to a mod of the store, and
    /// is the only one of that mod at its path; the recipes stand in listing
    /// order.
    pub open spec fn valid(self) -> bool {
        &&& 1 <= self.next_mod_id
        &&& 1 <= self.next_recipe_id
        &&& mods_valid(self.mods, self.next_mod_id)
        &&& recipes_valid(self.mods, self.recipes, self.next_recipe_id)
    }
}

/// `after` is `before` with the mod `row` registered: the mod that lay at
/// its path has left with its recipes, and `row` has come under an id that
/// was not handed out before.
pub open spec fn mod_registered(before: Store, after: Store, row: ModRow) -> bool {
    &&& before.next_mod_id <= row.id < i64::MAX
    &&& after.next_mod_id == row.id + 1
    &&& after.next_recipe_id == before.next_recipe_id
    &&& forall|m: ModRow|
        after.mods.contains(m) <==> (m == row || (before.mods.contains(m) && m.path != row.path))
    &&& forall|r: RecipeRow|
        after.recipes.contains(r) <==> (before.recipes.contains(r) && !mod_at_path(
            before.mods,
            r.mod_id,
            row.path,
        ))
    &&& after.valid()
}

/// `after` is `before` with the recipe `row` stored: the recipe of the same
/// mod at the same path has left, and `row` has come under an id that was not
/// handed out before, with the name of its mod.
pub open spec fn recipe_stored(before: Store, after: Store, row: RecipeRow) -> bool {
    &&& before.next_recipe_id <= row.recipe.id < i64::MAX
    &&& after.next_recipe_id == row.recipe.id + 1
    &&& after.next_mod_id == before.next_mod_id
    &&& after.mods == before.mods
    &&& mod_named(before.mods, row.mod_id, row.recipe.mod_name)
    &&& forall|r: RecipeRow|
        after.recipes.contains(r) <==> (r == row || (before.recipes.contains(r) && !(r.mod_id
            == row.mod_id && r.recipe.path == row.recipe.path)))
    &&& after.valid()
}

/// `after` is `before` with the recipe `row` stored, and `row` holds what was
/// given: the mod, the id, the path and the rest as they are, and the
/// ingredients in ascending order, each once.
pub open spec fn storing(
    before: Store,
    after: Store,
    row: RecipeRow,
    mod_id: i64,
    id: i64,
    path: Seq<char>,
    recipe_type: Seq<char>,
    result_item: Option<Seq<char>>,
    result_count: Option<i32>,
    raw_json: Seq<char>,
    ingredients: Seq<Seq<char>>,
) -> bool {
    &&& recipe_stored(before, after, row)
    &&& row.mod_id == mod_id
    &&& row.recipe.id == id
    &&& row.recipe.path == path
    &&& row.recipe.recipe_type == recipe_type
    &&& row.recipe.result_item == result_item
    &&& row.recipe.result_count == result_count
    &&& row.recipe.raw_json == raw_json
    &&& forall|s: Seq<char>| row.recipe.ingredients.contains(s) <==> ingredients.contains(s)
}

/// What storing a recipe comes to. The store takes the recipe where it has
/// the mod and an id left, and gives the id; then `after` is `before` with
/// the recipe stored under that id. Else it refuses and stays as it is:
/// for want of the mod first, for want of an id second.
pub open spec fn inserting(
    before: Store,
    after: Store,
    r: Result<i64, StoreError>,
    mod_id: i64,
    path: Seq<char>,
    recipe_type: Seq<char>,
    result_item: Option<Seq<char>>,
    result_count: Option<i32>,
    raw_json: Seq<char>,
    ingredients: Seq<Seq<char>>,
) -> bool {
    match r {
        Ok(id) => {
            &&& before.has_mod(mod_id)
            &&& id == before.next_recipe_id
            &&& exists|row: RecipeRow|
                storing(
                    before,
                    after,
                    row,
                    mod_id,
                    id,
                    path,
                    recipe_type,
                    result_item,
                    result_count,
                    raw_json,
                    ingredients,
                )
        },
        Err(e) => {
            &&& after == before
            &&& if before.has_mod(mod_id) {
                before.next_recipe_id == i64::MAX && e is IdsExhausted
            } else {
                e is UnknownMod
            }
        },
    }
}

/// The text that `o` holds, if any.
pub open spec fn str_view(o: Option<&str>) -> Option<Seq<char>> {
    match o {
        Some(s) => Some(s@),
        None => None,
    }
}

/// A search for `needle` finds `r`: among its ingredients where the search
/// goes by ingredient, and else in its resulting item.
pub open spec fn found_by(r: RecipeView, needle: Seq<char>, by_ingredient: bool) -> bool {
    if by_ingredient {
        ingredient_matches(r, needle)
    } else {
        output_matches(r, needle)
    }
}

/// What a store holds once a mod is registered is settled by what it held
/// before and by the mod.
pub proof fn lemma_mod_registered_unique(before: Store, a: Store, b: Store, row: ModRow)
    requires
        mod_registered(before, a, row),
        mod_registered(before, b, row),
    ensures
        a == b,
{
    lemma_ascending_unique::<ModRecord, ById>(a.mods, b.mods);
    lemma_ascending_unique::<StoredRecipe, ByListing>(a.recipes, b.recipes);
}

/// What a store holds once a recipe is stored is settled by what it held
/// before and by the recipe.
pub proof fn lemma_recipe_stored_unique(before: Store, a: Store, b: Store, row: RecipeRow)
    requires
        recipe_stored(before, a, row),
        recipe_stored(before, b, row),
    ensures
        a == b,
{
    lemma_ascending_unique::<StoredRecipe, ByListing>(a.recipes, b.recipes);
}

/// The recipe that is stored is settled by what was given: two rows that
/// both hold it are the same.
pub proof fn lemma_stored_row_unique(
    before: Store,
    a: Store,
    b: Store,
    row: RecipeRow,
    other: RecipeRow,
    mod_id: i64,
    id: i64,
    path: Seq<char>,
    recipe_type: Seq<char>,
    result_item: Option<Seq<char>>,
    result_count: Option<i32>,
    raw_json: Seq<char>,
    ingredients: Seq<Seq<char>>,
)
    requires
        before.valid(),
        storing(
            before,
            a,
            row,
            mod_id,
            id,
            path,
            recipe_type,
            result_item,
            result_count,
            raw_json,
            ingredients,
        ),
        storing(
            before,
            b,
            other,
            mod_id,
            id,
            path,
            recipe_type,
            result_item,
            result_count,
            raw_json,
            ingredients,
        ),
    ensures
        row == other,
        a == b,
{
    assert(a.recipes.contains(row));
    assert(b.recipes.contains(other));
    assert(row_valid(a.mods, row, a.next_recipe_id));
    assert(row_valid(b.mods, other, b.next_recipe_id));
    assert forall|x: Seq<char>|
        row.recipe.ingredients.contains(x) <==> other.recipe.ingredients.contains(x) by {
        assert(row.recipe.ingredients.contains(x) <==> ingredients.contains(x));
        assert(other.recipe.ingredients.contains(x) <==> ingredients.contains(x));
    }
    lemma_ascending_unique::<String, Lexical>(row.recipe.ingredients, other.recipe.ingredients);
    let m = choose|m: ModRow|
        #[trigger] before.mods.contains(m) && m.id == mod_id && m.name == row.recipe.mod_name;
    let n = choose|n: ModRow|
        #[trigger] before.mods.contains(n) && n.id == mod_id && n.name == other.recipe.mod_name;
    lemma_ascending_no_duplicates::<ModRecord, ById>(before.mods);
    let i = choose|i: int| 0 <= i < before.mods.len() && before.mods[i] == m;
    let j = choose|j: int| 0 <= j < before.mods.len() && before.mods[j] == n;
    if i < j {
        assert(ById::before(before.mods[i], before.mods[j]));
    }
    if j < i {
        assert(ById::before(before.mods[j], before.mods[i]));
    }
    assert(row.recipe == other.recipe);
    lemma_recipe_stored_unique(before, a, b, row);
}

/// `row` is in the store, and is its only recipe of that mod at that path.
pub open spec fn alone_at_its_place(s: Store, row: RecipeRow) -> bool {
    &&& s.recipes.contains(row)
    &&& forall|x: RecipeRow|
        s.recipes.contains(x) && x.mod_id == row.mod_id && x.recipe.path == row.recipe.path ==> x
            == row
}

/// A store shows exactly the recipes of its rows.
pub proof fn lemma_listing_shows_rows(s: Store)
    ensures
        s.listing().len() == s.recipes.len(),
        forall|v: RecipeView|
            s.listing().contains(v) <==> exists|row: RecipeRow|
                #[trigger] s.recipes.contains(row) && row.recipe == v,
{
    assert forall|v: RecipeView|
        s.listing().contains(v) <==> exists|row: RecipeRow|
            #[trigger] s.recipes.contains(row) && row.recipe == v by {
        if s.listing().contains(v) {
            let i = choose|i: int| 0 <= i < s.listing().len() && s.listing()[i] == v;
            assert(s.recipes.contains(s.recipes[i]));
        }
        if exists|row: RecipeRow| #[trigger] s.recipes.contains(row) && row.recipe == v {
            let row = choose|row: RecipeRow| #[trigger] s.recipes.contains(row) && row.recipe == v;
            let i = choose|i: int| 0 <= i < s.recipes.len() && s.recipes[i] == row;
            assert(s.listing()[i] == v);
        }
    }
}

/// A recipe that is stored at another place leaves the rows of this place as
/// they are, whether the store takes it or refuses it.
pub proof fn lemma_other_place_untouched(
    before: Store,
    after: Store,
    r: Result<i64, StoreError>,
    mod_id: i64,
    path: Seq<char>,
    recipe_type: Seq<char>,
    result_item: Option<Seq<char>>,
    result_count: Option<i32>,
    raw_json: Seq<char>,
    ingredients: Seq<Seq<char>>,
    x: RecipeRow,
)
    requires
        inserting(
            before,
            after,
            r,
            mod_id,
            path,
            recipe_type,
            result_item,
            result_count,
            raw_json,
            ingredients,
        ),
        !(x.mod_id == mod_id && x.recipe.path == path),
    ensures
        after.recipes.contains(x) <==> before.recipes.contains(x),
{
}

/// A recipe stored for a mod and path at which the store has a recipe takes
/// its place, however that recipe came there: the store takes the new one
/// while an id is left, then holds it alone at the place, with what was
/// given and with its ingredients in ascending order, each once; the row
/// that stood there is gone and its id with it; and the rows of other places
/// are as they were.
pub proof fn lemma_import_replaces_row(
    before: Store,
    after: Store,
    r: Result<i64, StoreError>,
    first: RecipeRow,
    recipe_type: Seq<char>,
    result_item: Option<Seq<char>>,
    result_count: Option<i32>,
    raw_json: Seq<char>,
    ingredients: Seq<Seq<char>>,
)
    requires
        before.valid(),
        before.recipes.contains(first),
        inserting(
            before,
            after,
            r,
            first.mod_id,
            first.recipe.path,
            recipe_type,
            result_item,
            result_count,
            raw_json,
            ingredients,
        ),
        before.next_recipe_id < i64::MAX,
    ensures
        r is Ok,
        r->Ok_0 > first.recipe.id,
        exists|row: RecipeRow|
            {
                &&& #[trigger] alone_at_its_place(after, row)
                &&& row.mod_id == first.mod_id
                &&& row.recipe.path == first.recipe.path
                &&& row.recipe.id == r->Ok_0
                &&& row.recipe.recipe_type == recipe_type
                &&& row.recipe.result_item == result_item
                &&& row.recipe.result_count == result_count
                &&& row.recipe.raw_json == raw_json
                &&& ascending::<String, Lexical>(row.recipe.ingredients)
                &&& forall|s: Seq<char>|
                    row.recipe.ingredients.contains(s) <==> ingredients.contains(s)
            },
        !after.recipes.contains(first),
        forall|x: RecipeRow| after.recipes.contains(x) ==> x.recipe.id != first.recipe.id,
        forall|x: RecipeRow|
            !(x.mod_id == first.mod_id && x.recipe.path == first.recipe.path) ==> (
            after.recipes.contains(x) <==> before.recipes.contains(x)),
{
    assert(row_valid(before.mods, first, before.next_recipe_id));
    let m = choose|m: ModRow|
        #[trigger] before.mods.contains(m) && m.id == first.mod_id && m.name
            == first.recipe.mod_name;
    assert(before.has_mod(first.mod_id));
    let row = choose|row: RecipeRow|
        storing(
            before,
            after,
            row,
            first.mod_id,
            r->Ok_0,
            first.recipe.path,
            recipe_type,
            result_item,
            result_count,
            raw_json,
            ingredients,
        );
    assert(after.recipes.contains(row));
    assert(row_valid(after.mods, row, after.next_recipe_id));
    assert(alone_at_its_place(after, row));
    assert forall|x: RecipeRow| after.recipes.contains(x) implies x.recipe.id
        != first.recipe.id by {
        if x != row {
            assert(before.recipes.contains(x));
        }
    }
}

/// A recipe stored a second time for the same mod and path, with nothing
/// written in between, takes the place of the first. Where an id is left for
/// it, the store takes the second; it then holds the second alone at that
/// place, under the id that the second call gives, with the second's values
/// and the second's ingredients in ascending order, each once. No row has the
/// id of the first call, and the rows of other places are as they were before
/// the first.
pub proof fn lemma_second_import_replaces(
    s0: Store,
    s1: Store,
    s2: Store,
    r1: Result<i64, StoreError>,
    r2: Result<i64, StoreError>,
    mod_id: i64,
    path: Seq<char>,
    first_type: Seq<char>,
    first_item: Option<Seq<char>>,
    first_count: Option<i32>,
    first_json: Seq<char>,
    first_ingredients: Seq<Seq<char>>,
    second_type: Seq<char>,
    second_item: Option<Seq<char>>,
    second_count: Option<i32>,
    second_json: Seq<char>,
    second_ingredients: Seq<Seq<char>>,
)
    requires
        s0.valid(),
        inserting(
            s0,
            s1,
            r1,
            mod_id,
            path,
            first_type,
            first_item,
            first_count,
            first_json,
            first_ingredients,
        ),
        r1 is Ok,
        inserting(
            s1,
            s2,
            r2,
            mod_id,
            path,
            second_type,
            second_item,
            second_count,
            second_json,
            second_ingredients,
        ),
        s1.next_recipe_id < i64::MAX,
    ensures
        r2 is Ok,
        r2->Ok_0 != r1->Ok_0,
        exists|row: RecipeRow|
            {
                &&& #[trigger] alone_at_its_place(s2, row)
                &&& row.mod_id == mod_id
                &&& row.recipe.path == path
                &&& row.recipe.id == r2->Ok_0
                &&& row.recipe.recipe_type == second_type
                &&& row.recipe.result_item == second_item
                &&& row.recipe.result_count == second_count
                &&& row.recipe.raw_json == second_json
                &&& ascending::<String, Lexical>(row.recipe.ingredients)
                &&& forall|s: Seq<char>|
                    row.recipe.ingredients.contains(s) <==> second_ingredients.contains(s)
            },
        forall|x: RecipeRow| s2.recipes.contains(x) ==> x.recipe.id != r1->Ok_0,
        forall|x: RecipeRow|
            !(x.mod_id == mod_id && x.recipe.path == path) ==> (s2.recipes.contains(x)
                <==> s0.recipes.contains(x)),
{
    let first = choose|row: RecipeRow|
        storing(
            s0,
            s1,
            row,
            mod_id,
            r1->Ok_0,
            path,
            first_type,
            first_item,
            first_count,
            first_json,
            first_ingredients,
        );
    assert(s1.recipes.contains(first));
    lemma_import_replaces_row(
        s1,
        s2,
        r2,
        first,
        second_type,
        second_item,
        second_count,
        second_json,
        second_ingredients,
    );
    assert forall|x: RecipeRow| !(x.mod_id == mod_id && x.recipe.path == path) implies (
    s2.recipes.contains(x) <==> s0.recipes.contains(x)) by {
        assert(s1.recipes.contains(x) <==> s0.recipes.contains(x));
    }
}

/// Every recipe of a store belongs to a mod of the store, whose name it
/// shows.
pub proof fn lemma_recipes_belong(s: Store, r: RecipeRow)
    requires
        s.valid(),
        s.recipes.contains(r),
    ensures
        s.has_mod(r.mod_id),
        mod_named(s.mods, r.mod_id, r.recipe.mod_name),
{
    assert(row_valid(s.mods, r, s.next_recipe_id));
}

/// The listing of a store goes by the name of the mod, then by path, then
/// by id, and shows no recipe twice.
pub proof fn lemma_listing_sorted(s: Store)
    requires
        s.valid(),
    ensures
        forall|i: int, j: int|
            0 <= i < j < s.listing().len() ==> listing_before(s.listing()[i], s.listing()[j]),
        s.listing().no_duplicates(),
{
    assert forall|i: int, j: int| 0 <= i < j < s.listing().len() implies listing_before(
        s.listing()[i],
        s.listing()[j],
    ) by {
        assert(ByListing::before(s.recipes[i], s.recipes[j]));
    }
    assert forall|i: int, j: int|
        0 <= i < s.listing().len() && 0 <= j < s.listing().len() && i != j implies s.listing()[i]
        != s.listing()[j] by {
        lemma_listing_irreflexive(s.listing()[i]);
        if i < j {
            assert(ByListing::before(s.recipes[i], s.recipes[j]));
        } else {
            assert(ByListing::before(s.recipes[j], s.recipes[i]));
        }
    }
}

/// Search results go by resulting item, then by the name of the mod, and
/// hold no recipe twice.
pub proof fn lemma_search_sorted(results: Seq<RecipeView>)
    requires
        ascending::<Recipe, ByOutput>(results),
    ensures
        forall|i: int, j: int|
            0 <= i < j < results.len() ==> !optional_text_before(
                results[j].result_item,
                results[i].result_item,
            ),
        forall|i: int, j: int|
            0 <= i < j < results.len() && results[i].result_item == results[j].result_item
                ==> !text_before(results[j].mod_name, results[i].mod_name),
        results.no_duplicates(),
{
    lemma_ascending_no_duplicates::<Recipe, ByOutput>(results);
    assert forall|i: int, j: int| 0 <= i < j < results.len() implies !optional_text_before(
        results[j].result_item,
        results[i].result_item,
    ) && (results[i].result_item == results[j].result_item ==> !text_before(
        results[j].mod_name,
        results[i].mod_name,
    )) by {
        assert(ByOutput::before(results[i], results[j]));
        ByOutput::lemma_irreflexive(results[i]);
        if ByOutput::before(results[j], results[i]) {
            ByOutput::lemma_transitive(results[i], results[j], results[i]);
        }
        lemma_text_before_irreflexive(results[i].mod_name);
        if text_before(results[j].mod_name, results[i].mod_name) && text_before(
            results[i].mod_name,
            results[j].mod_name,
        ) {
            lemma_text_before_transitive(
                results[i].mod_name,
                results[j].mod_name,
                results[i].mod_name,
            );
        }
    }
}

/// A page and the page that follows it make up the page of both their
/// sizes: nothing is left out between them.
pub proof fn lemma_pages_adjoin<A>(s: Seq<A>, offset: int, first: int, second: int)
    requires
        0 <= offset,
        0 <= first,
        0 <= second,
    ensures
        window(s, offset, first) + window(s, offset + first, second) == window(
            s,
            offset,
            first + second,
        ),
{
    assert(window(s, offset, first) + window(s, offset + first, second) =~= window(
        s,
        offset,
        first + second,
    ));
}

/// Pages that do not overlap in their places share no recipe, where the
/// listing holds none twice.
pub proof fn lemma_pages_disjoint<A>(s: Seq<A>, offset: int, first: int, later: int, second: int)
    requires
        s.no_duplicates(),
        0 <= offset,
        0 <= first,
        offset + first <= later,
    ensures
        forall|x: A|
            !(window(s, offset, first).contains(x) && window(s, later, second).contains(x)),
{
    assert forall|x: A|
        !(window(s, offset, first).contains(x) && window(s, later, second).contains(x)) by {
        let a = window(s, offset, first);
        let b = window(s, later, second);
        if a.contains(x) && b.contains(x) {
            let i = choose|i: int| 0 <= i < a.len() && a[i] == x;
            let j = choose|j: int| 0 <= j < b.len() && b[j] == x;
            let lo_a = if offset >= s.len() {
                s.len() as int
            } else {
                offset
            };
            let lo_b = if later <= 0 {
                0
            } else if later >= s.len() {
                s.len() as int
            } else {
                later
            };
            assert(s[lo_a + i] == x);
            assert(s[lo_b + j] == x);
        }
    }
}

/// A scan without bounds shows the whole listing, so the count of recipes
/// is the number of rows that such a scan shows.
pub proof fn lemma_count_is_full_scan(s: Store)
    ensures
        window(s.listing(), 0, -1) == s.listing(),
        window(s.listing(), 0, -1).len() == s.recipes.len(),
        forall|limit: int|
            limit >= s.recipes.len() ==> window(s.listing(), 0, limit) == s.listing(),
{
    assert(window(s.listing(), 0, -1) =~= s.listing());
    assert forall|limit: int| limit >= s.recipes.len() implies window(s.listing(), 0, limit)
        == s.listing() by {
        assert(window(s.listing(), 0, limit) =~= s.listing());
    }
}

} // verus!
