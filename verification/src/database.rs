//! The recipe store: mods, their recipes and the ingredients of each, with
//! replacement on a second import, search by substring and paging.

use vstd::prelude::*;
use vstd::string::StringExecFns;
use crate::clock::{chrono_lite_now, decimal};
use crate::ranking::{
    ascending, insert_ranked, lemma_insert_contains, lemma_remove_ascending,
    lemma_remove_ascending_contains, lemma_views_insert, lemma_views_remove, sorted_distinct, tied,
    views, Lexical, Ranking,
};
use crate::records::{
    lemma_listing_irreflexive, lemma_listing_total, lemma_output_total, ById, ByListing, ByOutput,
    ModRecord, ModRow, Recipe, RecipeRow, RecipeView, StoredRecipe,
};
use crate::store::{
    found_by, ingredient_matches, inserting, mod_at_path, mod_named, mod_registered, mods_valid,
    output_matches, recipe_stored, recipes_valid, row_valid, storing, str_view, window, Store,
    StoreError,
};
use crate::text::{chars_of, contains_folded, contains_ignoring_case, same_text};

verus! {

/// The place of the mod at `path`.
fn position_of_path(mods: &Vec<ModRecord>, path: &str) -> (r: Option<usize>)
    ensures
        match r {
            Some(k) => k < mods.len() && mods[k as int].path@ == path@,
            None => forall|i: int| 0 <= i < mods.len() ==> (#[trigger] mods[i]).path@ != path@,
        },
{
    let mut i: usize = 0;
    while i < mods.len()
        invariant
            i <= mods.len(),
            forall|j: int| 0 <= j < i ==> (#[trigger] mods[j]).path@ != path@,
        decreases mods.len() - i,
    {
        if same_text(mods[i].path.as_str(), path) {
            return Some(i);
        }
        i += 1;
    }
    None
}

/// The place of the mod with the id `id`.
fn position_of_mod(mods: &Vec<ModRecord>, id: i64) -> (r: Option<usize>)
    ensures
        match r {
            Some(k) => k < mods.len() && mods[k as int].id == id,
            None => forall|i: int| 0 <= i < mods.len() ==> (#[trigger] mods[i]).id != id,
        },
{
    let mut i: usize = 0;
    while i < mods.len()
        invariant
            i <= mods.len(),
            forall|j: int| 0 <= j < i ==> (#[trigger] mods[j]).id != id,
        decreases mods.len() - i,
    {
        if mods[i].id == id {
            return Some(i);
        }
        i += 1;
    }
    None
}

/// The place of the recipe of the mod `mod_id` at `path`.
fn position_of_recipe(entries: &Vec<StoredRecipe>, mod_id: i64, path: &str) -> (r: Option<usize>)
    ensures
        match r {
            Some(k) => k < entries.len() && entries[k as int].mod_id == mod_id
                && entries[k as int].recipe.path@ == path@,
            None => forall|i: int|
                0 <= i < entries.len() ==> !((#[trigger] entries[i]).mod_id == mod_id
                    && entries[i].recipe.path@ == path@),
        },
{
    let mut i: usize = 0;
    while i < entries.len()
        invariant
            i <= entries.len(),
            forall|j: int|
                0 <= j < i ==> !((#[trigger] entries[j]).mod_id == mod_id
                    && entries[j].recipe.path@ == path@),
        decreases entries.len() - i,
    {
        if entries[i].mod_id == mod_id && same_text(entries[i].recipe.path.as_str(), path) {
            return Some(i);
        }
        i += 1;
    }
    None
}

/// Takes the recipes of the mod `mod_id` out of `entries`.
fn remove_recipes_of(entries: &mut Vec<StoredRecipe>, mod_id: i64)
    requires
        ascending::<StoredRecipe, ByListing>(views(old(entries)@)),
    ensures
        ascending::<StoredRecipe, ByListing>(views(final(entries)@)),
        final(entries).len() <= old(entries).len(),
        forall|r: RecipeRow|
            views(final(entries)@).contains(r) <==> (views(old(entries)@).contains(r) && r.mod_id
                != mod_id),
{
    let ghost start = views(entries@);
    let mut i: usize = entries.len();
    while i > 0
        invariant
            i <= entries.len() <= start.len(),
            ascending::<StoredRecipe, ByListing>(views(entries@)),
            forall|j: int| i <= j < entries.len() ==> (#[trigger] entries[j]).mod_id != mod_id,
            forall|r: RecipeRow| views(entries@).contains(r) ==> start.contains(r),
            forall|r: RecipeRow|
                start.contains(r) && r.mod_id != mod_id ==> views(entries@).contains(r),
        decreases i,
    {
        i -= 1;
        if entries[i].mod_id == mod_id {
            let ghost cur = entries@;
            proof {
                lemma_remove_ascending::<StoredRecipe, ByListing>(views(cur), i as int);
                lemma_remove_ascending_contains::<StoredRecipe, ByListing>(views(cur), i as int);
                lemma_views_remove(cur, i as int);
            }
            entries.remove(i);
            proof {
                assert forall|j: int| i <= j < entries.len() implies (#[trigger] entries[j]).mod_id
                    != mod_id by {
                    assert(entries[j] == cur[j + 1]);
                }
            }
        }
    }
    proof {
        assert forall|r: RecipeRow| views(entries@).contains(r) implies r.mod_id != mod_id by {
            let j = choose|j: int| 0 <= j < views(entries@).len() && views(entries@)[j] == r;
            assert(entries[j].mod_id != mod_id);
        }
    }
}

/// The mods after one is registered.
proof fn lemma_register_mods(mods: Seq<ModRow>, k: Option<int>, row: ModRow, next: i64) -> (grown:
    Seq<ModRow>)
    requires
        mods_valid(mods, next),
        1 <= next <= row.id < i64::MAX,
        match k {
            Some(k) => 0 <= k < mods.len() && mods[k].path == row.path,
            None => forall|i: int| 0 <= i < mods.len() ==> (#[trigger] mods[i]).path != row.path,
        },
    ensures
        grown == (match k {
            Some(k) => mods.remove(k).push(row),
            None => mods.push(row),
        }),
        mods_valid(grown, (row.id + 1) as i64),
        forall|m: ModRow|
            grown.contains(m) <==> (m == row || (mods.contains(m) && m.path != row.path)),
{
    let base = match k {
        Some(k) => mods.remove(k),
        None => mods,
    };
    assert forall|m: ModRow| base.contains(m) <==> (mods.contains(m) && m.path != row.path) by {
        match k {
            Some(k) => {
                lemma_remove_ascending_contains::<ModRecord, ById>(mods, k);
                assert(mods.contains(mods[k]));
            },
            None => {
                if mods.contains(m) {
                    let i = choose|i: int| 0 <= i < mods.len() && mods[i] == m;
                    assert(mods[i].path != row.path);
                }
            },
        }
    }
    assert(ascending::<ModRecord, ById>(base)) by {
        if k is Some {
            lemma_remove_ascending::<ModRecord, ById>(mods, k->Some_0);
        }
    }
    let grown = base.push(row);
    assert(grown =~= base.insert(base.len() as int, row));
    lemma_insert_contains(base, base.len() as int, row);
    assert forall|i: int, j: int| 0 <= i < j < grown.len() implies ById::before(
        grown[i],
        grown[j],
    ) by {
        assert(base.contains(grown[i]));
        if j < base.len() {
            assert(ById::before(base[i], base[j]));
        }
    }
    assert forall|m: ModRow| grown.contains(m) <==> (m == row || (mods.contains(m) && m.path
        != row.path)) by {
        assert(base.insert(base.len() as int, row).contains(m) <==> (base.contains(m) || m == row));
    }
    assert(ascending::<ModRecord, ById>(grown));
    assert forall|m: ModRow| #[trigger] grown.contains(m) implies 1 <= m.id < row.id + 1 by {
        if m != row {
            assert(mods.contains(m));
        }
    }
    assert forall|a: ModRow, b: ModRow|
        #[trigger] grown.contains(a) && #[trigger] grown.contains(b) && a.path == b.path implies a
        == b by {
        if a != row && b != row {
            assert(mods.contains(a) && mods.contains(b));
        }
    }
    grown
}

/// The recipes after a mod is registered.
proof fn lemma_register_recipes(
    old_mods: Seq<ModRow>,
    new_mods: Seq<ModRow>,
    old_recipes: Seq<RecipeRow>,
    new_recipes: Seq<RecipeRow>,
    k: Option<int>,
    row: ModRow,
    next: i64,
)
    requires
        exists|bound: i64| mods_valid(old_mods, bound),
        recipes_valid(old_mods, old_recipes, next),
        forall|m: ModRow|
            new_mods.contains(m) <==> (m == row || (old_mods.contains(m) && m.path != row.path)),
        match k {
            Some(k) => 0 <= k < old_mods.len() && old_mods[k].path == row.path,
            None => forall|i: int|
                0 <= i < old_mods.len() ==> (#[trigger] old_mods[i]).path != row.path,
        },
        ascending::<StoredRecipe, ByListing>(new_recipes),
        new_recipes.len() <= old_recipes.len(),
        match k {
            Some(k) => forall|r: RecipeRow|
                new_recipes.contains(r) <==> (old_recipes.contains(r) && r.mod_id
                    != old_mods[k].id),
            None => new_recipes == old_recipes,
        },
    ensures
        recipes_valid(new_mods, new_recipes, next),
        forall|r: RecipeRow|
            new_recipes.contains(r) <==> (old_recipes.contains(r) && !mod_at_path(
                old_mods,
                r.mod_id,
                row.path,
            )),
{
    assert forall|mod_id: i64| mod_at_path(old_mods, mod_id, row.path) <==> (k is Some
        && mod_id == old_mods[k->Some_0].id) by {
        if mod_at_path(old_mods, mod_id, row.path) {
            let m = choose|m: ModRow|
                #[trigger] old_mods.contains(m) && m.id == mod_id && m.path == row.path;
            let i = choose|i: int| 0 <= i < old_mods.len() && old_mods[i] == m;
            match k {
                Some(k) => {
                    assert(old_mods.contains(old_mods[k]));
                },
                None => {
                    assert(old_mods[i].path != row.path);
                },
            }
        }
        if k is Some && mod_id == old_mods[k->Some_0].id {
            assert(old_mods.contains(old_mods[k->Some_0]));
        }
    }
    assert forall|r: RecipeRow| #[trigger] new_recipes.contains(r) implies row_valid(
        new_mods,
        r,
        next,
    ) by {
        assert(old_recipes.contains(r));
        assert(row_valid(old_mods, r, next));
        let m = choose|m: ModRow|
            #[trigger] old_mods.contains(m) && m.id == r.mod_id && m.name == r.recipe.mod_name;
        if m.path == row.path {
            assert(mod_at_path(old_mods, r.mod_id, row.path));
        }
        assert(new_mods.contains(m));
    }
    assert forall|r: RecipeRow|
        new_recipes.contains(r) <==> (old_recipes.contains(r) && !mod_at_path(
            old_mods,
            r.mod_id,
            row.path,
        )) by {
        assert(mod_at_path(old_mods, r.mod_id, row.path) <==> (k is Some && r.mod_id
            == old_mods[k->Some_0].id));
    }
}

/// The recipes after one is stored.
proof fn lemma_store_recipe(
    mods: Seq<ModRow>,
    old_recipes: Seq<RecipeRow>,
    k: Option<int>,
    at: int,
    row: RecipeRow,
    next: i64,
) -> (new_recipes: Seq<RecipeRow>)
    requires
        recipes_valid(mods, old_recipes, next),
        1 <= next <= row.recipe.id < i64::MAX,
        mod_named(mods, row.mod_id, row.recipe.mod_name),
        ascending::<String, Lexical>(row.recipe.ingredients),
        match k {
            Some(k) => 0 <= k < old_recipes.len() && old_recipes[k].mod_id == row.mod_id
                && old_recipes[k].recipe.path == row.recipe.path,
            None => forall|i: int|
                0 <= i < old_recipes.len() ==> !((#[trigger] old_recipes[i]).mod_id == row.mod_id
                    && old_recipes[i].recipe.path == row.recipe.path),
        },
        0 <= at <= (match k {
            Some(k) => old_recipes.remove(k),
            None => old_recipes,
        }).len(),
        ascending::<StoredRecipe, ByListing>(
            (match k {
                Some(k) => old_recipes.remove(k),
                None => old_recipes,
            }).insert(at, row),
        ),
    ensures
        new_recipes == (match k {
            Some(k) => old_recipes.remove(k),
            None => old_recipes,
        }).insert(at, row),
        recipes_valid(mods, new_recipes, (row.recipe.id + 1) as i64),
        forall|r: RecipeRow|
            new_recipes.contains(r) <==> (r == row || (old_recipes.contains(r) && !(r.mod_id
                == row.mod_id && r.recipe.path == row.recipe.path))),
{
    let base = match k {
        Some(k) => old_recipes.remove(k),
        None => old_recipes,
    };
    assert forall|r: RecipeRow|
        base.contains(r) <==> (old_recipes.contains(r) && !(r.mod_id == row.mod_id
            && r.recipe.path == row.recipe.path)) by {
        match k {
            Some(k) => {
                lemma_remove_ascending_contains::<StoredRecipe, ByListing>(old_recipes, k);
                assert(old_recipes.contains(old_recipes[k]));
            },
            None => {
                if old_recipes.contains(r) {
                    let i = choose|i: int| 0 <= i < old_recipes.len() && old_recipes[i] == r;
                    assert(!(old_recipes[i].mod_id == row.mod_id && old_recipes[i].recipe.path
                        == row.recipe.path));
                }
            },
        }
    }
    let new_recipes = base.insert(at, row);
    lemma_insert_contains(base, at, row);
    assert forall|r: RecipeRow|
        new_recipes.contains(r) <==> (r == row || (old_recipes.contains(r) && !(r.mod_id
            == row.mod_id && r.recipe.path == row.recipe.path))) by {
        assert(base.insert(at, row).contains(r) <==> (base.contains(r) || r == row));
    }
    assert forall|r: RecipeRow| #[trigger] new_recipes.contains(r) implies row_valid(
        mods,
        r,
        (row.recipe.id + 1) as i64,
    ) by {
        if r != row {
            assert(old_recipes.contains(r));
            assert(row_valid(mods, r, next));
        }
    }
    assert forall|a: RecipeRow, b: RecipeRow|
        #[trigger] new_recipes.contains(a) && #[trigger] new_recipes.contains(b) && a.recipe.id
            == b.recipe.id implies a == b by {
        if a != row {
            assert(row_valid(mods, a, next));
        }
        if b != row {
            assert(row_valid(mods, b, next));
        }
    }
    new_recipes
}

/// Whether the resulting item of `recipe` holds `needle`.
fn output_hit(recipe: &Recipe, needle: &Vec<char>) -> (r: bool)
    ensures
        r == output_matches(recipe@, needle@),
{
    match &recipe.result_item {
        Some(item) => contains_ignoring_case(item.as_str(), needle),
        None => false,
    }
}

/// Whether an ingredient of `recipe` holds `needle`.
fn ingredient_hit(recipe: &Recipe, needle: &Vec<char>) -> (r: bool)
    ensures
        r == ingredient_matches(recipe@, needle@),
{
    let mut k: usize = 0;
    while k < recipe.ingredients.len()
        invariant
            k <= recipe.ingredients.len(),
            forall|j: int|
                0 <= j < k ==> !contains_folded(#[trigger] recipe@.ingredients[j], needle@),
        decreases recipe.ingredients.len() - k,
    {
        if contains_ignoring_case(recipe.ingredients[k].as_str(), needle) {
            assert(contains_folded(recipe@.ingredients[k as int], needle@));
            return true;
        }
        k += 1;
    }
    false
}

/// One step of a search: the results once the next recipe of the listing has
/// been looked at.
proof fn lemma_search_step(
    seen: Seq<RecipeView>,
    seen_after: Seq<RecipeView>,
    v: RecipeView,
    found: Seq<RecipeView>,
    found_after: Seq<RecipeView>,
    needle: Seq<char>,
    by_ingredient: bool,
)
    requires
        seen_after == seen.push(v),
        forall|x: RecipeView|
            found.contains(x) <==> (seen.contains(x) && found_by(x, needle, by_ingredient)),
        if found_by(v, needle, by_ingredient) {
            exists|at: int| 0 <= at <= found.len() && found_after == found.insert(at, v)
        } else {
            found_after == found
        },
    ensures
        forall|x: RecipeView|
            found_after.contains(x) <==> (seen_after.contains(x) && found_by(
                x,
                needle,
                by_ingredient,
            )),
{
    assert(seen.push(v) =~= seen.insert(seen.len() as int, v));
    lemma_insert_contains(seen, seen.len() as int, v);
    if found_by(v, needle, by_ingredient) {
        let at = choose|at: int| 0 <= at <= found.len() && found_after == found.insert(at, v);
        lemma_insert_contains(found, at, v);
    }
    assert forall|x: RecipeView|
        found_after.contains(x) <==> (seen_after.contains(x) && found_by(
            x,
            needle,
            by_ingredient,
        )) by {
        assert(seen.insert(seen.len() as int, v).contains(x) <==> (seen.contains(x) || x == v));
    }
}

/// A store of mods and recipes, held in memory.
#[derive(Debug)]
pub struct Database {
    mods: Vec<ModRecord>,
    entries: Vec<StoredRecipe>,
    next_mod_id: i64,
    next_recipe_id: i64,
}

impl View for Database {
    type V = Store;

    closed spec fn view(&self) -> Store {
        Store {
            mods: views(self.mods@),
            recipes: views(self.entries@),
            next_mod_id: self.next_mod_id,
            next_recipe_id: self.next_recipe_id,
        }
    }
}

impl Database {
    /// What every store keeps to.
    #[verifier::type_invariant]
    pub open spec fn well_formed(self) -> bool {
        self@.valid()
    }

    /// A store that holds nothing.
    pub fn new() -> (db: Database)
        ensures
            db@ == Store::empty(),
            db@.valid(),
    {
        let db = Database {
            mods: Vec::new(),
            entries: Vec::new(),
            next_mod_id: 1,
            next_recipe_id: 1,
        };
        proof {
            assert(db@.mods =~= Seq::empty());
            assert(db@.recipes =~= Seq::empty());
        }
        db
    }

    /// Removes every mod, recipe and ingredient. Ids start again at 1.
    pub fn clear_all(&mut self)
        ensures
            final(self)@ == Store::empty(),
            final(self)@.valid(),
    {
        *self = Database::new();
    }

    /// The number of recipes.
    pub fn get_recipe_count(&self) -> (count: i64)
        ensures
            count == self@.recipes.len(),
            self@.valid(),
    {
        proof {
            use_type_invariant(self);
        }
        self.entries.len() as i64
    }

    /// The recipes from place `offset` of the listing on, at most `limit` of
    /// them. A negative `offset` counts as 0; a negative `limit` is no limit.
    pub fn list_recipes(&self, offset: i64, limit: i64) -> (r: Vec<Recipe>)
        ensures
            views(r@) == window(self@.listing(), offset as int, limit as int),
            self@.valid(),
    {
        proof {
            use_type_invariant(self);
        }
        let len: usize = self.entries.len();
        let lo: usize = if offset <= 0 {
            0
        } else if offset as u64 >= len as u64 {
            len
        } else {
            offset as usize
        };
        let hi: usize = if limit < 0 || limit as u64 >= (len - lo) as u64 {
            len
        } else {
            lo + limit as usize
        };
        let mut out: Vec<Recipe> = Vec::new();
        let mut i: usize = lo;
        while i < hi
            invariant
                lo <= i <= hi <= self.entries.len(),
                out.len() == i - lo,
                forall|j: int| 0 <= j < out.len() ==> out[j]@ == self.entries[lo + j].recipe@,
            decreases hi - i,
        {
            out.push(self.entries[i].recipe.clone());
            i += 1;
        }
        proof {
            assert(views(out@) =~= self@.listing().subrange(lo as int, hi as int));
        }
        out
    }

    /// Puts a mod into the store under an id that was not handed out before.
    /// The mod that lay at `path` leaves the store, and its recipes with it.
    fn place_mod(&mut self, id: i64, name: &str, path: &str, scanned_at: &str)
        requires
            old(self)@.next_mod_id <= id < i64::MAX,
        ensures
            mod_registered(
                old(self)@,
                final(self)@,
                (ModRow { id, name: name@, path: path@, scanned_at: scanned_at@ }),
            ),
    {
        proof {
            use_type_invariant(&*self);
        }
        let ghost before = self@;
        let ghost row = ModRow { id, name: name@, path: path@, scanned_at: scanned_at@ };
        let mut entries: Vec<StoredRecipe> = Vec::new();
        proof {
            assert(views(entries@) =~= Seq::<RecipeRow>::empty());
        }
        core::mem::swap(&mut self.entries, &mut entries);
        let mut mods: Vec<ModRecord> = Vec::new();
        proof {
            assert(views(mods@) =~= Seq::<ModRow>::empty());
        }
        core::mem::swap(&mut self.mods, &mut mods);
        let at = position_of_path(&mods, path);
        let ghost k: Option<int> = match at {
            Some(k) => Some(k as int),
            None => None,
        };
        match at {
            Some(k) => {
                let old_id = mods[k].id;
                remove_recipes_of(&mut entries, old_id);
                proof {
                    lemma_views_remove(mods@, k as int);
                }
                mods.remove(k);
            },
            None => {},
        }
        let record = ModRecord {
            id,
            name: String::from_str(name),
            path: String::from_str(path),
            scanned_at: String::from_str(scanned_at),
        };
        proof {
            let new_mods = lemma_register_mods(before.mods, k, row, before.next_mod_id);
            assert(views(mods@.push(record)) =~= new_mods);
            lemma_register_recipes(
                before.mods,
                new_mods,
                before.recipes,
                views(entries@),
                k,
                row,
                before.next_recipe_id,
            );
        }
        mods.push(record);
        self.next_mod_id = id + 1;
        self.mods = mods;
        self.entries = entries;
    }

    /// Registers a mod with the time of its registration given. The mod that
    /// lay at `path` leaves the store, and its recipes with it. Fails only
    /// where no id is left.
    pub fn insert_mod_at(&mut self, name: &str, path: &str, scanned_at: &str) -> (r: Result<
        i64,
        StoreError,
    >)
        ensures
            match r {
                Ok(id) => id == old(self)@.next_mod_id && mod_registered(
                    old(self)@,
                    final(self)@,
                    (ModRow { id, name: name@, path: path@, scanned_at: scanned_at@ }),
                ),
                Err(e) => old(self)@.next_mod_id == i64::MAX && e is IdsExhausted && final(self)@
                    == old(self)@,
            },
            final(self)@.valid(),
    {
        proof {
            use_type_invariant(&*self);
        }
        if self.next_mod_id == i64::MAX {
            return Err(StoreError::IdsExhausted);
        }
        let id = self.next_mod_id;
        self.place_mod(id, name, path, scanned_at);
        Ok(id)
    }

    /// Puts a mod back into the store under the id that it had. Fails where
    /// the id was handed out before, where it is the last of all ids, and
    /// where a mod of the store lies at `path`.
    pub fn restore_mod(&mut self, id: i64, name: &str, path: &str, scanned_at: &str) -> (r: Result<
        (),
        StoreError,
    >)
        ensures
            match r {
                Ok(_) => {
                    &&& forall|m: ModRow| old(self)@.mods.contains(m) ==> m.path != path@
                    &&& mod_registered(
                        old(self)@,
                        final(self)@,
                        (ModRow { id, name: name@, path: path@, scanned_at: scanned_at@ }),
                    )
                },
                Err(e) => {
                    &&& final(self)@ == old(self)@
                    &&& e == (if id < old(self)@.next_mod_id {
                        StoreError::IdTaken
                    } else if id == i64::MAX {
                        StoreError::IdsExhausted
                    } else {
                        StoreError::PlaceTaken
                    })
                    &&& id < old(self)@.next_mod_id || id == i64::MAX || exists|m: ModRow|
                        #[trigger] old(self)@.mods.contains(m) && m.path == path@
                },
            },
            final(self)@.valid(),
    {
        proof {
            use_type_invariant(&*self);
        }
        if id < self.next_mod_id {
            return Err(StoreError::IdTaken);
        }
        if id == i64::MAX {
            return Err(StoreError::IdsExhausted);
        }
        match position_of_path(&self.mods, path) {
            Some(k) => {
                proof {
                    assert(self@.mods.contains(self@.mods[k as int]));
                }
                return Err(StoreError::PlaceTaken);
            },
            None => {
                proof {
                    assert forall|m: ModRow| self@.mods.contains(m) implies m.path != path@ by {
                        let i = choose|i: int| 0 <= i < self@.mods.len() && self@.mods[i] == m;
                        assert(self.mods[i].path@ != path@);
                    }
                }
            },
        }
        self.place_mod(id, name, path, scanned_at);
        Ok(())
    }

    /// Registers a mod at the present time. The mod that lay at `path`
    /// leaves the store, and its recipes with it. Fails only where no id is
    /// left.
    pub fn insert_mod(&mut self, name: &str, path: &str) -> (r: Result<i64, StoreError>)
        ensures
            match r {
                Ok(id) => id == old(self)@.next_mod_id && exists|seconds: u64|
                    mod_registered(
                        old(self)@,
                        final(self)@,
                        (ModRow {
                            id,
                            name: name@,
                            path: path@,
                            scanned_at: #[trigger] decimal(seconds as nat),
                        }),
                    ),
                Err(e) => old(self)@.next_mod_id == i64::MAX && e is IdsExhausted && final(self)@
                    == old(self)@,
            },
            final(self)@.valid(),
    {
        let now = chrono_lite_now();
        self.insert_mod_at(name, path, now.as_str())
    }

    /// Puts a recipe of the mod that stands at place `owner` into the store,
    /// under an id that was not handed out before. The recipe of that mod at
    /// `path` leaves the store with all its ingredients.
    fn place_recipe(
        &mut self,
        owner: usize,
        id: i64,
        path: &str,
        recipe_type: &str,
        result_item: Option<&str>,
        result_count: Option<i32>,
        raw_json: &str,
        ingredients: &[String],
    )
        requires
            old(self)@.next_recipe_id <= id < i64::MAX,
            owner < old(self)@.mods.len(),
        ensures
            exists|row: RecipeRow|
                storing(
                    old(self)@,
                    final(self)@,
                    row,
                    old(self)@.mods[owner as int].id,
                    id,
                    path@,
                    recipe_type@,
                    str_view(result_item),
                    result_count,
                    raw_json@,
                    views(ingredients@),
                ),
    {
        proof {
            use_type_invariant(&*self);
        }
        let ghost before = self@;
        proof {
            assert(before.mods.contains(before.mods[owner as int]));
        }
        let mod_id = self.mods[owner].id;
        let mod_name = self.mods[owner].name.clone();
        let recipe = Recipe {
            id,
            mod_name,
            path: String::from_str(path),
            recipe_type: String::from_str(recipe_type),
            result_item: match result_item {
                Some(item) => Some(String::from_str(item)),
                None => None,
            },
            result_count,
            ingredients: sorted_distinct(ingredients),
            raw_json: String::from_str(raw_json),
        };
        let stored = StoredRecipe { mod_id, recipe };
        let ghost row = stored@;
        let mut entries: Vec<StoredRecipe> = Vec::new();
        proof {
            assert(views(entries@) =~= Seq::<RecipeRow>::empty());
        }
        core::mem::swap(&mut self.entries, &mut entries);
        let found = position_of_recipe(&entries, mod_id, path);
        let ghost k: Option<int> = match found {
            Some(k) => Some(k as int),
            None => None,
        };
        match found {
            Some(k) => {
                proof {
                    lemma_views_remove(entries@, k as int);
                    lemma_remove_ascending::<StoredRecipe, ByListing>(views(entries@), k as int);
                    lemma_remove_ascending_contains::<StoredRecipe, ByListing>(
                        views(entries@),
                        k as int,
                    );
                }
                entries.remove(k);
            },
            None => {},
        }
        let ghost base = entries@;
        proof {
            assert forall|r: RecipeRow| views(base).contains(r) implies before.recipes.contains(
                r,
            ) by {}
        }
        let place = insert_ranked::<StoredRecipe, ByListing>(&mut entries, stored);
        proof {
            match place {
                Some(at) => {
                    lemma_views_insert(base, at as int, stored);
                    let new_recipes = lemma_store_recipe(
                        before.mods,
                        before.recipes,
                        k,
                        at as int,
                        row,
                        before.next_recipe_id,
                    );
                    assert(views(entries@) == new_recipes);
                },
                None => {
                    let j = choose|j: int|
                        0 <= j < base.len() && tied::<StoredRecipe, ByListing>(
                            #[trigger] base[j]@,
                            row,
                        );
                    assert(views(base).contains(views(base)[j]));
                    assert(before.recipes.contains(base[j]@));
                    assert(row_valid(before.mods, base[j]@, before.next_recipe_id));
                    lemma_listing_total(base[j]@.recipe, row.recipe);
                    assert(false);
                },
            }
        }
        self.next_recipe_id = id + 1;
        self.entries = entries;
        proof {
            assert(recipe_stored(before, self@, row));
            assert(storing(
                before,
                self@,
                row,
                mod_id,
                id,
                path@,
                recipe_type@,
                str_view(result_item),
                result_count,
                raw_json@,
                views(ingredients@),
            ));
        }
    }

    /// Stores a recipe of the mod `mod_id`, with its ingredients in
    /// ascending order, each once. The recipe of that mod at `path` leaves
    /// the store with all its ingredients. Fails where the store has no such
    /// mod, or no id left.
    pub fn insert_recipe(
        &mut self,
        mod_id: i64,
        path: &str,
        recipe_type: &str,
        result_item: Option<&str>,
        result_count: Option<i32>,
        raw_json: &str,
        ingredients: &[String],
    ) -> (r: Result<i64, StoreError>)
        ensures
            inserting(
                old(self)@,
                final(self)@,
                r,
                mod_id,
                path@,
                recipe_type@,
                str_view(result_item),
                result_count,
                raw_json@,
                views(ingredients@),
            ),
            final(self)@.valid(),
    {
        proof {
            use_type_invariant(&*self);
        }
        let owner = match self.owner_of(mod_id) {
            Some(m) => m,
            None => {
                return Err(StoreError::UnknownMod);
            },
        };
        if self.next_recipe_id == i64::MAX {
            return Err(StoreError::IdsExhausted);
        }
        let id = self.next_recipe_id;
        self.place_recipe(
            owner,
            id,
            path,
            recipe_type,
            result_item,
            result_count,
            raw_json,
            ingredients,
        );
        Ok(id)
    }

    /// Puts a recipe back into the store under the id that it had. Fails
    /// where the store has no such mod, where the id was handed out before or
    /// is the last of all ids, and where the mod has a recipe at `path`.
    pub fn restore_recipe(
        &mut self,
        id: i64,
        mod_id: i64,
        path: &str,
        recipe_type: &str,
        result_item: Option<&str>,
        result_count: Option<i32>,
        raw_json: &str,
        ingredients: &[String],
    ) -> (r: Result<(), StoreError>)
        ensures
            match r {
                Ok(_) => {
                    &&& old(self)@.has_mod(mod_id)
                    &&& forall|x: RecipeRow|
                        old(self)@.recipes.contains(x) ==> !(x.mod_id == mod_id && x.recipe.path
                            == path@)
                    &&& exists|row: RecipeRow|
                        storing(
                            old(self)@,
                            final(self)@,
                            row,
                            mod_id,
                            id,
                            path@,
                            recipe_type@,
                            str_view(result_item),
                            result_count,
                            raw_json@,
                            views(ingredients@),
                        )
                },
                Err(e) => {
                    &&& final(self)@ == old(self)@
                    &&& e == (if !old(self)@.has_mod(mod_id) {
                        StoreError::UnknownMod
                    } else if id < old(self)@.next_recipe_id {
                        StoreError::IdTaken
                    } else if id == i64::MAX {
                        StoreError::IdsExhausted
                    } else {
                        StoreError::PlaceTaken
                    })
                    &&& !old(self)@.has_mod(mod_id) || id < old(self)@.next_recipe_id || id
                        == i64::MAX || exists|x: RecipeRow|
                        #[trigger] old(self)@.recipes.contains(x) && x.mod_id == mod_id
                            && x.recipe.path == path@
                },
            },
            final(self)@.valid(),
    {
        proof {
            use_type_invariant(&*self);
        }
        let owner = match self.owner_of(mod_id) {
            Some(m) => m,
            None => {
                return Err(StoreError::UnknownMod);
            },
        };
        if id < self.next_recipe_id {
            return Err(StoreError::IdTaken);
        }
        if id == i64::MAX {
            return Err(StoreError::IdsExhausted);
        }
        match position_of_recipe(&self.entries, mod_id, path) {
            Some(k) => {
                proof {
                    assert(self@.recipes.contains(self@.recipes[k as int]));
                }
                return Err(StoreError::PlaceTaken);
            },
            None => {
                proof {
                    assert forall|x: RecipeRow| self@.recipes.contains(x) implies !(x.mod_id
                        == mod_id && x.recipe.path == path@) by {
                        let i = choose|i: int|
                            0 <= i < self@.recipes.len() && self@.recipes[i] == x;
                        assert(!(self.entries[i].mod_id == mod_id && self.entries[i].recipe.path@
                            == path@));
                    }
                }
            },
        }
        self.place_recipe(
            owner,
            id,
            path,
            recipe_type,
            result_item,
            result_count,
            raw_json,
            ingredients,
        );
        Ok(())
    }

    /// The mod with the id `id`.
    pub fn mod_record(&self, id: i64) -> (r: Option<ModRecord>)
        ensures
            match r {
                Some(m) => m.id == id && self@.mods.contains(m@),
                None => !self@.has_mod(id),
            },
    {
        match self.owner_of(id) {
            Some(k) => {
                let found = &self.mods[k];
                let copy = ModRecord {
                    id: found.id,
                    name: found.name.clone(),
                    path: found.path.clone(),
                    scanned_at: found.scanned_at.clone(),
                };
                proof {
                    assert(self@.mods[k as int] == copy@);
                }
                Some(copy)
            },
            None => None,
        }
    }

    /// The recipe of the mod `mod_id` at `path`, as the store shows it.
    pub fn recipe_at(&self, mod_id: i64, path: &str) -> (r: Option<Recipe>)
        ensures
            match r {
                Some(recipe) => recipe@.path == path@ && self@.recipes.contains(
                    (RecipeRow { mod_id, recipe: recipe@ }),
                ),
                None => forall|x: RecipeRow|
                    self@.recipes.contains(x) ==> !(x.mod_id == mod_id && x.recipe.path == path@),
            },
    {
        match position_of_recipe(&self.entries, mod_id, path) {
            Some(k) => {
                let copy = self.entries[k].recipe.clone();
                proof {
                    assert(self@.recipes[k as int] == (RecipeRow { mod_id, recipe: copy@ }));
                }
                Some(copy)
            },
            None => {
                proof {
                    assert forall|x: RecipeRow| self@.recipes.contains(x) implies !(x.mod_id
                        == mod_id && x.recipe.path == path@) by {
                        let i = choose|i: int|
                            0 <= i < self@.recipes.len() && self@.recipes[i] == x;
                        assert(!(self.entries[i].mod_id == mod_id && self.entries[i].recipe.path@
                            == path@));
                    }
                }
                None
            },
        }
    }

    /// The place of the mod with the id `mod_id`.
    fn owner_of(&self, mod_id: i64) -> (r: Option<usize>)
        ensures
            match r {
                Some(m) => m < self@.mods.len() && self@.mods[m as int].id == mod_id
                    && self@.has_mod(mod_id),
                None => !self@.has_mod(mod_id),
            },
    {
        let owner = position_of_mod(&self.mods, mod_id);
        proof {
            match owner {
                Some(m) => {
                    assert(self@.mods.contains(self@.mods[m as int]));
                },
                None => {
                    if self@.has_mod(mod_id) {
                        let w = choose|w: ModRow|
                            #[trigger] self@.mods.contains(w) && w.id == mod_id;
                        let i = choose|i: int| 0 <= i < self@.mods.len() && self@.mods[i] == w;
                        assert(self.mods[i].id != mod_id);
                    }
                },
            }
        }
        owner
    }

    /// The recipes that a search for `needle` finds, in the order of search
    /// results.
    fn search(&self, needle: &Vec<char>, by_ingredient: bool) -> (r: Vec<Recipe>)
        ensures
            ascending::<Recipe, ByOutput>(views(r@)),
            forall|v: RecipeView|
                #[trigger] views(r@).contains(v) <==> (self@.listing().contains(v) && found_by(
                    v,
                    needle@,
                    by_ingredient,
                )),
            self@.valid(),
    {
        proof {
            use_type_invariant(self);
        }
        let ghost listing = self@.listing();
        let mut out: Vec<Recipe> = Vec::new();
        let mut i: usize = 0;
        proof {
            assert(views(out@) =~= Seq::<RecipeView>::empty());
        }
        while i < self.entries.len()
            invariant
                i <= self.entries.len(),
                self@.valid(),
                listing == self@.listing(),
                ascending::<Recipe, ByOutput>(views(out@)),
                forall|v: RecipeView|
                    views(out@).contains(v) <==> (listing.take(i as int).contains(v) && found_by(
                        v,
                        needle@,
                        by_ingredient,
                    )),
            decreases self.entries.len() - i,
        {
            let entry = &self.entries[i];
            let hit = if by_ingredient {
                ingredient_hit(&entry.recipe, needle)
            } else {
                output_hit(&entry.recipe, needle)
            };
            let ghost v = entry.recipe@;
            let ghost before_out = out@;
            proof {
                assert(listing[i as int] == v);
                assert(listing.take(i as int).push(v) =~= listing.take(i + 1));
            }
            if hit {
                let copy = entry.recipe.clone();
                let place = insert_ranked::<Recipe, ByOutput>(&mut out, copy);
                proof {
                    match place {
                        Some(at) => {
                            lemma_views_insert(before_out, at as int, copy);
                            assert(views(out@) == views(before_out).insert(at as int, v));
                        },
                        None => {
                            let j = choose|j: int|
                                0 <= j < before_out.len() && tied::<Recipe, ByOutput>(
                                    #[trigger] before_out[j]@,
                                    v,
                                );
                            let w = before_out[j]@;
                            assert(views(before_out).contains(views(before_out)[j]));
                            assert(listing.take(i as int).contains(w));
                            let m = choose|m: int|
                                0 <= m < listing.take(i as int).len() && listing.take(i as int)[m]
                                    == w;
                            assert(self@.recipes.contains(self@.recipes[m]));
                            assert(self@.recipes.contains(self@.recipes[i as int]));
                            assert(ByListing::before(self@.recipes[m], self@.recipes[i as int]));
                            lemma_listing_irreflexive(v);
                            if w.id != v.id {
                                lemma_output_total(w, v);
                            }
                            assert(false);
                        },
                    }
                }
            }
            proof {
                lemma_search_step(
                    listing.take(i as int),
                    listing.take(i + 1),
                    v,
                    views(before_out),
                    views(out@),
                    needle@,
                    by_ingredient,
                );
            }
            i += 1;
        }
        proof {
            assert(listing.take(self.entries.len() as int) =~= listing);
        }
        out
    }

    /// The recipes whose resulting item holds `item`, ASCII letters taken
    /// without their case; each once, by resulting item, then as recipes are
    /// listed.
    pub fn search_by_output(&self, item: &str) -> (r: Vec<Recipe>)
        ensures
            ascending::<Recipe, ByOutput>(views(r@)),
            forall|v: RecipeView|
                #[trigger] views(r@).contains(v) <==> (self@.listing().contains(v)
                    && output_matches(v, item@)),
            self@.valid(),
    {
        let needle = chars_of(item);
        self.search(&needle, false)
    }

    /// The recipes with an ingredient that holds `item`, ASCII letters taken
    /// without their case; each once, by resulting item, a recipe without one
    /// first, then as recipes are listed.
    pub fn search_by_ingredient(&self, item: &str) -> (r: Vec<Recipe>)
        ensures
            ascending::<Recipe, ByOutput>(views(r@)),
            forall|v: RecipeView|
                #[trigger] views(r@).contains(v) <==> (self@.listing().contains(v)
                    && ingredient_matches(v, item@)),
            self@.valid(),
    {
        let needle = chars_of(item);
        self.search(&needle, true)
    }
}

} // verus!
