//! The course of an extraction run: what is counted and what is recorded as
//! the archives and their entries come in, one after the other.

use vstd::prelude::*;
use vstd::string::StringExecFns;
use crate::clock::decimal;
use crate::database::Database;
use crate::records::{ModRow, RecipeRow};
use crate::store::{mod_registered, recipe_stored, row_valid, storing, str_view, Store, StoreError};
use crate::json::json_document;
use crate::text::contains_text;
use crate::ranking::{lemma_ascending_unique, views, Lexical};
use crate::recipe_parser::{
    invalid_json_message, normalizes, parse_recipe, text_view, ParsedRecipe, RecipeModel,
};

verus! {

/// What an extraction run has done so far.
#[derive(Debug)]
pub struct ExtractionResult {
    /// The mods that were registered.
    pub mods_processed: usize,
    /// The recipes that were stored.
    pub recipes_extracted: usize,
    /// What went wrong on the way, in order. None of it ended the run.
    pub errors: Vec<String>,
}

/// What an [`ExtractionResult`] stands for.
pub ghost struct ExtractionView {
    pub mods_processed: usize,
    pub recipes_extracted: usize,
    pub errors: Seq<Seq<char>>,
}

impl View for ExtractionResult {
    type V = ExtractionView;

    open spec fn view(&self) -> ExtractionView {
        ExtractionView {
            mods_processed: self.mods_processed,
            recipes_extracted: self.recipes_extracted,
            errors: views(self.errors@),
        }
    }
}

/// How far a run has come: the archive that is taken up, counted from 1, of
/// how many, and the name of its mod.
#[derive(Debug)]
pub struct ExtractionProgress {
    pub current: usize,
    pub total: usize,
    pub current_mod: String,
}

/// The record of an archive that could not be opened.
pub open spec fn archive_error(jar_path: Seq<char>, message: Seq<char>) -> Seq<char> {
    jar_path + ": "@ + message
}

/// The record of a mod that the store refused.
pub open spec fn mod_error(mod_name: Seq<char>, message: Seq<char>) -> Seq<char> {
    mod_name + ": Failed to insert mod: "@ + message
}

/// The record of an entry that could not be read as a recipe, or that the
/// store refused.
pub open spec fn entry_error(mod_name: Seq<char>, entry_name: Seq<char>, message: Seq<char>) -> Seq<
    char,
> {
    mod_name + ":"@ + entry_name + ": "@ + message
}

/// The name of a mod: the file name of its archive, or the whole path where
/// it has none.
pub open spec fn chosen_name(file_name: Option<Seq<char>>, jar_path: Seq<char>) -> Seq<char> {
    match file_name {
        Some(name) => name,
        None => jar_path,
    }
}

/// The name of a mod: the file name of its archive, or the whole path where
/// it has none.
pub fn mod_name_for(file_name: Option<String>, jar_path: &str) -> (r: String)
    ensures
        r@ == chosen_name(text_view(file_name), jar_path@),
{
    match file_name {
        Some(name) => name,
        None => String::from_str(jar_path),
    }
}

/// The file name in `path`: its last component, where it has one, by the
/// rules for paths of the platform that the library is built for.
pub uninterp spec fn file_name_in(path: Seq<char>) -> Option<Seq<char>>;

/// `std::path::Path::file_name`: the last component of the path, where it has
/// one. It goes by the path alone. A component is a piece of the path and is
/// not empty. The path is text, so the conversion of the component to text
/// changes nothing.
#[verifier::external_body]
fn file_name_of(path: &str) -> (r: Option<String>)
    ensures
        text_view(r) == file_name_in(path@),
        match r {
            Some(name) => name@.len() > 0 && contains_text(path@, name@),
            None => true,
        },
{
    std::path::Path::new(path).file_name().map(|name| name.to_string_lossy().to_string())
}

/// The name of the mod whose archive lies at `jar_path`: the file name in
/// the path, which is a piece of the path and not empty, or the whole path
/// where it has none.
pub fn mod_name_of(jar_path: &str) -> (r: String)
    ensures
        r@ == chosen_name(file_name_in(jar_path@), jar_path@),
        r@ == jar_path@ || (r@.len() > 0 && contains_text(jar_path@, r@)),
{
    let file_name = file_name_of(jar_path);
    mod_name_for(file_name, jar_path)
}

/// The progress to report as the archive at place `index` of `total` is taken
/// up.
pub fn progress_for(index: usize, total: usize, mod_name: &str) -> (r: ExtractionProgress)
    requires
        index < total,
    ensures
        r.current == index + 1,
        r.total == total,
        r.current_mod@ == mod_name@,
{
    ExtractionProgress { current: index + 1, total, current_mod: String::from_str(mod_name) }
}

impl ExtractionResult {
    /// Begins a run: the store is emptied, and nothing is counted yet.
    pub fn begin(db: &mut Database) -> (r: ExtractionResult)
        ensures
            final(db)@ == Store::empty(),
            final(db)@.valid(),
            r@ == (ExtractionView {
                mods_processed: 0,
                recipes_extracted: 0,
                errors: Seq::empty(),
            }),
    {
        db.clear_all();
        let r = ExtractionResult { mods_processed: 0, recipes_extracted: 0, errors: Vec::new() };
        proof {
            assert(views(r.errors@) =~= Seq::<Seq<char>>::empty());
        }
        r
    }

    /// Records that the archive at `jar_path` could not be opened. No mod is
    /// registered for it.
    pub fn archive_failed(&mut self, jar_path: &str, message: &str)
        ensures
            final(self)@ == (ExtractionView {
                errors: old(self)@.errors.push(archive_error(jar_path@, message@)),
                ..old(self)@
            }),
    {
        let mut line = String::from_str(jar_path);
        line.append(": ");
        line.append(message);
        proof {
            assert(views(self.errors@.push(line)) =~= views(self.errors@).push(line@));
        }
        self.errors.push(line);
    }

    /// Registers the mod of an archive that was opened, and counts it. Where
    /// the store refuses the mod, that is recorded, and the archive is to be
    /// left.
    pub fn register_mod(&mut self, db: &mut Database, mod_name: &str, jar_path: &str) -> (r: Option<
        i64,
    >)
        requires
            old(self).mods_processed < usize::MAX,
        ensures
            final(db)@.valid(),
            match r {
                Some(id) => {
                    &&& id == old(db)@.next_mod_id
                    &&& exists|seconds: u64|
                        mod_registered(
                            old(db)@,
                            final(db)@,
                            (ModRow {
                                id,
                                name: mod_name@,
                                path: jar_path@,
                                scanned_at: #[trigger] decimal(seconds as nat),
                            }),
                        )
                    &&& final(self)@ == (ExtractionView {
                        mods_processed: (old(self)@.mods_processed + 1) as usize,
                        ..old(self)@
                    })
                },
                None => {
                    &&& old(db)@.next_mod_id == i64::MAX
                    &&& final(db)@ == old(db)@
                    &&& final(self)@ == (ExtractionView {
                        errors: old(self)@.errors.push(
                            mod_error(mod_name@, StoreError::IdsExhausted.text()),
                        ),
                        ..old(self)@
                    })
                },
            },
    {
        match db.insert_mod(mod_name, jar_path) {
            Ok(id) => {
                self.mods_processed = self.mods_processed + 1;
                Some(id)
            },
            Err(e) => {
                let mut line = String::from_str(mod_name);
                line.append(": Failed to insert mod: ");
                line.append(e.message().as_str());
                proof {
                    assert(views(self.errors@.push(line)) =~= views(self.errors@).push(line@));
                }
                self.errors.push(line);
                None
            },
        }
    }

    /// Takes back the last mod that was counted, and records why: the mod was
    /// registered, but could not be kept.
    pub fn mod_refused(&mut self, mod_name: &str, message: &str)
        requires
            old(self).mods_processed > 0,
        ensures
            final(self)@ == (ExtractionView {
                mods_processed: (old(self)@.mods_processed - 1) as usize,
                errors: old(self)@.errors.push(mod_error(mod_name@, message@)),
                ..old(self)@
            }),
    {
        self.mods_processed = self.mods_processed - 1;
        let mut line = String::from_str(mod_name);
        line.append(": Failed to insert mod: ");
        line.append(message);
        proof {
            assert(views(self.errors@.push(line)) =~= views(self.errors@).push(line@));
        }
        self.errors.push(line);
    }

    /// Takes back the last recipe that was counted, and records why: the
    /// recipe was stored, but could not be kept.
    pub fn entry_refused(&mut self, mod_name: &str, entry_name: &str, message: &str)
        requires
            old(self).recipes_extracted > 0,
        ensures
            final(self)@ == (ExtractionView {
                recipes_extracted: (old(self)@.recipes_extracted - 1) as usize,
                errors: old(self)@.errors.push(entry_error(mod_name@, entry_name@, message@)),
                ..old(self)@
            }),
    {
        self.recipes_extracted = self.recipes_extracted - 1;
        let mut line = String::from_str(mod_name);
        line.append(":");
        line.append(entry_name);
        line.append(": ");
        line.append(message);
        proof {
            assert(views(self.errors@.push(line)) =~= views(self.errors@).push(line@));
        }
        self.errors.push(line);
    }

    /// Stores what the reading of an entry gave, and counts it; a reading
    /// that failed, or a recipe that the store refuses, is recorded instead.
    /// Either way the run goes on.
    pub fn store_parsed(
        &mut self,
        db: &mut Database,
        mod_id: i64,
        mod_name: &str,
        entry_name: &str,
        contents: &str,
        parsed: Result<ParsedRecipe, String>,
    )
        requires
            old(self).recipes_extracted < usize::MAX,
        ensures
            final(db)@.valid(),
            match parsed {
                Err(message) => {
                    &&& final(db)@ == old(db)@
                    &&& final(self)@ == (ExtractionView {
                        errors: old(self)@.errors.push(
                            entry_error(mod_name@, entry_name@, message@),
                        ),
                        ..old(self)@
                    })
                },
                Ok(recipe) => if old(db)@.has_mod(mod_id) && old(db)@.next_recipe_id < i64::MAX {
                    &&& final(self)@ == (ExtractionView {
                        recipes_extracted: (old(self)@.recipes_extracted + 1) as usize,
                        ..old(self)@
                    })
                    &&& exists|row: RecipeRow|
                        storing(
                            old(db)@,
                            final(db)@,
                            row,
                            mod_id,
                            old(db)@.next_recipe_id,
                            entry_name@,
                            recipe@.recipe_type,
                            recipe@.result_item,
                            recipe@.result_count,
                            contents@,
                            recipe@.ingredients,
                        )
                } else {
                    &&& final(db)@ == old(db)@
                    &&& final(self)@ == (ExtractionView {
                        errors: old(self)@.errors.push(
                            entry_error(
                                mod_name@,
                                entry_name@,
                                (if old(db)@.has_mod(mod_id) {
                                    StoreError::IdsExhausted
                                } else {
                                    StoreError::UnknownMod
                                }).text(),
                            ),
                        ),
                        ..old(self)@
                    })
                },
            },
    {
        proof {
            use_type_invariant(&*db);
        }
        let outcome = match parsed {
            Ok(recipe) => {
                let item = match &recipe.result_item {
                    Some(s) => Some(s.as_str()),
                    None => None,
                };
                let list = recipe.ingredients.as_slice();
                proof {
                    assert(str_view(item) == recipe@.result_item);
                    assert(views(list@) == recipe@.ingredients);
                }
                match db.insert_recipe(
                    mod_id,
                    entry_name,
                    recipe.recipe_type.as_str(),
                    item,
                    recipe.result_count,
                    contents,
                    list,
                ) {
                    Ok(id) => {
                        proof {
                            let row = choose|row: RecipeRow|
                                storing(
                                    old(db)@,
                                    db@,
                                    row,
                                    mod_id,
                                    id,
                                    entry_name@,
                                    recipe.recipe_type@,
                                    str_view(item),
                                    recipe.result_count,
                                    contents@,
                                    views(list@),
                                );
                            assert(storing(
                                old(db)@,
                                db@,
                                row,
                                mod_id,
                                old(db)@.next_recipe_id,
                                entry_name@,
                                recipe@.recipe_type,
                                recipe@.result_item,
                                recipe@.result_count,
                                contents@,
                                recipe@.ingredients,
                            ));
                        }
                        None
                    },
                    Err(e) => Some(e.message()),
                }
            },
            Err(message) => Some(message),
        };
        match outcome {
            None => {
                self.recipes_extracted = self.recipes_extracted + 1;
            },
            Some(message) => {
                let mut line = String::from_str(mod_name);
                line.append(":");
                line.append(entry_name);
                line.append(": ");
                line.append(message.as_str());
                proof {
                    assert(views(self.errors@.push(line)) =~= views(self.errors@).push(line@));
                }
                self.errors.push(line);
            },
        }
    }

    /// Reads the entry `entry_name` of a mod as a recipe and stores it.
    /// Contents that are no well-formed JSON, and a recipe that the store
    /// refuses, are recorded; either way the run goes on.
    pub fn record_entry(
        &mut self,
        db: &mut Database,
        mod_id: i64,
        mod_name: &str,
        entry_name: &str,
        contents: &str,
    )
        requires
            old(self).recipes_extracted < usize::MAX,
        ensures
            final(db)@.valid(),
            match json_document(contents@) {
                Err(detail) => {
                    &&& final(db)@ == old(db)@
                    &&& final(self)@ == (ExtractionView {
                        errors: old(self)@.errors.push(
                            entry_error(mod_name@, entry_name@, invalid_json_message(detail)),
                        ),
                        ..old(self)@
                    })
                },
                Ok(doc) => if old(db)@.has_mod(mod_id) && old(db)@.next_recipe_id < i64::MAX {
                    &&& final(self)@ == (ExtractionView {
                        recipes_extracted: (old(self)@.recipes_extracted + 1) as usize,
                        ..old(self)@
                    })
                    &&& exists|row: RecipeRow|
                        {
                            &&& #[trigger] recipe_stored(old(db)@, final(db)@, row)
                            &&& row.mod_id == mod_id
                            &&& row.recipe.path == entry_name@
                            &&& row.recipe.raw_json == contents@
                            &&& normalizes(
                                doc,
                                (RecipeModel {
                                    recipe_type: row.recipe.recipe_type,
                                    result_item: row.recipe.result_item,
                                    result_count: row.recipe.result_count,
                                    ingredients: row.recipe.ingredients,
                                }),
                            )
                        }
                } else {
                    &&& final(db)@ == old(db)@
                    &&& final(self)@ == (ExtractionView {
                        errors: old(self)@.errors.push(
                            entry_error(
                                mod_name@,
                                entry_name@,
                                (if old(db)@.has_mod(mod_id) {
                                    StoreError::IdsExhausted
                                } else {
                                    StoreError::UnknownMod
                                }).text(),
                            ),
                        ),
                        ..old(self)@
                    })
                },
            },
    {
        let parsed = parse_recipe(contents);
        let ghost model: Option<RecipeModel> = if parsed is Ok {
            Some(parsed->Ok_0@)
        } else {
            None
        };
        self.store_parsed(db, mod_id, mod_name, entry_name, contents, parsed);
        proof {
            if model is Some && old(db)@.has_mod(mod_id) && old(db)@.next_recipe_id < i64::MAX {
                let recipe = model->Some_0;
                let row = choose|row: RecipeRow|
                    storing(
                        old(db)@,
                        db@,
                        row,
                        mod_id,
                        old(db)@.next_recipe_id,
                        entry_name@,
                        recipe.recipe_type,
                        recipe.result_item,
                        recipe.result_count,
                        contents@,
                        recipe.ingredients,
                    );
                assert(db@.recipes.contains(row));
                assert(row_valid(db@.mods, row, db@.next_recipe_id));
                lemma_ascending_unique::<String, Lexical>(
                    row.recipe.ingredients,
                    recipe.ingredients,
                );
            }
        }
    }
}

} // verus!
