//! Recipe documents of many shapes brought into one normal form.

use vstd::prelude::*;
use vstd::string::StringExecFns;
use crate::json::{
    json_document, jsons_of, lemma_jsons_of, lemma_members_of, members_of, parse_json, Json,
    JsonValue,
};
use crate::ranking::{
    ascending, lemma_ascending_no_duplicates, lemma_ascending_unique, sorted_distinct, views,
    Lexical, Ranking,
};
use crate::text::{contains, contains_text, same_text, text_before};

verus! {

/// A recipe in normal form.
#[derive(Debug)]
pub struct ParsedRecipe {
    pub recipe_type: String,
    pub result_item: Option<String>,
    pub result_count: Option<i32>,
    /// The ingredients in ascending order, each once. A tag reference starts
    /// with `#`.
    pub ingredients: Vec<String>,
}

/// What a [`ParsedRecipe`] stands for.
pub ghost struct RecipeModel {
    pub recipe_type: Seq<char>,
    pub result_item: Option<Seq<char>>,
    pub result_count: Option<i32>,
    pub ingredients: Seq<Seq<char>>,
}

/// The text that `o` holds, if any.
pub open spec fn text_view(o: Option<String>) -> Option<Seq<char>> {
    match o {
        Some(s) => Some(s@),
        None => None,
    }
}

impl View for ParsedRecipe {
    type V = RecipeModel;

    open spec fn view(&self) -> RecipeModel {
        RecipeModel {
            recipe_type: self.recipe_type@,
            result_item: text_view(self.result_item),
            result_count: self.result_count,
            ingredients: views(self.ingredients@),
        }
    }
}

/// The families of recipe types, each with its own shape of document.
#[derive(Clone, Copy, Debug)]
pub enum RecipeKind {
    Shaped,
    Shapeless,
    Cooking,
    Stonecutting,
    SmithingModern,
    SmithingLegacy,
    Special,
    Unrecognized,
}

/// The family of a recipe type. Each known type is taken by its bare name and
/// with the `minecraft:` namespace; of the others, those with `special` in
/// their name have no ingredients and no result to read.
pub open spec fn kind_of(recipe_type: Seq<char>) -> RecipeKind {
    if recipe_type == "minecraft:crafting_shaped"@ || recipe_type == "crafting_shaped"@ {
        RecipeKind::Shaped
    } else if recipe_type == "minecraft:crafting_shapeless"@ || recipe_type
        == "crafting_shapeless"@ {
        RecipeKind::Shapeless
    } else if recipe_type == "minecraft:smelting"@ || recipe_type == "minecraft:blasting"@
        || recipe_type == "minecraft:smoking"@ || recipe_type == "minecraft:campfire_cooking"@
        || recipe_type == "smelting"@ || recipe_type == "blasting"@ || recipe_type == "smoking"@
        || recipe_type == "campfire_cooking"@ {
        RecipeKind::Cooking
    } else if recipe_type == "minecraft:stonecutting"@ || recipe_type == "stonecutting"@ {
        RecipeKind::Stonecutting
    } else if recipe_type == "minecraft:smithing_transform"@ || recipe_type
        == "minecraft:smithing_trim"@ || recipe_type == "smithing_transform"@ || recipe_type
        == "smithing_trim"@ {
        RecipeKind::SmithingModern
    } else if recipe_type == "minecraft:smithing"@ || recipe_type == "smithing"@ {
        RecipeKind::SmithingLegacy
    } else if contains_text(recipe_type, "special"@) {
        RecipeKind::Special
    } else {
        RecipeKind::Unrecognized
    }
}

/// The family of a recipe type.
pub fn classify(recipe_type: &str) -> (kind: RecipeKind)
    ensures
        kind == kind_of(recipe_type@),
{
    if same_text(recipe_type, "minecraft:crafting_shaped") || same_text(
        recipe_type,
        "crafting_shaped",
    ) {
        RecipeKind::Shaped
    } else if same_text(recipe_type, "minecraft:crafting_shapeless") || same_text(
        recipe_type,
        "crafting_shapeless",
    ) {
        RecipeKind::Shapeless
    } else if same_text(recipe_type, "minecraft:smelting") || same_text(
        recipe_type,
        "minecraft:blasting",
    ) || same_text(recipe_type, "minecraft:smoking") || same_text(
        recipe_type,
        "minecraft:campfire_cooking",
    ) || same_text(recipe_type, "smelting") || same_text(recipe_type, "blasting") || same_text(
        recipe_type,
        "smoking",
    ) || same_text(recipe_type, "campfire_cooking") {
        RecipeKind::Cooking
    } else if same_text(recipe_type, "minecraft:stonecutting") || same_text(
        recipe_type,
        "stonecutting",
    ) {
        RecipeKind::Stonecutting
    } else if same_text(recipe_type, "minecraft:smithing_transform") || same_text(
        recipe_type,
        "minecraft:smithing_trim",
    ) || same_text(recipe_type, "smithing_transform") || same_text(recipe_type, "smithing_trim") {
        RecipeKind::SmithingModern
    } else if same_text(recipe_type, "minecraft:smithing") || same_text(recipe_type, "smithing") {
        RecipeKind::SmithingLegacy
    } else if contains(recipe_type, "special") {
        RecipeKind::Special
    } else {
        RecipeKind::Unrecognized
    }
}

/// The text of the member `key` of `v`, where `v` is an object whose first
/// such member is a string.
pub open spec fn named_text(v: Json, key: Seq<char>) -> Option<Seq<char>> {
    match v.member(key) {
        Some(m) => m.text(),
        None => None,
    }
}

/// The first of two values that is there.
pub open spec fn first_present(a: Option<Json>, b: Option<Json>) -> Option<Json> {
    if a is Some {
        a
    } else {
        b
    }
}

/// A tag as it stands among ingredients: behind the marker `#`.
pub open spec fn tag_reference(tag: Seq<char>) -> Seq<char> {
    seq!['#'] + tag
}

/// The ingredients that a value names. A string names one item. An object
/// names its `item`, or else its `tag` as a tag reference. An array names what
/// its items name, one after the other.
pub open spec fn ingredient_list(v: Json) -> Seq<Seq<char>>
    decreases v,
{
    match v {
        Json::String(s) => seq![s],
        Json::Object(_) => match named_text(v, "item"@) {
            Some(item) => seq![item],
            None => match named_text(v, "tag"@) {
                Some(tag) => seq![tag_reference(tag)],
                None => Seq::empty(),
            },
        },
        Json::Array(items) => ingredient_list_all(items),
        _ => Seq::empty(),
    }
}

/// The ingredients that the values of `items` name, one value after the other.
pub open spec fn ingredient_list_all(items: Seq<Json>) -> Seq<Seq<char>>
    decreases items,
{
    if items.len() == 0 {
        Seq::empty()
    } else {
        ingredient_list_all(items.drop_last()) + ingredient_list(items.last())
    }
}

/// The ingredients that `v` names, where it is there.
pub open spec fn optional_ingredients(v: Option<Json>) -> Seq<Seq<char>> {
    match v {
        Some(value) => ingredient_list(value),
        None => Seq::empty(),
    }
}

/// The ingredients that the items of `v` name, where it is an array.
pub open spec fn array_ingredients(v: Option<Json>) -> Seq<Seq<char>> {
    match v {
        Some(Json::Array(items)) => ingredient_list_all(items),
        _ => Seq::empty(),
    }
}

/// The values of the members of an object, in order.
pub open spec fn member_values(members: Seq<(Seq<char>, Json)>) -> Seq<Json> {
    Seq::new(members.len(), |i: int| members[i].1)
}

/// The ingredients that the member values of `v` name, where it is an object.
pub open spec fn mapping_ingredients(v: Option<Json>) -> Seq<Seq<char>> {
    match v {
        Some(Json::Object(members)) => ingredient_list_all(member_values(members)),
        _ => Seq::empty(),
    }
}

/// The item and the count that a result value gives. A string is the item,
/// once. An object gives the text of its `item`, or of its `id` where it has
/// no `item`, and its integer `count` cut to 32 bits, or else 1.
pub open spec fn resolved_result(v: Json) -> (Option<Seq<char>>, Option<i32>) {
    match v {
        Json::String(s) => (Some(s), Some(1i32)),
        Json::Object(_) => (
            match first_present(v.member("item"@), v.member("id"@)) {
                Some(m) => m.text(),
                None => None,
            },
            Some(
                match v.member("count"@) {
                    Some(c) => match c.integer() {
                        Some(n) => n as i32,
                        None => 1i32,
                    },
                    None => 1i32,
                },
            ),
        ),
        _ => (None, None),
    }
}

/// The recipe type of a document: the text of its `type`, or `unknown`.
pub open spec fn recipe_type_of(doc: Json) -> Seq<char> {
    match named_text(doc, "type"@) {
        Some(t) => t,
        None => "unknown"@,
    }
}

/// The result of a document: what its `result` gives, and nothing for a
/// special recipe.
pub open spec fn result_of(doc: Json) -> (Option<Seq<char>>, Option<i32>) {
    if kind_of(recipe_type_of(doc)) is Special {
        (None, None)
    } else {
        match doc.member("result"@) {
            Some(result) => resolved_result(result),
            None => (None, None),
        }
    }
}

/// The ingredients that a document names, as they are met. For a type that is
/// not recognized the usual places are all tried.
pub open spec fn collected(doc: Json) -> Seq<Seq<char>> {
    match kind_of(recipe_type_of(doc)) {
        RecipeKind::Shaped => mapping_ingredients(doc.member("key"@)),
        RecipeKind::Shapeless => array_ingredients(doc.member("ingredients"@)),
        RecipeKind::Cooking => optional_ingredients(doc.member("ingredient"@)),
        RecipeKind::Stonecutting => optional_ingredients(doc.member("ingredient"@)),
        RecipeKind::SmithingModern => optional_ingredients(doc.member("template"@))
            + optional_ingredients(doc.member("base"@)) + optional_ingredients(
            doc.member("addition"@),
        ),
        RecipeKind::SmithingLegacy => optional_ingredients(doc.member("base"@))
            + optional_ingredients(doc.member("addition"@)),
        RecipeKind::Special => Seq::empty(),
        RecipeKind::Unrecognized => optional_ingredients(
            first_present(doc.member("ingredients"@), doc.member("ingredient"@)),
        ) + mapping_ingredients(doc.member("key"@)) + optional_ingredients(
            first_present(doc.member("input"@), doc.member("inputs"@)),
        ),
    }
}

/// `r` is the normal form of the document `doc`: its type and result, and
/// the ingredients that it names in ascending order, each once.
pub open spec fn normalizes(doc: Json, r: RecipeModel) -> bool {
    &&& r.recipe_type == recipe_type_of(doc)
    &&& (r.result_item, r.result_count) == result_of(doc)
    &&& ascending::<String, Lexical>(r.ingredients)
    &&& forall|s: Seq<char>| r.ingredients.contains(s) <==> collected(doc).contains(s)
}

/// The message for a text that is no well-formed JSON, with what the reader
/// said of it.
pub open spec fn invalid_json_message(detail: Seq<char>) -> Seq<char> {
    "Invalid JSON: "@ + detail
}

/// What [`parse_recipe`] gives for `text`: the normal form of the document
/// that the text holds, or a message where it holds none.
pub open spec fn parse_outcome(text: Seq<char>, r: Result<ParsedRecipe, String>) -> bool {
    match json_document(text) {
        Ok(doc) => r is Ok && normalizes(doc, r->Ok_0@),
        Err(detail) => r is Err && r->Err_0@ == invalid_json_message(detail),
    }
}

/// A document has one normal form.
pub proof fn lemma_normal_form_unique(doc: Json, a: RecipeModel, b: RecipeModel)
    requires
        normalizes(doc, a),
        normalizes(doc, b),
    ensures
        a == b,
{
    lemma_ascending_unique::<String, Lexical>(a.ingredients, b.ingredients);
}

/// Normalizing is deterministic: whatever two runs on one text give, both
/// succeed with the same recipe, or both fail with the same message.
pub proof fn lemma_parse_deterministic(
    text: Seq<char>,
    a: Result<ParsedRecipe, String>,
    b: Result<ParsedRecipe, String>,
)
    requires
        parse_outcome(text, a),
        parse_outcome(text, b),
    ensures
        a is Ok <==> b is Ok,
        a is Ok ==> a->Ok_0@ == b->Ok_0@,
        a is Err ==> a->Err_0@ == b->Err_0@,
{
    if a is Ok {
        lemma_normal_form_unique(json_document(text)->Ok_0, a->Ok_0@, b->Ok_0@);
    }
}

/// The ingredients of a normal form are in strictly ascending order, so none
/// stands twice, whatever the order and the repetitions in the document.
pub proof fn lemma_normal_form_sorted(doc: Json, r: RecipeModel)
    requires
        normalizes(doc, r),
    ensures
        forall|i: int, j: int|
            0 <= i < j < r.ingredients.len() ==> text_before(r.ingredients[i], r.ingredients[j]),
        r.ingredients.no_duplicates(),
{
    lemma_ascending_no_duplicates::<String, Lexical>(r.ingredients);
    assert forall|i: int, j: int| 0 <= i < j < r.ingredients.len() implies text_before(
        r.ingredients[i],
        r.ingredients[j],
    ) by {
        assert(<Lexical as Ranking<String>>::before(r.ingredients[i], r.ingredients[j]));
    }
}

/// The ingredients of a normal form go by what the document names, not by
/// where or how often: documents that name the same ingredients have the
/// same ingredients in normal form.
pub proof fn lemma_normal_form_ignores_order(doc: Json, other: Json, r: RecipeModel, s: RecipeModel)
    requires
        normalizes(doc, r),
        normalizes(other, s),
        forall|x: Seq<char>| collected(doc).contains(x) <==> collected(other).contains(x),
    ensures
        r.ingredients == s.ingredients,
{
    lemma_ascending_unique::<String, Lexical>(r.ingredients, s.ingredients);
}

/// A tag reference keeps the tag behind its marker, and is never the item of
/// the tag's own name.
pub proof fn lemma_tag_reference_distinct(tag: Seq<char>)
    ensures
        tag_reference(tag) != tag,
        tag_reference(tag).first() == '#',
        tag_reference(tag).drop_first() == tag,
{
    assert(tag_reference(tag).len() == tag.len() + 1);
    assert(tag_reference(tag).drop_first() =~= tag);
}

/// Different tags have different references.
pub proof fn lemma_tag_reference_injective(a: Seq<char>, b: Seq<char>)
    requires
        tag_reference(a) == tag_reference(b),
    ensures
        a == b,
{
    lemma_tag_reference_distinct(a);
    lemma_tag_reference_distinct(b);
}

/// The text of the member `key` of `value`.
fn named_str<'a>(value: &'a JsonValue, key: &str) -> (r: Option<&'a str>)
    ensures
        match r {
            Some(s) => named_text(value@, key@) == Some(s@),
            None => named_text(value@, key@) is None,
        },
{
    match value.get(key) {
        Some(m) => m.as_str(),
        None => None,
    }
}

proof fn lemma_list_all_step(items: Seq<Json>, i: int)
    requires
        0 <= i < items.len(),
    ensures
        ingredient_list_all(items.take(i + 1)) == ingredient_list_all(items.take(i))
            + ingredient_list(items[i]),
{
    assert(items.take(i + 1).drop_last() =~= items.take(i));
    assert(items.take(i + 1).last() == items[i]);
}

proof fn lemma_views_push<T: View>(s: Seq<T>, x: T)
    ensures
        views(s.push(x)) == views(s) + seq![x@],
{
    assert(views(s.push(x)) =~= views(s) + seq![x@]);
}

/// Appends to `ingredients` what `value` names.
pub fn extract_ingredients_from_value(value: &JsonValue, ingredients: &mut Vec<String>)
    ensures
        views(final(ingredients)@) == views(old(ingredients)@) + ingredient_list(value@),
    decreases value,
{
    let ghost start = ingredients@;
    match value {
        JsonValue::String(s) => {
            let item = s.clone();
            ingredients.push(item);
            proof {
                lemma_views_push(start, item);
            }
        },
        JsonValue::Object(_) => {
            match named_str(value, "item") {
                Some(name) => {
                    let item = String::from_str(name);
                    ingredients.push(item);
                    proof {
                        lemma_views_push(start, item);
                    }
                },
                None => {
                    match named_str(value, "tag") {
                        Some(tag) => {
                            let mut marked = String::from_str("#");
                            marked.append(tag);
                            proof {
                                reveal_strlit("#");
                                assert("#"@ =~= seq!['#']);
                                lemma_views_push(start, marked);
                            }
                            ingredients.push(marked);
                        },
                        None => {
                            assert(views(start) + Seq::<Seq<char>>::empty() =~= views(start));
                        },
                    }
                },
            }
        },
        JsonValue::Array(items) => {
            extract_each(items, ingredients);
        },
        _ => {
            assert(views(start) + Seq::<Seq<char>>::empty() =~= views(start));
        },
    }
}

/// Appends to `ingredients` what the values of `items` name.
fn extract_each(items: &Vec<JsonValue>, ingredients: &mut Vec<String>)
    ensures
        views(final(ingredients)@) == views(old(ingredients)@) + ingredient_list_all(
            jsons_of(items@),
        ),
    decreases items,
{
    let ghost start = views(ingredients@);
    let ghost models = jsons_of(items@);
    proof {
        lemma_jsons_of(items@);
        assert(start + ingredient_list_all(models.take(0)) =~= start);
    }
    let mut i: usize = 0;
    while i < items.len()
        invariant
            i <= items.len(),
            models.len() == items.len(),
            forall|j: int| 0 <= j < items.len() ==> #[trigger] models[j] == items[j]@,
            views(ingredients@) == start + ingredient_list_all(models.take(i as int)),
        decreases items.len() - i,
    {
        let ghost so_far = ingredient_list_all(models.take(i as int));
        extract_ingredients_from_value(&items[i], ingredients);
        proof {
            lemma_list_all_step(models, i as int);
            assert((start + so_far) + ingredient_list(models[i as int]) =~= start + (so_far
                + ingredient_list(models[i as int])));
        }
        i += 1;
    }
    proof {
        assert(models.take(items.len() as int) =~= models);
    }
}

/// Appends to `ingredients` what `value` names, where it is there.
fn extract_optional(value: Option<&JsonValue>, ingredients: &mut Vec<String>)
    ensures
        views(final(ingredients)@) == views(old(ingredients)@) + optional_ingredients(
            match value {
                Some(v) => Some(v@),
                None => None,
            },
        ),
{
    match value {
        Some(v) => {
            extract_ingredients_from_value(v, ingredients);
        },
        None => {
            assert(views(ingredients@) + Seq::<Seq<char>>::empty() =~= views(ingredients@));
        },
    }
}

/// Appends to `ingredients` what the items of `value` name, where it is an
/// array.
fn extract_array(value: Option<&JsonValue>, ingredients: &mut Vec<String>)
    ensures
        views(final(ingredients)@) == views(old(ingredients)@) + array_ingredients(
            match value {
                Some(v) => Some(v@),
                None => None,
            },
        ),
{
    match value {
        Some(JsonValue::Array(items)) => {
            extract_each(items, ingredients);
        },
        _ => {
            assert(views(ingredients@) + Seq::<Seq<char>>::empty() =~= views(ingredients@));
        },
    }
}

/// Appends to `ingredients` what the member values of `value` name, where it
/// is an object.
fn extract_mapping(value: Option<&JsonValue>, ingredients: &mut Vec<String>)
    ensures
        views(final(ingredients)@) == views(old(ingredients)@) + mapping_ingredients(
            match value {
                Some(v) => Some(v@),
                None => None,
            },
        ),
{
    match value {
        Some(JsonValue::Object(members)) => {
            let ghost start = views(ingredients@);
            let ghost models = member_values(members_of(members@));
            proof {
                lemma_members_of(members@);
                assert(start + ingredient_list_all(models.take(0)) =~= start);
            }
            let mut i: usize = 0;
            while i < members.len()
                invariant
                    i <= members.len(),
                    models.len() == members.len(),
                    forall|j: int| 0 <= j < members.len() ==> #[trigger] models[j] == members[j].1@,
                    views(ingredients@) == start + ingredient_list_all(models.take(i as int)),
                decreases members.len() - i,
            {
                let ghost so_far = ingredient_list_all(models.take(i as int));
                extract_ingredients_from_value(&members[i].1, ingredients);
                proof {
                    lemma_list_all_step(models, i as int);
                    assert((start + so_far) + ingredient_list(models[i as int]) =~= start + (so_far
                        + ingredient_list(models[i as int])));
                }
                i += 1;
            }
            proof {
                assert(models.take(members.len() as int) =~= models);
            }
        },
        _ => {
            assert(views(ingredients@) + Seq::<Seq<char>>::empty() =~= views(ingredients@));
        },
    }
}

/// The first of two values that is there.
fn or_else<'a>(a: Option<&'a JsonValue>, b: Option<&'a JsonValue>) -> (r: Option<&'a JsonValue>)
    ensures
        r == (if a is Some {
            a
        } else {
            b
        }),
{
    match a {
        Some(_) => a,
        None => b,
    }
}

/// The item and the count that a result value gives.
pub fn extract_item_and_count(value: &JsonValue) -> (r: (Option<String>, Option<i32>))
    ensures
        (text_view(r.0), r.1) == resolved_result(value@),
{
    match value {
        JsonValue::String(s) => (Some(s.clone()), Some(1)),
        JsonValue::Object(_) => {
            let item = match or_else(value.get("item"), value.get("id")) {
                Some(m) => match m.as_str() {
                    Some(s) => Some(String::from_str(s)),
                    None => None,
                },
                None => None,
            };
            let count: i32 = match value.get("count") {
                Some(c) => match c.as_i64() {
                    Some(n) => #[verifier::truncate]
                    (n as i32),
                    None => 1,
                },
                None => 1,
            };
            (item, Some(count))
        },
        _ => (None, None),
    }
}

/// The normal form of a document.
pub fn recipe_from_json(value: &JsonValue) -> (r: ParsedRecipe)
    ensures
        normalizes(value@, r@),
{
    let recipe_type = match named_str(value, "type") {
        Some(t) => String::from_str(t),
        None => String::from_str("unknown"),
    };
    let kind = classify(recipe_type.as_str());
    let (result_item, result_count) = match kind {
        RecipeKind::Special => (None, None),
        _ => match value.get("result") {
            Some(result) => extract_item_and_count(result),
            None => (None, None),
        },
    };
    let mut found: Vec<String> = Vec::new();
    proof {
        assert(views(found@) =~= Seq::<Seq<char>>::empty());
    }
    match kind {
        RecipeKind::Shaped => {
            extract_mapping(value.get("key"), &mut found);
        },
        RecipeKind::Shapeless => {
            extract_array(value.get("ingredients"), &mut found);
        },
        RecipeKind::Cooking => {
            extract_optional(value.get("ingredient"), &mut found);
        },
        RecipeKind::Stonecutting => {
            extract_optional(value.get("ingredient"), &mut found);
        },
        RecipeKind::SmithingModern => {
            extract_optional(value.get("template"), &mut found);
            extract_optional(value.get("base"), &mut found);
            extract_optional(value.get("addition"), &mut found);
        },
        RecipeKind::SmithingLegacy => {
            extract_optional(value.get("base"), &mut found);
            extract_optional(value.get("addition"), &mut found);
        },
        RecipeKind::Special => {},
        RecipeKind::Unrecognized => {
            let listed = or_else(value.get("ingredients"), value.get("ingredient"));
            extract_optional(listed, &mut found);
            extract_mapping(value.get("key"), &mut found);
            extract_optional(or_else(value.get("input"), value.get("inputs")), &mut found);
        },
    }
    proof {
        assert(views(found@) =~= collected(value@));
    }
    let ingredients = sorted_distinct(found.as_slice());
    ParsedRecipe { recipe_type, result_item, result_count, ingredients }
}

/// Reads a recipe document from JSON text and brings it into normal form.
/// Fails only where the text is no well-formed JSON: a document that lacks
/// what its type would have still gives a recipe.
pub fn parse_recipe(json_str: &str) -> (r: Result<ParsedRecipe, String>)
    ensures
        parse_outcome(json_str@, r),
{
    match parse_json(json_str) {
        Ok(value) => Ok(recipe_from_json(&value)),
        Err(detail) => {
            let mut message = String::from_str("Invalid JSON: ");
            message.append(detail.as_str());
            assert(message@ == invalid_json_message(detail@));
            Err(message)
        },
    }
}

} // verus!
